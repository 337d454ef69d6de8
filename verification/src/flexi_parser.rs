//! The token-driven template parser: templates become token streams,
//! and rendering walks the stream, resolving each token against the
//! data, stopping at the first complaint.

pub mod into_iter;
pub mod iter;
pub mod tokens;

use crate::template::{key_err, render_stream, StrMap};
use tokens::{lemma_stream_renders, render_items, Token, Tokens};
use vstd::prelude::*;
use vstd::string::*;

verus! {

/// Render the template against the data, walking an owning token
/// iterator: the rendered text, or the first complaint.
pub fn parse(tmpl: String, data: StrMap) -> (r: Result<String, String>)
    ensures
        match render_stream(tmpl@, 0, data@) {
            Ok(v) => (r matches Ok(out) && out@ == v),
            Err(e) => (r matches Err(err) && err@ == e),
        },
{
    let ghost t0 = tmpl@;
    let ghost m = data@;
    let tokens = Tokens::from(tmpl);
    let mut parsed = String::new();
    let mut it = tokens.into_iter();
    proof {
        lemma_stream_renders(t0, 0, m);
    }
    loop
        invariant
            t0 == tmpl@,
            m == data@,
            match render_items(it.items(), m) {
                Ok(v) => (render_stream(t0, 0, m) matches Ok(w) && w == parsed@ + v),
                Err(e) => render_stream(t0, 0, m) == Err::<Seq<char>, Seq<char>>(e),
            },
        ensures
            render_stream(t0, 0, m) matches Ok(w) && w == parsed@,
        decreases it.items().len(),
    {
        let ghost items0 = it.items();
        match it.next() {
            None => {
                proof {
                    assert(parsed@ + Seq::<char>::empty() =~= parsed@);
                }
                break;
            },
            Some(item) => {
                let tkn = match item {
                    Ok(t) => t,
                    Err(e) => {
                        proof {
                            assert(render_items(items0, m) == Err::<Seq<char>, Seq<char>>(e@));
                        }
                        return Err(e);
                    },
                };
                let borrowed = token_as_str(&tkn);
                let resolved = match resolve_token(&borrowed, &data) {
                    Ok(s) => s,
                    Err(e) => {
                        proof {
                            assert(render_items(items0, m) == Err::<Seq<char>, Seq<char>>(e@));
                        }
                        return Err(e);
                    },
                };
                let ghost before = parsed@;
                parsed.append(resolved);
                proof {
                    match render_items(it.items(), m) {
                        Ok(v) => {
                            assert(before + (resolved@ + v) =~= parsed@ + v);
                        },
                        Err(_) => {},
                    }
                }
            },
        }
    }
    Ok(parsed)
}

/// Render the template against the data, walking a borrowing token
/// iterator: the rendered text, or the first complaint.
pub fn parse_ref(tmpl: String, data: StrMap) -> (r: Result<String, String>)
    ensures
        match render_stream(tmpl@, 0, data@) {
            Ok(v) => (r matches Ok(out) && out@ == v),
            Err(e) => (r matches Err(err) && err@ == e),
        },
{
    let ghost t0 = tmpl@;
    let ghost m = data@;
    let tokens = Tokens::from(tmpl);
    let mut parsed = String::new();
    let mut it = tokens.iter();
    proof {
        lemma_stream_renders(t0, 0, m);
    }
    loop
        invariant
            t0 == tmpl@,
            m == data@,
            match render_items(it.items(), m) {
                Ok(v) => (render_stream(t0, 0, m) matches Ok(w) && w == parsed@ + v),
                Err(e) => render_stream(t0, 0, m) == Err::<Seq<char>, Seq<char>>(e),
            },
        ensures
            render_stream(t0, 0, m) matches Ok(w) && w == parsed@,
        decreases it.items().len(),
    {
        let ghost items0 = it.items();
        match it.next() {
            None => {
                proof {
                    assert(parsed@ + Seq::<char>::empty() =~= parsed@);
                }
                break;
            },
            Some(item) => {
                let tkn = match item {
                    Ok(t) => t,
                    Err(e) => {
                        proof {
                            assert(render_items(items0, m) == Err::<Seq<char>, Seq<char>>(e@));
                        }
                        return Err(e);
                    },
                };
                let resolved = match resolve_token(&tkn, &data) {
                    Ok(s) => s,
                    Err(e) => {
                        proof {
                            assert(render_items(items0, m) == Err::<Seq<char>, Seq<char>>(e@));
                        }
                        return Err(e);
                    },
                };
                let ghost before = parsed@;
                parsed.append(resolved);
                proof {
                    match render_items(it.items(), m) {
                        Ok(v) => {
                            assert(before + (resolved@ + v) =~= parsed@ + v);
                        },
                        Err(_) => {},
                    }
                }
            },
        }
    }
    Ok(parsed)
}

/// What one token stands for: literal text is handed back as it is, a
/// placeholder is looked up in the data, and a missing key is the
/// complaint naming it.
pub fn resolve_token<'a>(tkn: &'a Token<&'a str>, data: &'a StrMap) -> (r: Result<&'a str, String>)
    ensures
        match tkn {
            Token::Text(t) => (r matches Ok(s) && s@ == t@),
            Token::Placeholder(k) => {
                if data@.dom().contains(k@) {
                    r matches Ok(s) && s@ == data@[k@]
                } else {
                    r matches Err(e) && e@ == key_err(k@)
                }
            },
        },
{
    match tkn {
        Token::Text(t) => Ok(t),
        Token::Placeholder(k) => match data.get(k) {
            Some(v) => Ok(v.as_str()),
            None => Err("couldn't find data corresponding to key: ".to_owned().concat(k)),
        },
    }
}

/// The same token, borrowing its text.
fn token_as_str<'x>(tkn: &'x Token<String>) -> (r: Token<&'x str>)
    ensures
        r@ == tkn@,
{
    match tkn {
        Token::Text(t) => Token::Text(t.as_str()),
        Token::Placeholder(t) => Token::Placeholder(t.as_str()),
    }
}

} // verus!
