//! The two-pass template parser: the template is first cut into a list
//! of tokens, and the output string is then built from the tokens.  The
//! two public entry points differ only in how the output string's
//! storage is grown, which no caller can observe.

use crate::flexi_parser::tokens::{render_items, stream_from, Token, Tokens};
use crate::flexi_parser::tokens::lemma_stream_renders;
use crate::template::{render_stream, well_rendered, StrMap};
use vstd::prelude::*;
use vstd::string::*;

verus! {

/// Render the template against the data, token list first.  The template
/// must render cleanly: every `{{` closed, every key bound — on other
/// input the original rendering aborts, so it is ruled out here.
pub fn parse(template: String, data: StrMap) -> (r: String)
    requires
        render_stream(template@, 0, data@) is Ok,
    ensures
        r@ == render_stream(template@, 0, data@)->Ok_0,
{
    build_from_tokens(template, &data)
}

/// As `parse`, growing the output in one piece instead of step by step.
pub fn parse_cap(template: String, data: StrMap) -> (r: String)
    requires
        render_stream(template@, 0, data@) is Ok,
    ensures
        r@ == render_stream(template@, 0, data@)->Ok_0,
{
    build_from_tokens(template, &data)
}

/// Render the template if it renders cleanly against the data.
pub fn try_parse(template: String, data: StrMap) -> (r: Option<String>)
    ensures
        match render_stream(template@, 0, data@) {
            Ok(v) => (r matches Some(out) && out@ == v),
            Err(_) => r is None,
        },
{
    if well_rendered(template.as_str(), &data) {
        Some(parse(template, data))
    } else {
        None
    }
}

/// Render the template in one piece if it renders cleanly against the
/// data.
pub fn try_parse_cap(template: String, data: StrMap) -> (r: Option<String>)
    ensures
        match render_stream(template@, 0, data@) {
            Ok(v) => (r matches Some(out) && out@ == v),
            Err(_) => r is None,
        },
{
    if well_rendered(template.as_str(), &data) {
        Some(parse_cap(template, data))
    } else {
        None
    }
}

/// Cut the template into tokens, then resolve the tokens in order.
fn build_from_tokens(template: String, data: &StrMap) -> (r: String)
    requires
        render_stream(template@, 0, data@) is Ok,
    ensures
        r@ == render_stream(template@, 0, data@)->Ok_0,
{
    let ghost t0 = template@;
    let ghost m = data@;
    let ghost stream0 = stream_from(t0, 0);
    proof {
        lemma_stream_renders(t0, 0, m);
    }

    // first pass: collect the tokens
    let tokens = Tokens::from(template);
    let mut toks: Vec<Token<String>> = Vec::new();
    let mut it = tokens.into_iter();
    loop
        invariant
            m == data@,
            stream0 == stream_from(t0, 0),
            render_items(it.items(), m) is Ok,
            toks@.len() + it.items().len() == stream0.len(),
            it.items() == stream0.skip(toks@.len() as int),
            forall|q: int|
                0 <= q < toks@.len() ==> stream0[q] == Ok::<Token<Seq<char>>, Seq<char>>(
                    (#[trigger] toks@[q])@,
                ),
            render_items(stream0, m) == render_stream(t0, 0, m),
        ensures
            toks@.len() == stream0.len(),
            forall|q: int|
                0 <= q < toks@.len() ==> stream0[q] == Ok::<Token<Seq<char>>, Seq<char>>(
                    (#[trigger] toks@[q])@,
                ),
            render_items(stream0, m) == render_stream(t0, 0, m),
            m == data@,
        decreases it.items().len(),
    {
        let ghost items0 = it.items();
        match it.next() {
            None => {
                break;
            },
            Some(item) => {
                match item {
                    Ok(t) => {
                        toks.push(t);
                        proof {
                            assert(stream0.skip(toks@.len() - 1)[0] == stream0[toks@.len() - 1]);
                            assert(items0.skip(1) =~= stream0.skip(toks@.len() as int));
                        }
                    },
                    Err(_) => {
                        // a broken template cannot render cleanly, so no
                        // complaint can appear in the stream
                        proof {
                            assert(false);
                        }
                        break;
                    },
                }
            },
        }
    }

    // second pass: resolve the tokens in order
    let mut result = String::new();
    let n = toks.len();
    let mut b: usize = 0;
    proof {
        assert(stream0.skip(0) =~= stream0);
        assert(Seq::<char>::empty() + render_items(stream0, m)->Ok_0 =~= render_items(
            stream0,
            m,
        )->Ok_0);
    }
    loop
        invariant_except_break
            render_items(stream0.skip(b as int), m) is Ok,
            render_stream(t0, 0, m) matches Ok(v) && v == result@ + render_items(
                stream0.skip(b as int),
                m,
            )->Ok_0,
        invariant
            m == data@,
            b <= n,
            n == toks@.len(),
            toks@.len() == stream0.len(),
            forall|q: int|
                0 <= q < toks@.len() ==> stream0[q] == Ok::<Token<Seq<char>>, Seq<char>>(
                    (#[trigger] toks@[q])@,
                ),
            render_items(stream0, m) == render_stream(t0, 0, m),
        ensures
            render_stream(t0, 0, m) matches Ok(v) && v == result@,
        decreases n - b,
    {
        if b >= n {
            proof {
                assert(stream0.skip(b as int) =~= Seq::<
                    Result<Token<Seq<char>>, Seq<char>>,
                >::empty());
                assert(result@ + Seq::<char>::empty() =~= result@);
            }
            break;
        }
        proof {
            assert(stream0.skip(b as int)[0] == stream0[b as int]);
            assert(stream0.skip(b as int).skip(1) =~= stream0.skip(b as int + 1));
        }
        let ghost before = result@;
        match &toks[b] {
            Token::Text(x) => {
                result.append(x.as_str());
            },
            Token::Placeholder(k) => {
                let v = data.get(k.as_str()).unwrap();
                result.append(v.as_str());
            },
        }
        b = b + 1;
        proof {
            match render_items(stream0.skip(b as int), m) {
                Ok(rest) => {
                    assert(render_stream(t0, 0, m)->Ok_0 =~= result@ + rest);
                },
                Err(_) => {},
            }
        }
    }
    result
}

} // verus!
