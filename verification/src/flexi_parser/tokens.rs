//! The token stream of a template: literal text and trimmed placeholder
//! keys, ended early by a complaint where a `{{` has no later `}}`.

use crate::template::{delim_err, find_at, key_err, lemma_find_at_bounds, render_stream, trim_seq};
use super::into_iter::IntoIter;
use super::iter::Iter;
use vstd::prelude::*;

verus! {

#[derive(Debug, PartialEq, Eq)]
pub enum Token<T> {
    Text(T),
    Placeholder(T),
}

impl<T: View<V = Seq<char>>> View for Token<T> {
    type V = Token<Seq<char>>;

    open spec fn view(&self) -> Token<Seq<char>> {
        match self {
            Token::Text(t) => Token::Text(t@),
            Token::Placeholder(t) => Token::Placeholder(t@),
        }
    }
}

/// A token or the complaint that ends the stream, as the specification
/// sees it.
pub open spec fn item_view<T: View<V = Seq<char>>>(r: Result<Token<T>, String>) -> Result<
    Token<Seq<char>>,
    Seq<char>,
> {
    match r {
        Ok(t) => Ok(t@),
        Err(e) => Err(e@),
    }
}

/// The items an iterator over `s` yields from position `from` on: the
/// text before each `{{`, each trimmed placeholder key, the text after
/// the last `}}` if any is left, and, where a `{{` has no later `}}`,
/// the complaint that ends the iteration.
pub open spec fn stream_from(s: Seq<char>, from: int) -> Seq<
    Result<Token<Seq<char>>, Seq<char>>,
>
    decreases s.len() - from,
    when from >= 0
    via stream_from_dec
{
    if from >= s.len() {
        Seq::empty()
    } else {
        match find_at(s, '{', '{', from) {
            None => seq![Ok(Token::Text(s.subrange(from, s.len() as int)))],
            Some(i) => match find_at(s, '}', '}', i + 2) {
                None => seq![Err(delim_err())],
                Some(j) => seq![
                    Ok(Token::Text(s.subrange(from, i))),
                    Ok(Token::Placeholder(trim_seq(s.subrange(i + 2, j)))),
                ] + stream_from(s, j + 2),
            },
        }
    }
}

#[via_fn]
proof fn stream_from_dec(s: Seq<char>, from: int) {
    lemma_find_at_bounds(s, '{', '{', from);
    match find_at(s, '{', '{', from) {
        None => {},
        Some(i) => {
            lemma_find_at_bounds(s, '}', '}', i + 2);
        },
    }
}

/// What resolving a stream of items against `m` yields: the rendered
/// text, or the first complaint — a key missing at its placeholder, or
/// the complaint carried by the stream itself.
pub open spec fn render_items(
    ts: Seq<Result<Token<Seq<char>>, Seq<char>>>,
    m: Map<Seq<char>, Seq<char>>,
) -> Result<Seq<char>, Seq<char>>
    decreases ts.len(),
{
    if ts.len() == 0 {
        Ok(Seq::empty())
    } else {
        match ts[0] {
            Err(e) => Err(e),
            Ok(t) => match t {
                Token::Text(x) => match render_items(ts.skip(1), m) {
                    Ok(r) => Ok(x + r),
                    Err(e) => Err(e),
                },
                Token::Placeholder(k) => if !m.dom().contains(k) {
                    Err(key_err(k))
                } else {
                    match render_items(ts.skip(1), m) {
                        Ok(r) => Ok(m[k] + r),
                        Err(e) => Err(e),
                    }
                },
            },
        }
    }
}

/// Resolving the token stream of a template is rendering the template.
pub proof fn lemma_stream_renders(s: Seq<char>, from: int, m: Map<Seq<char>, Seq<char>>)
    requires
        0 <= from,
    ensures
        render_items(stream_from(s, from), m) == render_stream(s, from, m),
    decreases s.len() - from,
{
    reveal_with_fuel(stream_from, 2);
    reveal_with_fuel(render_items, 3);
    reveal_with_fuel(render_stream, 2);
    lemma_find_at_bounds(s, '{', '{', from);
    if from >= s.len() {
        assert(stream_from(s, from) =~= Seq::<Result<Token<Seq<char>>, Seq<char>>>::empty());
        assert(render_items(stream_from(s, from), m) == Ok::<Seq<char>, Seq<char>>(
            Seq::<char>::empty(),
        ));
        assert(s.subrange(if from <= s.len() {
            from
        } else {
            s.len() as int
        }, s.len() as int) =~= Seq::<char>::empty());
        assert(render_items(stream_from(s, from), m) == render_stream(s, from, m));
    } else {
        match find_at(s, '{', '{', from) {
            None => {
                let ts = stream_from(s, from);
                assert(ts.skip(1) =~= Seq::<Result<Token<Seq<char>>, Seq<char>>>::empty());
                assert(s.subrange(from, s.len() as int) + Seq::<char>::empty() =~= s.subrange(
                    from,
                    s.len() as int,
                ));
                assert(render_items(ts, m) == render_stream(s, from, m));
            },
            Some(i) => {
                lemma_find_at_bounds(s, '}', '}', i + 2);
                match find_at(s, '}', '}', i + 2) {
                    None => {
                        let ts = stream_from(s, from);
                        assert(ts[0] == Err::<Token<Seq<char>>, Seq<char>>(delim_err()));
                        assert(render_items(ts, m) == render_stream(s, from, m));
                    },
                    Some(j) => {
                        lemma_stream_renders(s, j + 2, m);
                        let ts = stream_from(s, from);
                        let k = trim_seq(s.subrange(i + 2, j));
                        let rest = stream_from(s, j + 2);
                        assert(ts[0] == Ok::<Token<Seq<char>>, Seq<char>>(
                            Token::Text(s.subrange(from, i)),
                        ));
                        assert(ts.skip(1) =~= seq![
                            Ok::<Token<Seq<char>>, Seq<char>>(Token::Placeholder(k)),
                        ] + rest);
                        assert(ts.skip(1).skip(1) =~= rest);
                        if m.dom().contains(k) {
                            match render_stream(s, j + 2, m) {
                                Ok(r) => {
                                    assert(s.subrange(from, i) + (m[k] + r) =~= s.subrange(
                                        from,
                                        i,
                                    ) + m[k] + r);
                                },
                                Err(_) => {},
                            }
                        }
                        assert(render_items(ts, m) == render_stream(s, from, m));
                    },
                }
            },
        }
    }
}

pub struct Tokens {
    tmpl: String,
}

impl View for Tokens {
    type V = Seq<char>;

    /// The template the tokens come from.
    closed spec fn view(&self) -> Seq<char> {
        self.tmpl@
    }
}

impl Tokens {
    pub fn from(tmpl: String) -> (t: Self)
        ensures
            t@ == tmpl@,
    {
        Tokens { tmpl }
    }

    /// An iterator over the tokens, borrowing its text from the template.
    pub fn iter(&self) -> (it: Iter<'_>)
        ensures
            it.items() == stream_from(self@, 0),
    {
        Iter::new(self.tmpl.as_str())
    }

    /// An iterator over the tokens, handing out owned text.
    pub fn into_iter(&self) -> (it: IntoIter)
        ensures
            it.items() == stream_from(self@, 0),
    {
        IntoIter::new(self.tmpl.clone())
    }
}

} // verus!
