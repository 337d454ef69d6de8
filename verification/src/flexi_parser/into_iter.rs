//! A token iterator that owns its template and hands out owned text.

use super::tokens::{item_view, stream_from, Token};
use crate::template::{find_at, find_two, lemma_find_at_bounds, trim, trim_seq};
use vstd::prelude::*;
use vstd::string::*;

verus! {

pub struct IntoIter {
    cur_idx: usize,
    next: Option<Result<Token<String>, String>>,
    tmpl: String,
}

impl IntoIter {
    /// The items still to come: a pending one, then whatever the
    /// template holds from the current position on.
    pub closed spec fn items(&self) -> Seq<Result<Token<Seq<char>>, Seq<char>>> {
        (match self.next {
            Some(it) => seq![item_view(it)],
            None => Seq::empty(),
        }) + stream_from(self.tmpl@, self.cur_idx as int)
    }

    pub fn new(tmpl: String) -> (it: IntoIter)
        ensures
            it.items() == stream_from(tmpl@, 0),
    {
        let ghost t = tmpl@;
        let it = IntoIter { cur_idx: 0, next: None, tmpl };
        proof {
            assert(it.items() =~= stream_from(t, 0));
        }
        it
    }

    /// Scan for the `}}` that closes the `{{` standing at `at`; park the
    /// placeholder token for the following call, or end the iteration
    /// with the complaint.
    fn set_next_placeholder(&mut self, at: usize) -> (r: Result<(), String>)
        requires
            old(self).next is None,
            at + 2 <= old(self).tmpl@.len(),
            old(self).tmpl@[at as int] == '{',
            old(self).tmpl@[at as int + 1] == '{',
        ensures
            final(self).tmpl@ == old(self).tmpl@,
            match find_at(old(self).tmpl@, '}', '}', at + 2) {
                Some(j) => {
                    &&& r is Ok
                    &&& final(self).items() == seq![
                        Ok::<Token<Seq<char>>, Seq<char>>(
                            Token::Placeholder(trim_seq(old(self).tmpl@.subrange(at + 2, j))),
                        ),
                    ] + stream_from(old(self).tmpl@, j + 2)
                },
                None => {
                    &&& r is Err
                    &&& r->Err_0@ == "missing closing delimiter: }}"@
                    &&& final(self).items() == Seq::<Result<Token<Seq<char>>, Seq<char>>>::empty()
                },
            },
    {
        proof {
            // the two `{` at `at` cannot open a `}}`, so the search from
            // `at` and the search past the braces agree
            assert(find_at(self.tmpl@, '}', '}', at as int) == find_at(
                self.tmpl@,
                '}',
                '}',
                at as int + 1,
            ));
            assert(find_at(self.tmpl@, '}', '}', at as int + 1) == find_at(
                self.tmpl@,
                '}',
                '}',
                at as int + 2,
            ));
            lemma_find_at_bounds(self.tmpl@, '}', '}', at as int);
        }
        let len = self.tmpl.as_str().unicode_len();
        let delim_end = match find_two(self.tmpl.as_str(), at, '}', '}') {
            None => {
                // the template is broken, so there is nothing left to
                // iterate through
                self.stop_iter();
                proof {
                    assert(final(self).items() =~= Seq::<
                        Result<Token<Seq<char>>, Seq<char>>,
                    >::empty());
                }
                return Err("missing closing delimiter: }}".to_owned());
            },
            Some(idx) => idx,
        };
        proof {
            assert(delim_end + 2 <= len);
        }
        let key = trim(self.tmpl.as_str().substring_char(at + 2, delim_end)).to_owned();
        self.next = Some(Ok(Token::Placeholder(key)));
        // continue past the second closing brace
        self.cur_idx = delim_end + 2;
        proof {
            assert(final(self).items() =~= seq![
                Ok::<Token<Seq<char>>, Seq<char>>(
                    Token::Placeholder(trim_seq(old(self).tmpl@.subrange(at + 2, delim_end as int))),
                ),
            ] + stream_from(old(self).tmpl@, delim_end as int + 2));
        }
        Ok(())
    }

    /// Put the position past the whole template, so that nothing is left
    /// to iterate through.
    fn stop_iter(&mut self)
        ensures
            final(self).tmpl@ == old(self).tmpl@,
            final(self).next == old(self).next,
            final(self).cur_idx == old(self).tmpl@.len(),
    {
        self.cur_idx = self.tmpl.as_str().unicode_len();
    }

    /// The next token: a parked one, the text before the next `{{`, the
    /// trailing text, or the complaint about a missing `}}`.
    pub fn next(&mut self) -> (r: Option<Result<Token<String>, String>>)
        ensures
            old(self).items().len() == 0 ==> r is None && final(self).items() == old(self).items(),
            old(self).items().len() > 0 ==> {
                &&& r matches Some(item)
                &&& item_view(item) == old(self).items()[0]
                &&& final(self).items() == old(self).items().skip(1)
            },
    {
        if self.next.is_some() {
            let r = self.next.take();
            proof {
                assert(old(self).items()[0] == item_view(r->0));
                assert(final(self).items() =~= old(self).items().skip(1));
            }
            return r;
        }

        let len = self.tmpl.as_str().unicode_len();
        if self.cur_idx >= len {
            proof {
                assert(old(self).items() =~= Seq::<Result<Token<Seq<char>>, Seq<char>>>::empty());
            }
            return None;
        }

        match find_two(self.tmpl.as_str(), self.cur_idx, '{', '{') {
            None => {
                let text: Result<Token<String>, String> = Ok(
                    Token::Text(self.tmpl.as_str().substring_char(self.cur_idx, len).to_owned()),
                );
                // nothing is left after this token; extract it before
                // stopping, since stopping moves the position
                self.stop_iter();
                proof {
                    assert(old(self).items() =~= seq![item_view(text)]);
                    assert(final(self).items() =~= old(self).items().skip(1));
                }
                Some(text)
            },
            Some(idx) => {
                proof {
                    lemma_find_at_bounds(self.tmpl@, '{', '{', self.cur_idx as int);
                    lemma_find_at_bounds(self.tmpl@, '}', '}', idx as int + 2);
                }
                let cur: Result<Token<String>, String> = Ok(
                    Token::Text(
                        self.tmpl.as_str().substring_char(self.cur_idx, idx).to_owned(),
                    ),
                );
                let ghost items0 = old(self).items();
                let ghost cur0 = old(self).cur_idx as int;
                proof {
                    assert(items0 =~= stream_from(self.tmpl@, cur0));
                }
                if let Err(e) = self.set_next_placeholder(idx) {
                    proof {
                        assert(items0 =~= seq![
                            Err::<Token<Seq<char>>, Seq<char>>("missing closing delimiter: }}"@),
                        ]);
                        assert(final(self).items() =~= items0.skip(1));
                    }
                    return Some(Err(e));
                }
                proof {
                    match find_at(self.tmpl@, '}', '}', idx as int + 2) {
                        Some(j) => {
                            assert(items0 =~= seq![
                                Ok::<Token<Seq<char>>, Seq<char>>(
                                    Token::Text(self.tmpl@.subrange(cur0, idx as int)),
                                ),
                                Ok::<Token<Seq<char>>, Seq<char>>(
                                    Token::Placeholder(
                                        trim_seq(self.tmpl@.subrange(idx as int + 2, j)),
                                    ),
                                ),
                            ] + stream_from(self.tmpl@, j + 2));
                            assert(items0[0] == item_view(cur));
                            assert(final(self).items() =~= items0.skip(1));
                        },
                        None => {
                            assert(false);
                        },
                    }
                }
                Some(cur)
            },
        }
    }
}

} // verus!
