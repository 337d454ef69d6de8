//! Convert text to pig latin, word by word: a word opening with a
//! consonant moves that consonant to the end behind a dash and gains
//! "ay"; any other word keeps its shape and gains "-hay".  Every
//! converted word is followed by one space.

use crate::cmd::{end_tok, lemma_end_tok_bounds, lemma_skip_ws_bounds, lemma_word_shape, next_word, skip_ws};
use vstd::prelude::*;
use vstd::string::*;

verus! {

/// The first character of a character's uppercase mapping.
pub uninterp spec fn upper_first(c: char) -> char;

/// Relies on char::to_uppercase: the mapping depends on the character
/// alone; an ASCII lowercase letter maps to its uppercase form, and any
/// other ASCII character maps to itself.
#[verifier::external_body]
fn uppercase_first(c: char) -> (r: char)
    ensures
        r == upper_first(c),
        ('a' <= c && c <= 'z') ==> r as u32 == c as u32 - 32,
        ((c as u32) < 128 && !('a' <= c && c <= 'z')) ==> r == c,
{
    c.to_uppercase().next().unwrap()
}

/// The uppercase consonants whose words get rearranged; note that words
/// on any other letter, `Y` among them, take the plain "-hay" ending.
pub open spec fn is_consonant_u(c: char) -> bool {
    ||| c == 'B'
    ||| c == 'C'
    ||| c == 'D'
    ||| c == 'F'
    ||| c == 'G'
    ||| c == 'H'
    ||| c == 'J'
    ||| c == 'K'
    ||| c == 'L'
    ||| c == 'M'
    ||| c == 'N'
    ||| c == 'P'
    ||| c == 'Q'
    ||| c == 'R'
    ||| c == 'S'
    ||| c == 'T'
    ||| c == 'V'
    ||| c == 'W'
    ||| c == 'X'
    ||| c == 'Z'
}

/// One word, converted.
pub open spec fn pig_word(w: Seq<char>) -> Seq<char>
    recommends
        w.len() > 0,
{
    if is_consonant_u(upper_first(w[0])) {
        w.skip(1) + seq!['-', w[0], 'a', 'y']
    } else {
        w + seq!['-', 'h', 'a', 'y']
    }
}

/// The whole text from position `from` on, converted: each word becomes
/// its pig latin form followed by one space.
pub open spec fn pig_text(s: Seq<char>, from: int) -> Seq<char>
    decreases s.len() - from,
    when 0 <= from <= s.len()
    via pig_text_dec
{
    let a = skip_ws(s, from);
    if a >= s.len() {
        Seq::empty()
    } else {
        let b = end_tok(s, a);
        pig_word(s.subrange(a, b)) + seq![' '] + pig_text(s, b)
    }
}

#[via_fn]
proof fn pig_text_dec(s: Seq<char>, from: int) {
    lemma_skip_ws_bounds(s, from);
    lemma_word_shape(s, from);
    let a = skip_ws(s, from);
    if a < s.len() {
        lemma_end_tok_bounds(s, a);
    }
}

/// Convert the text to pig latin.
pub fn encode(text: &str) -> (r: String)
    ensures
        r@ == pig_text(text@, 0),
{
    let mut res = String::new();
    let mut pos: usize = 0;
    proof {
        assert(Seq::<char>::empty() + pig_text(text@, 0) =~= pig_text(text@, 0));
    }
    loop
        invariant
            pos <= text@.len(),
            res@ + pig_text(text@, pos as int) == pig_text(text@, 0),
        ensures
            res@ == pig_text(text@, 0),
        decreases text@.len() - pos,
    {
        let word = match next_word(text, pos) {
            Some(w) => w,
            None => {
                proof {
                    assert(pig_text(text@, pos as int) =~= Seq::<char>::empty());
                    assert(res@ + Seq::<char>::empty() =~= res@);
                }
                break;
            },
        };
        let w = word.0;
        let ghost before = res@;
        let wlen = w.unicode_len();
        proof {
            lemma_skip_ws_bounds(text@, pos as int);
            lemma_word_shape(text@, pos as int);
            assert(wlen >= 1);
        }
        let c0 = w.get_char(0);
        if is_consonant(uppercase_first(c0)) {
            res.append(w.substring_char(1, wlen));
            res.append("-");
            res.append(w.substring_char(0, 1));
            res.append("ay");
            proof {
                reveal_strlit("-");
                reveal_strlit("ay");
                assert(w@.subrange(0, 1) =~= seq![w@[0]]);
                assert(before + pig_word(w@) =~= res@);
            }
        } else {
            res.append(w);
            res.append("-hay");
            proof {
                reveal_strlit("-hay");
                assert(before + pig_word(w@) =~= res@);
            }
        }
        res.append(" ");
        proof {
            reveal_strlit(" ");
            assert(before + pig_word(w@) + seq![' '] =~= res@);
            assert(res@ + pig_text(text@, word.1 as int) =~= pig_text(text@, 0));
        }
        pos = word.1;
    }
    res
}

/// Whether the (already uppercased) character is one of the consonants.
fn is_consonant(c: char) -> (r: bool)
    ensures
        r == is_consonant_u(c),
{
    match c {
        'B' | 'C' | 'D' | 'F' | 'G' | 'H' | 'J' | 'K' | 'L' | 'M' | 'N' | 'P' | 'Q' | 'R' | 'S'
            | 'T' | 'V' | 'W' | 'X' | 'Z' => true,
        _ => false,
    }
}

} // verus!
