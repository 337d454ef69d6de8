//! The line-oriented command language of the employee database: a
//! command is whitespace-separated words, the first of which picks the
//! operation.

use crate::template::{is_space, is_space_char, str_eq};
use vstd::prelude::*;
use vstd::string::*;

verus! {

pub enum Cmd {
    Add { dpt: String, empl: String },
    ListAll,
    ListDepartment(String),
    Close,
    Unknown(String),
}

/// The first position at or past `from` that is not whitespace.
pub open spec fn skip_ws(s: Seq<char>, from: int) -> int
    decreases s.len() - from,
{
    if from < 0 || from >= s.len() {
        s.len() as int
    } else if is_space_char(s[from]) {
        skip_ws(s, from + 1)
    } else {
        from
    }
}

/// The first position at or past `from` that is whitespace.
pub open spec fn end_tok(s: Seq<char>, from: int) -> int
    decreases s.len() - from,
{
    if from < 0 || from >= s.len() {
        s.len() as int
    } else if !is_space_char(s[from]) {
        end_tok(s, from + 1)
    } else {
        from
    }
}

/// The word starting at the first non-space position at or past `from`,
/// with the position after it; the empty word where none is left.
pub open spec fn word_after(s: Seq<char>, from: int) -> (Seq<char>, int) {
    let a = skip_ws(s, from);
    let b = end_tok(s, a);
    (s.subrange(a, b), b)
}

/// Whether any word starts at or past `from`.
pub open spec fn has_word(s: Seq<char>, from: int) -> bool {
    skip_ws(s, from) < s.len()
}

/// Read the command a line holds.  Every line parses; an ill-formed one
/// parses to `Unknown` with the complaint the original printed.
pub fn parse(ss: &str) -> (r: Cmd)
    ensures
        ({
            let s = ss@;
            let w1 = word_after(s, 0);
            if !has_word(s, 0) {
                r matches Cmd::Unknown(msg) && msg@ == "not enough parts"@
            } else if w1.0 == "Add"@ {
                let w2 = word_after(s, w1.1);
                let w3 = word_after(s, w2.1);
                let w4 = word_after(s, w3.1);
                if !has_word(s, w1.1) {
                    r matches Cmd::Unknown(msg) && msg@ == "`Add` command needs employee name"@
                } else if !(has_word(s, w2.1) && w3.0 == "to"@) {
                    r matches Cmd::Unknown(msg) && msg@
                        == "employee name should be followed by `to` preposition"@
                } else if !has_word(s, w3.1) {
                    r matches Cmd::Unknown(msg) && msg@ == "`Add` command needs department"@
                } else {
                    r matches Cmd::Add { dpt, empl } && dpt@ == w4.0 && empl@ == w2.0
                }
            } else if w1.0 == "List"@ {
                let w2 = word_after(s, w1.1);
                if !has_word(s, w1.1) {
                    r matches Cmd::Unknown(msg) && msg@
                        == "`List` command requires department as argument"@
                } else if w2.0 == "All"@ {
                    r is ListAll
                } else {
                    r matches Cmd::ListDepartment(dpt) && dpt@ == w2.0
                }
            } else if w1.0 == "Close"@ {
                r is Close
            } else {
                r matches Cmd::Unknown(msg) && msg@ == "unknown command"@
            }
        }),
{
    let w1 = match next_word(ss, 0) {
        Some(w) => w,
        None => {
            return Cmd::Unknown("not enough parts".to_owned());
        },
    };

    if str_eq(w1.0, "Add") {
        parse_add(ss, w1.1)
    } else if str_eq(w1.0, "List") {
        parse_list(ss, w1.1)
    } else if str_eq(w1.0, "Close") {
        Cmd::Close
    } else {
        Cmd::Unknown("unknown command".to_owned())
    }
}

/// Read the `Add <employee> to <department>` tail that starts at `from`.
fn parse_add(ss: &str, from: usize) -> (r: Cmd)
    requires
        from <= ss@.len(),
    ensures
        ({
            let s = ss@;
            let w2 = word_after(s, from as int);
            let w3 = word_after(s, w2.1);
            let w4 = word_after(s, w3.1);
            if !has_word(s, from as int) {
                r matches Cmd::Unknown(msg) && msg@ == "`Add` command needs employee name"@
            } else if !(has_word(s, w2.1) && w3.0 == "to"@) {
                r matches Cmd::Unknown(msg) && msg@
                    == "employee name should be followed by `to` preposition"@
            } else if !has_word(s, w3.1) {
                r matches Cmd::Unknown(msg) && msg@ == "`Add` command needs department"@
            } else {
                r matches Cmd::Add { dpt, empl } && dpt@ == w4.0 && empl@ == w2.0
            }
        }),
{
    let empl = match next_word(ss, from) {
        Some(w) => w,
        None => {
            return Cmd::Unknown("`Add` command needs employee name".to_owned());
        },
    };

    let to_end = match next_word(ss, empl.1) {
        Some(to) => {
            if !str_eq(to.0, "to") {
                return Cmd::Unknown(
                    "employee name should be followed by `to` preposition".to_owned(),
                );
            }
            to.1
        },
        None => {
            return Cmd::Unknown(
                "employee name should be followed by `to` preposition".to_owned(),
            );
        },
    };

    let dpt = match next_word(ss, to_end) {
        Some(d) => d,
        None => {
            return Cmd::Unknown("`Add` command needs department".to_owned());
        },
    };

    Cmd::Add { empl: empl.0.to_owned(), dpt: dpt.0.to_owned() }
}

/// Read the `List <department>` tail that starts at `from`.
fn parse_list(ss: &str, from: usize) -> (r: Cmd)
    requires
        from <= ss@.len(),
    ensures
        ({
            let s = ss@;
            let w2 = word_after(s, from as int);
            if !has_word(s, from as int) {
                r matches Cmd::Unknown(msg) && msg@
                    == "`List` command requires department as argument"@
            } else if w2.0 == "All"@ {
                r is ListAll
            } else {
                r matches Cmd::ListDepartment(dpt) && dpt@ == w2.0
            }
        }),
{
    match next_word(ss, from) {
        Some(w) => {
            if str_eq(w.0, "All") {
                Cmd::ListAll
            } else {
                Cmd::ListDepartment(w.0.to_owned())
            }
        },
        None => Cmd::Unknown("`List` command requires department as argument".to_owned()),
    }
}

/// The next whitespace-separated word at or past `from`, with the
/// position just after it.
pub(crate) fn next_word(ss: &str, from: usize) -> (r: Option<(&str, usize)>)
    requires
        from <= ss@.len(),
    ensures
        match r {
            Some(w) => {
                &&& has_word(ss@, from as int)
                &&& w.0@ == word_after(ss@, from as int).0
                &&& w.1 == word_after(ss@, from as int).1
                &&& from <= w.1 <= ss@.len()
            },
            None => !has_word(ss@, from as int),
        },
{
    let len = ss.unicode_len();
    let mut a = from;
    while a < len
        invariant
            from <= a <= len,
            len == ss@.len(),
            skip_ws(ss@, from as int) == skip_ws(ss@, a as int),
        ensures
            from <= a <= len,
            skip_ws(ss@, from as int) == a as int,
        decreases len - a,
    {
        if !is_space(ss.get_char(a)) {
            break;
        }
        a = a + 1;
    }
    if a >= len {
        return None;
    }
    let mut b = a;
    while b < len
        invariant
            a <= b <= len,
            len == ss@.len(),
            end_tok(ss@, a as int) == end_tok(ss@, b as int),
        ensures
            a <= b <= len,
            end_tok(ss@, a as int) == b as int,
        decreases len - b,
    {
        if is_space(ss.get_char(b)) {
            break;
        }
        b = b + 1;
    }
    Some((ss.substring_char(a, b), b))
}


/// The next non-space position stays between `from` and the end.
pub proof fn lemma_skip_ws_bounds(s: Seq<char>, from: int)
    requires
        0 <= from <= s.len(),
    ensures
        from <= skip_ws(s, from) <= s.len(),
    decreases s.len() - from,
{
    if from < s.len() && is_space_char(s[from]) {
        lemma_skip_ws_bounds(s, from + 1);
    }
}

/// The next space position stays between `from` and the end.
pub proof fn lemma_end_tok_bounds(s: Seq<char>, from: int)
    requires
        0 <= from <= s.len(),
    ensures
        from <= end_tok(s, from) <= s.len(),
    decreases s.len() - from,
{
    if from < s.len() && !is_space_char(s[from]) {
        lemma_end_tok_bounds(s, from + 1);
    }
}


/// Where a word starts, a non-space character stands, and the word has
/// at least that character.
pub proof fn lemma_word_shape(s: Seq<char>, from: int)
    requires
        0 <= from <= s.len(),
    ensures
        ({
            let a = skip_ws(s, from);
            a < s.len() ==> !is_space_char(s[a]) && end_tok(s, a) > a
        }),
    decreases s.len() - from,
{
    if from < s.len() && is_space_char(s[from]) {
        lemma_word_shape(s, from + 1);
    } else if from < s.len() {
        lemma_end_tok_bounds(s, from + 1);
    }
}

} // verus!
