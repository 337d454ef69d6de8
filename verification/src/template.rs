//! The template language shared by the parsers: a template is plain text
//! with `{{ key }}` placeholders; rendering replaces each placeholder by
//! the value its trimmed key names in the data map.  This module holds
//! the mathematical model of that language — where a delimiter pair
//! opens, what a key trims to, what a template renders to and which
//! error comes first — together with the data map and the verified
//! string helpers the parsers share.

use vstd::prelude::*;
use vstd::string::*;

verus! {

/// What char::is_whitespace returns beyond ASCII.
pub uninterp spec fn unicode_ws(c: char) -> bool;

/// The Unicode White_Space property as char::is_whitespace decides it:
/// written out for ASCII, named for the rest.
pub open spec fn is_space_char(c: char) -> bool {
    if (c as u32) < 128 {
        c == ' ' || c == '\t' || c == '\n' || c == '\r' || (c as u32) == 11 || (c as u32) == 12
    } else {
        unicode_ws(c)
    }
}

/// Relies on char::is_whitespace: true exactly for the characters with
/// the Unicode White_Space property, which within ASCII are space,
/// horizontal tab, line feed, vertical tab, form feed and carriage
/// return.
#[verifier::external_body]
pub(crate) fn is_space(c: char) -> (r: bool)
    ensures
        r == is_space_char(c),
        (c as u32) >= 128 ==> r == unicode_ws(c),
{
    c.is_whitespace()
}

/// The least `i >= from` where `a` directly followed by `b` stands in
/// `s`, if any.
pub open spec fn find_at(s: Seq<char>, a: char, b: char, from: int) -> Option<int>
    decreases s.len() - from,
{
    if from < 0 || from + 2 > s.len() {
        None
    } else if s[from] == a && s[from + 1] == b {
        Some(from)
    } else {
        find_at(s, a, b, from + 1)
    }
}

/// Where `find_at` finds the pair, it lies between `from` and the end,
/// and the two characters stand there.
pub proof fn lemma_find_at_bounds(s: Seq<char>, a: char, b: char, from: int)
    ensures
        match find_at(s, a, b, from) {
            Some(i) => from <= i && i + 2 <= s.len() && s[i] == a && s[i + 1] == b,
            None => true,
        },
    decreases s.len() - from,
{
    if !(from < 0 || from + 2 > s.len()) && !(s[from] == a && s[from + 1] == b) {
        lemma_find_at_bounds(s, a, b, from + 1);
    }
}

/// `s` without its leading whitespace.
pub open spec fn trim_front(s: Seq<char>) -> Seq<char>
    decreases s.len(),
{
    if s.len() > 0 && is_space_char(s[0]) {
        trim_front(s.skip(1))
    } else {
        s
    }
}

/// `s` without its trailing whitespace.
pub open spec fn trim_back(s: Seq<char>) -> Seq<char>
    decreases s.len(),
{
    if s.len() > 0 && is_space_char(s[s.len() - 1]) {
        trim_back(s.drop_last())
    } else {
        s
    }
}

/// `s` without leading and trailing whitespace: what str::trim leaves.
pub open spec fn trim_seq(s: Seq<char>) -> Seq<char> {
    trim_back(trim_front(s))
}

/// The complaint for a template whose `{{` has no later `}}`.
pub open spec fn delim_err() -> Seq<char> {
    "missing closing delimiter: }}"@
}

/// The complaint for a placeholder key absent from the data.
pub open spec fn key_err(k: Seq<char>) -> Seq<char> {
    "couldn't find data corresponding to key: "@ + k
}

/// What rendering the template from position `from` against `m` gives:
/// the rendered text, or the first complaint — a missing key at the
/// placeholder that names it, a missing `}}` where scanning stops.
pub open spec fn render_stream(s: Seq<char>, from: int, m: Map<Seq<char>, Seq<char>>) -> Result<
    Seq<char>,
    Seq<char>,
>
    decreases s.len() - from,
    when from >= 0
    via render_stream_dec
{
    match find_at(s, '{', '{', from) {
        None => Ok(s.subrange(if from <= s.len() {
            from
        } else {
            s.len() as int
        }, s.len() as int)),
        Some(i) => match find_at(s, '}', '}', i + 2) {
            None => Err(delim_err()),
            Some(j) => {
                let k = trim_seq(s.subrange(i + 2, j));
                if !m.dom().contains(k) {
                    Err(key_err(k))
                } else {
                    match render_stream(s, j + 2, m) {
                        Ok(rest) => Ok(s.subrange(from, i) + m[k] + rest),
                        Err(e) => Err(e),
                    }
                }
            },
        },
    }
}

#[via_fn]
proof fn render_stream_dec(s: Seq<char>, from: int, m: Map<Seq<char>, Seq<char>>) {
    lemma_find_at_bounds(s, '{', '{', from);
    match find_at(s, '{', '{', from) {
        None => {},
        Some(i) => {
            lemma_find_at_bounds(s, '}', '}', i + 2);
        },
    }
}

/// An association list with the contract of a string-keyed map: a later
/// insertion of the same key wins.
pub struct StrMap {
    pairs: Vec<(String, String)>,
}

/// The map the pair list denotes, later pairs overriding earlier ones.
pub closed spec fn map_of(ps: Seq<(String, String)>) -> Map<Seq<char>, Seq<char>>
    decreases ps.len(),
{
    if ps.len() == 0 {
        Map::empty()
    } else {
        map_of(ps.drop_last()).insert(ps.last().0@, ps.last().1@)
    }
}

impl View for StrMap {
    type V = Map<Seq<char>, Seq<char>>;

    closed spec fn view(&self) -> Map<Seq<char>, Seq<char>> {
        map_of(self.pairs@)
    }
}

/// A key missing from a suffix of the pairs is decided by the prefix.
proof fn lemma_map_of_prefix(ps: Seq<(String, String)>, i: int, k: Seq<char>)
    requires
        0 <= i <= ps.len(),
        forall|j: int| i <= j < ps.len() ==> (#[trigger] ps[j]).0@ != k,
    ensures
        map_of(ps).dom().contains(k) == map_of(ps.take(i)).dom().contains(k),
        map_of(ps).dom().contains(k) ==> map_of(ps)[k] == map_of(ps.take(i))[k],
    decreases ps.len() - i,
{
    if i < ps.len() {
        assert(ps.last() == ps[ps.len() - 1]);
        lemma_map_of_prefix(ps.drop_last(), i, k);
        assert(ps.drop_last().take(i) =~= ps.take(i));
    } else {
        assert(ps.take(i) =~= ps);
    }
}

impl StrMap {
    pub fn new() -> (m: Self)
        ensures
            m@ == Map::<Seq<char>, Seq<char>>::empty(),
    {
        StrMap { pairs: Vec::new() }
    }

    /// Bind `key` to `value`, replacing any earlier binding.
    pub fn insert(&mut self, key: String, value: String)
        ensures
            final(self)@ == old(self)@.insert(key@, value@),
    {
        let ghost gk = key@;
        let ghost gv = value@;
        self.pairs.push((key, value));
        proof {
            assert(self.pairs@.drop_last() =~= old(self).pairs@);
            assert(self.pairs@.last().0@ == gk);
        }
    }

    /// The value bound to `key`, if any.
    pub fn get(&self, key: &str) -> (r: Option<&String>)
        ensures
            match r {
                Some(v) => self@.dom().contains(key@) && v@ == self@[key@],
                None => !self@.dom().contains(key@),
            },
    {
        let mut i = self.pairs.len();
        while i > 0
            invariant
                i <= self.pairs@.len(),
                forall|j: int| i <= j < self.pairs@.len() ==> (#[trigger] self.pairs@[j]).0@ != key@,
            decreases i,
        {
            i = i - 1;
            let p = &self.pairs[i];
            if str_eq(p.0.as_str(), key) {
                proof {
                    lemma_map_of_prefix(self.pairs@, i + 1, key@);
                    assert(self.pairs@.take(i + 1).last() == self.pairs@[i as int]);
                    assert(self.pairs@.take(i + 1).drop_last() =~= self.pairs@.take(i as int));
                }
                return Some(&p.1);
            }
        }
        proof {
            lemma_map_of_prefix(self.pairs@, 0, key@);
            assert(self.pairs@.take(0) =~= Seq::<(String, String)>::empty());
        }
        None
    }
}

/// Character-for-character string equality.
pub fn str_eq(a: &str, b: &str) -> (r: bool)
    ensures
        r == (a@ == b@),
{
    let la = a.unicode_len();
    let lb = b.unicode_len();
    if la != lb {
        return false;
    }
    let mut i: usize = 0;
    while i < la
        invariant
            i <= la,
            la == a@.len(),
            la == b@.len(),
            forall|j: int| 0 <= j < i ==> a@[j] == b@[j],
        decreases la - i,
    {
        if a.get_char(i) != b.get_char(i) {
            return false;
        }
        i = i + 1;
    }
    proof {
        assert(a@ =~= b@);
    }
    true
}

/// The least position at or past `from` where `a` directly followed by
/// `b` stands in `s`, by a left-to-right scan.
pub(crate) fn find_two(s: &str, from: usize, a: char, b: char) -> (r: Option<usize>)
    ensures
        match r {
            Some(u) => find_at(s@, a, b, from as int) == Some(u as int),
            None => find_at(s@, a, b, from as int) is None,
        },
{
    let len = s.unicode_len();
    if len < 2 || from > len - 2 {
        return None;
    }
    let mut i = from;
    while i <= len - 2
        invariant
            from <= i,
            len == s@.len(),
            len >= 2,
            find_at(s@, a, b, from as int) == find_at(s@, a, b, i as int),
        decreases len - i,
    {
        if s.get_char(i) == a {
            if s.get_char(i + 1) == b {
                return Some(i);
            }
        }
        i = i + 1;
    }
    None
}

/// Whatever whitespace decorates the ends of `s`, its trim drops exactly
/// the decorated prefix and suffix.
proof fn lemma_trim_front_exact(s: Seq<char>, k: int)
    requires
        0 <= k <= s.len(),
        forall|j: int| 0 <= j < k ==> is_space_char(#[trigger] s[j]),
        k == s.len() || !is_space_char(s[k]),
    ensures
        trim_front(s) == s.skip(k),
    decreases k,
{
    if k == 0 {
        assert(s.skip(0) =~= s);
    } else {
        lemma_trim_front_exact(s.skip(1), k - 1);
        assert(s.skip(1).skip(k - 1) =~= s.skip(k));
    }
}

proof fn lemma_trim_back_exact(s: Seq<char>, e: int)
    requires
        0 <= e <= s.len(),
        forall|j: int| e <= j < s.len() ==> is_space_char(#[trigger] s[j]),
        e == 0 || !is_space_char(s[e - 1]),
    ensures
        trim_back(s) == s.take(e),
    decreases s.len() - e,
{
    if e == s.len() {
        assert(s.take(e) =~= s);
    } else {
        lemma_trim_back_exact(s.drop_last(), e);
        assert(s.drop_last().take(e) =~= s.take(e));
    }
}

/// `s` without its leading and trailing whitespace, as str::trim cuts it.
pub(crate) fn trim(s: &str) -> (r: &str)
    ensures
        r@ == trim_seq(s@),
{
    let len = s.unicode_len();
    let mut start: usize = 0;
    loop
        invariant
            start <= len,
            len == s@.len(),
            forall|j: int| 0 <= j < start ==> is_space_char(#[trigger] s@[j]),
        ensures
            start <= len,
            forall|j: int| 0 <= j < start ==> is_space_char(#[trigger] s@[j]),
            start == len || !is_space_char(s@[start as int]),
        decreases len - start,
    {
        if start >= len {
            break;
        }
        if !is_space(s.get_char(start)) {
            break;
        }
        start = start + 1;
    }
    let mut end: usize = len;
    loop
        invariant
            start <= end <= len,
            len == s@.len(),
            forall|j: int| end <= j < len ==> is_space_char(#[trigger] s@[j]),
        ensures
            start <= end <= len,
            forall|j: int| end <= j < len ==> is_space_char(#[trigger] s@[j]),
            end == start || !is_space_char(s@[end - 1]),
        decreases end,
    {
        if end <= start {
            break;
        }
        if !is_space(s.get_char(end - 1)) {
            break;
        }
        end = end - 1;
    }
    let r = s.substring_char(start, end);
    proof {
        lemma_trim_front_exact(s@, start as int);
        let t = s@.skip(start as int);
        assert forall|j: int| end - start <= j < t.len() implies is_space_char(
            #[trigger] t[j],
        ) by {
            assert(t[j] == s@[j + start]);
        }
        if end > start {
            assert(t[end - start - 1] == s@[end - 1]);
        }
        lemma_trim_back_exact(t, end - start);
        assert(t.take(end - start) =~= s@.subrange(start as int, end as int));
    }
    r
}


/// Whether the template renders cleanly against `data`: every `{{` is
/// closed by a later `}}` and every trimmed key is bound in the data.
pub fn well_rendered(tmpl: &str, data: &StrMap) -> (b: bool)
    ensures
        b == (render_stream(tmpl@, 0, data@) is Ok),
{
    let len = tmpl.unicode_len();
    let mut cur: usize = 0;
    loop
        invariant
            cur <= len,
            len == tmpl@.len(),
            (render_stream(tmpl@, 0, data@) is Ok) == (render_stream(tmpl@, cur as int, data@)
                is Ok),
        decreases len - cur,
    {
        match find_two(tmpl, cur, '{', '{') {
            None => {
                return true;
            },
            Some(i) => {
                proof {
                    lemma_find_at_bounds(tmpl@, '{', '{', cur as int);
                    lemma_find_at_bounds(tmpl@, '}', '}', i as int + 2);
                }
                match find_two(tmpl, i + 2, '}', '}') {
                    None => {
                        return false;
                    },
                    Some(j) => {
                        let key = trim(tmpl.substring_char(i + 2, j));
                        if key_unbound(data, key) {
                            return false;
                        }
                        cur = j + 2;
                    },
                }
            },
        }
    }
}

/// Whether `key` is unbound in the data.
fn key_unbound(data: &StrMap, key: &str) -> (b: bool)
    ensures
        b == !data@.dom().contains(key@),
{
    data.get(key).is_none()
}

} // verus!
