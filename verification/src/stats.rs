//! The mode of a list of small integers: the list is put in ascending
//! order, and a value no other value outnumbers is handed back.

use vstd::prelude::*;
use vstd::multiset::Multiset;
use vstd::seq_lib::group_to_multiset_ensures;

verus! {

/// Ascending order.
pub open spec fn sorted(s: Seq<u8>) -> bool {
    forall|i: int, j: int| 0 <= i < j < s.len() ==> s[i] <= s[j]
}

/// Sort the numbers in place and return a most frequent value: no value
/// occurs in the list more often than the returned one, and the returned
/// one occurs.  Among equally frequent values the choice is the
/// implementation's.
pub fn calc_mode(numbers: &mut Vec<u8>) -> (r: u8)
    requires
        old(numbers)@.len() > 0,
    ensures
        final(numbers)@.to_multiset() == old(numbers)@.to_multiset(),
        sorted(final(numbers)@),
        final(numbers)@.to_multiset().count(r) >= 1,
        forall|v: u8|
            final(numbers)@.to_multiset().count(r) >= #[trigger] final(numbers)@.to_multiset().count(
                v,
            ),
{
    sort(numbers);
    let n = numbers.len();
    let mut best = numbers[0];
    let mut best_count = count_eq(numbers, numbers[0]);
    let mut i: usize = 1;
    proof {
        broadcast use group_to_multiset_ensures;

        assert(numbers@.contains(numbers@[0]));
    }
    while i < n
        invariant
            1 <= i <= n,
            n == numbers@.len(),
            n > 0,
            best_count == numbers@.to_multiset().count(best),
            best_count >= 1,
            forall|q: int|
                0 <= q < i ==> best_count >= numbers@.to_multiset().count(#[trigger] numbers@[q]),
        decreases n - i,
    {
        let c = count_eq(numbers, numbers[i]);
        proof {
            broadcast use group_to_multiset_ensures;

            assert(numbers@.contains(numbers@[i as int]));
        }
        if c > best_count {
            best = numbers[i];
            best_count = c;
        }
        i = i + 1;
    }
    proof {
        broadcast use group_to_multiset_ensures;

        assert forall|v: u8| best_count >= #[trigger] numbers@.to_multiset().count(v) by {
            if numbers@.to_multiset().count(v) > 0 {
                assert(numbers@.contains(v));
                let q = choose|q: int| 0 <= q < numbers@.len() && numbers@[q] == v;
            }
        }
    }
    best
}

/// Put the numbers in ascending order: repeatedly move the least
/// remaining number over to the result.
fn sort(numbers: &mut Vec<u8>)
    ensures
        final(numbers)@.to_multiset() == old(numbers)@.to_multiset(),
        sorted(final(numbers)@),
        final(numbers)@.len() == old(numbers)@.len(),
{
    let mut out: Vec<u8> = Vec::new();
    proof {
        broadcast use group_to_multiset_ensures;

        assert(out@.to_multiset().add(numbers@.to_multiset()) =~= numbers@.to_multiset());
    }
    while numbers.len() > 0
        invariant
            out@.to_multiset().add(numbers@.to_multiset()) == old(numbers)@.to_multiset(),
            sorted(out@),
            forall|q: int|
                0 <= q < numbers@.len() && out@.len() > 0 ==> out@.last() <= #[trigger] numbers@[q],
            out@.len() + numbers@.len() == old(numbers)@.len(),
        decreases numbers@.len(),
    {
        let min_idx = index_of_min(numbers);
        let ghost pre = numbers@;
        let ghost pre_out = out@;
        let v = numbers.remove(min_idx);
        out.push(v);
        proof {
            broadcast use group_to_multiset_ensures;

            assert(pre.remove(min_idx as int).to_multiset() =~= pre.to_multiset().remove(v));
            assert(out@.to_multiset() =~= pre_out.to_multiset().insert(v));
            assert(out@.to_multiset().add(numbers@.to_multiset()) =~= pre_out.to_multiset().add(
                pre.to_multiset(),
            ));
            assert forall|q: int| 0 <= q < numbers@.len() implies v <= #[trigger] numbers@[q] by {
                if q < min_idx {
                    assert(numbers@[q] == pre[q]);
                } else {
                    assert(numbers@[q] == pre[q + 1]);
                }
            }
        }
    }
    *numbers = out;
}

/// Where the least element of a non-empty list stands.
fn index_of_min(numbers: &Vec<u8>) -> (r: usize)
    requires
        numbers@.len() > 0,
    ensures
        r < numbers@.len(),
        forall|q: int| 0 <= q < numbers@.len() ==> numbers@[r as int] <= #[trigger] numbers@[q],
{
    let n = numbers.len();
    let mut r: usize = 0;
    let mut i: usize = 1;
    while i < n
        invariant
            r < i <= n,
            n == numbers@.len(),
            forall|q: int| 0 <= q < i ==> numbers@[r as int] <= #[trigger] numbers@[q],
        decreases n - i,
    {
        if numbers[i] < numbers[r] {
            r = i;
        }
        i = i + 1;
    }
    r
}

/// How often `x` occurs among the numbers.
fn count_eq(numbers: &Vec<u8>, x: u8) -> (r: usize)
    ensures
        r == numbers@.to_multiset().count(x),
{
    let n = numbers.len();
    let mut r: usize = 0;
    let mut i: usize = 0;
    proof {
        broadcast use group_to_multiset_ensures;

        assert(numbers@.take(0) =~= Seq::<u8>::empty());
        assert(Seq::<u8>::empty().to_multiset() =~= Multiset::<u8>::empty());
    }
    while i < n
        invariant
            i <= n,
            n == numbers@.len(),
            r == numbers@.take(i as int).to_multiset().count(x),
            r <= i,
        decreases n - i,
    {
        proof {
            broadcast use group_to_multiset_ensures;

            assert(numbers@.take(i + 1) =~= numbers@.take(i as int).push(numbers@[i as int]));
        }
        if numbers[i] == x {
            r = r + 1;
        }
        i = i + 1;
    }
    proof {
        assert(numbers@.take(n as int) =~= numbers@);
    }
    r
}

} // verus!
