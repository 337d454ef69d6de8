//! A Michael & Scott first-in-first-out queue over a singly linked chain
//! of heap nodes, with an epoch-style reclaimer for deferred destruction.
//!
//! The shared heap of the algorithm is modelled as an arena of numbered
//! slots; a node id plays the part of a pointer and `None` the part of
//! null.  `head` and `tail` are the two shared words, and every read or
//! write of the shared state goes through the small load and
//! compare-and-swap helpers below, so `push` and `try_pop` follow the
//! lock-free protocol step by step: the chain always starts at a sentinel
//! node whose payload slot is empty, `tail` may lag behind the true last
//! node and is repaired by whichever operation next observes the lag, and
//! a node unlinked from `head` is retired to the reclaimer rather than
//! destroyed on the spot.

use crate::reclaim::Reclaimer;
use vstd::prelude::*;

verus! {

/// One cell of the chain: a payload slot, empty only in a node that is or
/// was the sentinel, and the id of the next cell, if any.
struct Node<T> {
    data: Option<T>,
    next: Option<usize>,
}

pub struct Queue<T> {
    slots: Vec<Option<Node<T>>>,
    head: usize,
    tail: usize,
    reclaimer: Reclaimer,
    chain: Ghost<Seq<usize>>,
    tail_pos: Ghost<int>,
}

impl<T> Queue<T> {
    /// `id` names an allocated, not yet destroyed node.
    spec fn live(&self, id: usize) -> bool {
        id < self.slots@.len() && self.slots@[id as int] is Some
    }

    /// The node behind `id`.
    spec fn node(&self, id: usize) -> Node<T>
        recommends
            self.live(id),
    {
        self.slots@[id as int]->0
    }

    /// The chain of node ids from the sentinel to the last node: each
    /// node's `next` names its successor, the last one's is null, no id
    /// repeats, and only the sentinel's payload slot is empty.
    spec fn chain_ok(&self) -> bool {
        let c = self.chain@;
        &&& c.len() >= 1
        &&& c[0] == self.head
        &&& forall|i: int| 0 <= i < c.len() ==> self.live(#[trigger] c[i])
        &&& forall|i: int|
            0 <= i < c.len() - 1 ==> self.node(#[trigger] c[i]).next == Some(c[i + 1])
        &&& self.node(c[c.len() - 1]).next is None
        &&& forall|i: int, j: int| 0 <= i < j < c.len() ==> c[i] != c[j]
        &&& self.node(c[0]).data is None
        &&& forall|i: int| 1 <= i < c.len() ==> self.node(#[trigger] c[i]).data is Some
    }

    /// `tail` sits somewhere on the chain; it may lag behind the last node.
    spec fn tail_ok(&self) -> bool {
        &&& 0 <= self.tail_pos@ < self.chain@.len()
        &&& self.chain@[self.tail_pos@] == self.tail
    }

    /// Every live node is reachable from `head`, except the ones named by
    /// `extra` (a node just allocated or just retired).
    spec fn covered_except(&self, extra: Seq<usize>) -> bool {
        forall|s: usize|
            s < self.slots@.len() && #[trigger] self.slots@[s as int] is Some
                ==> self.chain@.contains(s) || extra.contains(s)
    }

    /// No node is left allocated: what teardown leaves behind.
    pub closed spec fn all_freed(&self) -> bool {
        forall|s: usize| s < self.slots@.len() ==> self.slots@[s as int] is None
    }

    /// The queue between operations: a well-formed chain, `tail` on it,
    /// every live node on it, no pin held and nothing left to reclaim.
    pub closed spec fn wf(&self) -> bool {
        &&& self.chain_ok()
        &&& self.tail_ok()
        &&& self.covered_except(Seq::empty())
        &&& self.reclaimer.pin_count() == 0
        &&& self.reclaimer.retired_ids().len() == 0
    }
}

impl<T> View for Queue<T> {
    type V = Seq<T>;

    /// The payloads still queued, front first.
    closed spec fn view(&self) -> Seq<T> {
        Seq::new((self.chain@.len() - 1) as nat, |i: int| self.node(self.chain@[i + 1]).data->0)
    }
}

impl<T> Queue<T> {
    /// An atomic read of `head`.
    fn load_head(&self) -> (h: usize)
        ensures
            h == self.head,
    {
        self.head
    }

    /// An atomic read of `tail`.
    fn load_tail(&self) -> (t: usize)
        ensures
            t == self.tail,
    {
        self.tail
    }

    /// An atomic read of a node's `next` pointer.
    fn load_next(&self, id: usize) -> (n: Option<usize>)
        requires
            self.live(id),
        ensures
            n == self.node(id).next,
    {
        match &self.slots[id] {
            Some(node) => node.next,
            None => None,
        }
    }

    /// An atomic compare-and-swap on `head`.
    fn cas_head(&mut self, expected: usize, new: usize) -> (r: bool)
        ensures
            r == (old(self).head == expected),
            final(self).head == if r {
                new
            } else {
                old(self).head
            },
            final(self).slots@ == old(self).slots@,
            final(self).tail == old(self).tail,
            final(self).reclaimer == old(self).reclaimer,
            final(self).chain == old(self).chain,
            final(self).tail_pos == old(self).tail_pos,
    {
        if self.head == expected {
            self.head = new;
            true
        } else {
            false
        }
    }

    /// An atomic compare-and-swap on `tail`; on success `new_pos` is the
    /// chain position the caller knows the new tail to stand at.
    fn cas_tail(&mut self, expected: usize, new: usize, Ghost(new_pos): Ghost<int>) -> (r: bool)
        ensures
            r == (old(self).tail == expected),
            final(self).tail == if r {
                new
            } else {
                old(self).tail
            },
            final(self).tail_pos@ == if r {
                new_pos
            } else {
                old(self).tail_pos@
            },
            final(self).slots@ == old(self).slots@,
            final(self).head == old(self).head,
            final(self).reclaimer == old(self).reclaimer,
            final(self).chain == old(self).chain,
    {
        if self.tail == expected {
            self.tail = new;
            self.tail_pos = Ghost(new_pos);
            true
        } else {
            false
        }
    }

    /// An atomic compare-and-swap of a node's `next` pointer from null to
    /// `new`.
    fn cas_next_from_null(&mut self, id: usize, new: usize) -> (r: bool)
        requires
            old(self).live(id),
        ensures
            r == (old(self).node(id).next is None),
            final(self).slots@.len() == old(self).slots@.len(),
            r ==> {
                &&& final(self).live(id)
                &&& final(self).node(id).next == Some(new)
                &&& final(self).node(id).data == old(self).node(id).data
                &&& forall|s: int|
                    0 <= s < old(self).slots@.len() && s != id ==> final(self).slots@[s] == old(self).slots@[s]
            },
            !r ==> final(self).slots@ == old(self).slots@,
            final(self).head == old(self).head,
            final(self).tail == old(self).tail,
            final(self).reclaimer == old(self).reclaimer,
            final(self).chain == old(self).chain,
            final(self).tail_pos == old(self).tail_pos,
    {
        let mut node = self.slots[id].take().unwrap();
        let r = if node.next.is_none() {
            node.next = Some(new);
            true
        } else {
            false
        };
        self.slots[id] = Some(node);
        proof {
            if !r {
                assert(final(self).slots@ =~= old(self).slots@);
            }
        }
        r
    }

    /// Allocate a fresh node carrying `value`, not yet linked anywhere.
    fn alloc_node(&mut self, value: T) -> (id: usize)
        ensures
            id == old(self).slots@.len(),
            final(self).slots@.len() == old(self).slots@.len() + 1,
            final(self).live(id),
            final(self).node(id).data == Some(value),
            final(self).node(id).next is None,
            forall|s: int|
                0 <= s < old(self).slots@.len() ==> final(self).slots@[s] == old(self).slots@[s],
            final(self).head == old(self).head,
            final(self).tail == old(self).tail,
            final(self).reclaimer == old(self).reclaimer,
            final(self).chain == old(self).chain,
            final(self).tail_pos == old(self).tail_pos,
    {
        let id = self.slots.len();
        self.slots.push(Some(Node { data: Some(value), next: None }));
        id
    }

    /// Move the payload out of a node; its slot stays allocated, empty.
    fn take_data(&mut self, id: usize) -> (d: T)
        requires
            old(self).live(id),
            old(self).node(id).data is Some,
        ensures
            d == old(self).node(id).data->0,
            final(self).slots@.len() == old(self).slots@.len(),
            final(self).live(id),
            final(self).node(id).data is None,
            final(self).node(id).next == old(self).node(id).next,
            forall|s: int|
                0 <= s < old(self).slots@.len() && s != id
                    ==> final(self).slots@[s] == old(self).slots@[s],
            final(self).head == old(self).head,
            final(self).tail == old(self).tail,
            final(self).reclaimer == old(self).reclaimer,
            final(self).chain == old(self).chain,
            final(self).tail_pos == old(self).tail_pos,
    {
        let mut node = self.slots[id].take().unwrap();
        let d = node.data.take().unwrap();
        self.slots[id] = Some(node);
        d
    }

    /// Destroy the nodes the reclaimer released: their slots go back to
    /// the allocator.
    fn free_nodes(&mut self, ids: Vec<usize>)
        requires
            forall|k: int| 0 <= k < ids@.len() ==> #[trigger] ids@[k] < old(self).slots@.len(),
        ensures
            final(self).slots@.len() == old(self).slots@.len(),
            ids@.len() == 0 ==> final(self).slots@ == old(self).slots@,
            forall|s: usize|
                s < old(self).slots@.len() && !ids@.contains(s)
                    ==> final(self).slots@[s as int] == old(self).slots@[s as int],
            forall|k: int|
                0 <= k < ids@.len() ==> final(self).slots@[#[trigger] ids@[k] as int] is None,
            final(self).head == old(self).head,
            final(self).tail == old(self).tail,
            final(self).reclaimer == old(self).reclaimer,
            final(self).chain == old(self).chain,
            final(self).tail_pos == old(self).tail_pos,
    {
        let n = ids.len();
        let mut k: usize = 0;
        while k < n
            invariant
                n == ids@.len(),
                0 <= k <= n,
                forall|j: int| 0 <= j < ids@.len() ==> #[trigger] ids@[j] < self.slots@.len(),
                self.slots@.len() == old(self).slots@.len(),
                ids@.len() == 0 ==> self.slots@ == old(self).slots@,
                forall|s: usize|
                    s < old(self).slots@.len() && !ids@.take(k as int).contains(s)
                        ==> self.slots@[s as int] == old(self).slots@[s as int],
                forall|j: int|
                    0 <= j < k ==> self.slots@[#[trigger] ids@[j] as int] is None,
                self.head == old(self).head,
                self.tail == old(self).tail,
                self.reclaimer == old(self).reclaimer,
                self.chain == old(self).chain,
                self.tail_pos == old(self).tail_pos,
            decreases n - k,
        {
            let id = ids[k];
            let ghost prev_slots = self.slots@;
            self.slots[id] = None;
            proof {
                assert forall|x: usize| #[trigger] ids@.take(k as int).contains(x) implies ids@.take(
                    k + 1,
                ).contains(x) by {
                    let j = choose|j: int|
                        0 <= j < ids@.take(k as int).len() && ids@.take(k as int)[j] == x;
                    assert(ids@.take(k + 1)[j] == x);
                }
                assert(ids@.take(k + 1)[k as int] == ids@[k as int]);
                assert(ids@.take(k + 1).contains(ids@[k as int]));
                assert forall|x: usize|
                    x < old(self).slots@.len() && !ids@.take(k + 1).contains(x) implies
                    self.slots@[x as int] == old(self).slots@[x as int] by {
                    assert(!ids@.take(k as int).contains(x));
                    assert(x != id);
                    assert(self.slots@[x as int] == prev_slots[x as int]);
                }
            }
            k = k + 1;
        }
        proof {
            assert(ids@.take(n as int) =~= ids@);
        }
    }
}


impl<T> Queue<T> {
    /// Build an empty queue: one sentinel node, shared by `head` and
    /// `tail`.
    pub fn new() -> (q: Self)
        ensures
            q.wf(),
            q@ == Seq::<T>::empty(),
    {
        let mut slots: Vec<Option<Node<T>>> = Vec::new();
        slots.push(Some(Node { data: None, next: None }));
        let ghost c0: Seq<usize> = seq![0usize];
        let q = Queue {
            slots,
            head: 0,
            tail: 0,
            reclaimer: Reclaimer::new(),
            chain: Ghost(c0),
            tail_pos: Ghost(0int),
        };
        proof {
            assert(q.chain@[0] == 0);
            assert(q@ =~= Seq::<T>::empty());
        }
        q
    }

    /// A snapshot of emptiness: true exactly when the sentinel has no
    /// successor at the instant of the read.
    pub fn is_empty(&self) -> (r: bool)
        requires
            self.wf(),
        ensures
            r == (self@.len() == 0),
    {
        let head = self.load_head();
        proof {
            assert(self.chain@[0] == self.head);
        }
        // the sentinel always exists, so head can be dereferenced
        let next = self.load_next(head);
        proof {
            if self.chain@.len() >= 2 {
                assert(self.node(self.chain@[0]).next == Some(self.chain@[1]));
            }
        }
        next.is_none()
    }

    /// Enqueue `value` at the rear of the queue.
    pub fn push(&mut self, value: T)
        requires
            old(self).wf(),
        ensures
            final(self).wf(),
            final(self)@ == old(self)@.push(value),
    {
        self.reclaimer.pin();
        let new_id = self.alloc_node(value);
        proof {
            assert(seq![new_id][0] == new_id);
            assert forall|s: usize|
                s < self.slots@.len() && #[trigger] self.slots@[s as int] is Some implies
                self.chain@.contains(s) || seq![new_id].contains(s) by {
                if s < old(self).slots@.len() {
                    assert(old(self).slots@[s as int] is Some);
                } else {
                    assert(s == new_id);
                }
            }
        }
        loop
            invariant_except_break
                self.chain@ == old(self).chain@,
                !self.chain@.contains(new_id),
                self.node(new_id).next is None,
                forall|s: int|
                    0 <= s < old(self).slots@.len() ==> self.slots@[s] == old(self).slots@[s],
            invariant
                self.chain_ok(),
                self.tail_ok(),
                self.reclaimer.pin_count() == 1,
                self.reclaimer.retired_ids().len() == 0,
                self.head == old(self).head,
                self.slots@.len() == old(self).slots@.len() + 1,
                new_id == old(self).slots@.len(),
                self.live(new_id),
                self.node(new_id).data == Some(value),
                self.covered_except(seq![new_id]),
            ensures
                self.chain_ok(),
                self.tail_ok(),
                self.covered_except(Seq::empty()),
                self.reclaimer.pin_count() == 1,
                self.reclaimer.retired_ids().len() == 0,
                self@ == old(self)@.push(value),
            decreases self.chain@.len() - self.tail_pos@,
        {
            let tail = self.load_tail();
            proof {
                assert(self.chain@[self.tail_pos@] == self.tail);
            }
            // the chain always holds at least the sentinel, so the
            // observed tail can be dereferenced
            let next = self.load_next(tail);
            match next {
                Some(n) => {
                    // the observed tail lags behind the last node: help
                    // advance it one step, then retry.
                    proof {
                        assert(self.tail_pos@ < self.chain@.len() - 1);
                        assert(n == self.chain@[self.tail_pos@ + 1]);
                    }
                    let _ = self.cas_tail(tail, n, Ghost(self.tail_pos@ + 1));
                }
                None => {
                    proof {
                        // a null successor puts the observed tail at the
                        // chain's end
                        if self.tail_pos@ < self.chain@.len() - 1 {
                            assert(self.node(self.chain@[self.tail_pos@]).next == Some(
                                self.chain@[self.tail_pos@ + 1],
                            ));
                        }
                        assert(self.tail_pos@ == self.chain@.len() - 1);
                    }
                    // link the new node past the last one, if its
                    // successor is still null
                    if self.cas_next_from_null(tail, new_id) {
                        let ghost c_old = self.chain@;
                        let ghost new_chain = c_old.push(new_id);
                        self.chain = Ghost(new_chain);
                        proof {
                            assert forall|x: usize| #[trigger] c_old.contains(x) implies
                                new_chain.contains(x) by {
                                let j = choose|j: int| 0 <= j < c_old.len() && c_old[j] == x;
                                assert(new_chain[j] == x);
                            }
                            assert(new_chain[new_chain.len() - 1] == new_id);
                        }
                        // publish the new node as the tail; if this fails
                        // someone else has already advanced it for us
                        let _ = self.cas_tail(tail, new_id, Ghost(new_chain.len() - 1));
                        proof {
                            assert(self@ =~= old(self)@.push(value));
                        }
                        break;
                    }
                    // the successor is no longer null: the observed tail
                    // went stale, retry from a fresh read
                }
            }
        }
        let ghost pre_free = self.slots@;
        let freed = self.reclaimer.unpin();
        // a push retires nothing, so the guard's end destroys nothing
        self.free_nodes(freed);
        proof {
            assert(self.slots@ =~= pre_free);
        }
    }

    /// Dequeue the front payload, or report the queue empty.
    pub fn try_pop(&mut self) -> (r: Option<T>)
        requires
            old(self).wf(),
        ensures
            final(self).wf(),
            old(self)@.len() == 0 ==> r is None && final(self)@ == old(self)@,
            old(self)@.len() > 0 ==> r == Some(old(self)@[0]) && final(self)@ == old(self)@.skip(
                1,
            ),
    {
        self.reclaimer.pin();
        loop
            invariant
                self.chain_ok(),
                self.tail_ok(),
                self.covered_except(Seq::empty()),
                self.reclaimer.pin_count() == 1,
                self.reclaimer.retired_ids().len() == 0,
                self.chain@ == old(self).chain@,
                self.slots@ == old(self).slots@,
                self.head == old(self).head,
            decreases self.chain@.len(),
        {
            let head = self.load_head();
            proof {
                assert(self.chain@[0] == self.head);
            }
            // the sentinel always exists, so head can be dereferenced
            let next = self.load_next(head);
            match next {
                None => {
                    // the sentinel has no successor: the queue is empty.
                    // This check precedes any look at tail.
                    proof {
                        if self.chain@.len() >= 2 {
                            assert(self.node(self.chain@[0]).next == Some(self.chain@[1]));
                        }
                        assert(self.chain@.len() == 1);
                    }
                    let freed = self.reclaimer.unpin();
                    // nothing retired: the guard's end destroys nothing
                    self.free_nodes(freed);
                    proof {
                        assert(self.slots@ =~= old(self).slots@);
                        assert(final(self)@ =~= old(self)@);
                    }
                    return None;
                }
                Some(next_id) => {
                    proof {
                        if self.chain@.len() >= 2 {
                            assert(self.node(self.chain@[0]).next == Some(self.chain@[1]));
                        }
                        assert(self.chain@.len() >= 2);
                        assert(next_id == self.chain@[1]);
                    }
                    let tail = self.load_tail();
                    if head == tail {
                        // tail still points at the sentinel, one full step
                        // behind: help it forward, whatever the outcome
                        proof {
                            if self.tail_pos@ != 0 {
                                assert(self.chain@[0] != self.chain@[self.tail_pos@]);
                            }
                            assert(self.tail_pos@ == 0);
                        }
                        let _ = self.cas_tail(tail, next_id, Ghost(1int));
                    }
                    proof {
                        if self.tail_pos@ == 0 {
                            assert(self.tail == self.head);
                        }
                        assert(self.tail_pos@ >= 1);
                    }
                    // claim the successor as the new sentinel
                    if self.cas_head(head, next_id) {
                        let ghost c_old = self.chain@;
                        self.chain = Ghost(c_old.skip(1));
                        self.tail_pos = Ghost(self.tail_pos@ - 1);
                        // the winner alone reads the payload, exactly once
                        let data = self.take_data(next_id);
                        let ghost post_take = self.slots@;
                        // the old sentinel goes to the reclaimer, not to
                        // the allocator
                        self.reclaimer.retire(head);
                        let freed = self.reclaimer.unpin();
                        proof {
                            assert(freed@.len() == 1 && freed@[0] == head);
                        }
                        self.free_nodes(freed);
                        proof {
                            let pre = old(self).slots@;
                            assert(self.slots@[head as int] is None);
                            assert(!freed@.contains(next_id)) by {
                                if freed@.contains(next_id) {
                                    let j = choose|j: int|
                                        0 <= j < freed@.len() && freed@[j] == next_id;
                                    assert(j == 0);
                                }
                            }
                            assert(self.slots@[next_id as int] == post_take[next_id as int]);
                            assert(self.live(next_id));
                            assert(self.node(next_id).data is None);
                            assert(self.node(next_id).next == old(self).node(next_id).next);
                            assert forall|s: usize|
                                s < self.slots@.len() && s != head && s != next_id implies
                                self.slots@[s as int] == pre[s as int] by {
                                if freed@.contains(s) {
                                    let j = choose|j: int|
                                        0 <= j < freed@.len() && freed@[j] == s;
                                    assert(j == 0);
                                }
                            }
                            assert(self.chain@.len() == c_old.len() - 1);
                            assert forall|s: usize|
                                s < self.slots@.len() && #[trigger] self.slots@[s as int] is Some
                                implies self.chain@.contains(s) by {
                                if s == next_id {
                                    assert(self.chain@[0] == next_id);
                                } else {
                                    assert(s != head);
                                    assert(pre[s as int] is Some);
                                    assert(old(self).covered_except(Seq::empty()));
                                    assert(c_old.contains(s));
                                    let j = choose|j: int| 0 <= j < c_old.len() && c_old[j] == s;
                                    assert(c_old[0] == head);
                                    assert(j != 0);
                                    assert(self.chain@[j - 1] == s);
                                }
                            }
                            let c_new = self.chain@;
                            assert(c_new[0] == c_old[1]);
                            assert forall|i: int| 0 <= i < c_new.len() implies self.live(
                                #[trigger] c_new[i],
                            ) by {
                                assert(c_new[i] == c_old[i + 1]);
                                if c_old[i + 1] != next_id {
                                    assert(c_old[i + 1] != c_old[0]);
                                    assert(self.slots@[c_old[i + 1] as int] == old(self).slots@[c_old[i + 1] as int]);
                                }
                            }
                            assert forall|i: int| 0 <= i < c_new.len() - 1 implies self.node(
                                #[trigger] c_new[i],
                            ).next == Some(c_new[i + 1]) by {
                                assert(c_new[i] == c_old[i + 1]);
                                assert(c_new[i + 1] == c_old[i + 2]);
                                assert(old(self).node(c_old[i + 1]).next == Some(c_old[i + 2]));
                                if c_old[i + 1] != next_id {
                                    assert(c_old[i + 1] != c_old[0]);
                                    assert(self.slots@[c_old[i + 1] as int] == old(self).slots@[c_old[i + 1] as int]);
                                }
                            }
                            assert(c_new[c_new.len() - 1] == c_old[c_old.len() - 1]);
                            assert(self.node(c_new[c_new.len() - 1]).next is None) by {
                                if c_old[c_old.len() - 1] != next_id {
                                    assert(c_old[c_old.len() - 1] != c_old[0]);
                                    assert(self.slots@[c_old[c_old.len() - 1] as int] == old(self).slots@[c_old[c_old.len() - 1] as int]);
                                }
                            }
                            assert forall|i: int, j: int| 0 <= i < j < c_new.len() implies c_new[i]
                                != c_new[j] by {
                                assert(c_new[i] == c_old[i + 1]);
                                assert(c_new[j] == c_old[j + 1]);
                            }
                            assert(self.node(c_new[0]).data is None);
                            assert forall|i: int| 1 <= i < c_new.len() implies self.node(
                                #[trigger] c_new[i],
                            ).data is Some by {
                                assert(c_new[i] == c_old[i + 1]);
                                assert(c_old[i + 1] != c_old[0]);
                                assert(c_old[i + 1] != c_old[1]);
                                assert(self.slots@[c_old[i + 1] as int] == old(self).slots@[c_old[i + 1] as int]);
                            }
                            assert(c_new[self.tail_pos@] == c_old[self.tail_pos@ + 1]);
                            assert(data == old(self)@[0]);
                            assert forall|i: int| 0 <= i < c_new.len() - 1 implies self.node(
                                #[trigger] c_new[i + 1],
                            ).data->0 == old(self)@[i + 1] by {
                                assert(c_new[i + 1] == c_old[i + 2]);
                                assert(c_old[i + 2] != c_old[0]);
                                assert(c_old[i + 2] != c_old[1]);
                                assert(self.slots@[c_old[i + 2] as int] == old(self).slots@[c_old[i + 2] as int]);
                            }
                            assert(self@ =~= old(self)@.skip(1));
                        }
                        return Some(data);
                    }
                    // another thread advanced head first: retry
                }
            }
        }
    }

    /// Dequeue the front payload, spinning until one is there.  On an
    /// empty queue the retries could never end, so emptiness is ruled
    /// out here.  Each attempt pins the reclaimer afresh.
    pub fn pop(&mut self) -> (r: T)
        requires
            old(self).wf(),
            old(self)@.len() > 0,
        ensures
            final(self).wf(),
            r == old(self)@[0],
            final(self)@ == old(self)@.skip(1),
    {
        loop
            invariant
                self.wf(),
                self@ == old(self)@,
                old(self)@.len() > 0,
            decreases self@.len(),
        {
            if let Some(data) = self.try_pop() {
                return data;
            }
        }
    }

    /// Tear the queue down: walk the chain from the sentinel without any
    /// pin (the caller holds the queue exclusively), hand back every
    /// remaining payload exactly once, in order, and give every node back
    /// to the allocator.
    pub fn teardown(&mut self) -> (drained: Vec<T>)
        requires
            old(self).wf(),
        ensures
            drained@ == old(self)@,
            final(self).all_freed(),
    {
        let mut drained: Vec<T> = Vec::new();
        let mut cur: Option<usize> = Some(self.load_head());
        let ghost c = self.chain@;
        let ghost mut k: int = 0;
        proof {
            assert(c[0] == self.head);
        }
        while cur.is_some()
            invariant
                0 <= k <= c.len(),
                c == old(self).chain@,
                old(self).wf(),
                cur matches Some(id) ==> k < c.len() && id == c[k],
                cur is None ==> k == c.len(),
                self.slots@.len() == old(self).slots@.len(),
                forall|i: int| 0 <= i < k ==> self.slots@[#[trigger] c[i] as int] is None,
                forall|s: usize|
                    s < old(self).slots@.len() && !c.take(k).contains(s)
                        ==> self.slots@[s as int] == old(self).slots@[s as int],
                drained@ == if k == 0 {
                    Seq::<T>::empty()
                } else {
                    old(self)@.take(k - 1)
                },
            decreases c.len() - k,
        {
            let id = cur.unwrap();
            proof {
                assert(!c.take(k).contains(c[k])) by {
                    if c.take(k).contains(c[k]) {
                        let j = choose|j: int| 0 <= j < k && c.take(k)[j] == c[k];
                        assert(c[j] == c[k]);
                    }
                }
                assert(self.slots@[id as int] == old(self).slots@[id as int]);
            }
            // consume the node whole: no pin protects this walk
            let ghost prev_slots = self.slots@;
            let node = self.slots[id].take().unwrap();
            if let Some(d) = node.data {
                drained.push(d);
            }
            cur = node.next;
            proof {
                assert forall|x: usize| #[trigger] c.take(k).contains(x) implies c.take(k + 1)
                    .contains(x) by {
                    let j = choose|j: int| 0 <= j < c.take(k).len() && c.take(k)[j] == x;
                    assert(c.take(k + 1)[j] == x);
                }
                assert(c.take(k + 1)[k] == c[k]);
                assert(c.take(k + 1).contains(c[k]));
                assert forall|x: usize|
                    x < old(self).slots@.len() && !c.take(k + 1).contains(x) implies
                    self.slots@[x as int] == old(self).slots@[x as int] by {
                    assert(!c.take(k).contains(x));
                    assert(x != id);
                    assert(self.slots@[x as int] == prev_slots[x as int]);
                }
                if k == 0 {
                    assert(old(self).node(c[0]).data is None);
                    assert(drained@ =~= old(self)@.take(0));
                } else {
                    assert(old(self).node(c[k]).data is Some);
                    assert(old(self).node(c[k]).data->0 == old(self)@[k - 1]);
                    assert(drained@ =~= old(self)@.take(k));
                }
                k = k + 1;
            }
        }
        proof {
            assert(drained@ =~= old(self)@);
            assert(c.take(k) =~= c);
            assert forall|s: usize|
                s < self.slots@.len() implies #[trigger] self.slots@[s as int] is None by {
                if self.slots@[s as int] is Some {
                    if c.take(k).contains(s) {
                        let j = choose|j: int| 0 <= j < c.take(k).len() && c.take(k)[j] == s;
                        assert(c[j] == s);
                        assert(self.slots@[c[j] as int] is None);
                    } else {
                        assert(self.slots@[s as int] == old(self).slots@[s as int]);
                        assert(old(self).covered_except(Seq::empty()));
                        assert(c.contains(s));
                        assert(c.take(k) =~= c);
                        assert(c.take(k).contains(s));
                    }
                }
            }
        }
        drained
    }
}


/// Law: enqueueing adds exactly one copy of the value to the queue's
/// contents, as `push`'s contract changes the view; nothing else is
/// gained or lost.
pub proof fn lemma_push_conserves<T>(before: Seq<T>, after: Seq<T>, value: T)
    requires
        after == before.push(value),
    ensures
        after.to_multiset() == before.to_multiset().insert(value),
{
    broadcast use vstd::seq_lib::group_to_multiset_ensures;

}

/// Law: a successful dequeue removes exactly one copy of the delivered
/// value, the one at the front, as `try_pop`'s contract changes the
/// view; nothing else is gained or lost.
pub proof fn lemma_pop_conserves<T>(before: Seq<T>, after: Seq<T>, value: T)
    requires
        before.len() > 0,
        value == before[0],
        after == before.skip(1),
    ensures
        before.to_multiset() == after.to_multiset().insert(value),
{
    broadcast use vstd::seq_lib::group_to_multiset_ensures;

    assert(before.remove(0) =~= after);
    assert(after.to_multiset() =~= before.to_multiset().remove(value));
    assert(before.contains(value));
    assert(before.to_multiset().count(value) > 0);
    assert(before.to_multiset() =~= after.to_multiset().insert(value));
}

} // verus!
