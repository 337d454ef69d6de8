//! A plain owned first-in-first-out queue: values enter at the back and
//! leave at the front, one at a time.  `pop` and `pop2` are two takes on
//! the same dequeue operation and behave alike.

use vstd::prelude::*;

verus! {

pub struct Queue<T> {
    next_id: usize,
    items: Vec<T>,
}

impl<T> View for Queue<T> {
    type V = Seq<T>;

    /// The queued values, front first.
    closed spec fn view(&self) -> Seq<T> {
        self.items@
    }
}

impl<T> Queue<T> {
    pub fn new() -> (q: Self)
        ensures
            q@ == Seq::<T>::empty(),
    {
        Self { next_id: 0, items: Vec::new() }
    }

    pub fn push(&mut self, val: T)
        ensures
            final(self)@ == old(self)@.push(val),
    {
        self.items.push(val);
        if self.next_id < usize::MAX {
            self.next_id = self.next_id + 1;
        }
    }

    pub fn pop(&mut self) -> (r: Option<T>)
        ensures
            old(self)@.len() == 0 ==> r is None && final(self)@ == old(self)@,
            old(self)@.len() > 0 ==> r == Some(old(self)@[0]) && final(self)@ == old(self)@.skip(
                1,
            ),
    {
        if self.items.len() == 0 {
            None
        } else {
            let val = self.items.remove(0);
            proof {
                assert(final(self)@ =~= old(self)@.skip(1));
            }
            Some(val)
        }
    }

    pub fn pop2(&mut self) -> (r: Option<T>)
        ensures
            old(self)@.len() == 0 ==> r is None && final(self)@ == old(self)@,
            old(self)@.len() > 0 ==> r == Some(old(self)@[0]) && final(self)@ == old(self)@.skip(
                1,
            ),
    {
        if self.is_single_node() {
            // head and tail stand on the same value: taking it empties
            // the queue outright
            let val = self.items.remove(0);
            proof {
                assert(final(self)@ =~= old(self)@.skip(1));
            }
            Some(val)
        } else {
            self.pop()
        }
    }

    /// True when the queue holds exactly one value.
    fn is_single_node(&self) -> (r: bool)
        ensures
            r == (self@.len() == 1),
    {
        self.items.len() == 1
    }
}

} // verus!
