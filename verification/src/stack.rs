//! Two last-in-first-out stacks over an owned singly linked chain: one
//! keeps its entries boxed from the head down, the other holds the top
//! entry inline and boxes only the rest.

use vstd::prelude::*;

verus! {

pub struct Stack<T> {
    head: Option<Box<Entry<T>>>,
}

pub struct Stack2<T> {
    head: Option<Entry<T>>,
}

pub struct Entry<T> {
    val: T,
    prev: Option<Box<Entry<T>>>,
}

/// The values held by `e` and everything below it, bottom first, top last.
pub closed spec fn chain_view<T>(e: &Entry<T>) -> Seq<T>
    decreases e,
{
    match e.prev {
        None => seq![e.val],
        Some(p) => chain_view(&*p).push(e.val),
    }
}

impl<T> View for Stack<T> {
    type V = Seq<T>;

    /// The stack's values, bottom first, top last.
    closed spec fn view(&self) -> Seq<T> {
        match self.head {
            None => Seq::empty(),
            Some(e) => chain_view(&*e),
        }
    }
}

impl<T> View for Stack2<T> {
    type V = Seq<T>;

    /// The stack's values, bottom first, top last.
    closed spec fn view(&self) -> Seq<T> {
        match self.head {
            None => Seq::empty(),
            Some(e) => chain_view(&e),
        }
    }
}

impl<T> Stack<T> {
    pub fn new() -> (s: Self)
        ensures
            s@ == Seq::<T>::empty(),
    {
        Self { head: None }
    }

    pub fn push(&mut self, val: T)
        ensures
            final(self)@ == old(self)@.push(val),
    {
        match self.head {
            None => {
                self.head = Some(Box::new(Entry { val, prev: None }));
                proof {
                    assert(old(self)@.push(val) =~= seq![val]);
                }
            }
            Some(_) => {
                let mut new_head = Box::new(Entry { val, prev: None });
                new_head.prev = self.head.take();
                self.head = Some(new_head);
            }
        }
    }

    pub fn pop(&mut self) -> (r: Option<T>)
        ensures
            old(self)@.len() == 0 ==> r is None && final(self)@ == old(self)@,
            old(self)@.len() > 0 ==> {
                &&& r == Some(old(self)@.last())
                &&& final(self)@ == old(self)@.drop_last()
            },
    {
        match self.head {
            None => None,
            Some(_) => {
                let mut head = self.head.take().unwrap();
                // if there's another entry down the stack, make it head.
                self.head = head.prev.take();
                Some(head.val)
            }
        }
    }
}

impl<T> Stack2<T> {
    pub fn new() -> (s: Stack2<T>)
        ensures
            s@ == Seq::<T>::empty(),
    {
        Stack2 { head: None }
    }

    pub fn push(&mut self, val: T)
        ensures
            final(self)@ == old(self)@.push(val),
    {
        let mut entry = Entry { val, prev: None };
        if let Some(top) = self.head.take() {
            entry.prev = Some(Box::new(top));
        }
        self.head = Some(entry);
        proof {
            assert(old(self)@.push(val) =~= self@);
        }
    }

    pub fn pop(&mut self) -> (r: Option<T>)
        ensures
            old(self)@.len() == 0 ==> r is None && final(self)@ == old(self)@,
            old(self)@.len() > 0 ==> {
                &&& r == Some(old(self)@.last())
                &&& final(self)@ == old(self)@.drop_last()
            },
    {
        match self.head.take() {
            None => None,
            Some(head) => {
                self.head = match head.prev {
                    None => None,
                    Some(val) => Some(*val),
                };
                Some(head.val)
            }
        }
    }

    pub fn peek(&self) -> (r: Option<&T>)
        ensures
            self@.len() == 0 ==> r is None,
            self@.len() > 0 ==> (r matches Some(v) && *v == self@.last()),
    {
        match self.head {
            None => None,
            Some(ref head) => Some(&head.val),
        }
    }

    pub fn peek_nth(&self, n: usize) -> (r: Option<&T>)
        ensures
            n < self@.len() ==> (r matches Some(v) && *v == self@[self@.len() - 1 - n]),
            n >= self@.len() ==> r is None,
    {
        if self.head.is_none() {
            return None;
        }

        let head = self.head.as_ref().unwrap();
        if n == 0 {
            return Some(&head.val);
        }

        proof {
            lemma_chain_drop_top(head);
            assert(self@.drop_last() =~= self@.take(self@.len() - 1));
        }
        let mut current = head.prev.as_ref();
        let mut steps: usize = 1;
        while steps < n
            invariant
                1 <= steps <= n,
                self@ == chain_view(head),
                match current {
                    Some(e) => steps < self@.len() && chain_view(&**e) == self@.take(
                        self@.len() - steps,
                    ),
                    None => self@.len() <= steps,
                },
            decreases n - steps,
        {
            match current {
                None => return None,
                Some(e) => {
                    proof {
                        lemma_chain_drop_top(e);
                        assert(self@.take(self@.len() - steps).drop_last() =~= self@.take(
                            self@.len() - (steps + 1),
                        ));
                    }
                    current = e.prev.as_ref();
                }
            }
            steps = steps + 1;
        }

        match current {
            None => None,
            Some(e) => {
                proof {
                    lemma_chain_drop_top(e);
                }
                Some(&e.val)
            }
        }
    }
}

/// Stepping from an entry to the one below it drops the chain's top value.
proof fn lemma_chain_drop_top<T>(e: &Entry<T>)
    ensures
        chain_view(e).len() >= 1,
        chain_view(e).last() == e.val,
        match e.prev {
            Some(p) => chain_view(&*p) == chain_view(e).drop_last() && chain_view(e).len()
                == chain_view(&*p).len() + 1,
            None => chain_view(e).len() == 1,
        },
{
    match e.prev {
        Some(p) => {
            assert(chain_view(&*p).len() >= 1) by {
                match p.prev {
                    Some(_) => {}
                    None => {}
                }
            }
            assert(chain_view(e) == chain_view(&*p).push(e.val));
            assert(chain_view(&*p) =~= chain_view(e).drop_last());
        }
        None => {}
    }
}

impl<T> Entry<T> {
    pub fn new(val: T) -> (e: Self)
        ensures
            chain_view(&e) == seq![val],
    {
        Self { val, prev: None }
    }
}

} // verus!
