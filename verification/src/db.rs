//! An in-memory employee database: departments in the order they first
//! appeared, each with its employees in the order they were added.

use crate::template::str_eq;
use vstd::prelude::*;

verus! {

pub struct Db {
    db: Vec<(String, Vec<String>)>,
}

pub enum AddEmplResult {
    Added,
    AlreadyExists,
}

/// `i` is where `name`'s department stands: the first entry so named.
pub open spec fn dept_at(v: Seq<(Seq<char>, Seq<Seq<char>>)>, name: Seq<char>, i: int) -> bool {
    &&& 0 <= i < v.len()
    &&& v[i].0 == name
    &&& forall|j: int| 0 <= j < i ==> (#[trigger] v[j]).0 != name
}

/// Every department's employees, departments in order.
pub open spec fn concat_all(v: Seq<(Seq<char>, Seq<Seq<char>>)>) -> Seq<Seq<char>>
    decreases v.len(),
{
    if v.len() == 0 {
        Seq::empty()
    } else {
        concat_all(v.drop_last()) + v.last().1
    }
}

/// Every employee beside their department's name, departments in order.
pub open spec fn pairs_all(v: Seq<(Seq<char>, Seq<Seq<char>>)>) -> Seq<(Seq<char>, Seq<char>)>
    decreases v.len(),
{
    if v.len() == 0 {
        Seq::empty()
    } else {
        pairs_all(v.drop_last()) + v.last().1.map_values(|e: Seq<char>| (v.last().0, e))
    }
}

impl View for Db {
    type V = Seq<(Seq<char>, Seq<Seq<char>>)>;

    /// The departments in order, each with its employees in order.
    closed spec fn view(&self) -> Seq<(Seq<char>, Seq<Seq<char>>)> {
        Seq::new(self.db@.len(), |i: int| (self.db@[i].0@, self.db@[i].1.deep_view()))
    }
}

impl Db {
    pub fn new() -> (d: Self)
        ensures
            d@ == Seq::<(Seq<char>, Seq<Seq<char>>)>::empty(),
    {
        let d = Self { db: Vec::new() };
        proof {
            assert(d@ =~~= Seq::<(Seq<char>, Seq<Seq<char>>)>::empty());
        }
        d
    }

    /// Add an employee to a department, opening the department if it is
    /// new; an employee already on that department's list is not added
    /// twice.
    pub fn add_empl(&mut self, dpt: String, empl: String) -> (r: AddEmplResult)
        ensures
            forall|i: int|
                dept_at(old(self)@, dpt@, i) ==> if old(self)@[i].1.contains(empl@) {
                    r is AlreadyExists && final(self)@ == old(self)@
                } else {
                    r is Added && final(self)@ == old(self)@.update(
                        i,
                        (dpt@, old(self)@[i].1.push(empl@)),
                    )
                },
            (forall|i: int| !dept_at(old(self)@, dpt@, i)) ==> r is Added && final(self)@ == old(
                self,
            )@.push((dpt@, seq![empl@])),
    {
        let ghost gd = dpt@;
        let ghost ge = empl@;
        match self.find_dept(dpt.as_str()) {
            Some(i) => {
                if self.member_of(i, empl.as_str()) {
                    AddEmplResult::AlreadyExists
                } else {
                    let entry = &mut self.db[i];
                    entry.1.push(empl);
                    proof {
                        assert(final(self)@ =~~= old(self)@.update(
                            i as int,
                            (gd, old(self)@[i as int].1.push(ge)),
                        ));
                    }
                    AddEmplResult::Added
                }
            },
            None => {
                let mut empls: Vec<String> = Vec::new();
                empls.push(empl);
                self.db.push((dpt, empls));
                proof {
                    assert(empls@.len() == 1);
                    assert(final(self)@ =~~= old(self)@.push((gd, seq![ge])));
                }
                AddEmplResult::Added
            },
        }
    }

    /// Where `name`'s department stands, if it exists.
    fn find_dept(&self, name: &str) -> (r: Option<usize>)
        ensures
            match r {
                Some(i) => dept_at(self@, name@, i as int),
                None => forall|i: int| !dept_at(self@, name@, i),
            },
    {
        let n = self.db.len();
        let mut i: usize = 0;
        while i < n
            invariant
                i <= n,
                n == self.db@.len(),
                self@.len() == n,
                forall|j: int| 0 <= j < i ==> (#[trigger] self@[j]).0 != name@,
            decreases n - i,
        {
            if str_eq(self.db[i].0.as_str(), name) {
                return Some(i);
            }
            i = i + 1;
        }
        None
    }

    /// Whether the department standing at `i` lists `name`.
    fn member_of(&self, i: usize, name: &str) -> (r: bool)
        requires
            i < self@.len(),
        ensures
            r == self@[i as int].1.contains(name@),
    {
        let list = &self.db[i].1;
        let n = list.len();
        let mut j: usize = 0;
        while j < n
            invariant
                j <= n,
                i < self@.len(),
                n == self.db@[i as int].1@.len(),
                list == &self.db@[i as int].1,
                forall|q: int| 0 <= q < j ==> self@[i as int].1[q] != name@,
            decreases n - j,
        {
            if str_eq(list[j].as_str(), name) {
                proof {
                    assert(self@[i as int].1[j as int] == name@);
                }
                return true;
            }
            j = j + 1;
        }
        proof {
            if self@[i as int].1.contains(name@) {
                let q = choose|q: int|
                    0 <= q < self@[i as int].1.len() && self@[i as int].1[q] == name@;
            }
        }
        false
    }

    /// Every employee, departments in order.
    pub fn get_all_empls(&self) -> (r: Vec<String>)
        ensures
            r.deep_view() == concat_all(self@),
    {
        let n = self.db.len();
        let mut r: Vec<String> = Vec::new();
        let mut i: usize = 0;
        proof {
            assert(r.deep_view() =~~= concat_all(self@.take(0)));
        }
        while i < n
            invariant
                i <= n,
                n == self.db@.len(),
                self@.len() == n,
                r.deep_view() == concat_all(self@.take(i as int)),
            decreases n - i,
        {
            let list = &self.db[i].1;
            let m = list.len();
            let mut j: usize = 0;
            proof {
                assert(concat_all(self@.take(i as int)) + self@[i as int].1.take(0)
                    =~~= concat_all(self@.take(i as int)));
            }
            while j < m
                invariant
                    j <= m,
                    i < n,
                    n == self.db@.len(),
                    self@.len() == n,
                    list == &self.db@[i as int].1,
                    m == self@[i as int].1.len(),
                    r.deep_view() == concat_all(self@.take(i as int)) + self@[i as int].1.take(
                        j as int,
                    ),
                decreases m - j,
            {
                let ghost dv0 = r.deep_view();
                r.push(list[j].clone());
                proof {
                    assert(r.deep_view() =~~= dv0.push(self@[i as int].1[j as int]));
                    assert(dv0.push(self@[i as int].1[j as int]) =~= concat_all(
                        self@.take(i as int),
                    ) + self@[i as int].1.take(j + 1));
                }
                j = j + 1;
            }
            i = i + 1;
            proof {
                assert(self@.take(i as int).drop_last() =~= self@.take(i as int - 1));
                assert(self@.take(i as int).last() == self@[i as int - 1]);
                assert(self@[i as int - 1].1.take(m as int) =~= self@[i as int - 1].1);
            }
        }
        proof {
            assert(self@.take(n as int) =~= self@);
        }
        r
    }

    /// Every employee beside their department's name, departments in
    /// order.
    pub fn get_all_dpt_empls(&self) -> (r: Vec<(String, String)>)
        ensures
            r.deep_view() == pairs_all(self@),
    {
        let n = self.db.len();
        let mut r: Vec<(String, String)> = Vec::new();
        let mut i: usize = 0;
        proof {
            assert(r.deep_view() =~~= pairs_all(self@.take(0)));
        }
        while i < n
            invariant
                i <= n,
                n == self.db@.len(),
                self@.len() == n,
                r.deep_view() == pairs_all(self@.take(i as int)),
            decreases n - i,
        {
            let m = self.db[i].1.len();
            let mut j: usize = 0;
            proof {
                assert(pairs_all(self@.take(i as int)) + self@[i as int].1.take(0).map_values(
                    |e: Seq<char>| (self@[i as int].0, e),
                ) =~~= pairs_all(self@.take(i as int)));
            }
            while j < m
                invariant
                    j <= m,
                    i < n,
                    n == self.db@.len(),
                    self@.len() == n,
                    m == self@[i as int].1.len(),
                    r.deep_view() == pairs_all(self@.take(i as int)) + self@[i as int].1.take(
                        j as int,
                    ).map_values(|e: Seq<char>| (self@[i as int].0, e)),
                decreases m - j,
            {
                let dpt = self.db[i].0.clone();
                let empl = self.db[i].1[j].clone();
                let ghost dv0 = r.deep_view();
                r.push((dpt, empl));
                proof {
                    assert(r.deep_view() =~~= dv0.push((self@[i as int].0, self@[i as int].1[
                        j as int
                    ])));
                    assert(self@[i as int].1.take(j + 1).map_values(
                        |e: Seq<char>| (self@[i as int].0, e),
                    ) =~= self@[i as int].1.take(j as int).map_values(
                        |e: Seq<char>| (self@[i as int].0, e),
                    ).push((self@[i as int].0, self@[i as int].1[j as int])));
                    assert(dv0.push((self@[i as int].0, self@[i as int].1[j as int])) =~= pairs_all(
                        self@.take(i as int),
                    ) + self@[i as int].1.take(j + 1).map_values(
                        |e: Seq<char>| (self@[i as int].0, e),
                    ));
                }
                j = j + 1;
            }
            i = i + 1;
            proof {
                assert(self@.take(i as int).drop_last() =~= self@.take(i as int - 1));
                assert(self@.take(i as int).last() == self@[i as int - 1]);
                assert(self@[i as int - 1].1.take(m as int) =~= self@[i as int - 1].1);
                assert(self@[i as int - 1].1.take(m as int).map_values(
                    |e: Seq<char>| (self@[i as int - 1].0, e),
                ) =~= self@[i as int - 1].1.map_values(|e: Seq<char>| (self@[i as int - 1].0, e)));
            }
        }
        proof {
            assert(self@.take(n as int) =~= self@);
        }
        r
    }

    /// The employees of one department, in order; none where the
    /// department does not exist.
    pub fn get_empls(&self, dpt: &str) -> (r: Vec<String>)
        ensures
            forall|i: int| dept_at(self@, dpt@, i) ==> r.deep_view() == self@[i].1,
            (forall|i: int| !dept_at(self@, dpt@, i)) ==> r.deep_view() == Seq::<Seq<char>>::empty(),
    {
        match self.find_dept(dpt) {
            Some(i) => {
                let list = &self.db[i].1;
                let m = list.len();
                let mut r: Vec<String> = Vec::new();
                let mut j: usize = 0;
                proof {
                    assert(r.deep_view() =~~= self@[i as int].1.take(0));
                }
                while j < m
                    invariant
                        j <= m,
                        i < self.db@.len(),
                        self@.len() == self.db@.len(),
                        list == &self.db@[i as int].1,
                        m == self@[i as int].1.len(),
                        r.deep_view() == self@[i as int].1.take(j as int),
                    decreases m - j,
                {
                    let ghost dv0 = r.deep_view();
                    r.push(list[j].clone());
                    proof {
                        assert(r.deep_view() =~~= dv0.push(self@[i as int].1[j as int]));
                        assert(dv0.push(self@[i as int].1[j as int]) =~= self@[i as int].1.take(
                            j + 1,
                        ));
                    }
                    j = j + 1;
                }
                proof {
                    assert(self@[i as int].1.take(m as int) =~= self@[i as int].1);
                }
                r
            },
            None => {
                let r: Vec<String> = Vec::new();
                proof {
                    assert(r.deep_view() =~~= Seq::<Seq<char>>::empty());
                }
                r
            },
        }
    }
}

} // verus!
