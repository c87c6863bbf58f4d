//! A table from names to values that keeps the order in which the names
//! came in. No name occurs twice.

use vstd::prelude::*;
use vstd::string::*;

use crate::text::{chars_of, comes_before, lemma_text_before_total, lemma_text_before_trans, text_before};

verus! {

/// A table from names to values, in the order of first insertion.
#[derive(Debug)]
pub struct Table<V> {
    entries: Vec<(String, V)>,
}

impl<V> Table<V> {
    #[verifier::type_invariant]
    spec fn distinct_names(&self) -> bool {
        forall|i: int, j: int|
            0 <= i < j < self.entries@.len() ==> (#[trigger] self.entries@[i]).0@ != (#[trigger] self.entries@[j]).0@
    }

    /// The number of entries.
    pub closed spec fn size(&self) -> nat {
        self.entries@.len()
    }

    /// The name of the entry at position `i`.
    pub closed spec fn name_at(&self, i: int) -> Seq<char> {
        self.entries@[i].0@
    }

    /// The value of the entry at position `i`.
    pub closed spec fn value_at(&self, i: int) -> V {
        self.entries@[i].1
    }

    /// The table has an entry of that name.
    pub open spec fn has(&self, name: Seq<char>) -> bool {
        exists|i: int| 0 <= i < self.size() && #[trigger] self.name_at(i) == name
    }

    /// The position of the entry of that name.
    pub open spec fn position(&self, name: Seq<char>) -> int {
        choose|i: int| 0 <= i < self.size() && #[trigger] self.name_at(i) == name
    }

    /// The value under that name.
    pub open spec fn at(&self, name: Seq<char>) -> V {
        self.value_at(self.position(name))
    }

    /// No two entries have the same name.
    pub open spec fn distinct(&self) -> bool {
        forall|i: int, j: int|
            0 <= i < self.size() && 0 <= j < self.size() && i != j ==> #[trigger] self.name_at(i)
                != #[trigger] self.name_at(j)
    }

    /// The empty table.
    pub fn new() -> (table: Self)
        ensures
            table.size() == 0,
    {
        Table { entries: Vec::new() }
    }

    /// The number of entries.
    pub fn len(&self) -> (n: usize)
        ensures
            n == self.size(),
            self.distinct(),
    {
        proof {
            use_type_invariant(self);
            assert forall|i: int, j: int|
                0 <= i < self.size() && 0 <= j < self.size() && i != j implies #[trigger] self.name_at(i)
                != #[trigger] self.name_at(j) by {
                if i < j {
                    assert(self.entries@[i].0@ != self.entries@[j].0@);
                } else {
                    assert(self.entries@[j].0@ != self.entries@[i].0@);
                }
            }
        }
        self.entries.len()
    }

    /// The name of the entry at position `i`.
    pub fn name(&self, i: usize) -> (name: &String)
        requires
            i < self.size(),
        ensures
            name@ == self.name_at(i as int),
    {
        &self.entries[i].0
    }

    /// The value of the entry at position `i`.
    pub fn value(&self, i: usize) -> (value: &V)
        requires
            i < self.size(),
        ensures
            *value == self.value_at(i as int),
    {
        &self.entries[i].1
    }

    /// The position of the entry of that name, if there is one.
    pub fn find(&self, name: &str) -> (found: Option<usize>)
        ensures
            match found {
                Some(i) => i < self.size() && self.name_at(i as int) == name@ && self.has(name@) && i
                    == self.position(name@),
                None => !self.has(name@),
            },
    {
        let wanted = name.to_owned();
        let mut i: usize = 0;
        while i < self.entries.len()
            invariant
                i <= self.entries@.len(),
                wanted@ == name@,
                forall|j: int| 0 <= j < i ==> #[trigger] self.name_at(j) != name@,
            decreases self.entries.len() - i,
        {
            if self.entries[i].0 == wanted {
                proof {
                    use_type_invariant(self);
                    assert(self.name_at(i as int) == name@);
                    let p = self.position(name@);
                    if p < i {
                        assert(self.entries@[p].0@ != self.entries@[i as int].0@);
                    } else if p > i {
                        assert(self.entries@[i as int].0@ != self.entries@[p].0@);
                    }
                }
                return Some(i);
            }
            i = i + 1;
        }
        None
    }

    /// The value under that name, if there is one.
    pub fn get(&self, name: &str) -> (value: Option<&V>)
        ensures
            match value {
                Some(v) => self.has(name@) && *v == self.at(name@),
                None => !self.has(name@),
            },
    {
        match self.find(name) {
            Some(i) => Some(&self.entries[i].1),
            None => None,
        }
    }

    /// Puts `value` under `name`: in place of the value that was there, or
    /// at the end where the name is new.
    pub fn insert(&mut self, name: String, value: V)
        ensures
            final(self).distinct(),
            final(self).has(name@),
            final(self).at(name@) == value,
            old(self).has(name@) ==> final(self).size() == old(self).size() && final(self).position(name@)
                == old(self).position(name@),
            !old(self).has(name@) ==> final(self).size() == old(self).size() + 1 && final(self).position(name@)
                == old(self).size(),
            forall|i: int|
                0 <= i < final(self).size() ==> #[trigger] final(self).name_at(i) == (if i < old(self).size() {
                    old(self).name_at(i)
                } else {
                    name@
                }),
            forall|i: int|
                0 <= i < old(self).size() && old(self).name_at(i) != name@ ==> #[trigger] final(self).value_at(i)
                    == old(self).value_at(i),
    {
        proof {
            use_type_invariant(&*self);
        }
        let found = self.find(name.as_str());
        let mut entries: Vec<(String, V)> = Vec::new();
        core::mem::swap(&mut self.entries, &mut entries);
        match found {
            Some(i) => {
                entries.set(i, (name, value));
            },
            None => {
                entries.push((name, value));
            },
        }
        proof {
            let n = old(self).size() as int;
            assert forall|i: int, j: int| 0 <= i < j < entries@.len() implies (#[trigger] entries@[i]).0@ != (
            #[trigger] entries@[j]).0@ by {
                if j < n {
                    assert(old(self).entries@[i].0@ != old(self).entries@[j].0@);
                } else {
                    assert(old(self).name_at(i) != name@);
                }
            }
        }
        core::mem::swap(&mut self.entries, &mut entries);
        proof {
            let n = old(self).size() as int;
            use_type_invariant(&*self);
            assert forall|i: int, j: int|
                0 <= i < self.size() && 0 <= j < self.size() && i != j implies #[trigger] self.name_at(i)
                != #[trigger] self.name_at(j) by {
                if i < j {
                    assert(self.entries@[i].0@ != self.entries@[j].0@);
                } else {
                    assert(self.entries@[j].0@ != self.entries@[i].0@);
                }
            }
            match found {
                Some(i) => {
                    assert(self.name_at(i as int) == name@);
                    let p = self.position(name@);
                    if p < i {
                        assert(self.entries@[p].0@ != self.entries@[i as int].0@);
                    } else if p > i {
                        assert(self.entries@[i as int].0@ != self.entries@[p].0@);
                    }
                },
                None => {
                    assert(self.name_at(n) == name@);
                    let p = self.position(name@);
                    if p < n {
                        assert(old(self).name_at(p) != name@);
                    }
                },
            }
        }
    }
}

impl<V> Table<V> {
    /// `order` lists every position of the table once, by rising name.
    pub open spec fn lists_by_name(&self, order: Seq<usize>) -> bool {
        &&& order.len() == self.size()
        &&& forall|a: int| 0 <= a < order.len() ==> #[trigger] order[a] < self.size()
        &&& forall|a: int, b: int|
            0 <= a < b < order.len() ==> text_before(
                self.name_at(#[trigger] order[a] as int),
                self.name_at(#[trigger] order[b] as int),
            )
        &&& forall|i: usize| i < self.size() ==> #[trigger] order.contains(i)
    }

    /// The positions of the table in the order of their names.
    pub fn by_name(&self) -> (order: Vec<usize>)
        ensures
            self.lists_by_name(order@),
    {
        let n = self.len();
        let mut order: Vec<usize> = Vec::new();
        let mut k: usize = 0;
        while k < n
            invariant
                k <= n,
                n == self.size(),
                self.distinct(),
                order@.len() == k,
                forall|a: int| 0 <= a < order@.len() ==> #[trigger] order@[a] < k,
                forall|a: int, b: int|
                    0 <= a < b < order@.len() ==> text_before(
                        self.name_at(#[trigger] order@[a] as int),
                        self.name_at(#[trigger] order@[b] as int),
                    ),
                forall|i: usize| i < k ==> #[trigger] order@.contains(i),
            decreases n - k,
        {
            let name = chars_of(self.name(k).as_str());
            let mut p: usize = 0;
            let mut placed = false;
            while p < order.len() && !placed
                invariant
                    p <= order@.len(),
                    placed ==> p < order@.len() && !text_before(self.name_at(order@[p as int] as int), name@),
                    k < n,
                    n == self.size(),
                    name@ == self.name_at(k as int),
                    forall|a: int| 0 <= a < order@.len() ==> #[trigger] order@[a] < k,
                    forall|q: int|
                        0 <= q < p ==> text_before(self.name_at(#[trigger] order@[q] as int), name@),
                decreases order.len() - p + (if placed { 0int } else { 1int }),
            {
                let other = chars_of(self.name(order[p]).as_str());
                if comes_before(&other, &name) {
                    p = p + 1;
                } else {
                    placed = true;
                }
            }
            let ghost before = order@;
            order.insert(p, k);
            proof {
                let after = order@;
                assert(after.len() == before.len() + 1);
                assert(forall|q: int| 0 <= q < p ==> after[q] == before[q]);
                assert(after[p as int] == k);
                assert(forall|q: int| p < q < after.len() ==> after[q] == before[q - 1]);
                assert forall|q: int| p <= q < before.len() implies text_before(
                    name@,
                    self.name_at(#[trigger] before[q] as int),
                ) by {
                    let first = self.name_at(before[p as int] as int);
                    assert(before[p as int] < k);
                    assert(first != name@);
                    lemma_text_before_total(first, name@);
                    if q > p {
                        lemma_text_before_trans(name@, first, self.name_at(before[q] as int));
                    }
                }
                assert forall|a: int, b: int| 0 <= a < b < after.len() implies text_before(
                    self.name_at(#[trigger] after[a] as int),
                    self.name_at(#[trigger] after[b] as int),
                ) by {
                    if b < p {
                    } else if b == p {
                    } else if a < p {
                        assert(text_before(self.name_at(before[a] as int), self.name_at(before[b - 1] as int)));
                    } else if a == p {
                    } else {
                        assert(text_before(self.name_at(before[a - 1] as int), self.name_at(before[b - 1] as int)));
                    }
                }
                assert forall|i: usize| i < k + 1 implies #[trigger] after.contains(i) by {
                    if i == k {
                        assert(after[p as int] == i);
                    } else {
                        assert(before.contains(i));
                        let q = choose|q: int| 0 <= q < before.len() && before[q] == i;
                        if q < p {
                            assert(after[q] == i);
                        } else {
                            assert(after[q + 1] == i);
                        }
                    }
                }
                assert forall|a: int| 0 <= a < after.len() implies #[trigger] after[a] < k + 1 by {
                    if a < p {
                        assert(after[a] == before[a]);
                    } else if a > p {
                        assert(after[a] == before[a - 1]);
                    }
                }
            }
            k = k + 1;
        }
        order
    }
}

impl<V: Clone> Clone for Table<V> {
    /// A table with the same names in the same order, each with a clone of
    /// its value.
    fn clone(&self) -> (copy: Self)
        ensures
            copy.size() == self.size(),
            forall|i: int| 0 <= i < self.size() ==> #[trigger] copy.name_at(i) == self.name_at(i),
    {
        let mut entries: Vec<(String, V)> = Vec::new();
        let mut i: usize = 0;
        proof {
            use_type_invariant(self);
        }
        while i < self.entries.len()
            invariant
                i <= self.entries@.len(),
                entries@.len() == i,
                forall|j: int| 0 <= j < i ==> (#[trigger] entries@[j]).0@ == self.entries@[j].0@,
            decreases self.entries.len() - i,
        {
            entries.push((self.entries[i].0.clone(), self.entries[i].1.clone()));
            i = i + 1;
        }
        proof {
            assert forall|a: int, b: int| 0 <= a < b < entries@.len() implies (#[trigger] entries@[a]).0@ != (
            #[trigger] entries@[b]).0@ by {
                assert(self.entries@[a].0@ != self.entries@[b].0@);
            }
        }
        Table { entries }
    }
}

} // verus!
