//! A map keyed by names.
use crate::text::same_text;
use vstd::prelude::*;

verus! {

/// A map from names to values. Each name occurs at most once.
#[derive(Debug)]
pub struct NameMap<V> {
    entries: Vec<(String, V)>,
}

/// The position of the entry named `name`, if there is one.
spec fn position<V>(entries: Seq<(String, V)>, name: Seq<char>) -> int {
    choose|i: int| 0 <= i < entries.len() && (#[trigger] entries[i]).0@ == name
}

spec fn holds<V>(entries: Seq<(String, V)>, name: Seq<char>) -> bool {
    exists|i: int| 0 <= i < entries.len() && (#[trigger] entries[i]).0@ == name
}

spec fn distinct<V>(entries: Seq<(String, V)>) -> bool {
    forall|i: int, j: int|
        0 <= i < j < entries.len() ==> (#[trigger] entries[i]).0@ != (#[trigger] entries[j]).0@
}

impl<V> View for NameMap<V> {
    type V = Map<Seq<char>, V>;

    closed spec fn view(&self) -> Map<Seq<char>, V> {
        Map::new(
            |name: Seq<char>| holds(self.entries@, name),
            |name: Seq<char>| self.entries@[position(self.entries@, name)].1,
        )
    }
}

impl<V> NameMap<V> {
    #[verifier::type_invariant]
    spec fn names_distinct(self) -> bool {
        distinct(self.entries@)
    }

    /// The names in the order in which they were first inserted.
    pub closed spec fn names(&self) -> Seq<Seq<char>> {
        Seq::new(self.entries@.len(), |i: int| self.entries@[i].0@)
    }

    /// An empty map.
    pub fn new() -> (map: Self)
        ensures
            map@ == Map::<Seq<char>, V>::empty(),
            map.names() == Seq::<Seq<char>>::empty(),
    {
        let map = NameMap { entries: Vec::new() };
        assert(map@ =~= Map::<Seq<char>, V>::empty());
        map
    }

    /// Where `name` stands among the entries, or their number if it is not there.
    fn find(&self, name: &str) -> (at: usize)
        ensures
            at <= self.entries@.len(),
            at < self.entries@.len() ==> self.entries@[at as int].0@ == name@,
            at == self.entries@.len() ==> !holds(self.entries@, name@),
    {
        let mut i: usize = 0;
        while i < self.entries.len()
            invariant
                i <= self.entries@.len(),
                forall|k: int| 0 <= k < i ==> (#[trigger] self.entries@[k]).0@ != name@,
            decreases self.entries@.len() - i,
        {
            if same_text(self.entries[i].0.as_str(), name) {
                return i;
            }
            i = i + 1;
        }
        i
    }

    /// The value under `name`.
    pub fn get(&self, name: &str) -> (value: Option<&V>)
        ensures
            match value {
                Some(v) => self@.dom().contains(name@) && self@[name@] == *v,
                None => !self@.dom().contains(name@),
            },
    {
        proof {
            use_type_invariant(self);
        }
        let at: usize = self.find(name);
        if at < self.entries.len() {
            assert(position(self.entries@, name@) == at);
            Some(&self.entries[at].1)
        } else {
            None
        }
    }

    /// Puts `value` under `name`, in place of what stood there.
    pub fn insert(&mut self, name: &str, value: V)
        ensures
            final(self)@ == old(self)@.insert(name@, value),
            final(self).names() == (if old(self)@.dom().contains(name@) {
                old(self).names()
            } else {
                old(self).names().push(name@)
            }),
    {
        proof {
            use_type_invariant(&*self);
        }
        let at: usize = self.find(name);
        let ghost before = self.entries@;
        let mut entries: Vec<(String, V)> = Vec::new();
        std::mem::swap(&mut entries, &mut self.entries);
        if at < entries.len() {
            entries.set(at, (name.to_owned(), value));
        } else {
            entries.push((name.to_owned(), value));
        }
        let ghost after = entries@;
        self.entries = entries;
        assert forall|n: Seq<char>| holds(after, n) == (holds(before, n) || n == name@) by {
            if holds(before, n) {
                let p = position(before, n);
                assert(before[p].0@ == n);
                assert(after[p].0@ == n);
            }
            if n == name@ {
                assert(after[at as int].0@ == n);
            }
        }
        assert forall|n: Seq<char>| holds(after, n) implies after[position(after, n)].1 == (if n
            == name@ {
            value
        } else {
            before[position(before, n)].1
        }) by {
            let q = position(after, n);
            if n == name@ {
                assert(after[at as int].0@ == n);
                assert(q == at);
            } else {
                assert(q != at);
                assert(before[q].0@ == n);
                assert(position(before, n) == q);
            }
        }
        assert(self@ =~= old(self)@.insert(name@, value));
        assert(self.names() =~= (if old(self)@.dom().contains(name@) {
            old(self).names()
        } else {
            old(self).names().push(name@)
        }));
    }

    /// The number of entries.
    pub fn len(&self) -> (count: usize)
        ensures
            count == self.names().len(),
    {
        self.entries.len()
    }

    /// The name that was inserted as the `i`-th new one.
    pub fn name_at(&self, i: usize) -> (name: &str)
        requires
            i < self.names().len(),
        ensures
            name@ == self.names()[i as int],
    {
        self.entries[i].0.as_str()
    }
}

impl<V: Copy> NameMap<V> {
    /// A copy with the same entries in the same order.
    pub fn copy(&self) -> (map: Self)
        ensures
            map@ == self@,
            map.names() == self.names(),
    {
        proof {
            use_type_invariant(self);
        }
        let mut entries: Vec<(String, V)> = Vec::new();
        let mut i: usize = 0;
        while i < self.entries.len()
            invariant
                i <= self.entries@.len(),
                entries@.len() == i,
                forall|k: int|
                    0 <= k < i ==> (#[trigger] entries@[k]).0@ == self.entries@[k].0@
                        && entries@[k].1 == self.entries@[k].1,
            decreases self.entries@.len() - i,
        {
            entries.push((self.entries[i].0.clone(), self.entries[i].1));
            i = i + 1;
        }
        proof {
            let (a, b) = (self.entries@, entries@);
            assert forall|n: Seq<char>| holds(a, n) == holds(b, n) by {
                if holds(a, n) {
                    assert(b[position(a, n)].0@ == n);
                }
                if holds(b, n) {
                    assert(a[position(b, n)].0@ == n);
                }
            }
            assert forall|n: Seq<char>| holds(a, n) implies b[position(b, n)].1 == a[position(
                a,
                n,
            )].1 by {
                assert(b[position(a, n)].0@ == n);
                assert(a[position(b, n)].0@ == n);
            }
            assert(distinct(b));
        }
        let map = NameMap { entries };
        assert(map@ =~= self@);
        assert(map.names() =~= self.names());
        map
    }
}

} // verus!
