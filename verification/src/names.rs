//! A map from names to values.

use vstd::prelude::*;

use crate::text;

verus! {

/// A map keyed by a name, in the order in which the names first came.
pub struct NameMap<V> {
    entries: Vec<(String, V)>,
}

/// No name stands twice.
pub open spec fn distinct_names<V>(entries: Seq<(String, V)>) -> bool {
    forall|i: int, j: int|
        #![trigger entries[i], entries[j]]
        0 <= i < j < entries.len() ==> entries[i].0@ != entries[j].0@
}

/// What a list of entries maps each name to, where no name stands twice.
pub open spec fn entries_map<V>(entries: Seq<(String, V)>) -> Map<Seq<char>, V> {
    Map::new(
        |n: Seq<char>| exists|i: int| 0 <= i < entries.len() && #[trigger] entries[i].0@ == n,
        |n: Seq<char>| entries[choose|i: int| 0 <= i < entries.len() && #[trigger] entries[i].0@ == n].1,
    )
}

proof fn lemma_entry<V>(entries: Seq<(String, V)>, i: int)
    requires
        distinct_names(entries),
        0 <= i < entries.len(),
    ensures
        entries_map(entries).dom().contains(entries[i].0@),
        entries_map(entries)[entries[i].0@] == entries[i].1,
{
    let n = entries[i].0@;
    let j = choose|j: int| 0 <= j < entries.len() && #[trigger] entries[j].0@ == n;
    assert(0 <= i < entries.len() && entries[i].0@ == n);
    assert(j == i) by {
        if j < i {
            assert(entries[j].0@ != entries[i].0@);
        } else if i < j {
            assert(entries[i].0@ != entries[j].0@);
        }
    }
}

impl<V> View for NameMap<V> {
    type V = Map<Seq<char>, V>;

    closed spec fn view(&self) -> Map<Seq<char>, V> {
        entries_map(self.entries@)
    }
}

impl<V> NameMap<V> {
    #[verifier::type_invariant]
    spec fn well_formed(self) -> bool {
        distinct_names(self.entries@)
    }

    /// The names in the order in which they first came.
    pub closed spec fn names(self) -> Seq<Seq<char>> {
        self.entries@.map_values(|e: (String, V)| e.0@)
    }

    pub fn new() -> (r: Self)
        ensures
            r@ == Map::<Seq<char>, V>::empty(),
            r.names() == Seq::<Seq<char>>::empty(),
    {
        let r: Self = NameMap { entries: Vec::new() };
        assert(r@ =~= Map::<Seq<char>, V>::empty());
        assert(r.names() =~= Seq::<Seq<char>>::empty());
        r
    }

    /// The value under `name`.
    pub fn get(&self, name: &str) -> (r: Option<&V>)
        ensures
            r == (if self@.dom().contains(name@) {
                Some(&self@[name@])
            } else {
                None
            }),
    {
        proof {
            use_type_invariant(self);
        }
        let mut i: usize = 0;
        while i < self.entries.len()
            invariant
                distinct_names(self.entries@),
                i <= self.entries@.len(),
                forall|j: int| 0 <= j < i ==> (#[trigger] self.entries@[j]).0@ != name@,
            decreases self.entries@.len() - i,
        {
            if text::same_text(self.entries[i].0.as_str(), name) {
                proof {
                    lemma_entry(self.entries@, i as int);
                }
                return Some(&self.entries[i].1);
            }
            i = i + 1;
        }
        None
    }

    /// Put `value` under `name`, in place of what was there.
    pub fn insert(&mut self, name: String, value: V)
        ensures
            final(self)@ == old(self)@.insert(name@, value),
            final(self).names() == (if old(self)@.dom().contains(name@) {
                old(self).names()
            } else {
                old(self).names().push(name@)
            }),
    {
        proof {
            use_type_invariant(&*self);
        }
        let ghost before = self.entries@;
        let mut entries: Vec<(String, V)> = Vec::new();
        std::mem::swap(&mut entries, &mut self.entries);
        let mut i: usize = 0;
        while i < entries.len()
            invariant
                entries@ == before,
                distinct_names(before),
                i <= before.len(),
                forall|j: int| 0 <= j < i ==> (#[trigger] before[j]).0@ != name@,
                before == old(self).entries@,
                old(self)@ == entries_map(before),
                self.entries@.len() == 0,
            decreases before.len() - i,
        {
            if text::same_text(entries[i].0.as_str(), name.as_str()) {
                let ghost after = before.update(i as int, (name, value));
                entries.set(i, (name, value));
                assert(entries@ == after);
                proof {
                    lemma_entry(before, i as int);
                    assert(distinct_names(after)) by {
                        assert forall|a: int, b: int|
                            #![trigger after[a], after[b]]
                            0 <= a < b < after.len() implies after[a].0@ != after[b].0@ by {
                            assert(before[a].0@ != before[b].0@);
                        }
                    }
                    lemma_same_map(before, after, name@, value, i as int);
                }
                self.entries = entries;
                assert(self.names() =~= old(self).names());
                return;
            }
            i = i + 1;
        }
        let ghost after = before.push((name, value));
        entries.push((name, value));
        proof {
            assert(distinct_names(after));
            assert(!entries_map(before).dom().contains(name@));
            lemma_same_map(before, after, name@, value, before.len() as int);
        }
        self.entries = entries;
        assert(self.names() =~= old(self).names().push(name@));
    }

    /// The names in the order in which they first came.
    pub fn keys(&self) -> (r: Vec<String>)
        ensures
            r.deep_view() == self.names(),
            r.deep_view().no_duplicates(),
            forall|n: Seq<char>| #[trigger] self.names().contains(n) <==> self@.dom().contains(n),
    {
        proof {
            use_type_invariant(self);
        }
        let mut out: Vec<String> = Vec::new();
        let mut i: usize = 0;
        while i < self.entries.len()
            invariant
                i <= self.entries@.len(),
                out@.len() == i,
                forall|j: int| 0 <= j < i ==> out@[j]@ == (#[trigger] self.entries@[j]).0@,
            decreases self.entries@.len() - i,
        {
            out.push(self.entries[i].0.clone());
            i = i + 1;
        }
        proof {
            let e = self.entries@;
            let names = self.names();
            assert(out.deep_view() =~= names);
            assert forall|n: Seq<char>| #[trigger] names.contains(n) <==> self@.dom().contains(n) by {
                if names.contains(n) {
                    let i = choose|i: int| 0 <= i < names.len() && names[i] == n;
                    assert(e[i].0@ == n);
                }
                if self@.dom().contains(n) {
                    let i = choose|i: int| 0 <= i < e.len() && #[trigger] e[i].0@ == n;
                    assert(names[i] == n);
                }
            }
            assert forall|i: int, j: int|
                0 <= i < names.len() && 0 <= j < names.len() && i != j implies names[i] != names[j] by {
                if i < j {
                    assert(e[i].0@ != e[j].0@);
                } else {
                    assert(e[j].0@ != e[i].0@);
                }
            }
        }
        out
    }
}

proof fn lemma_same_map<V>(
    before: Seq<(String, V)>,
    after: Seq<(String, V)>,
    name: Seq<char>,
    value: V,
    at: int,
)
    requires
        distinct_names(before),
        distinct_names(after),
        0 <= at <= before.len(),
        after.len() >= before.len(),
        after.len() == (if at == before.len() { before.len() + 1 } else { before.len() }),
        after[at].0@ == name,
        after[at].1 == value,
        forall|j: int| 0 <= j < before.len() && j != at ==> after[j] == #[trigger] before[j],
        at < before.len() ==> before[at].0@ == name,
    ensures
        entries_map(after) == entries_map(before).insert(name, value),
{
    let m = entries_map(before).insert(name, value);
    assert forall|n: Seq<char>| entries_map(after).dom().contains(n) <==> m.dom().contains(n) by {
        if entries_map(after).dom().contains(n) {
            let i = choose|i: int| 0 <= i < after.len() && #[trigger] after[i].0@ == n;
            if i != at {
                assert(before[i].0@ == n);
            }
        }
        if m.dom().contains(n) && n != name {
            let i = choose|i: int| 0 <= i < before.len() && #[trigger] before[i].0@ == n;
            assert(after[i].0@ == n);
        }
        if n == name {
            assert(after[at].0@ == n);
        }
    }
    assert forall|n: Seq<char>| m.dom().contains(n) implies entries_map(after)[n] == m[n] by {
        if n == name {
            lemma_entry(after, at);
        } else {
            let i = choose|i: int| 0 <= i < before.len() && #[trigger] before[i].0@ == n;
            lemma_entry(before, i);
            assert(after[i] == before[i]);
            lemma_entry(after, i);
        }
    }
    assert(entries_map(after) =~= m);
}

} // verus!
