//! A map from names to values, kept in the order of its names.
use vstd::prelude::*;
use crate::text::{self, precedes};

verus! {

/// A value that can be copied with its whole content.
pub trait Duplicate: View + Sized {
    fn duplicate(&self) -> (r: Self)
        ensures
            r@ == self@,
    ;
}

/// Whether the names in `m` are pairwise distinct.
pub open spec fn unique_keys<T>(m: Seq<(Seq<char>, T)>) -> bool {
    forall|i: int, j: int|
        0 <= i < m.len() && 0 <= j < m.len() && i != j ==> #[trigger] m[i].0 != #[trigger] m[j].0
}

/// Whether some entry of `m` has the name `k`.
pub open spec fn has_key<T>(m: Seq<(Seq<char>, T)>, k: Seq<char>) -> bool {
    exists|i: int| 0 <= i < m.len() && #[trigger] m[i].0 == k
}

/// The value of the entry of `m` with the name `k`.
pub open spec fn value_at<T>(m: Seq<(Seq<char>, T)>, k: Seq<char>) -> T {
    m[choose|i: int| 0 <= i < m.len() && #[trigger] m[i].0 == k].1
}

/// The value of a name found at position `i` is the entry at `i`.
pub proof fn lemma_value_at_index<T>(m: Seq<(Seq<char>, T)>, i: int)
    requires
        unique_keys(m),
        0 <= i < m.len(),
    ensures
        has_key(m, m[i].0),
        value_at(m, m[i].0) == m[i].1,
{
    let k = m[i].0;
    assert(0 <= i < m.len() && m[i].0 == k);
    let j = choose|j: int| 0 <= j < m.len() && #[trigger] m[j].0 == k;
    assert(j == i);
}

/// Setting the entry of `k` to `v`, in place or as a new entry, gives `k` the
/// value `v` and leaves every other name as it was.
pub proof fn lemma_set_entry<T>(
    before: Seq<(Seq<char>, T)>,
    after: Seq<(Seq<char>, T)>,
    k: Seq<char>,
    v: T,
    i: int,
)
    requires
        unique_keys(before),
        unique_keys(after),
        0 <= i <= before.len(),
        (has_key(before, k) && i < before.len() && before[i].0 == k && after == before.update(
            i,
            (k, v),
        )) || (!has_key(before, k) && after == before.insert(i, (k, v))),
    ensures
        has_key(after, k),
        value_at(after, k) == v,
        forall|q: Seq<char>|
            q != k ==> (has_key(after, q) == has_key(before, q) && (has_key(before, q)
                ==> value_at(after, q) == value_at(before, q))),
{
    let updated = has_key(before, k) && i < before.len() && before[i].0 == k;
    assert(after[i] == (k, v));
    lemma_value_at_index(after, i);
    assert forall|q: Seq<char>| q != k implies (has_key(after, q) == has_key(before, q) && (
    has_key(before, q) ==> value_at(after, q) == value_at(before, q))) by {
        if has_key(before, q) {
            let j = choose|j: int| 0 <= j < before.len() && #[trigger] before[j].0 == q;
            lemma_value_at_index(before, j);
            let j2 = if updated || j < i {
                j
            } else {
                j + 1
            };
            assert(after[j2] == before[j]);
            lemma_value_at_index(after, j2);
        }
        if has_key(after, q) {
            let j = choose|j: int| 0 <= j < after.len() && #[trigger] after[j].0 == q;
            assert(j != i);
            let j0 = if updated || j < i {
                j
            } else {
                j - 1
            };
            assert(before[j0] == after[j]);
        }
    }
}

/// Taking out the entry at `i` removes its name and leaves every other name
/// as it was.
pub proof fn lemma_remove_entry<T>(before: Seq<(Seq<char>, T)>, after: Seq<(Seq<char>, T)>, i: int)
    requires
        unique_keys(before),
        0 <= i < before.len(),
        after == before.remove(i),
    ensures
        !has_key(after, before[i].0),
        forall|q: Seq<char>|
            q != before[i].0 ==> (has_key(after, q) == has_key(before, q) && (has_key(before, q)
                ==> value_at(after, q) == value_at(before, q))),
{
    let k = before[i].0;
    if has_key(after, k) {
        let j = choose|j: int| 0 <= j < after.len() && #[trigger] after[j].0 == k;
        let j0 = if j < i {
            j
        } else {
            j + 1
        };
        assert(before[j0] == after[j]);
    }
    assert(unique_keys(after)) by {
        assert forall|a: int, b: int|
            0 <= a < after.len() && 0 <= b < after.len() && a != b implies #[trigger] after[a].0
            != #[trigger] after[b].0 by {
            let a0 = if a < i {
                a
            } else {
                a + 1
            };
            let b0 = if b < i {
                b
            } else {
                b + 1
            };
            assert(before[a0] == after[a] && before[b0] == after[b]);
        }
    }
    assert forall|q: Seq<char>| q != k implies (has_key(after, q) == has_key(before, q) && (
    has_key(before, q) ==> value_at(after, q) == value_at(before, q))) by {
        if has_key(before, q) {
            let j = choose|j: int| 0 <= j < before.len() && #[trigger] before[j].0 == q;
            lemma_value_at_index(before, j);
            let j2 = if j < i {
                j
            } else {
                j - 1
            };
            assert(after[j2] == before[j]);
            lemma_value_at_index(after, j2);
        }
        if has_key(after, q) {
            let j = choose|j: int| 0 <= j < after.len() && #[trigger] after[j].0 == q;
            let j0 = if j < i {
                j
            } else {
                j + 1
            };
            assert(before[j0] == after[j]);
        }
    }
}

/// Whether the names of `m` come in strictly ascending order.
pub open spec fn ascending_keys<T>(m: Seq<(Seq<char>, T)>) -> bool {
    forall|i: int, j: int| 0 <= i < j < m.len() ==> precedes(#[trigger] m[i].0, #[trigger] m[j].0)
}

/// Names copied in order from the start of an ascending table come before
/// any later name of that table.
pub proof fn lemma_prefix_precedes<T, U>(before: Seq<(Seq<char>, T)>, out: Seq<(Seq<char>, U)>, k: int)
    requires
        ascending_keys(before),
        0 <= k < before.len(),
        out.len() <= k,
        forall|t: int| 0 <= t < out.len() ==> (#[trigger] out[t]).0 == before[t].0,
    ensures
        forall|t: int| 0 <= t < out.len() ==> precedes(#[trigger] out[t].0, before[k].0),
{
    assert forall|t: int| 0 <= t < out.len() implies precedes(#[trigger] out[t].0, before[k].0) by {
        assert(out[t].0 == before[t].0);
    }
}

/// Name-keyed entries with distinct names, in ascending order of names. New names are inserted before the
/// first entry whose name does not come before theirs.
#[derive(Debug)]
pub struct NameMap<V: View> {
    entries: Vec<(String, V)>,
}

impl<V: View> View for NameMap<V> {
    type V = Seq<(Seq<char>, V::V)>;

    open spec fn view(&self) -> Seq<(Seq<char>, V::V)> {
        Seq::new(self.spec_entries().len(), |i: int| (self.spec_entries()[i].0@, self.spec_entries()[i].1@))
    }
}

impl<V: View> NameMap<V> {
    pub closed spec fn spec_entries(&self) -> Seq<(String, V)> {
        self.entries@
    }

    #[verifier::type_invariant]
    pub open spec fn names_distinct(&self) -> bool {
        unique_keys(self@) && ascending_keys(self@)
    }

    /// The map without entries.
    pub fn new() -> (r: Self)
        ensures
            r@ == Seq::<(Seq<char>, V::V)>::empty(),
    {
        let r = NameMap { entries: Vec::new() };
        assert(r@ =~= Seq::<(Seq<char>, V::V)>::empty());
        r
    }

    /// The number of entries.
    pub fn len(&self) -> (r: usize)
        ensures
            r == self@.len(),
    {
        self.entries.len()
    }

    /// Whether there is no entry.
    pub fn is_empty(&self) -> (r: bool)
        ensures
            r == (self@.len() == 0),
    {
        self.entries.len() == 0
    }

    /// The name of entry `i`.
    pub fn key(&self, i: usize) -> (r: &String)
        requires
            i < self@.len(),
        ensures
            r@ == self@[i as int].0,
    {
        &self.entries[i].0
    }

    /// The value of entry `i`.
    pub fn value(&self, i: usize) -> (r: &V)
        requires
            i < self@.len(),
        ensures
            r@ == self@[i as int].1,
    {
        &self.entries[i].1
    }

    /// The position of the entry named `k`, if there is one.
    pub fn position(&self, k: &str) -> (r: Option<usize>)
        ensures
            r matches Some(i) ==> i < self@.len() && self@[i as int].0 == k@,
            r is None <==> !has_key(self@, k@),
    {
        let mut i: usize = 0;
        while i < self.entries.len()
            invariant
                i <= self@.len(),
                forall|j: int| 0 <= j < i ==> self@[j].0 != k@,
            decreases self@.len() - i,
        {
            if text::equal(self.entries[i].0.as_str(), k) {
                assert(self@[i as int].0 == k@);
                return Some(i);
            }
            i = i + 1;
        }
        None
    }

    /// The value of the entry named `k`, if there is one.
    pub fn get(&self, k: &str) -> (r: Option<&V>)
        ensures
            r is Some <==> has_key(self@, k@),
            r matches Some(v) ==> v@ == value_at(self@, k@),
    {
        proof {
            use_type_invariant(self);
        }
        match self.position(k) {
            Some(i) => {
                proof {
                    lemma_value_at_index(self@, i as int);
                }
                Some(&self.entries[i].1)
            },
            None => None,
        }
    }

    /// Sets the value of the entry named `k`: in place where the name is
    /// present, else as a new entry at the place of its name in the order.
    pub fn insert(&mut self, k: String, v: V)
        ensures
            has_key(old(self)@, k@) ==> exists|i: int|
                0 <= i < old(self)@.len() && old(self)@[i].0 == k@ && final(self)@ == old(
                    self,
                )@.update(i, (k@, v@)),
            !has_key(old(self)@, k@) ==> exists|i: int|
                0 <= i <= old(self)@.len() && final(self)@ == old(self)@.insert(i, (k@, v@)),
            has_key(final(self)@, k@),
            value_at(final(self)@, k@) == v@,
            forall|q: Seq<char>|
                q != k@ ==> (has_key(final(self)@, q) == has_key(old(self)@, q) && (has_key(
                    old(self)@,
                    q,
                ) ==> value_at(final(self)@, q) == value_at(old(self)@, q))),
    {
        proof {
            use_type_invariant(&*self);
        }
        let ghost before = self@;
        match self.position(k.as_str()) {
            Some(i) => {
                let mut entries: Vec<(String, V)> = Vec::new();
                std::mem::swap(&mut entries, &mut self.entries);
                entries.set(i, (k, v));
                proof {
                    assert(Seq::new(entries@.len(), |j: int| (entries@[j].0@, entries@[j].1@)) =~= before.update(i as int, (k@, v@)));
                }
                *self = NameMap { entries };
                proof {
                    use_type_invariant(&*self);
                    lemma_set_entry(before, self@, k@, v@, i as int);
                }
            },
            None => {
                let mut p: usize = 0;
                while p < self.entries.len() && text::less(self.entries[p].0.as_str(), k.as_str())
                    invariant
                        p <= self@.len(),
                        self@ == before,
                        forall|j: int| 0 <= j < p ==> precedes(#[trigger] before[j].0, k@),
                    decreases self@.len() - p,
                {
                    p = p + 1;
                }
                proof {
                    if p < before.len() {
                        assert(!precedes(before[p as int].0, k@));
                        assert(before[p as int].0 != k@);
                        text::lemma_precedes_total(before[p as int].0, k@);
                        assert forall|j: int| p <= j < before.len() implies precedes(k@, #[trigger] before[j].0) by {
                            if j > p {
                                text::lemma_precedes_transitive(k@, before[p as int].0, before[j].0);
                            }
                        }
                    }
                }
                let mut entries: Vec<(String, V)> = Vec::new();
                std::mem::swap(&mut entries, &mut self.entries);
                entries.insert(p, (k, v));
                proof {
                    let after = before.insert(p as int, (k@, v@));
                    assert(Seq::new(entries@.len(), |j: int| (entries@[j].0@, entries@[j].1@)) =~= after);
                    assert forall|i: int, j: int| 0 <= i < j < after.len() implies precedes(#[trigger] after[i].0, #[trigger] after[j].0) by {
                        if i < p && j < p {
                            assert(after[i] == before[i] && after[j] == before[j]);
                        } else if i < p && j == p {
                            assert(after[i] == before[i]);
                        } else if i < p && j > p {
                            assert(after[i] == before[i] && after[j] == before[j - 1]);
                            text::lemma_precedes_transitive(before[i].0, k@, before[j - 1].0);
                        } else if i == p {
                            assert(after[j] == before[j - 1]);
                        } else {
                            assert(after[i] == before[i - 1] && after[j] == before[j - 1]);
                        }
                    }
                }
                *self = NameMap { entries };
                proof {
                    use_type_invariant(&*self);
                    lemma_set_entry(before, self@, k@, v@, p as int);
                }
            },
        }
    }
}

impl<V: View> NameMap<V> {
    /// Takes out the entry named `k`, if there is one, and returns its value.
    pub fn remove(&mut self, k: &str) -> (r: Option<V>)
        ensures
            has_key(old(self)@, k@) ==> exists|i: int|
                0 <= i < old(self)@.len() && old(self)@[i].0 == k@ && final(self)@ == old(
                    self,
                )@.remove(i) && r is Some && r->0@ == old(self)@[i].1,
            !has_key(old(self)@, k@) ==> final(self)@ == old(self)@ && r is None,
            !has_key(final(self)@, k@),
            forall|q: Seq<char>|
                q != k@ ==> (has_key(final(self)@, q) == has_key(old(self)@, q) && (has_key(
                    old(self)@,
                    q,
                ) ==> value_at(final(self)@, q) == value_at(old(self)@, q))),
    {
        proof {
            use_type_invariant(&*self);
        }
        let ghost before = self@;
        match self.position(k) {
            Some(i) => {
                let mut entries: Vec<(String, V)> = Vec::new();
                std::mem::swap(&mut entries, &mut self.entries);
                let (_, v) = entries.remove(i);
                proof {
                    assert(Seq::new(entries@.len(), |j: int| (entries@[j].0@, entries@[j].1@))
                        =~= before.remove(i as int));
                }
                *self = NameMap { entries };
                proof {
                    use_type_invariant(&*self);
                    lemma_remove_entry(before, self@, i as int);
                }
                Some(v)
            },
            None => None,
        }
    }
}

impl<V: View> NameMap<V> {
    /// Appends an entry under a name that no entry has yet.
    pub fn push_new(&mut self, k: String, v: V)
        requires
            !has_key(old(self)@, k@),
            forall|i: int| 0 <= i < old(self)@.len() ==> precedes(#[trigger] old(self)@[i].0, k@),
        ensures
            final(self)@ == old(self)@.push((k@, v@)),
    {
        proof {
            use_type_invariant(&*self);
        }
        let ghost before = self@;
        let mut entries: Vec<(String, V)> = Vec::new();
        std::mem::swap(&mut entries, &mut self.entries);
        entries.push((k, v));
        proof {
            let after = before.push((k@, v@));
            assert forall|i: int, j: int| 0 <= i < j < after.len() implies precedes(#[trigger] after[i].0, #[trigger] after[j].0) by {
                assert(after[i] == before[i]);
                if j < before.len() {
                    assert(after[j] == before[j]);
                }
            }
            assert(Seq::new(entries@.len(), |j: int| (entries@[j].0@, entries@[j].1@)) =~= before.push(
                (k@, v@),
            ));
        }
        *self = NameMap { entries };
    }

    /// The entries, in order.
    pub fn into_entries(self) -> (r: Vec<(String, V)>)
        ensures
            r@.len() == self@.len(),
            forall|i: int| 0 <= i < r@.len() ==> (#[trigger] r@[i].0@, r@[i].1@) == self@[i],
            unique_keys(self@),
            ascending_keys(self@),
    {
        proof {
            use_type_invariant(&self);
        }
        let NameMap { entries } = self;
        entries
    }
}

impl<V: Duplicate> Duplicate for NameMap<V> {
    fn duplicate(&self) -> (r: Self) {
        proof {
            use_type_invariant(self);
        }
        let mut entries: Vec<(String, V)> = Vec::new();
        let mut i: usize = 0;
        while i < self.entries.len()
            invariant
                i <= self@.len(),
                entries@.len() == i,
                forall|j: int|
                    0 <= j < i ==> (#[trigger] entries@[j]).0@ == self@[j].0 && entries@[j].1@
                        == self@[j].1,
            decreases self@.len() - i,
        {
            let k = self.entries[i].0.clone();
            let v = self.entries[i].1.duplicate();
            entries.push((k, v));
            i = i + 1;
        }
        let ghost view = Seq::new(entries@.len(), |j: int| (entries@[j].0@, entries@[j].1@));
        assert(view =~= self@);
        NameMap { entries }
    }
}

} // verus!
