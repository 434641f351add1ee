//! A table keyed by frame identity, one value per identity.
use vstd::prelude::*;

verus! {

/// The value stored for `k`, if any.
pub open spec fn lookup<V>(s: Seq<(Seq<char>, V)>, k: Seq<char>) -> Option<V>
    decreases s.len(),
{
    if s.len() == 0 {
        None
    } else if s.last().0 == k {
        Some(s.last().1)
    } else {
        lookup(s.drop_last(), k)
    }
}

/// The entries without the one for `k`, in order.
pub open spec fn drop_key<V>(s: Seq<(Seq<char>, V)>, k: Seq<char>) -> Seq<(Seq<char>, V)>
    decreases s.len(),
{
    if s.len() == 0 {
        s
    } else if s.last().0 == k {
        drop_key(s.drop_last(), k)
    } else {
        drop_key(s.drop_last(), k).push(s.last())
    }
}

pub open spec fn unique_keys<V>(s: Seq<(Seq<char>, V)>) -> bool {
    forall|i: int, j: int| 0 <= i < s.len() && 0 <= j < s.len() && i != j ==> s[i].0 != s[j].0
}

/// Number of entries whose value satisfies `p`.
pub open spec fn count_where<V>(s: Seq<(Seq<char>, V)>, p: spec_fn(V) -> bool) -> nat
    decreases s.len(),
{
    if s.len() == 0 {
        0
    } else {
        count_where(s.drop_last(), p) + if p(s.last().1) { 1nat } else { 0nat }
    }
}

pub proof fn lemma_drop_key<V>(s: Seq<(Seq<char>, V)>, k: Seq<char>)
    ensures
        lookup(drop_key(s, k), k) is None,
        forall|x: Seq<char>| x != k ==> lookup(drop_key(s, k), x) == lookup(s, x),
        drop_key(s, k).len() <= s.len(),
        forall|j: int| 0 <= j < drop_key(s, k).len() ==> (#[trigger] drop_key(s, k)[j]).0 != k,
        unique_keys(s) ==> unique_keys(drop_key(s, k)),
        forall|j: int| 0 <= j < drop_key(s, k).len() ==> lookup(s, (#[trigger] drop_key(s, k)[j]).0) is Some,
        lookup(s, k) is None ==> drop_key(s, k) == s,
    decreases s.len(),
{
    if s.len() > 0 {
        let w = drop_key(s.drop_last(), k);
        lemma_drop_key(s.drop_last(), k);
        if s.last().0 != k {
            let r = w.push(s.last());
            assert(r.drop_last() =~= w);
            assert forall|x: Seq<char>| x != k implies lookup(r, x) == lookup(s, x) by {
                assert(r.last() == s.last());
                assert(r.len() > 0);
                if s.last().0 != x {
                    assert(lookup(r, x) == lookup(r.drop_last(), x));
                    assert(lookup(s, x) == lookup(s.drop_last(), x));
                    assert(lookup(w, x) == lookup(s.drop_last(), x));
                }
            }
            assert forall|j: int| 0 <= j < r.len() implies lookup(s, (#[trigger] r[j]).0) is Some by {
                if j < w.len() {
                    assert(r[j] == w[j]);
                    if w[j].0 != s.last().0 {
                        assert(lookup(s.drop_last(), w[j].0) is Some);
                    }
                }
            }
            if unique_keys(s) {
                assert(unique_keys(s.drop_last()));
                assert forall|a: int, b: int| 0 <= a < r.len() && 0 <= b < r.len() && a != b implies r[a].0 != r[b].0 by {
                    if a == r.len() - 1 && b < w.len() {
                        lemma_lookup_index(s.drop_last(), w[b].0);
                    } else if b == r.len() - 1 && a < w.len() {
                        lemma_lookup_index(s.drop_last(), w[a].0);
                    }
                }
            }
            if lookup(s, k) is None {
                assert(s.drop_last().push(s.last()) =~= s);
            }
        } else {
            assert forall|x: Seq<char>| x != k implies lookup(drop_key(s, k), x) == lookup(s, x) by {
                assert(lookup(s, x) == lookup(s.drop_last(), x));
            }
            assert forall|j: int| 0 <= j < w.len() implies lookup(s, (#[trigger] w[j]).0) is Some by {
                assert(w[j].0 != k);
                assert(lookup(s, w[j].0) == lookup(s.drop_last(), w[j].0));
            }
        }
    }
}

/// A key that is found sits at some index, and under unique keys no other
/// index holds it.
pub proof fn lemma_lookup_index<V>(s: Seq<(Seq<char>, V)>, k: Seq<char>)
    ensures
        lookup(s, k) is Some <==> exists|i: int| 0 <= i < s.len() && #[trigger] s[i].0 == k,
        unique_keys(s) ==> forall|i: int| 0 <= i < s.len() && #[trigger] s[i].0 == k ==> lookup(s, k) == Some(s[i].1),
    decreases s.len(),
{
    if s.len() > 0 {
        lemma_lookup_index(s.drop_last(), k);
        if lookup(s, k) is Some && s.last().0 != k {
            let i = choose|i: int| 0 <= i < s.drop_last().len() && #[trigger] s.drop_last()[i].0 == k;
            assert(s[i].0 == k);
        }
        if s.last().0 == k {
            assert(s[s.len() - 1].0 == k);
        }
        assert forall|i: int| 0 <= i < s.len() && #[trigger] s[i].0 == k && s.last().0 != k implies
            s.drop_last()[i].0 == k by {}
        if unique_keys(s) {
            assert(unique_keys(s.drop_last()));
        }
    }
}

/// One value per frame identity.
pub struct FrameTable<V> {
    entries: Vec<(String, V)>,
}

impl<V: Copy> FrameTable<V> {
    /// The entries, as (identity, value) pairs.
    pub closed spec fn view(&self) -> Seq<(Seq<char>, V)> {
        self.entries@.map_values(|e: (String, V)| (e.0@, e.1))
    }

    pub open spec fn wf(&self) -> bool {
        unique_keys(self@)
    }

    pub fn new() -> (r: Self)
        ensures
            r.wf(),
            r@ == Seq::<(Seq<char>, V)>::empty(),
    {
        let r = FrameTable { entries: Vec::new() };
        assert(r@ =~= Seq::<(Seq<char>, V)>::empty());
        r
    }

    pub fn len(&self) -> (r: usize)
        ensures
            r == self@.len(),
    {
        self.entries.len()
    }

    pub fn is_empty(&self) -> (r: bool)
        ensures
            r == (self@.len() == 0),
    {
        self.entries.len() == 0
    }

    /// The identity of the `i`th entry.
    pub fn key_at(&self, i: usize) -> (r: &String)
        requires
            i < self@.len(),
        ensures
            r@ == self@[i as int].0,
    {
        &self.entries[i].0
    }

    /// The value of the `i`th entry.
    pub fn value_at(&self, i: usize) -> (r: V)
        requires
            i < self@.len(),
        ensures
            r == self@[i as int].1,
    {
        self.entries[i].1
    }

    /// A copy of the table.
    pub fn duplicate(&self) -> (r: Self)
        ensures
            r@ == self@,
    {
        let mut out: Vec<(String, V)> = Vec::new();
        let mut i: usize = 0;
        while i < self.entries.len()
            invariant
                0 <= i <= self.entries.len(),
                out@.map_values(|e: (String, V)| (e.0@, e.1)) == self@.subrange(0, i as int),
            decreases self.entries.len() - i,
        {
            let k = self.entries[i].0.clone();
            let ghost before = out@.map_values(|e: (String, V)| (e.0@, e.1));
            out.push((k, self.entries[i].1));
            assert(out@.map_values(|e: (String, V)| (e.0@, e.1)) =~= before.push(self@[i as int]));
            i += 1;
            assert(out@.map_values(|e: (String, V)| (e.0@, e.1)) =~= self@.subrange(0, i as int));
        }
        assert(self@.subrange(0, self.entries.len() as int) =~= self@);
        FrameTable { entries: out }
    }

    fn position(&self, id: &str) -> (r: Option<usize>)
        ensures
            match r {
                Some(i) => i < self@.len() && self@[i as int].0 == id@,
                None => forall|j: int| 0 <= j < self@.len() ==> self@[j].0 != id@,
            },
    {
        let mut i: usize = 0;
        while i < self.entries.len()
            invariant
                0 <= i <= self.entries.len(),
                self@.len() == self.entries.len(),
                forall|j: int| 0 <= j < i ==> self@[j].0 != id@,
            decreases self.entries.len() - i,
        {
            if crate::text::str_eq(self.entries[i].0.as_str(), id) {
                return Some(i);
            }
            i += 1;
        }
        None
    }

    pub fn get(&self, id: &str) -> (r: Option<V>)
        requires
            self.wf(),
        ensures
            r == lookup(self@, id@),
    {
        proof { lemma_lookup_index(self@, id@); }
        match self.position(id) {
            Some(i) => Some(self.entries[i].1),
            None => None,
        }
    }

    pub fn contains(&self, id: &str) -> (r: bool)
        requires
            self.wf(),
        ensures
            r == (lookup(self@, id@) is Some),
    {
        self.get(id).is_some()
    }

    /// Remove the entry for `id`, if any.
    pub fn remove(&mut self, id: &str)
        requires
            old(self).wf(),
        ensures
            final(self).wf(),
            final(self)@ == drop_key(old(self)@, id@),
    {
        proof { lemma_drop_key(old(self)@, id@); lemma_lookup_index(old(self)@, id@); }
        match self.position(id) {
            Some(i) => {
                let ghost s = self@;
                self.entries.remove(i);
                proof {
                    assert(self@ =~= s.remove(i as int));
                    lemma_drop_key_at(s, id@, i as int);
                }
            },
            None => {
                proof {
                    if lookup(old(self)@, id@) is Some {
                        let j = choose|j: int| 0 <= j < old(self)@.len() && #[trigger] old(self)@[j].0 == id@;
                    }
                }
            },
        }
    }

    /// Set the value for `id`, replacing any earlier one.
    pub fn insert(&mut self, id: String, v: V)
        requires
            old(self).wf(),
        ensures
            final(self).wf(),
            final(self)@ == drop_key(old(self)@, id@).push((id@, v)),
    {
        self.remove(id.as_str());
        let ghost s = self@;
        proof { lemma_drop_key(old(self)@, id@); }
        self.entries.push((id, v));
        proof {
            assert(self@ =~= s.push((id@, v)));
            assert forall|a: int, b: int| 0 <= a < self@.len() && 0 <= b < self@.len() && a != b
                implies self@[a].0 != self@[b].0 by {
                if a < s.len() && b < s.len() {
                    assert(self@[a] == s[a] && self@[b] == s[b]);
                } else if a < s.len() {
                    assert(s[a].0 != id@);
                } else {
                    assert(s[b].0 != id@);
                }
            }
        }
    }
}

proof fn lemma_drop_key_at<V>(s: Seq<(Seq<char>, V)>, k: Seq<char>, i: int)
    requires
        unique_keys(s),
        0 <= i < s.len(),
        s[i].0 == k,
    ensures
        drop_key(s, k) == s.remove(i),
    decreases s.len(),
{
    if i == s.len() - 1 {
        assert(forall|j: int| 0 <= j < s.drop_last().len() ==> s.drop_last()[j].0 != k) by {
            assert forall|j: int| 0 <= j < s.drop_last().len() implies s.drop_last()[j].0 != k by {
                assert(s[j].0 != s[i].0);
            }
        }
        lemma_lookup_index(s.drop_last(), k);
        lemma_drop_key(s.drop_last(), k);
        assert(s.remove(i) =~= s.drop_last());
    } else {
        assert(s.last().0 != k) by {
            assert(s[s.len() - 1].0 != s[i].0);
        }
        assert(unique_keys(s.drop_last()));
        lemma_drop_key_at(s.drop_last(), k, i);
        assert(s.remove(i) =~= s.drop_last().remove(i).push(s.last()));
    }
}

impl<V: Copy> Default for FrameTable<V> {
    fn default() -> (r: Self)
        ensures
            r.wf(),
            r@ == Seq::<(Seq<char>, V)>::empty(),
    {
        FrameTable::new()
    }
}

/// Reading back after a write: the written identity gives the written value,
/// every other identity gives what it gave before.
pub proof fn lemma_insert_then_lookup<V>(s: Seq<(Seq<char>, V)>, id: Seq<char>, v: V, k: Seq<char>)
    ensures
        lookup(drop_key(s, id).push((id, v)), k) == (if k == id { Some(v) } else { lookup(s, k) }),
{
    lemma_drop_key(s, id);
    assert(drop_key(s, id).push((id, v)).drop_last() =~= drop_key(s, id));
}

/// Reading back after a removal: the removed identity is absent, every other
/// identity gives what it gave before.
pub proof fn lemma_remove_then_lookup<V>(s: Seq<(Seq<char>, V)>, id: Seq<char>, k: Seq<char>)
    ensures
        lookup(drop_key(s, id), k) == (if k == id { None } else { lookup(s, k) }),
{
    lemma_drop_key(s, id);
}

} // verus!
