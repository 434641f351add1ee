//! Caches: thumbnail cache keys, a byte-budgeted least-recently-used cache,
//! and the file names of the on-disk thumbnail store.
use vstd::prelude::*;
use vstd::string::StringSliceAdditionalSpecFns;
use crate::pathname::join;
use crate::text::{hex_digits, push_hex, push_str, chars_of, string_of};

verus! {

// ---------------------------------------------------------------------------
// Cache keys
// ---------------------------------------------------------------------------

/// FNV-1a offset basis.
pub const FNV_OFFSET: u64 = 0xcbf2_9ce4_8422_2325;
/// FNV-1a 64-bit prime.
pub const FNV_PRIME: u64 = 0x0000_0100_0000_01B3;

/// One FNV-1a step.
pub open spec fn fnv_step(hash: u64, b: u8) -> u64 {
    (hash ^ (b as u64)).wrapping_mul(FNV_PRIME)
}

/// FNV-1a over `bytes`, starting from `hash`.
pub open spec fn fnv(bytes: Seq<u8>, hash: u64) -> u64
    decreases bytes.len(),
{
    if bytes.len() == 0 {
        hash
    } else {
        fnv(bytes.drop_first(), fnv_step(hash, bytes[0]))
    }
}

proof fn lemma_fnv_push(bytes: Seq<u8>, hash: u64, b: u8)
    ensures
        fnv(bytes.push(b), hash) == fnv_step(fnv(bytes, hash), b),
    decreases bytes.len(),
{
    if bytes.len() > 0 {
        assert(bytes.push(b).drop_first() =~= bytes.drop_first().push(b));
        assert(bytes.push(b)[0] == bytes[0]);
        lemma_fnv_push(bytes.drop_first(), fnv_step(hash, bytes[0]), b);
    } else {
        assert(bytes.push(b).drop_first() =~= Seq::<u8>::empty());
        assert(bytes.push(b)[0] == b);
        assert(fnv(Seq::<u8>::empty(), fnv_step(hash, b)) == fnv_step(hash, b));
    }
}

/// FNV-1a over `bytes`, starting from `hash`.
pub fn fnv1a(bytes: &[u8], hash: u64) -> (r: u64)
    ensures
        r == fnv(bytes@, hash),
{
    let mut h = hash;
    let mut i: usize = 0;
    while i < bytes.len()
        invariant
            0 <= i <= bytes.len(),
            h == fnv(bytes@.subrange(0, i as int), hash),
        decreases bytes.len() - i,
    {
        proof {
            lemma_fnv_push(bytes@.subrange(0, i as int), hash, bytes@[i as int]);
            assert(bytes@.subrange(0, i as int).push(bytes@[i as int]) =~= bytes@.subrange(0, i + 1));
        }
        h = (h ^ (bytes[i] as u64)).wrapping_mul(FNV_PRIME);
        i += 1;
    }
    assert(bytes@.subrange(0, bytes.len() as int) =~= bytes@);
    h
}

/// The `n` low bytes of `x`, least significant first.
pub open spec fn le_bytes(x: nat, n: nat) -> Seq<u8>
    decreases n,
{
    if n == 0 {
        Seq::empty()
    } else {
        seq![(x % 256) as u8] + le_bytes(x / 256, (n - 1) as nat)
    }
}

proof fn lemma_le_bytes_len(x: nat, n: nat)
    ensures
        le_bytes(x, n).len() == n,
    decreases n,
{
    if n > 0 {
        lemma_le_bytes_len(x / 256, (n - 1) as nat);
    }
}

/// The `n` low bytes of `x`, least significant first.
fn to_le_bytes(x: u64, n: usize) -> (r: Vec<u8>)
    requires
        n <= 8,
    ensures
        r@ == le_bytes(x as nat, n as nat),
{
    let mut out: Vec<u8> = Vec::new();
    let mut v = x;
    let mut k: usize = 0;
    while k < n
        invariant
            k <= n <= 8,
            out@ + le_bytes(v as nat, (n - k) as nat) == le_bytes(x as nat, n as nat),
        decreases n - k,
    {
        let ghost before = le_bytes(v as nat, (n - k) as nat);
        assert(before == seq![(v % 256) as u8] + le_bytes((v / 256) as nat, (n - k - 1) as nat));
        out.push((v % 256) as u8);
        v = v / 256;
        k += 1;
        assert(out@ + le_bytes(v as nat, (n - k) as nat) =~= le_bytes(x as nat, n as nat));
    }
    assert(le_bytes(v as nat, 0) =~= Seq::<u8>::empty());
    assert(out@ =~= le_bytes(x as nat, n as nat));
    out
}

/// The thumbnail cache key of a file: FNV-1a over the UTF-8 bytes of its
/// path, then the little-endian bytes of its modification second (0 when
/// unknown), its length, and the target box.
pub open spec fn thumb_key_of(path: Seq<u8>, secs: u64, len: u64, box_w: u32, box_h: u32) -> u64 {
    let h = fnv(path, FNV_OFFSET);
    let h = fnv(le_bytes(secs as nat, 8), h);
    let h = fnv(le_bytes(len as nat, 8), h);
    let h = fnv(le_bytes(box_w as nat, 4), h);
    fnv(le_bytes(box_h as nat, 4), h)
}

/// Identity of a thumbnail: path, modification time (seconds since the
/// epoch), size and target box.
pub fn thumb_key(path: &str, modified: Option<u64>, len: u64, box_w: u32, box_h: u32) -> (r: u64)
    ensures
        r == thumb_key_of(path.spec_bytes(), match modified { Some(s) => s, None => 0 }, len, box_w, box_h),
{
    let mut h = fnv1a(path.as_bytes(), FNV_OFFSET);
    let secs = match modified {
        Some(s) => s,
        None => 0,
    };
    let b = to_le_bytes(secs, 8);
    h = fnv1a(b.as_slice(), h);
    let b = to_le_bytes(len, 8);
    h = fnv1a(b.as_slice(), h);
    let b = to_le_bytes(box_w as u64, 4);
    h = fnv1a(b.as_slice(), h);
    let b = to_le_bytes(box_h as u64, 4);
    fnv1a(b.as_slice(), h)
}

// ---------------------------------------------------------------------------
// Byte-budgeted LRU
// ---------------------------------------------------------------------------

/// A value with an approximate resident size in bytes.
pub trait Weighed {
    spec fn spec_weight(&self) -> nat;

    fn weight(&self) -> (w: usize)
        ensures
            w == self.spec_weight();
}

impl Weighed for Vec<u8> {
    open spec fn spec_weight(&self) -> nat {
        self@.len()
    }

    fn weight(&self) -> (w: usize) {
        self.len()
    }
}

/// A value carried with the byte count it is charged at: for values whose
/// size the library cannot see, such as a texture resident elsewhere.
pub struct Weighted<T> {
    pub value: T,
    pub bytes: usize,
}

impl<T> Weighed for Weighted<T> {
    open spec fn spec_weight(&self) -> nat {
        self.bytes as nat
    }

    fn weight(&self) -> (w: usize) {
        self.bytes
    }
}

/// A key that can be compared and copied with known results.
pub trait CacheKey: Sized {
    fn same_key(&self, other: &Self) -> (r: bool)
        ensures
            r == (*self == *other);

    fn copy_key(&self) -> (r: Self)
        ensures
            r == *self;
}

impl CacheKey for u32 {
    fn same_key(&self, other: &Self) -> (r: bool) {
        *self == *other
    }

    fn copy_key(&self) -> (r: Self) {
        *self
    }
}

impl CacheKey for u64 {
    fn same_key(&self, other: &Self) -> (r: bool) {
        *self == *other
    }

    fn copy_key(&self) -> (r: Self) {
        *self
    }
}

impl CacheKey for usize {
    fn same_key(&self, other: &Self) -> (r: bool) {
        *self == *other
    }

    fn copy_key(&self) -> (r: Self) {
        *self
    }
}

/// Total weight of a sequence of entries.
pub open spec fn weight_sum<K, V: Weighed>(s: Seq<(K, V)>) -> nat
    decreases s.len(),
{
    if s.len() == 0 {
        0
    } else {
        weight_sum(s.drop_last()) + s.last().1.spec_weight()
    }
}

/// Whether some entry has the key.
pub open spec fn has_key<K, V>(s: Seq<(K, V)>, k: K) -> bool {
    exists|i: int| 0 <= i < s.len() && #[trigger] s[i].0 == k
}

/// Keys occur at most once.
pub open spec fn distinct_keys<K, V>(s: Seq<(K, V)>) -> bool {
    forall|i: int, j: int| 0 <= i < s.len() && 0 <= j < s.len() && i != j ==> s[i].0 != s[j].0
}

/// The entries without those holding `k`, in order.
pub open spec fn without_key<K, V>(s: Seq<(K, V)>, k: K) -> Seq<(K, V)>
    decreases s.len(),
{
    if s.len() == 0 {
        s
    } else if s.last().0 == k {
        without_key(s.drop_last(), k)
    } else {
        without_key(s.drop_last(), k).push(s.last())
    }
}

pub proof fn lemma_weight_sum_push<K, V: Weighed>(s: Seq<(K, V)>, e: (K, V))
    ensures
        weight_sum(s.push(e)) == weight_sum(s) + e.1.spec_weight(),
{
    assert(s.push(e).drop_last() =~= s);
}

pub proof fn lemma_weight_sum_remove<K, V: Weighed>(s: Seq<(K, V)>, i: int)
    requires
        0 <= i < s.len(),
    ensures
        weight_sum(s) == weight_sum(s.remove(i)) + s[i].1.spec_weight(),
    decreases s.len(),
{
    if i < s.len() - 1 {
        lemma_weight_sum_remove(s.drop_last(), i);
        assert(s.remove(i) =~= s.drop_last().remove(i).push(s.last()));
        lemma_weight_sum_push(s.drop_last().remove(i), s.last());
    } else {
        assert(s.remove(i) =~= s.drop_last());
    }
}

proof fn lemma_without_key_lacks<K, V>(s: Seq<(K, V)>, k: K, j: int)
    requires
        0 <= j < without_key(s, k).len(),
    ensures
        without_key(s, k)[j].0 != k,
    decreases s.len(),
{
    if s.len() > 0 {
        if s.last().0 == k {
            lemma_without_key_lacks(s.drop_last(), k, j);
        } else if j < without_key(s.drop_last(), k).len() {
            lemma_without_key_lacks(s.drop_last(), k, j);
        }
    }
}

pub proof fn lemma_weight_sum_prefix<K, V: Weighed>(s: Seq<(K, V)>, i: int)
    requires
        0 <= i < s.len(),
    ensures
        weight_sum(s.subrange(0, i + 1)) == weight_sum(s.subrange(0, i)) + s[i].1.spec_weight(),
{
    assert(s.subrange(0, i + 1) =~= s.subrange(0, i).push(s[i]));
    lemma_weight_sum_push(s.subrange(0, i), s[i]);
}

pub proof fn lemma_weight_sum_prefix_bound<K, V: Weighed>(s: Seq<(K, V)>, i: int)
    requires
        0 <= i <= s.len(),
    ensures
        weight_sum(s.subrange(0, i)) <= weight_sum(s),
    decreases s.len() - i,
{
    if i < s.len() {
        lemma_weight_sum_prefix(s, i);
        lemma_weight_sum_prefix_bound(s, i + 1);
    } else {
        assert(s.subrange(0, i) =~= s);
    }
}

proof fn lemma_without_absent<K, V>(s: Seq<(K, V)>, k: K)
    requires
        !has_key(s, k),
    ensures
        without_key(s, k) == s,
    decreases s.len(),
{
    if s.len() > 0 {
        assert(!has_key(s.drop_last(), k)) by {
            if has_key(s.drop_last(), k) {
                let i = choose|i: int| 0 <= i < s.drop_last().len() && #[trigger] s.drop_last()[i].0 == k;
                assert(s[i].0 == k);
            }
        }
        assert(s.last() == s[s.len() - 1]);
        lemma_without_absent(s.drop_last(), k);
        assert(s.drop_last().push(s.last()) =~= s);
    }
}

proof fn lemma_without_at<K, V>(s: Seq<(K, V)>, k: K, i: int)
    requires
        distinct_keys(s),
        0 <= i < s.len(),
        s[i].0 == k,
    ensures
        without_key(s, k) == s.remove(i),
    decreases s.len(),
{
    if i == s.len() - 1 {
        assert(!has_key(s.drop_last(), k)) by {
            if has_key(s.drop_last(), k) {
                let j = choose|j: int| 0 <= j < s.drop_last().len() && #[trigger] s.drop_last()[j].0 == k;
                assert(s[j].0 == k);
            }
        }
        lemma_without_absent(s.drop_last(), k);
        assert(s.remove(i) =~= s.drop_last());
    } else {
        assert(s.last().0 != k) by {
            assert(s[s.len() - 1].0 != s[i].0);
        }
        assert(distinct_keys(s.drop_last()));
        lemma_without_at(s.drop_last(), k, i);
        assert(s.remove(i) =~= s.drop_last().remove(i).push(s.last()));
    }
}

/// Drop least recently used entries (from the front) while the total is
/// over budget and more than one entry remains.
pub open spec fn evicted<K, V: Weighed>(s: Seq<(K, V)>, budget: nat) -> Seq<(K, V)>
    decreases s.len(),
{
    if weight_sum(s) > budget && s.len() > 1 {
        evicted(s.drop_first(), budget)
    } else {
        s
    }
}

/// The entries for which `keep` is true.
pub open spec fn kept_by<K, V>(s: Seq<(K, V)>, keep: Seq<bool>) -> Seq<(K, V)>
    decreases s.len(),
{
    if s.len() == 0 {
        Seq::empty()
    } else if keep.last() {
        kept_by(s.drop_last(), keep.drop_last()).push(s.last())
    } else {
        kept_by(s.drop_last(), keep.drop_last())
    }
}

struct CacheEntry<K, V> {
    key: K,
    value: V,
    weight: usize,
}

/// Least-recently-used, evicting on a total byte budget. An item larger
/// than the whole budget is still stored, alone.
pub struct BudgetCache<K, V> {
    /// Least recently used first.
    entries: Vec<CacheEntry<K, V>>,
    budget: usize,
    used: usize,
}

impl<K: CacheKey, V: Weighed> BudgetCache<K, V> {
    /// The entries, least recently used first.
    pub closed spec fn view(&self) -> Seq<(K, V)> {
        self.entries@.map_values(|e: CacheEntry<K, V>| (e.key, e.value))
    }

    pub closed spec fn budget(&self) -> nat {
        self.budget as nat
    }

    pub closed spec fn wf(&self) -> bool {
        &&& distinct_keys(self.view())
        &&& forall|i: int| 0 <= i < self.entries.len() ==> (#[trigger] self.entries[i]).weight == self.entries[i].value.spec_weight()
        &&& self.used == weight_sum(self.view())
    }

    /// A well-formed cache holds each key once: what `lemma_insert_outcome`
    /// asks of the entries before an insert.
    pub proof fn lemma_keys_are_distinct(&self)
        requires
            self.wf(),
        ensures
            distinct_keys(self@),
    {
    }

    pub fn new(budget_bytes: usize) -> (r: Self)
        ensures
            r.wf(),
            r@ == Seq::<(K, V)>::empty(),
            r.budget() == budget_bytes,
    {
        let r = BudgetCache { entries: Vec::new(), budget: budget_bytes, used: 0 };
        assert(r@ =~= Seq::<(K, V)>::empty());
        r
    }

    /// Position of the entry holding `key`.
    fn position(&self, key: &K) -> (r: Option<usize>)
        requires
            self.wf(),
        ensures
            match r {
                Some(i) => i < self@.len() && self@[i as int].0 == *key,
                None => !has_key(self@, *key),
            },
    {
        let mut i: usize = 0;
        while i < self.entries.len()
            invariant
                0 <= i <= self.entries.len(),
                self@.len() == self.entries.len(),
                forall|j: int| 0 <= j < i ==> self@[j].0 != *key,
            decreases self.entries.len() - i,
        {
            if self.entries[i].key.same_key(key) {
                return Some(i);
            }
            i += 1;
        }
        None
    }

    pub fn contains(&self, key: &K) -> (r: bool)
        requires
            self.wf(),
        ensures
            r == has_key(self@, *key),
    {
        self.position(key).is_some()
    }

    /// Total weight of the stored values.
    pub fn used_bytes(&self) -> (r: usize)
        requires
            self.wf(),
        ensures
            r == weight_sum(self@),
    {
        self.used
    }

    pub fn len(&self) -> (r: usize)
        ensures
            r == self@.len(),
    {
        self.entries.len()
    }

    pub fn is_empty(&self) -> (r: bool)
        ensures
            r == (self@.len() == 0),
    {
        self.entries.len() == 0
    }

    pub fn clear(&mut self)
        ensures
            final(self).wf(),
            final(self)@ == Seq::<(K, V)>::empty(),
            final(self).budget() == old(self).budget(),
    {
        self.entries = Vec::new();
        self.used = 0;
        assert(self@ =~= Seq::<(K, V)>::empty());
    }

    /// Look a value up without touching the recency order: for layout passes
    /// that must not decide which entries survive eviction.
    pub fn peek(&self, key: &K) -> (r: Option<&V>)
        requires
            self.wf(),
        ensures
            match r {
                Some(v) => exists|i: int| 0 <= i < self@.len() && self@[i].0 == *key && *v == self@[i].1,
                None => !has_key(self@, *key),
            },
    {
        match self.position(key) {
            None => None,
            Some(i) => {
                assert(self@[i as int].1 == self.entries@[i as int].value);
                Some(&self.entries[i].value)
            },
        }
    }

    /// Look a value up, marking it most recently used.
    pub fn get(&mut self, key: &K) -> (r: Option<&V>)
        requires
            old(self).wf(),
        ensures
            final(self).wf(),
            final(self).budget() == old(self).budget(),
            match r {
                Some(v) => exists|i: int| 0 <= i < old(self)@.len() && old(self)@[i].0 == *key
                    && *v == old(self)@[i].1
                    && final(self)@ == old(self)@.remove(i).push(old(self)@[i]),
                None => !has_key(old(self)@, *key) && final(self)@ == old(self)@,
            },
    {
        match self.position(key) {
            None => None,
            Some(i) => {
                let ghost s = self@;
                let e = self.entries.remove(i);
                self.entries.push(e);
                proof {
                    assert(self@ =~= s.remove(i as int).push(s[i as int]));
                    lemma_weight_sum_remove(s, i as int);
                    lemma_weight_sum_push(s.remove(i as int), s[i as int]);
                    assert forall|a: int, b: int| 0 <= a < self@.len() && 0 <= b < self@.len() && a != b
                        implies self@[a].0 != self@[b].0 by {
                        let ia = if a == self@.len() - 1 { i as int } else if a < i { a } else { a + 1 };
                        let ib = if b == self@.len() - 1 { i as int } else if b < i { b } else { b + 1 };
                        assert(self@[a] == s[ia]);
                        assert(self@[b] == s[ib]);
                    }
                }
                let n = self.entries.len();
                Some(&self.entries[n - 1].value)
            },
        }
    }

    /// Store a value, marking it most recently used, then evict the least
    /// recently used entries while over budget and more than one remains.
    pub fn insert(&mut self, key: K, value: V)
        requires
            old(self).wf(),
            weight_sum(without_key(old(self)@, key)) + value.spec_weight() <= usize::MAX,
        ensures
            final(self).wf(),
            final(self).budget() == old(self).budget(),
            final(self)@ == evicted(without_key(old(self)@, key).push((key, value)), old(self).budget()),
    {
        let weight = value.weight();
        let ghost s0 = self@;
        match self.position(&key) {
            Some(i) => {
                let old_entry = self.entries.remove(i);
                proof {
                    lemma_without_at(s0, key, i as int);
                    lemma_weight_sum_remove(s0, i as int);
                    assert(self@ =~= s0.remove(i as int));
                }
                self.used = self.used - old_entry.weight;
            },
            None => {
                proof { lemma_without_absent(s0, key); }
            },
        }
        let ghost s1 = self@;
        assert(s1 == without_key(s0, key));
        assert(!has_key(s1, key)) by {
            if has_key(s1, key) {
                let j = choose|j: int| 0 <= j < s1.len() && #[trigger] s1[j].0 == key;
                lemma_without_key_lacks(s0, key, j);
            }
        }
        self.entries.push(CacheEntry { key, value, weight });
        proof {
            lemma_weight_sum_push(s1, (key, value));
            assert(self@ =~= s1.push((key, value)));
        }
        self.used = self.used + weight;
        self.evict();
    }

    /// Drop least recently used entries while over budget and more than
    /// one remains.
    fn evict(&mut self)
        requires
            old(self).wf(),
        ensures
            final(self).wf(),
            final(self).budget() == old(self).budget(),
            final(self)@ == evicted(old(self)@, old(self).budget()),
    {
        while self.used > self.budget && self.entries.len() > 1
            invariant
                self.wf(),
                self.budget() == old(self).budget(),
                evicted(self@, self.budget()) == evicted(old(self)@, old(self).budget()),
            decreases self.entries.len(),
        {
            let ghost s = self@;
            let victim = self.entries.remove(0);
            proof {
                lemma_weight_sum_remove(s, 0);
                assert(self@ =~= s.remove(0));
                assert(s.remove(0) =~= s.drop_first());
            }
            self.used = self.used - victim.weight;
        }
    }

    /// Drop every entry whose key fails the predicate.
    pub fn retain<F: Fn(&K) -> bool>(&mut self, keep: F)
        requires
            old(self).wf(),
            forall|k: &K| #[trigger] keep.requires((k,)),
        ensures
            final(self).wf(),
            final(self).budget() == old(self).budget(),
            exists|d: Seq<bool>| d.len() == old(self)@.len()
                && (forall|i: int| 0 <= i < d.len() ==> #[trigger] keep.ensures((&old(self)@[i].0,), d[i]))
                && final(self)@ == kept_by(old(self)@, d),
    {
        let ghost s0 = self@;
        let mut rest: Vec<CacheEntry<K, V>> = Vec::new();
        std::mem::swap(&mut rest, &mut self.entries);
        let ghost all = rest@;
        let mut out: Vec<CacheEntry<K, V>> = Vec::new();
        let mut used: usize = 0;
        let ghost mut d: Seq<bool> = Seq::empty();
        let ghost mut i: int = 0;
        while rest.len() > 0
            invariant
                0 <= i <= s0.len(),
                s0.len() == all.len(),
                s0 == all.map_values(|e: CacheEntry<K, V>| (e.key, e.value)),
                forall|j: int| 0 <= j < all.len() ==> (#[trigger] all[j]).weight == all[j].value.spec_weight(),
                distinct_keys(s0),
                weight_sum(s0) <= usize::MAX,
                rest@ == all.subrange(i, all.len() as int),
                forall|k: &K| #[trigger] keep.requires((k,)),
                d.len() == i,
                forall|j: int| 0 <= j < i ==> #[trigger] keep.ensures((&s0[j].0,), d[j]),
                out@.map_values(|e: CacheEntry<K, V>| (e.key, e.value)) == kept_by(s0.subrange(0, i), d),
                forall|a: int| 0 <= a < out.len() ==> (#[trigger] out@[a]).weight == out@[a].value.spec_weight(),
                forall|a: int| #![trigger out@[a]] 0 <= a < out.len() ==> exists|j: int| 0 <= j < i && #[trigger] s0[j].0 == out@[a].key,
                distinct_keys(out@.map_values(|e: CacheEntry<K, V>| (e.key, e.value))),
                used == weight_sum(out@.map_values(|e: CacheEntry<K, V>| (e.key, e.value))),
                weight_sum(out@.map_values(|e: CacheEntry<K, V>| (e.key, e.value))) <= weight_sum(s0.subrange(0, i)),
            decreases rest.len(),
        {
            let e = rest.remove(0);
            assert(e == all[i]);
            assert(s0[i] == (e.key, e.value));
            let k = keep(&e.key);
            let ghost ov = out@.map_values(|x: CacheEntry<K, V>| (x.key, x.value));
            proof {
                lemma_weight_sum_prefix(s0, i);
                lemma_weight_sum_prefix_bound(s0, i + 1);
                assert(s0.subrange(0, i + 1).drop_last() =~= s0.subrange(0, i));
                assert(d.push(k).drop_last() =~= d);
            }
            if k {
                let w = e.weight;
                out.push(e);
                used = used + w;
                proof {
                    let nv = out@.map_values(|x: CacheEntry<K, V>| (x.key, x.value));
                    assert(nv =~= ov.push(s0[i]));
                    lemma_weight_sum_push(ov, s0[i]);
                    assert forall|a: int| #![trigger out@[a]] 0 <= a < out.len() implies exists|j: int| 0 <= j < i + 1 && #[trigger] s0[j].0 == out@[a].key by {
                        if a == out.len() - 1 {
                            assert(s0[i].0 == out@[a].key);
                        } else {
                            let j = choose|j: int| 0 <= j < i && #[trigger] s0[j].0 == out@[a].key;
                            assert(s0[j].0 == out@[a].key);
                        }
                    }
                    assert forall|a: int, b: int| 0 <= a < nv.len() && 0 <= b < nv.len() && a != b
                        implies nv[a].0 != nv[b].0 by {
                        if a == nv.len() - 1 && b < nv.len() - 1 {
                            let j = choose|j: int| 0 <= j < i && #[trigger] s0[j].0 == out@[b].key;
                            assert(s0[j].0 != s0[i].0);
                        } else if b == nv.len() - 1 && a < nv.len() - 1 {
                            let j = choose|j: int| 0 <= j < i && #[trigger] s0[j].0 == out@[a].key;
                            assert(s0[j].0 != s0[i].0);
                        }
                    }
                }
            } else {
                proof {
                    assert forall|a: int| #![trigger out@[a]] 0 <= a < out.len() implies exists|j: int| 0 <= j < i + 1 && #[trigger] s0[j].0 == out@[a].key by {
                        let j = choose|j: int| 0 <= j < i && #[trigger] s0[j].0 == out@[a].key;
                        assert(s0[j].0 == out@[a].key);
                    }
                }
            }
            proof {
                d = d.push(k);
                i = i + 1;
                assert(rest@ =~= all.subrange(i, all.len() as int));
            }
        }
        assert(s0.subrange(0, i) =~= s0);
        self.entries = out;
        self.used = used;
        assert(self@ == kept_by(s0, d));
    }
}

/// Eviction only ever drops from the least recently used end: what remains
/// is a suffix of the entries.
pub proof fn lemma_evicted_is_suffix<K, V: Weighed>(s: Seq<(K, V)>, budget: nat)
    ensures
        exists|n: int| 0 <= n <= s.len() && #[trigger] s.subrange(n, s.len() as int) == evicted(s, budget),
    decreases s.len(),
{
    if weight_sum(s) > budget && s.len() > 1 {
        lemma_evicted_is_suffix(s.drop_first(), budget);
        let n = choose|n: int| 0 <= n <= s.drop_first().len()
            && #[trigger] s.drop_first().subrange(n, s.drop_first().len() as int) == evicted(s.drop_first(), budget);
        assert(s.subrange(n + 1, s.len() as int) =~= s.drop_first().subrange(n, s.drop_first().len() as int));
    } else {
        assert(s.subrange(0, s.len() as int) =~= s);
    }
}

/// After eviction the total fits the budget, unless a single entry remains;
/// the most recently used entry always survives.
pub proof fn lemma_evicted_fits<K, V: Weighed>(s: Seq<(K, V)>, budget: nat)
    ensures
        weight_sum(evicted(s, budget)) <= budget || evicted(s, budget).len() <= 1,
        s.len() > 0 ==> evicted(s, budget).len() >= 1 && evicted(s, budget).last() == s.last(),
    decreases s.len(),
{
    if weight_sum(s) > budget && s.len() > 1 {
        lemma_evicted_fits(s.drop_first(), budget);
        assert(s.drop_first().last() == s.last());
    }
}

/// Eviction stops as soon as the total fits: what it keeps is a suffix of
/// the entries, and keeping the last entry it dropped as well would go over
/// the budget.
pub proof fn lemma_evicted_is_minimal<K, V: Weighed>(s: Seq<(K, V)>, budget: nat)
    ensures
        ({
            let r = evicted(s, budget);
            let n = s.len() - r.len();
            &&& 0 <= n <= s.len()
            &&& r == s.subrange(n, s.len() as int)
            &&& n > 0 ==> weight_sum(s.subrange(n - 1, s.len() as int)) > budget
        }),
    decreases s.len(),
{
    if weight_sum(s) > budget && s.len() > 1 {
        let t = s.drop_first();
        lemma_evicted_is_minimal(t, budget);
        let m = t.len() - evicted(t, budget).len();
        assert(t.subrange(m, t.len() as int) =~= s.subrange(m + 1, s.len() as int));
        if m > 0 {
            assert(t.subrange(m - 1, t.len() as int) =~= s.subrange(m, s.len() as int));
        } else {
            assert(s.subrange(0, s.len() as int) =~= s);
        }
    } else {
        assert(s.subrange(0, s.len() as int) =~= s);
    }
}

proof fn lemma_suffix_distinct<K, V>(s: Seq<(K, V)>, n: int)
    requires
        distinct_keys(s),
        0 <= n <= s.len(),
    ensures
        distinct_keys(s.subrange(n, s.len() as int)),
{
    let t = s.subrange(n, s.len() as int);
    assert forall|a: int, b: int| 0 <= a < t.len() && 0 <= b < t.len() && a != b implies t[a].0 != t[b].0 by {
        assert(t[a] == s[a + n]);
        assert(t[b] == s[b + n]);
    }
}

proof fn lemma_without_key_from<K, V>(s: Seq<(K, V)>, k: K)
    ensures
        without_key(s, k).len() <= s.len(),
        forall|j: int| 0 <= j < without_key(s, k).len() ==> has_key(s, #[trigger] without_key(s, k)[j].0),
        distinct_keys(s) ==> distinct_keys(without_key(s, k)),
    decreases s.len(),
{
    if s.len() > 0 {
        let w = without_key(s.drop_last(), k);
        lemma_without_key_from(s.drop_last(), k);
        assert forall|j: int| 0 <= j < without_key(s, k).len() implies has_key(s, #[trigger] without_key(s, k)[j].0) by {
            if j < w.len() {
                let x = w[j].0;
                assert(has_key(s.drop_last(), x));
                let i = choose|i: int| 0 <= i < s.drop_last().len() && #[trigger] s.drop_last()[i].0 == x;
                assert(s[i].0 == x);
            } else {
                assert(s[s.len() - 1].0 == without_key(s, k)[j].0);
            }
        }
        if distinct_keys(s) {
            assert(distinct_keys(s.drop_last()));
            if s.last().0 != k {
                let r = without_key(s, k);
                assert forall|a: int, b: int| 0 <= a < r.len() && 0 <= b < r.len() && a != b implies r[a].0 != r[b].0 by {
                    if a == r.len() - 1 && b < w.len() {
                        let x = w[b].0;
                        assert(has_key(s.drop_last(), x));
                        let i = choose|i: int| 0 <= i < s.drop_last().len() && #[trigger] s.drop_last()[i].0 == x;
                        assert(s[i].0 != s[s.len() - 1].0);
                    } else if b == r.len() - 1 && a < w.len() {
                        let x = w[a].0;
                        assert(has_key(s.drop_last(), x));
                        let i = choose|i: int| 0 <= i < s.drop_last().len() && #[trigger] s.drop_last()[i].0 == x;
                        assert(s[i].0 != s[s.len() - 1].0);
                    }
                }
            }
        }
    }
}

/// What an insert leaves behind: the inserted entry, most recently used;
/// one entry per key; every other key was already present; and a total
/// within budget unless the inserted entry stands alone.
pub proof fn lemma_insert_outcome<K, V: Weighed>(s: Seq<(K, V)>, k: K, v: V, budget: nat)
    requires
        distinct_keys(s),
    ensures
        ({
            let r = evicted(without_key(s, k).push((k, v)), budget);
            &&& has_key(r, k)
            &&& r.last() == (k, v)
            &&& distinct_keys(r)
            &&& weight_sum(r) <= budget || r.len() == 1
            &&& forall|j: int| 0 <= j < r.len() && r[j].0 != k ==> has_key(s, #[trigger] r[j].0)
        }),
{
    let w = without_key(s, k);
    let t = w.push((k, v));
    lemma_without_key_from(s, k);
    assert(distinct_keys(t)) by {
        assert forall|a: int, b: int| 0 <= a < t.len() && 0 <= b < t.len() && a != b implies t[a].0 != t[b].0 by {
            if a == t.len() - 1 && b < w.len() {
                lemma_without_key_lacks(s, k, b);
            } else if b == t.len() - 1 && a < w.len() {
                lemma_without_key_lacks(s, k, a);
            }
        }
    }
    lemma_evicted_fits(t, budget);
    lemma_evicted_is_suffix(t, budget);
    let r = evicted(t, budget);
    let n = choose|n: int| 0 <= n <= t.len() && #[trigger] t.subrange(n, t.len() as int) == evicted(t, budget);
    lemma_suffix_distinct(t, n);
    assert(r[r.len() - 1].0 == k);
    assert forall|j: int| 0 <= j < r.len() && r[j].0 != k implies has_key(s, #[trigger] r[j].0) by {
        assert(r[j] == t[j + n]);
        assert(j + n < w.len());
    }
}

// ---------------------------------------------------------------------------
// Disk thumbnail store
// ---------------------------------------------------------------------------

/// Name of the file that holds the thumbnail with this key: sixteen
/// lower-case hexadecimal digits and `.jpg`.
pub open spec fn thumb_file_name(key: u64) -> Seq<char> {
    hex_digits(key as nat, 16) + ".jpg"@
}

/// Thumbnails on disk as small JPEGs, one file per key, in one folder.
pub struct DiskThumbCache {
    pub dir: Option<String>,
}

impl DiskThumbCache {
    /// A store in `dir`, or a disabled store when there is none. The folder
    /// itself is created by the caller.
    pub fn new(dir: Option<String>) -> (r: DiskThumbCache)
        ensures
            r.dir == dir,
    {
        DiskThumbCache { dir }
    }

    /// Where the thumbnail with this key lives.
    pub fn path_for(&self, key: u64) -> (r: Option<String>)
        ensures
            match self.dir {
                Some(d) => r matches Some(p) && p@ == join(d@, thumb_file_name(key)),
                None => r is None,
            },
    {
        match &self.dir {
            None => None,
            Some(d) => {
                let mut name: Vec<char> = Vec::new();
                push_hex(&mut name, key, 16);
                push_str(&mut name, ".jpg");
                assert(name@ =~= thumb_file_name(key));
                let dc = chars_of(d.as_str());
                let joined = crate::pathname::join_chars(&dc, &name);
                Some(string_of(&joined))
            },
        }
    }
}

} // verus!
