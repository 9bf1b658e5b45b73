//! Ordered columns: the in-memory form of one column of the ledger.

use vstd::prelude::*;

verus! {

/// A key of a column. Keys are totally ordered; a column is walked in this order.
pub trait ColumnKey: Sized + Copy {
    /// Strict order of the keys.
    spec fn before(self, other: Self) -> bool;

    proof fn lemma_irreflexive(a: Self)
        ensures
            !a.before(a),
    ;

    proof fn lemma_transitive(a: Self, b: Self, c: Self)
        requires
            a.before(b),
            b.before(c),
        ensures
            a.before(c),
    ;

    proof fn lemma_total(a: Self, b: Self)
        ensures
            a == b || a.before(b) || b.before(a),
    ;

    fn is_before(&self, other: &Self) -> (result: bool)
        ensures
            result == self.before(*other),
    ;
}

impl ColumnKey for u64 {
    open spec fn before(self, other: Self) -> bool {
        self < other
    }

    proof fn lemma_irreflexive(a: Self) {
    }

    proof fn lemma_transitive(a: Self, b: Self, c: Self) {
    }

    proof fn lemma_total(a: Self, b: Self) {
    }

    fn is_before(&self, other: &Self) -> (result: bool) {
        *self < *other
    }
}

impl ColumnKey for u32 {
    open spec fn before(self, other: Self) -> bool {
        self < other
    }

    proof fn lemma_irreflexive(a: Self) {
    }

    proof fn lemma_transitive(a: Self, b: Self, c: Self) {
    }

    proof fn lemma_total(a: Self, b: Self) {
    }

    fn is_before(&self, other: &Self) -> (result: bool) {
        *self < *other
    }
}

/// The key of a shred column: a slot and an index in it.
#[derive(Clone, Copy, PartialEq, Eq, Structural, Debug)]
pub struct SlotIndex {
    pub slot: u64,
    pub index: u64,
}

/// Ordered by slot and then by index.
impl ColumnKey for SlotIndex {
    open spec fn before(self, other: Self) -> bool {
        self.slot < other.slot || (self.slot == other.slot && self.index < other.index)
    }

    proof fn lemma_irreflexive(a: Self) {
    }

    proof fn lemma_transitive(a: Self, b: Self, c: Self) {
    }

    proof fn lemma_total(a: Self, b: Self) {
    }

    fn is_before(&self, other: &Self) -> (result: bool) {
        self.slot < other.slot || (self.slot == other.slot && self.index < other.index)
    }
}

/// `s` lists keys in strictly increasing order.
pub open spec fn increasing<K: ColumnKey>(s: Seq<K>) -> bool {
    forall|i: int, j: int| 0 <= i < j < s.len() ==> (#[trigger] s[i]).before(#[trigger] s[j])
}

/// `s` lists the keys of `m`, each once, in increasing order.
pub open spec fn orders<K: ColumnKey, W>(s: Seq<K>, m: Map<K, W>) -> bool {
    &&& increasing(s)
    &&& forall|k: K| #[trigger] m.contains_key(k) <==> s.contains(k)
}

/// The keys of `m` in increasing order.
pub open spec fn ordered_keys<K: ColumnKey, W>(m: Map<K, W>) -> Seq<K> {
    choose|s: Seq<K>| orders(s, m)
}

/// Two increasing sequences of the same keys are the same sequence.
pub proof fn lemma_increasing_unique<K: ColumnKey>(s: Seq<K>, t: Seq<K>)
    requires
        increasing(s),
        increasing(t),
        forall|k: K| #[trigger] s.contains(k) <==> t.contains(k),
    ensures
        s == t,
    decreases s.len(),
{
    if s.len() == 0 {
        if t.len() > 0 {
            assert(t.contains(t[0]));
            assert(s.contains(t[0]));
        }
        assert(s =~= t);
    } else {
        assert(s.contains(s[0]));
        assert(t.contains(s[0]));
        assert(t.contains(t[0]));
        assert(s.contains(t[0]));
        let i = choose|i: int| 0 <= i < t.len() && t[i] == s[0];
        let j = choose|j: int| 0 <= j < s.len() && s[j] == t[0];
        if i > 0 && j > 0 {
            K::lemma_transitive(s[0], t[0], s[0]);
            K::lemma_irreflexive(s[0]);
        }
        assert(s[0] == t[0]);
        let s1 = s.drop_first();
        let t1 = t.drop_first();
        assert forall|k: K| #[trigger] s1.contains(k) <==> t1.contains(k) by {
            if s1.contains(k) {
                let a = choose|a: int| 0 <= a < s1.len() && s1[a] == k;
                assert(s[a + 1] == k);
                assert(s[0].before(s[a + 1]));
                assert(s.contains(k));
                let b = choose|b: int| 0 <= b < t.len() && t[b] == k;
                if b == 0 {
                    K::lemma_irreflexive(s[0]);
                }
                assert(t1[b - 1] == k);
            }
            if t1.contains(k) {
                let a = choose|a: int| 0 <= a < t1.len() && t1[a] == k;
                assert(t[a + 1] == k);
                assert(t[0].before(t[a + 1]));
                assert(t.contains(k));
                assert(s.contains(k));
                let b = choose|b: int| 0 <= b < s.len() && s[b] == k;
                if b == 0 {
                    K::lemma_irreflexive(s[0]);
                }
                assert(s1[b - 1] == k);
            }
        }
        lemma_increasing_unique(s1, t1);
        assert(s =~= seq![s[0]] + s1);
        assert(t =~= seq![t[0]] + t1);
    }
}

/// A sequence that orders a map is the map's key sequence.
pub proof fn lemma_ordered_keys<K: ColumnKey, W>(s: Seq<K>, m: Map<K, W>)
    requires
        orders(s, m),
    ensures
        ordered_keys(m) == s,
        orders(ordered_keys(m), m),
{
    let t = ordered_keys(m);
    assert(orders(t, m));
    assert forall|k: K| #[trigger] s.contains(k) <==> t.contains(k) by {
        assert(m.contains_key(k) <==> s.contains(k));
        assert(m.contains_key(k) <==> t.contains(k));
    }
    lemma_increasing_unique(s, t);
}

/// A column: values found by key and walked in the order of their keys.
pub struct Column<K: ColumnKey, V: View> {
    entries: Vec<(K, V)>,
}

spec fn entry_keys<K: ColumnKey, V: View>(entries: Seq<(K, V)>) -> Seq<K> {
    Seq::new(entries.len(), |i: int| entries[i].0)
}

spec fn entry_map<K: ColumnKey, V: View>(entries: Seq<(K, V)>) -> Map<K, V::V> {
    Map::new(
        |k: K| entry_keys(entries).contains(k),
        |k: K| entries[entry_keys(entries).index_of(k)].1.view(),
    )
}

proof fn lemma_entry_at<K: ColumnKey, V: View>(entries: Seq<(K, V)>, i: int)
    requires
        increasing(entry_keys(entries)),
        0 <= i < entries.len(),
    ensures
        entry_map(entries).contains_key(entries[i].0),
        entry_map(entries)[entries[i].0] == entries[i].1.view(),
{
    let ks = entry_keys(entries);
    assert(ks[i] == entries[i].0);
    assert(ks.contains(ks[i]));
    let j = ks.index_of(ks[i]);
    if j < i {
        K::lemma_irreflexive(ks[i]);
    }
    if i < j {
        K::lemma_irreflexive(ks[i]);
    }
}

proof fn lemma_entries_order<K: ColumnKey, V: View>(entries: Seq<(K, V)>)
    requires
        increasing(entry_keys(entries)),
    ensures
        orders(entry_keys(entries), entry_map(entries)),
        ordered_keys(entry_map(entries)) == entry_keys(entries),
        ordered_keys(entry_map(entries)).len() == entries.len(),
        forall|i: int|
            0 <= i < entries.len() ==> (#[trigger] ordered_keys(entry_map(entries))[i])
                == entries[i].0,
{
    lemma_ordered_keys(entry_keys(entries), entry_map(entries));
}

impl<K: ColumnKey, V: View> View for Column<K, V> {
    type V = Map<K, V::V>;

    closed spec fn view(&self) -> Map<K, V::V> {
        entry_map(self.entries@)
    }
}

/// `p` of the keys in `ks` are before `k`, and they come first.
pub open spec fn splits_at<K: ColumnKey>(ks: Seq<K>, k: K, p: int) -> bool {
    &&& 0 <= p <= ks.len()
    &&& forall|i: int| 0 <= i < p ==> (#[trigger] ks[i]).before(k)
    &&& forall|i: int| p <= i < ks.len() ==> !(#[trigger] ks[i]).before(k)
}

impl<K: ColumnKey, V: View> Column<K, V> {
    #[verifier::type_invariant]
    spec fn sorted(self) -> bool {
        increasing(entry_keys(self.entries@))
    }

    /// A column that holds nothing.
    pub fn new() -> (result: Self)
        ensures
            result@ == Map::<K, V::V>::empty(),
    {
        let entries: Vec<(K, V)> = Vec::new();
        assert(entry_map(entries@) =~= Map::<K, V::V>::empty());
        Column { entries }
    }

    /// The number of keys.
    pub fn len(&self) -> (result: usize)
        ensures
            result == ordered_keys(self@).len(),
            orders(ordered_keys(self@), self@),
    {
        proof {
            use_type_invariant(self);
            lemma_entries_order(self.entries@);
        }
        self.entries.len()
    }

    /// The `i`-th key in order.
    pub fn key_at(&self, i: usize) -> (result: K)
        requires
            i < ordered_keys(self@).len(),
        ensures
            result == ordered_keys(self@)[i as int],
            self@.contains_key(result),
    {
        proof {
            use_type_invariant(self);
            lemma_entries_order(self.entries@);
            lemma_entry_at(self.entries@, i as int);
        }
        self.entries[i].0
    }

    /// The value of the `i`-th key in order.
    pub fn value_at(&self, i: usize) -> (result: &V)
        requires
            i < ordered_keys(self@).len(),
        ensures
            self@.contains_key(ordered_keys(self@)[i as int]),
            result@ == self@[ordered_keys(self@)[i as int]],
    {
        proof {
            use_type_invariant(self);
            lemma_entries_order(self.entries@);
            lemma_entry_at(self.entries@, i as int);
        }
        &self.entries[i].1
    }

    /// How many keys are before `k`.
    pub fn lower_bound(&self, k: &K) -> (result: usize)
        ensures
            splits_at(ordered_keys(self@), *k, result as int),
            orders(ordered_keys(self@), self@),
    {
        proof {
            use_type_invariant(self);
            lemma_entries_order(self.entries@);
        }
        let ghost ks = ordered_keys(self@);
        let mut low: usize = 0;
        let mut high: usize = self.entries.len();
        while low < high
            invariant
                0 <= low <= high <= ks.len(),
                ks.len() == self.entries@.len(),
                increasing(ks),
                forall|i: int| 0 <= i < ks.len() ==> (#[trigger] ks[i]) == self.entries@[i].0,
                forall|i: int| 0 <= i < low ==> (#[trigger] ks[i]).before(*k),
                forall|i: int| high <= i < ks.len() ==> !(#[trigger] ks[i]).before(*k),
            decreases high - low,
        {
            let middle: usize = low + (high - low) / 2;
            assert(ks[middle as int] == self.entries@[middle as int].0);
            if self.entries[middle].0.is_before(k) {
                proof {
                    assert forall|i: int| 0 <= i < middle + 1 implies (#[trigger] ks[i]).before(
                        *k,
                    ) by {
                        if i < middle {
                            K::lemma_transitive(ks[i], ks[middle as int], *k);
                        }
                    }
                }
                low = middle + 1;
            } else {
                proof {
                    assert forall|i: int| middle <= i < ks.len() implies !(#[trigger] ks[i]).before(
                        *k,
                    ) by {
                        if i > middle && ks[i].before(*k) {
                            K::lemma_transitive(ks[middle as int], ks[i], *k);
                        }
                    }
                }
                high = middle;
            }
        }
        low
    }

    /// The position of `k`, where it is a key.
    fn find(&self, k: &K) -> (result: Result<usize, usize>)
        ensures
            splits_at(entry_keys(self.entries@), *k, result_position(result) as int),
            increasing(entry_keys(self.entries@)),
            match result {
                Ok(p) => p < self.entries@.len() && self.entries@[p as int].0 == *k
                    && self@.contains_key(*k) && self@[*k] == self.entries@[p as int].1.view(),
                Err(p) => !self@.contains_key(*k),
            },
    {
        let p: usize = self.lower_bound(k);
        proof {
            use_type_invariant(self);
            lemma_entries_order(self.entries@);
        }
        let ghost ks = entry_keys(self.entries@);
        if p < self.entries.len() && !k.is_before(&self.entries[p].0) {
            proof {
                assert(!ks[p as int].before(*k));
                K::lemma_total(ks[p as int], *k);
                lemma_entry_at(self.entries@, p as int);
            }
            Ok(p)
        } else {
            proof {
                if ks.contains(*k) {
                    let i = choose|i: int| 0 <= i < ks.len() && ks[i] == *k;
                    K::lemma_irreflexive(*k);
                    assert(i >= p);
                    assert(k.before(ks[p as int]));
                    assert(i > p);
                    K::lemma_transitive(*k, ks[p as int], *k);
                }
            }
            Err(p)
        }
    }

    /// The value under `k`.
    pub fn get(&self, k: &K) -> (result: Option<&V>)
        ensures
            result is Some <==> self@.contains_key(*k),
            result is Some ==> result->0@ == self@[*k],
    {
        match self.find(k) {
            Ok(p) => Some(&self.entries[p].1),
            Err(_) => None,
        }
    }

    /// Whether `k` is a key.
    pub fn contains(&self, k: &K) -> (result: bool)
        ensures
            result == self@.contains_key(*k),
    {
        match self.find(k) {
            Ok(_) => true,
            Err(_) => false,
        }
    }

    /// Puts `v` under `k`, in place of what was there.
    pub fn put(&mut self, k: K, v: V)
        ensures
            final(self)@ == old(self)@.insert(k, v@),
    {
        let found = self.find(&k);
        let mut entries: Vec<(K, V)> = Vec::new();
        assert(increasing(entry_keys(entries@)));
        let ghost before = self.entries@;
        let ghost ks = entry_keys(before);
        std::mem::swap(&mut entries, &mut self.entries);
        match found {
            Ok(p) => {
                entries.set(p, (k, v));
                proof {
                    assert(entry_keys(entries@) =~= ks);
                    assert forall|x: K| entry_map(entries@).contains_key(x) implies #[trigger] entry_map(
                        entries@,
                    )[x] == entry_map(before).insert(k, v@)[x] by {
                        let i = ks.index_of(x);
                        assert(ks.contains(x));
                        assert(ks[i] == x);
                        lemma_entry_at(entries@, i);
                        lemma_entry_at(before, i);
                        if i == p {
                            assert(x == k);
                        } else {
                            if x == k {
                                K::lemma_irreflexive(k);
                                assert(ks[p as int] == k);
                            }
                        }
                    }
                    assert(ks[p as int] == k);
                    assert(entry_map(entries@) =~= entry_map(before).insert(k, v@));
                }
            },
            Err(p) => {
                entries.insert(p, (k, v));
                proof {
                    let new_ks = entry_keys(entries@);
                    assert(entries@ =~= before.insert(p as int, (k, v)));
                    assert(new_ks =~= ks.insert(p as int, k));
                    assert forall|i: int, j: int| 0 <= i < j < new_ks.len() implies (
                    #[trigger] new_ks[i]).before(#[trigger] new_ks[j]) by {
                        if i == p {
                            assert(new_ks[j] == ks[j - 1]);
                            K::lemma_total(k, ks[j - 1]);
                            assert(before[j - 1].0 == ks[j - 1]);
                            if ks[j - 1] == k {
                                lemma_entry_at(before, j - 1);
                            }
                        } else if j == p {
                            assert(new_ks[i] == ks[i]);
                        } else {
                            let i0 = if i < p { i } else { i - 1 };
                            let j0 = if j < p { j } else { j - 1 };
                            assert(ks[i0].before(ks[j0]));
                        }
                    }
                    assert(new_ks[p as int] == k);
                    assert forall|x: K| entry_map(entries@).contains_key(x) <==> (
                    #[trigger] entry_map(before).insert(k, v@).contains_key(x)) by {
                        if new_ks.contains(x) && x != k {
                            let i = choose|i: int| 0 <= i < new_ks.len() && new_ks[i] == x;
                            let i0 = if i < p { i } else { i - 1 };
                            assert(ks[i0] == x);
                        }
                        if ks.contains(x) {
                            let i = choose|i: int| 0 <= i < ks.len() && ks[i] == x;
                            let i1 = if i < p { i } else { i + 1 };
                            assert(new_ks[i1] == x);
                        }
                    }
                    assert forall|x: K| entry_map(entries@).contains_key(x) implies #[trigger] entry_map(
                        entries@,
                    )[x] == entry_map(before).insert(k, v@)[x] by {
                        let i = new_ks.index_of(x);
                        assert(new_ks[i] == x);
                        lemma_entry_at(entries@, i);
                        if i == p {
                            assert(x == k);
                        } else {
                            let i0 = if i < p { i } else { i - 1 };
                            assert(ks[i0] == x);
                            lemma_entry_at(before, i0);
                            if x == k {
                                assert(ks.contains(k));
                            }
                        }
                    }
                    assert(entry_map(entries@) =~= entry_map(before).insert(k, v@));
                }
            },
        }
        self.entries = entries;
    }

    /// Takes out what is under `k`.
    pub fn remove(&mut self, k: &K) -> (result: Option<V>)
        ensures
            final(self)@ == old(self)@.remove(*k),
            result is Some <==> old(self)@.contains_key(*k),
            result is Some ==> result->0@ == old(self)@[*k],
    {
        let found = self.find(k);
        match found {
            Ok(p) => {
                let mut entries: Vec<(K, V)> = Vec::new();
                assert(increasing(entry_keys(entries@)));
                let ghost before = self.entries@;
                let ghost ks = entry_keys(before);
                std::mem::swap(&mut entries, &mut self.entries);
                let taken = entries.remove(p);
                proof {
                    let new_ks = entry_keys(entries@);
                    assert(entries@ =~= before.remove(p as int));
                    assert(new_ks =~= ks.remove(p as int));
                    assert forall|i: int, j: int| 0 <= i < j < new_ks.len() implies (
                    #[trigger] new_ks[i]).before(#[trigger] new_ks[j]) by {
                        let i0 = if i < p { i } else { i + 1 };
                        let j0 = if j < p { j } else { j + 1 };
                        assert(ks[i0].before(ks[j0]));
                    }
                    K::lemma_irreflexive(*k);
                    assert forall|x: K| entry_map(entries@).contains_key(x) <==> (
                    #[trigger] entry_map(before).remove(*k).contains_key(x)) by {
                        if new_ks.contains(x) {
                            let i = choose|i: int| 0 <= i < new_ks.len() && new_ks[i] == x;
                            let i0 = if i < p { i } else { i + 1 };
                            assert(ks[i0] == x);
                            if x == *k {
                                assert(ks[p as int] == *k);
                                if i0 < p {
                                    assert(ks[i0].before(ks[p as int]));
                                } else {
                                    assert(ks[p as int].before(ks[i0]));
                                }
                            }
                        }
                        if ks.contains(x) && x != *k {
                            let i = choose|i: int| 0 <= i < ks.len() && ks[i] == x;
                            let i1 = if i < p { i } else { i - 1 };
                            assert(new_ks[i1] == x);
                        }
                    }
                    assert forall|x: K| entry_map(entries@).contains_key(x) implies #[trigger] entry_map(
                        entries@,
                    )[x] == entry_map(before).remove(*k)[x] by {
                        let i = new_ks.index_of(x);
                        assert(new_ks[i] == x);
                        lemma_entry_at(entries@, i);
                        let i0 = if i < p { i } else { i + 1 };
                        assert(ks[i0] == x);
                        lemma_entry_at(before, i0);
                        assert(entry_map(before).remove(*k).contains_key(x));
                    }
                    assert(entry_map(entries@) =~= entry_map(before).remove(*k));
                }
                self.entries = entries;
                Some(taken.1)
            },
            Err(p) => {
                assert(self@ =~= self@.remove(*k));
                None
            },
        }
    }

    /// Takes out every key that is not before `from` and is before `to`.
    pub fn delete_range(&mut self, from: &K, to: &K)
        ensures
            final(self)@ == without_range(old(self)@, *from, *to),
    {
        let start: usize = self.lower_bound(from);
        let end: usize = self.lower_bound(to);
        proof {
            use_type_invariant(&*self);
            lemma_entries_order(self.entries@);
        }
        let ghost ks = ordered_keys(self@);
        let ghost base = self@;
        if end <= start {
            proof {
                assert forall|k: K| #[trigger] base.contains_key(k) implies k.before(*from)
                    || !k.before(*to) by {
                    assert(ks.contains(k));
                    let j = choose|j: int| 0 <= j < ks.len() && ks[j] == k;
                    assert(ks[j].before(*from) || !ks[j].before(*to));
                }
                assert(self@ =~= without_range(base, *from, *to));
            }
            return;
        }
        let mut i: usize = end;
        assert(ks.take(end as int) + ks.skip(end as int) =~= ks);
        while start < i
            invariant
                start <= i <= end <= ks.len(),
                splits_at(ks, *from, start as int),
                splits_at(ks, *to, end as int),
                orders(ks, base),
                orders(ks.take(i as int) + ks.skip(end as int), self@),
                forall|k: K| #[trigger]
                    self@.contains_key(k) ==> base.contains_key(k) && self@[k] == base[k],
            decreases i,
        {
            proof {
                use_type_invariant(&*self);
                lemma_entries_order(self.entries@);
                lemma_ordered_keys(ks.take(i as int) + ks.skip(end as int), self@);
                lemma_remove_last_before(ks, i as int, end as int, self@);
            }
            let k = self.entries[i - 1].0;
            let _ = self.remove(&k);
            i = i - 1;
        }
        proof {
            let rest = ks.take(i as int) + ks.skip(end as int);
            assert forall|k: K| #[trigger] self@.contains_key(k) <==> without_range(
                base,
                *from,
                *to,
            ).contains_key(k) by {
                if self@.contains_key(k) {
                    assert(rest.contains(k));
                    let j = choose|j: int| 0 <= j < rest.len() && rest[j] == k;
                    if j < i {
                        assert(ks[j] == k);
                    } else {
                        assert(ks[j - i + end] == k);
                    }
                }
                if without_range(base, *from, *to).contains_key(k) {
                    assert(ks.contains(k));
                    let j = choose|j: int| 0 <= j < ks.len() && ks[j] == k;
                    if j < start {
                        assert(rest[j] == k);
                    } else {
                        assert(j >= end);
                        assert(rest[j - end + i] == k);
                    }
                    assert(rest.contains(k));
                }
            }
            assert(self@ =~= without_range(base, *from, *to));
        }
    }
}

spec fn result_position(r: Result<usize, usize>) -> usize {
    match r {
        Ok(p) => p,
        Err(p) => p,
    }
}

/// `m` without the keys from `from` up to `to`, the latter excluded.
pub open spec fn without_range<K: ColumnKey, W>(m: Map<K, W>, from: K, to: K) -> Map<K, W> {
    Map::new(|k: K| m.contains_key(k) && (k.before(from) || !k.before(to)), |k: K| m[k])
}

/// Types that can be copied value by value.
pub trait Duplicate: View + Sized {
    fn duplicate(&self) -> (result: Self)
        ensures
            result@ == self@,
    ;
}

impl Duplicate for bool {
    fn duplicate(&self) -> (result: Self) {
        *self
    }
}

impl Duplicate for u64 {
    fn duplicate(&self) -> (result: Self) {
        *self
    }
}

impl Duplicate for Vec<u8> {
    fn duplicate(&self) -> (result: Self) {
        let result = self.clone();
        assert(result@ =~= self@);
        result
    }
}

impl Duplicate for Vec<u64> {
    fn duplicate(&self) -> (result: Self) {
        let result = self.clone();
        assert(result@ =~= self@);
        result
    }
}

impl<K: ColumnKey, V: Duplicate> Duplicate for Column<K, V> {
    fn duplicate(&self) -> (result: Self) {
        let mut result: Column<K, V> = Column::new();
        let n: usize = self.len();
        let mut i: usize = 0;
        let ghost ks = ordered_keys(self@);
        while i < n
            invariant
                0 <= i <= n,
                n == ks.len(),
                ks == ordered_keys(self@),
                orders(ks, self@),
                forall|k: K| #[trigger]
                    result@.contains_key(k) <==> exists|j: int| 0 <= j < i && ks[j] == k,
                forall|k: K| #[trigger]
                    result@.contains_key(k) ==> self@.contains_key(k) && result@[k] == self@[k],
            decreases n - i,
        {
            let ghost before = result@;
            let k = self.key_at(i);
            result.put(k, self.value_at(i).duplicate());
            proof {
                assert forall|x: K| #[trigger] result@.contains_key(x) <==> exists|j: int|
                    0 <= j < i + 1 && ks[j] == x by {
                    assert(ks[i as int] == k);
                    if result@.contains_key(x) && x != k {
                        assert(before.contains_key(x));
                    }
                    if exists|j: int| 0 <= j < i + 1 && ks[j] == x {
                        let j = choose|j: int| 0 <= j < i + 1 && ks[j] == x;
                        if j < i {
                            assert(before.contains_key(x));
                        }
                    }
                }
            }
            i += 1;
        }
        proof {
            assert forall|k: K| #[trigger] self@.contains_key(k) implies result@.contains_key(k) by {
                assert(ks.contains(k));
            }
            assert(result@ =~= self@);
        }
        result
    }
}

/// `s` lists the members of `set`, each once, in increasing order.
pub open spec fn lists<K: ColumnKey>(s: Seq<K>, set: Set<K>) -> bool {
    &&& increasing(s)
    &&& forall|k: K| #[trigger] set.contains(k) <==> s.contains(k)
}

/// The members of `set` in increasing order.
pub open spec fn ordered<K: ColumnKey>(set: Set<K>) -> Seq<K> {
    choose|s: Seq<K>| lists(s, set)
}

/// A sequence that lists a set is the set's ordered sequence.
pub proof fn lemma_ordered<K: ColumnKey>(s: Seq<K>, set: Set<K>)
    requires
        lists(s, set),
    ensures
        ordered(set) == s,
        lists(ordered(set), set),
{
    let t = ordered(set);
    assert(lists(t, set));
    assert forall|k: K| #[trigger] s.contains(k) <==> t.contains(k) by {
        assert(set.contains(k) <==> s.contains(k));
        assert(set.contains(k) <==> t.contains(k));
    }
    lemma_increasing_unique(s, t);
}

/// A set of keys, walked in order.
pub struct KeySet<K: ColumnKey> {
    column: Column<K, bool>,
}

impl<K: ColumnKey> View for KeySet<K> {
    type V = Set<K>;

    closed spec fn view(&self) -> Set<K> {
        self.column@.dom()
    }
}

impl<K: ColumnKey> KeySet<K> {
    proof fn lemma_order(&self)
        requires
            orders(ordered_keys(self.column@), self.column@),
        ensures
            ordered(self@) == ordered_keys(self.column@),
            lists(ordered(self@), self@),
    {
        let s = ordered_keys(self.column@);
        assert forall|k: K| #[trigger] self@.contains(k) <==> s.contains(k) by {
            assert(self.column@.contains_key(k) <==> s.contains(k));
        }
        lemma_ordered(s, self@);
    }

    /// A set without members.
    pub fn new() -> (result: Self)
        ensures
            result@ == Set::<K>::empty(),
    {
        let result = KeySet { column: Column::new() };
        assert(result@ =~= Set::<K>::empty());
        result
    }

    /// The number of members.
    pub fn len(&self) -> (result: usize)
        ensures
            result == ordered(self@).len(),
            lists(ordered(self@), self@),
    {
        let n: usize = self.column.len();
        proof {
            self.lemma_order();
        }
        n
    }

    /// The `i`-th member in order.
    pub fn at(&self, i: usize) -> (result: K)
        requires
            i < ordered(self@).len(),
        ensures
            result == ordered(self@)[i as int],
            self@.contains(result),
    {
        let n: usize = self.column.len();
        proof {
            self.lemma_order();
        }
        self.column.key_at(i)
    }

    /// How many members are before `k`.
    pub fn lower_bound(&self, k: &K) -> (result: usize)
        ensures
            splits_at(ordered(self@), *k, result as int),
            lists(ordered(self@), self@),
    {
        let p: usize = self.column.lower_bound(k);
        proof {
            self.lemma_order();
        }
        p
    }

    /// Whether `k` is a member.
    pub fn contains(&self, k: &K) -> (result: bool)
        ensures
            result == self@.contains(*k),
    {
        self.column.contains(k)
    }

    /// Makes `k` a member.
    pub fn insert(&mut self, k: K)
        ensures
            final(self)@ == old(self)@.insert(k),
    {
        self.column.put(k, true);
        assert(self@ =~= old(self)@.insert(k));
    }

    /// Takes `k` out.
    pub fn remove(&mut self, k: &K)
        ensures
            final(self)@ == old(self)@.remove(*k),
    {
        let _ = self.column.remove(k);
        assert(self@ =~= old(self)@.remove(*k));
    }

    /// Whether two sets have the same members.
    pub fn same(&self, other: &Self) -> (result: bool)
        ensures
            result == (self@ == other@),
    {
        let n: usize = self.len();
        let m: usize = other.len();
        if n != m {
            return false;
        }
        let ghost s = ordered(self@);
        let ghost t = ordered(other@);
        let mut i: usize = 0;
        while i < n
            invariant
                0 <= i <= n,
                n == s.len(),
                n == t.len(),
                s == ordered(self@),
                t == ordered(other@),
                forall|j: int| 0 <= j < i ==> s[j] == t[j],
            decreases n - i,
        {
            let a = self.at(i);
            let b = other.at(i);
            if a.is_before(&b) || b.is_before(&a) {
                proof {
                    K::lemma_irreflexive(a);
                }
                return false;
            }
            proof {
                K::lemma_total(a, b);
            }
            i += 1;
        }
        proof {
            assert(s =~= t);
            assert forall|k: K| #[trigger] self@.contains(k) <==> other@.contains(k) by {
                assert(self@.contains(k) <==> s.contains(k));
                assert(other@.contains(k) <==> t.contains(k));
            }
            assert(self@ =~= other@);
        }
        true
    }
}

impl<K: ColumnKey> Duplicate for KeySet<K> {
    fn duplicate(&self) -> (result: Self) {
        KeySet { column: self.column.duplicate() }
    }
}

proof fn lemma_remove_last_before<K: ColumnKey, W>(ks: Seq<K>, i: int, end: int, m: Map<K, W>)
    requires
        0 < i <= end <= ks.len(),
        increasing(ks),
        orders(ks.take(i) + ks.skip(end), m),
    ensures
        orders(ks.take(i - 1) + ks.skip(end), m.remove(ks[i - 1])),
        (ks.take(i) + ks.skip(end))[i - 1] == ks[i - 1],
{
    let s = ks.take(i) + ks.skip(end);
    let t = ks.take(i - 1) + ks.skip(end);
    let x = ks[i - 1];
    assert(t =~= s.remove(i - 1));
    K::lemma_irreflexive(x);
    assert forall|a: int, b: int| 0 <= a < b < t.len() implies (#[trigger] t[a]).before(
        #[trigger] t[b],
    ) by {
        let a0 = if a < i - 1 { a } else { a + 1 };
        let b0 = if b < i - 1 { b } else { b + 1 };
        assert(s[a0].before(s[b0]));
    }
    assert forall|k: K| #[trigger] m.remove(x).contains_key(k) <==> t.contains(k) by {
        if m.remove(x).contains_key(k) {
            assert(s.contains(k));
            let j = choose|j: int| 0 <= j < s.len() && s[j] == k;
            let j1 = if j < i - 1 { j } else { j - 1 };
            assert(t[j1] == k);
        }
        if t.contains(k) {
            let j = choose|j: int| 0 <= j < t.len() && t[j] == k;
            let j0 = if j < i - 1 { j } else { j + 1 };
            assert(s[j0] == k);
            assert(s.contains(k));
            if k == x {
                if j0 < i - 1 {
                    assert(s[j0].before(s[i - 1]));
                } else {
                    assert(s[i - 1].before(s[j0]));
                }
            }
        }
    }
}


/// The lowest member of a set of numbers.
pub open spec fn least(set: Set<u64>) -> Option<u64> {
    if exists|k: u64| set.contains(k) {
        Some(choose|k: u64| is_least(set, k))
    } else {
        None
    }
}

/// `k` is the lowest member of `set`.
pub open spec fn is_least(set: Set<u64>, k: u64) -> bool {
    set.contains(k) && forall|j: u64| #[trigger] set.contains(j) ==> k <= j
}

/// The highest member of a set of numbers.
pub open spec fn greatest(set: Set<u64>) -> Option<u64> {
    if exists|k: u64| set.contains(k) {
        Some(choose|k: u64| is_greatest(set, k))
    } else {
        None
    }
}

/// `k` is the highest member of `set`.
pub open spec fn is_greatest(set: Set<u64>, k: u64) -> bool {
    set.contains(k) && forall|j: u64| #[trigger] set.contains(j) ==> j <= k
}

/// There is one lowest member.
pub proof fn lemma_least(set: Set<u64>, k: u64)
    requires
        is_least(set, k),
    ensures
        least(set) == Some(k),
{
    let c = choose|c: u64| is_least(set, c);
    assert(is_least(set, c));
    assert(set.contains(c) && set.contains(k));
}

/// A set with members has a lowest one.
pub proof fn lemma_least_member(set: Set<u64>)
    requires
        least(set) is Some,
    ensures
        is_least(set, least(set)->0),
{
    let k = choose|k: u64| set.contains(k);
    lemma_least_below(set, k);
}

proof fn lemma_least_below(set: Set<u64>, k: u64)
    requires
        set.contains(k),
    ensures
        exists|j: u64| is_least(set, j),
    decreases k,
{
    if exists|j: u64| #[trigger] set.contains(j) && j < k {
        let j = choose|j: u64| #[trigger] set.contains(j) && j < k;
        lemma_least_below(set, j);
    } else {
        assert(is_least(set, k));
    }
}

/// There is one highest member.
pub proof fn lemma_greatest(set: Set<u64>, k: u64)
    requires
        is_greatest(set, k),
    ensures
        greatest(set) == Some(k),
{
    let c = choose|c: u64| is_greatest(set, c);
    assert(is_greatest(set, c));
    assert(set.contains(c) && set.contains(k));
}

/// The keys of `m` at or above `from`.
pub open spec fn keys_at_or_above<W>(m: Map<u64, W>, from: u64) -> Set<u64> {
    m.dom().filter(|k: u64| k >= from)
}

/// The keys of `m` at or above `from`, in increasing order.
pub open spec fn keys_from<W>(m: Map<u64, W>, from: u64) -> Seq<u64> {
    ordered(keys_at_or_above(m, from))
}

impl<V: View> Column<u64, V> {
    /// The keys at or above `from`, in increasing order.
    pub fn keys_from(&self, from: u64) -> (result: Vec<u64>)
        ensures
            result@ == keys_from(self@, from),
            lists(result@, keys_at_or_above(self@, from)),
    {
        let n: usize = self.len();
        let p: usize = self.lower_bound(&from);
        let ghost ks = ordered_keys(self@);
        let mut result: Vec<u64> = Vec::new();
        let mut i: usize = p;
        while i < n
            invariant
                p <= i <= n,
                n == ks.len(),
                ks == ordered_keys(self@),
                result@ == ks.subrange(p as int, i as int),
            decreases n - i,
        {
            result.push(self.key_at(i));
            assert(result@ =~= ks.subrange(p as int, i + 1));
            i += 1;
        }
        proof {
            let set = keys_at_or_above(self@, from);
            let s = result@;
            assert forall|a: int, b: int| 0 <= a < b < s.len() implies (#[trigger] s[a]).before(
                #[trigger] s[b],
            ) by {
                assert(ks[a + p].before(ks[b + p]));
            }
            assert forall|k: u64| #[trigger] set.contains(k) <==> s.contains(k) by {
                if set.contains(k) {
                    assert(self@.contains_key(k));
                    assert(ks.contains(k));
                    let j = choose|j: int| 0 <= j < ks.len() && ks[j] == k;
                    if j < p {
                        assert(ks[j].before(from));
                    }
                    assert(s[j - p] == k);
                }
                if s.contains(k) {
                    let j = choose|j: int| 0 <= j < s.len() && s[j] == k;
                    assert(ks[j + p] == k);
                    assert(ks.contains(k));
                    assert(!ks[j + p].before(from));
                    assert(self@.contains_key(k));
                }
            }
            lemma_ordered(s, set);
        }
        result
    }

    /// The lowest key at or above `from`.
    pub fn first_from(&self, from: u64) -> (result: Option<u64>)
        ensures
            result == least(keys_at_or_above(self@, from)),
    {
        let n: usize = self.len();
        let p: usize = self.lower_bound(&from);
        let ghost ks = ordered_keys(self@);
        let ghost set = keys_at_or_above(self@, from);
        if p < n {
            let k: u64 = self.key_at(p);
            proof {
                assert(!ks[p as int].before(from));
                assert forall|j: u64| #[trigger] set.contains(j) implies k <= j by {
                    assert(self@.contains_key(j));
                    assert(ks.contains(j));
                    let i = choose|i: int| 0 <= i < ks.len() && ks[i] == j;
                    if i < p {
                        assert(ks[i].before(from));
                    } else if i > p {
                        assert(ks[p as int].before(ks[i]));
                    }
                }
                lemma_least(set, k);
            }
            Some(k)
        } else {
            proof {
                assert forall|j: u64| !set.contains(j) by {
                    if set.contains(j) {
                        assert(self@.contains_key(j));
                        assert(ks.contains(j));
                        let i = choose|i: int| 0 <= i < ks.len() && ks[i] == j;
                        assert(ks[i].before(from));
                    }
                }
            }
            None
        }
    }

    /// The highest key.
    pub fn last_key(&self) -> (result: Option<u64>)
        ensures
            result == greatest(self@.dom()),
    {
        let n: usize = self.len();
        let ghost ks = ordered_keys(self@);
        if n > 0 {
            let k: u64 = self.key_at(n - 1);
            proof {
                assert forall|j: u64| #[trigger] self@.dom().contains(j) implies j <= k by {
                    assert(self@.contains_key(j));
                    assert(ks.contains(j));
                    let i = choose|i: int| 0 <= i < ks.len() && ks[i] == j;
                    if i < n - 1 {
                        assert(ks[i].before(ks[n - 1]));
                    }
                }
                assert(self@.dom().contains(k));
                lemma_greatest(self@.dom(), k);
            }
            Some(k)
        } else {
            proof {
                assert forall|j: u64| !self@.dom().contains(j) by {
                    if self@.contains_key(j) {
                        assert(ks.contains(j));
                    }
                }
            }
            None
        }
    }
}


/// How many of the increasing `keys` are before `k`.
pub open spec fn lower<K: ColumnKey>(keys: Seq<K>, k: K) -> int
    decreases keys.len(),
{
    if keys.len() == 0 {
        0
    } else if keys.last().before(k) {
        keys.len() as int
    } else {
        lower(keys.drop_last(), k)
    }
}

/// There is one place where `k` splits a sequence of keys.
pub proof fn lemma_lower<K: ColumnKey>(keys: Seq<K>, k: K, p: int)
    requires
        splits_at(keys, k, p),
    ensures
        lower(keys, k) == p,
    decreases keys.len(),
{
    if keys.len() > 0 {
        let n = keys.len() - 1;
        if p == keys.len() {
            assert(keys[n].before(k));
        } else {
            assert(!keys[n].before(k));
            assert(splits_at(keys.drop_last(), k, p)) by {
                let d = keys.drop_last();
                assert forall|i: int| 0 <= i < p implies (#[trigger] d[i]).before(k) by {
                    assert(keys[i].before(k));
                }
                assert forall|i: int| p <= i < d.len() implies !(#[trigger] d[i]).before(k) by {
                    assert(!keys[i].before(k));
                }
            }
            lemma_lower(keys.drop_last(), k, p);
        }
    }
}

/// The keys in `keys` that `keep` holds of, in their order.
pub open spec fn selected<K>(keys: Seq<K>, keep: spec_fn(K) -> bool) -> Seq<K>
    decreases keys.len(),
{
    if keys.len() == 0 {
        Seq::empty()
    } else {
        let earlier = selected(keys.drop_last(), keep);
        if keep(keys.last()) {
            earlier.push(keys.last())
        } else {
            earlier
        }
    }
}

/// What is outside of a window that holds every key to be kept can be left out.
pub proof fn lemma_selected_window<K>(keys: Seq<K>, keep: spec_fn(K) -> bool, p: int, q: int)
    requires
        0 <= p <= q <= keys.len(),
        forall|i: int| 0 <= i < p ==> !keep(#[trigger] keys[i]),
        forall|i: int| q <= i < keys.len() ==> !keep(#[trigger] keys[i]),
    ensures
        selected(keys, keep) == selected(keys.subrange(p, q), keep),
    decreases keys.len(),
{
    if keys.len() > 0 {
        let n = keys.len() - 1;
        let d = keys.drop_last();
        assert forall|i: int| 0 <= i < d.len() implies d[i] == keys[i] by {
        }
        if q == keys.len() {
            if p == q {
                assert(!keep(keys[n]));
                assert forall|i: int| 0 <= i < n implies !keep(#[trigger] d[i]) by {
                    assert(!keep(keys[i]));
                }
                lemma_selected_window(d, keep, n, n);
                assert(d.subrange(n, n) =~= Seq::empty());
                assert(keys.subrange(p, q) =~= Seq::empty());
            } else {
                let w = keys.subrange(p, q);
                assert(w.drop_last() =~= d.subrange(p, q - 1));
                assert(w.last() == keys.last());
                lemma_selected_window(d, keep, p, q - 1);
            }
        } else {
            assert(!keep(keys[n]));
            assert(keys.subrange(p, q) =~= d.subrange(p, q));
            lemma_selected_window(d, keep, p, q);
        }
    } else {
        assert(keys.subrange(p, q) =~= keys);
    }
}


/// An increasing sequence has a place for any key.
pub proof fn lemma_split_exists<K: ColumnKey>(s: Seq<K>, k: K) -> (p: int)
    requires
        increasing(s),
    ensures
        splits_at(s, k, p),
    decreases s.len(),
{
    if s.len() == 0 {
        0
    } else {
        let d = s.drop_last();
        assert(increasing(d)) by {
            assert forall|i: int, j: int| 0 <= i < j < d.len() implies (#[trigger] d[i]).before(
                #[trigger] d[j],
            ) by {
                assert(s[i].before(s[j]));
            }
        }
        if s.last().before(k) {
            assert forall|i: int| 0 <= i < s.len() implies (#[trigger] s[i]).before(k) by {
                if i < s.len() - 1 {
                    assert(s[i].before(s[s.len() - 1]));
                    K::lemma_transitive(s[i], s[s.len() - 1], k);
                }
            }
            s.len() as int
        } else {
            let p = lemma_split_exists(d, k);
            assert forall|i: int| 0 <= i < p implies (#[trigger] s[i]).before(k) by {
                assert(d[i].before(k));
            }
            assert forall|i: int| p <= i < s.len() implies !(#[trigger] s[i]).before(k) by {
                if i < d.len() {
                    assert(!d[i].before(k));
                }
            }
            p
        }
    }
}

/// The keys of a finite map can be put in order.
pub proof fn lemma_finite_orders<K: ColumnKey, W>(m: Map<K, W>)
    requires
        m.dom().finite(),
    ensures
        orders(ordered_keys(m), m),
    decreases m.dom().len(),
{
    if m.dom().len() == 0 {
        assert(m.dom() =~= Set::empty());
        assert forall|k: K| #[trigger] m.contains_key(k) <==> Seq::<K>::empty().contains(k) by {
            assert(!m.dom().contains(k));
        }
        lemma_ordered_keys(Seq::<K>::empty(), m);
    } else {
        let k = m.dom().choose();
        assert(m.dom().contains(k));
        let rest = m.remove(k);
        assert(rest.dom() =~= m.dom().remove(k));
        lemma_finite_orders(rest);
        let s = ordered_keys(rest);
        let p = lemma_split_exists(s, k);
        let t = s.insert(p, k);
        assert(!s.contains(k)) by {
            assert(!rest.contains_key(k));
        }
        assert forall|i: int, j: int| 0 <= i < j < t.len() implies (#[trigger] t[i]).before(
            #[trigger] t[j],
        ) by {
            if i == p {
                assert(t[j] == s[j - 1]);
                assert(s.contains(s[j - 1]));
                K::lemma_total(k, s[j - 1]);
                assert(!s[j - 1].before(k));
            } else if j == p {
                assert(t[i] == s[i]);
                assert(s[i].before(k));
            } else {
                let a = if i < p { i } else { i - 1 };
                let b = if j < p { j } else { j - 1 };
                assert(s[a].before(s[b]));
            }
        }
        assert forall|x: K| #[trigger] m.contains_key(x) <==> t.contains(x) by {
            assert(t[p] == k);
            if m.contains_key(x) && x != k {
                assert(rest.contains_key(x));
                assert(s.contains(x));
                let i = choose|i: int| 0 <= i < s.len() && s[i] == x;
                let j = if i < p { i } else { i + 1 };
                assert(t[j] == x);
            }
            if t.contains(x) && x != k {
                let j = choose|j: int| 0 <= j < t.len() && t[j] == x;
                let i = if j < p { j } else { j - 1 };
                assert(s[i] == x);
                assert(s.contains(x));
                assert(rest.contains_key(x));
            }
        }
        lemma_ordered_keys(t, m);
    }
}

} // verus!
