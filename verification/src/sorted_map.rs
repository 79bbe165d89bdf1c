//! A map kept as a vector of entries sorted strictly by key.
//!
//! Every collection in the model (metadata, interfaces of a node, nodes and
//! links of a network) is one of these: the sorted order is what makes the
//! canonical encoding unique, and the abstract view is a mathematical `Map`.
use vstd::prelude::*;
use crate::text::{group_str_order, str_compare, str_lt, Compared};

verus! {

broadcast use group_str_order;

/// Keys with a strict total order and an executable three-way comparison.
pub trait SortKey: View + Sized {
    spec fn key_lt(a: Self::V, b: Self::V) -> bool;

    proof fn lemma_key_lt_irrefl(a: Self::V)
        ensures
            !Self::key_lt(a, a),
    ;

    proof fn lemma_key_lt_trans(a: Self::V, b: Self::V, c: Self::V)
        requires
            Self::key_lt(a, b),
            Self::key_lt(b, c),
        ensures
            Self::key_lt(a, c),
    ;

    proof fn lemma_key_lt_total(a: Self::V, b: Self::V)
        ensures
            a == b || Self::key_lt(a, b) || Self::key_lt(b, a),
    ;

    fn key_compare(&self, other: &Self) -> (c: Compared)
        ensures
            c == Compared::Less <==> Self::key_lt(self@, other@),
            c == Compared::Equal <==> self@ == other@,
            c == Compared::Greater <==> Self::key_lt(other@, self@),
    ;
}

/// Values that can be copied with their view and invariant preserved.
pub trait Dup: View + Sized {
    /// The value's own invariant (beyond what its view says).
    spec fn inv(&self) -> bool;

    fn dup(&self) -> (r: Self)
        ensures
            r@ == self@,
            self.inv() ==> r.inv(),
    ;
}

impl SortKey for String {
    open spec fn key_lt(a: Seq<char>, b: Seq<char>) -> bool {
        str_lt(a, b)
    }

    proof fn lemma_key_lt_irrefl(a: Seq<char>) {
    }

    proof fn lemma_key_lt_trans(a: Seq<char>, b: Seq<char>, c: Seq<char>) {
    }

    proof fn lemma_key_lt_total(a: Seq<char>, b: Seq<char>) {
    }

    fn key_compare(&self, other: &Self) -> (c: Compared) {
        str_compare(self.as_str(), other.as_str())
    }
}

impl Dup for String {
    open spec fn inv(&self) -> bool {
        true
    }

    fn dup(&self) -> (r: Self) {
        self.clone()
    }
}

/// The map built from a sequence of entries (later entries win).
pub open spec fn map_of<KV, VV>(s: Seq<(KV, VV)>) -> Map<KV, VV>
    decreases s.len(),
{
    if s.len() == 0 {
        Map::empty()
    } else {
        map_of(s.drop_last()).insert(s.last().0, s.last().1)
    }
}

/// No key occurs twice.
pub open spec fn keys_unique<KV, VV>(s: Seq<(KV, VV)>) -> bool {
    forall|i: int, j: int| 0 <= i < j < s.len() ==> s[i].0 != s[j].0
}

/// The map of a sequence with unique keys holds exactly its entries.
pub proof fn lemma_map_of<KV, VV>(s: Seq<(KV, VV)>)
    requires
        keys_unique(s),
    ensures
        forall|k: KV|
            #![trigger map_of(s).dom().contains(k)]
            map_of(s).dom().contains(k) <==> exists|i: int| 0 <= i < s.len() && s[i].0 == k,
        forall|i: int|
            #![trigger s[i]]
            0 <= i < s.len() ==> map_of(s).dom().contains(s[i].0) && map_of(s)[s[i].0] == s[i].1,
        map_of(s).dom().finite(),
        map_of(s).dom().len() == s.len(),
    decreases s.len(),
{
    if s.len() > 0 {
        let t = s.drop_last();
        assert(keys_unique(t));
        lemma_map_of(t);
        let m = map_of(t);
        assert forall|k: KV| map_of(s).dom().contains(k) <==> exists|i: int|
            0 <= i < s.len() && s[i].0 == k by {
            if map_of(s).dom().contains(k) && k != s.last().0 {
                assert(m.dom().contains(k));
                let i = choose|i: int| 0 <= i < t.len() && t[i].0 == k;
                assert(s[i].0 == k);
            }
            if exists|i: int| 0 <= i < s.len() && s[i].0 == k {
                let i = choose|i: int| 0 <= i < s.len() && s[i].0 == k;
                if i < t.len() {
                    assert(t[i].0 == k);
                }
            }
        }
        assert forall|i: int| #![trigger s[i]] 0 <= i < s.len() implies map_of(s).dom().contains(
            s[i].0,
        ) && map_of(s)[s[i].0] == s[i].1 by {
            if i < t.len() {
                assert(t[i] == s[i]);
                assert(s[i].0 != s.last().0);
            }
        }
        assert(!m.dom().contains(s.last().0)) by {
            if m.dom().contains(s.last().0) {
                let i = choose|i: int| 0 <= i < t.len() && t[i].0 == s.last().0;
                assert(s[i].0 == s[s.len() - 1].0);
            }
        }
    }
}

/// Two sequences with unique keys and the same entries up to order give
/// the same map.
pub proof fn lemma_map_of_same_entries<KV, VV>(s: Seq<(KV, VV)>, t: Seq<(KV, VV)>)
    requires
        keys_unique(s),
        keys_unique(t),
        forall|e: (KV, VV)| s.contains(e) <==> t.contains(e),
    ensures
        map_of(s) == map_of(t),
{
    lemma_map_of(s);
    lemma_map_of(t);
    assert forall|k: KV| map_of(s).dom().contains(k) <==> map_of(t).dom().contains(k) by {
        if map_of(s).dom().contains(k) {
            let i = choose|i: int| 0 <= i < s.len() && s[i].0 == k;
            assert(s.contains(s[i]));
            let j = choose|j: int| 0 <= j < t.len() && t[j] == s[i];
            assert(t[j].0 == k);
        }
        if map_of(t).dom().contains(k) {
            let i = choose|i: int| 0 <= i < t.len() && t[i].0 == k;
            assert(t.contains(t[i]));
            let j = choose|j: int| 0 <= j < s.len() && s[j] == t[i];
            assert(s[j].0 == k);
        }
    }
    assert forall|k: KV| #[trigger] map_of(s).dom().contains(k) implies map_of(s)[k] == map_of(
        t,
    )[k] by {
        let i = choose|i: int| 0 <= i < s.len() && s[i].0 == k;
        assert(s.contains(s[i]));
        let j = choose|j: int| 0 <= j < t.len() && t[j] == s[i];
        assert(t[j] == s[i]);
    }
    assert(map_of(s) =~= map_of(t));
}

/// A map from keys to values kept sorted by key.
#[derive(Debug, Clone, PartialEq, Eq)]
pub struct SortedMap<K, V> {
    entries: Vec<(K, V)>,
}

impl<K: SortKey, V: Dup> SortedMap<K, V> {
    /// The entries themselves, in key order.
    pub closed spec fn raw(&self) -> Seq<(K, V)> {
        self.entries@
    }

    /// The entries' views, in key order.
    pub open spec fn kv(&self) -> Seq<(K::V, V::V)> {
        self.raw().map_values(|e: (K, V)| (e.0@, e.1@))
    }

    /// The abstract map.
    pub open spec fn map(&self) -> Map<K::V, V::V> {
        map_of(self.kv())
    }

    /// The keys in ascending order.
    pub open spec fn keys(&self) -> Seq<K::V> {
        self.kv().map_values(|e: (K::V, V::V)| e.0)
    }

    /// Every value satisfies its own invariant.
    pub open spec fn values_inv(&self) -> bool {
        forall|i: int| 0 <= i < self.raw().len() ==> (#[trigger] self.raw()[i]).1.inv()
    }

    /// Entries strictly ascending by key.
    pub open spec fn wf(&self) -> bool {
        forall|i: int, j: int|
            0 <= i < j < self.kv().len() ==> K::key_lt(#[trigger] self.kv()[i].0, #[trigger] self.kv()[j].0)
    }

    pub proof fn lemma_wf_unique(&self)
        requires
            self.wf(),
        ensures
            keys_unique(self.kv()),
    {
        assert forall|i: int, j: int| 0 <= i < j < self.kv().len() implies self.kv()[i].0
            != self.kv()[j].0 by {
            K::lemma_key_lt_irrefl(self.kv()[i].0);
        }
    }

    /// The map, its domain size and its keys, given well-formedness.
    pub proof fn lemma_view(&self)
        requires
            self.wf(),
        ensures
            keys_unique(self.kv()),
            forall|k: K::V|
                #![trigger self.map().dom().contains(k)]
                self.map().dom().contains(k) <==> exists|i: int|
                    0 <= i < self.kv().len() && self.kv()[i].0 == k,
            forall|i: int|
                #![trigger self.kv()[i]]
                0 <= i < self.kv().len() ==> self.map().dom().contains(self.kv()[i].0)
                    && self.map()[self.kv()[i].0] == self.kv()[i].1,
            self.map().dom().finite(),
            self.map().dom().len() == self.kv().len(),
            self.keys().len() == self.kv().len(),
    {
        self.lemma_wf_unique();
        lemma_map_of(self.kv());
    }

    proof fn lemma_same_prefix(&self, other: &Self, i: int)
        requires
            self.wf(),
            other.wf(),
            self.map() == other.map(),
            0 <= i <= self.kv().len(),
            self.kv().len() == other.kv().len(),
        ensures
            forall|j: int| 0 <= j < i ==> self.kv()[j] == other.kv()[j],
        decreases i,
    {
        if i > 0 {
            self.lemma_same_prefix(other, i - 1);
            self.lemma_view();
            other.lemma_view();
            let a = self.kv();
            let b = other.kv();
            let k = i - 1;
            let x = a[k].0;
            let y = b[k].0;
            assert(self.map().dom().contains(x));
            assert(other.map().dom().contains(y));
            if x != y {
                K::lemma_key_lt_total(x, y);
                if K::key_lt(x, y) {
                    let j = choose|j: int| 0 <= j < b.len() && b[j].0 == x;
                    if j < k {
                        assert(a[j] == b[j]);
                        K::lemma_key_lt_irrefl(x);
                    } else if j > k {
                        K::lemma_key_lt_trans(x, y, x);
                        K::lemma_key_lt_irrefl(x);
                    }
                } else {
                    let j = choose|j: int| 0 <= j < a.len() && a[j].0 == y;
                    if j < k {
                        assert(a[j] == b[j]);
                        K::lemma_key_lt_irrefl(y);
                    } else if j > k {
                        K::lemma_key_lt_trans(y, x, y);
                        K::lemma_key_lt_irrefl(y);
                    }
                }
            }
            assert(a[k].1 == self.map()[x]);
            assert(b[k].1 == other.map()[y]);
        }
    }

    /// Sorted maps with the same abstract map hold the same entries in the
    /// same order: the representation is unique.
    pub proof fn lemma_same_map_same_kv(&self, other: &Self)
        requires
            self.wf(),
            other.wf(),
            self.map() == other.map(),
        ensures
            self.kv() == other.kv(),
    {
        self.lemma_view();
        other.lemma_view();
        self.lemma_same_prefix(other, self.kv().len() as int);
        assert(self.kv() =~= other.kv());
    }

    pub fn new() -> (r: Self)
        ensures
            r.wf(),
            r.map() == Map::<K::V, V::V>::empty(),
            r.kv().len() == 0,
    {
        let r = SortedMap { entries: Vec::new() };
        assert(r.kv() =~= Seq::<(K::V, V::V)>::empty());
        r
    }

    pub fn len(&self) -> (n: usize)
        ensures
            n == self.kv().len(),
    {
        self.entries.len()
    }

    pub fn key_at(&self, i: usize) -> (k: &K)
        requires
            i < self.kv().len(),
        ensures
            k@ == self.kv()[i as int].0,
            *k == self.raw()[i as int].0,
    {
        &self.entries[i].0
    }

    pub fn value_at(&self, i: usize) -> (v: &V)
        requires
            i < self.kv().len(),
        ensures
            v@ == self.kv()[i as int].1,
            self.values_inv() ==> v.inv(),
    {
        &self.entries[i].1
    }

    /// Position of the entry with the given key, if any.
    pub fn find(&self, k: &K) -> (r: Option<usize>)
        requires
            self.wf(),
        ensures
            r is Some <==> self.map().dom().contains(k@),
            r matches Some(i) ==> i < self.kv().len() && self.kv()[i as int].0 == k@,
    {
        proof {
            self.lemma_view();
        }
        let mut i: usize = 0;
        while i < self.entries.len()
            invariant
                i <= self.kv().len(),
                self.wf(),
                self.kv().len() == self.entries@.len(),
                forall|j: int| 0 <= j < i ==> self.kv()[j].0 != k@,
            decreases self.entries.len() - i,
        {
            let c = self.entries[i].0.key_compare(k);
            match c {
                Compared::Equal => {
                    proof {
                        assert(self.kv()[i as int].0 == k@);
                        self.lemma_view();
                        assert(self.map().dom().contains(self.kv()[i as int].0));
                    }
                    return Some(i);
                },
                _ => {},
            }
            i = i + 1;
        }
        None
    }

    pub fn contains_key(&self, k: &K) -> (r: bool)
        requires
            self.wf(),
        ensures
            r == self.map().dom().contains(k@),
    {
        self.find(k).is_some()
    }

    pub fn get(&self, k: &K) -> (r: Option<&V>)
        requires
            self.wf(),
        ensures
            r is Some <==> self.map().dom().contains(k@),
            r matches Some(v) ==> v@ == self.map()[k@],
            r matches Some(v) ==> (self.values_inv() ==> v.inv()),
    {
        proof {
            self.lemma_view();
        }
        match self.find(k) {
            Some(i) => Some(&self.entries[i].1),
            None => None,
        }
    }

    /// Insert or replace the value at a key.
    pub fn insert(&mut self, k: K, v: V) -> (was_present: bool)
        requires
            old(self).wf(),
        ensures
            final(self).wf(),
            final(self).map() == old(self).map().insert(k@, v@),
            was_present == old(self).map().dom().contains(k@),
            old(self).values_inv() && v.inv() ==> final(self).values_inv(),
    {
        proof {
            self.lemma_view();
        }
        let ghost s = self.kv();
        let ghost kk = k@;
        let n = self.entries.len();
        let mut i: usize = 0;
        let mut found = false;
        let mut past = false;
        while i < n && !found && !past
            invariant
                n == self.entries@.len(),
                self.kv() == s,
                self.wf(),
                i <= n,
                kk == k@,
                forall|j: int| 0 <= j < i ==> K::key_lt(s[j].0, kk),
                found ==> i < n && s[i as int].0 == kk,
                past ==> i < n && K::key_lt(kk, s[i as int].0),
                !(found && past),
            decreases n - i, (if found || past { 0int } else { 1int }),
        {
            let c = self.entries[i].0.key_compare(&k);
            match c {
                Compared::Less => {
                    i = i + 1;
                },
                Compared::Equal => {
                    found = true;
                },
                Compared::Greater => {
                    past = true;
                },
            }
        }
        // At this point: either found at i, or i is the insertion position.
        if found {
            self.entries.set(i, (k, v));
            proof {
                let s2 = self.kv();
                assert(s2 =~= s.update(i as int, (kk, v@)));
                assert(self.wf()) by {
                    assert forall|a: int, b: int| 0 <= a < b < s2.len() implies K::key_lt(
                        #[trigger] s2[a].0,
                        #[trigger] s2[b].0,
                    ) by {
                        assert(s2[a].0 == s[a].0);
                        assert(s2[b].0 == s[b].0);
                    }
                }
                self.lemma_view();
                assert(old(self).map().dom().contains(kk)) by {
                    assert(s[i as int].0 == kk);
                }
                assert forall|e: K::V| #[trigger] self.map().dom().contains(e)
                    <==> old(self).map().insert(kk, v@).dom().contains(e) by {
                    if self.map().dom().contains(e) {
                        let j = choose|j: int| 0 <= j < s2.len() && s2[j].0 == e;
                        assert(s[j].0 == e);
                    }
                    if old(self).map().dom().contains(e) {
                        let j = choose|j: int| 0 <= j < s.len() && s[j].0 == e;
                        assert(s2[j].0 == e);
                    }
                }
                assert forall|e: K::V| #[trigger] self.map().dom().contains(e) implies self.map()[e]
                    == old(self).map().insert(kk, v@)[e] by {
                    let j = choose|j: int| 0 <= j < s2.len() && s2[j].0 == e;
                    if j != i {
                        assert(s2[j] == s[j]);
                    }
                }
                assert(self.map() =~= old(self).map().insert(kk, v@));
            }
            true
        } else {
            self.entries.insert(i, (k, v));
            proof {
                let s2 = self.kv();
                assert(s2 =~= s.insert(i as int, (kk, v@)));
                assert(forall|j: int| i <= j < n ==> K::key_lt(kk, #[trigger] s[j].0)) by {
                    assert forall|j: int| i <= j < n implies K::key_lt(kk, #[trigger] s[j].0) by {
                        if j > i {
                            K::lemma_key_lt_trans(kk, s[i as int].0, s[j].0);
                        }
                    }
                }
                assert(self.wf()) by {
                    assert forall|a: int, b: int| 0 <= a < b < s2.len() implies K::key_lt(
                        #[trigger] s2[a].0,
                        #[trigger] s2[b].0,
                    ) by {
                        if b < i {
                        } else if b == i {
                        } else if a < i {
                            assert(s2[b] == s[b - 1]);
                        } else if a == i {
                            assert(s2[b] == s[b - 1]);
                        } else {
                            assert(s2[a] == s[a - 1]);
                            assert(s2[b] == s[b - 1]);
                        }
                    }
                }
                self.lemma_view();
                assert(!old(self).map().dom().contains(kk)) by {
                    if old(self).map().dom().contains(kk) {
                        let j = choose|j: int| 0 <= j < s.len() && s[j].0 == kk;
                        if j < i {
                            K::lemma_key_lt_irrefl(kk);
                        } else {
                            K::lemma_key_lt_irrefl(kk);
                        }
                    }
                }
                assert forall|e: K::V| #[trigger] self.map().dom().contains(e)
                    <==> old(self).map().insert(kk, v@).dom().contains(e) by {
                    if self.map().dom().contains(e) {
                        let j = choose|j: int| 0 <= j < s2.len() && s2[j].0 == e;
                        if j < i {
                            assert(s[j].0 == e);
                        } else if j > i {
                            assert(s[j - 1].0 == e);
                        }
                    }
                    if old(self).map().dom().contains(e) {
                        let j = choose|j: int| 0 <= j < s.len() && s[j].0 == e;
                        if j < i {
                            assert(s2[j].0 == e);
                        } else {
                            assert(s2[j + 1].0 == e);
                        }
                    }
                    if e == kk {
                        assert(s2[i as int].0 == e);
                    }
                }
                assert forall|e: K::V| #[trigger] self.map().dom().contains(e) implies self.map()[e]
                    == old(self).map().insert(kk, v@)[e] by {
                    let j = choose|j: int| 0 <= j < s2.len() && s2[j].0 == e;
                    if j < i {
                        assert(s2[j] == s[j]);
                    } else if j > i {
                        assert(s2[j] == s[j - 1]);
                    }
                }
                assert(self.map() =~= old(self).map().insert(kk, v@));
            }
            false
        }
    }

    /// Remove the entry at a key, returning its value.
    pub fn remove(&mut self, k: &K) -> (r: Option<V>)
        requires
            old(self).wf(),
        ensures
            final(self).wf(),
            final(self).map() == old(self).map().remove(k@),
            r is Some <==> old(self).map().dom().contains(k@),
            r matches Some(v) ==> v@ == old(self).map()[k@],
            old(self).values_inv() ==> final(self).values_inv(),
            r matches Some(v) ==> (old(self).values_inv() ==> v.inv()),
    {
        proof {
            self.lemma_view();
        }
        let ghost s = self.kv();
        match self.find(k) {
            None => {
                assert(self.map() =~= old(self).map().remove(k@));
                None
            },
            Some(i) => {
                let (_, v) = self.entries.remove(i);
                proof {
                    let s2 = self.kv();
                    assert(s2 =~= s.remove(i as int));
                    assert(self.wf()) by {
                        assert forall|a: int, b: int| 0 <= a < b < s2.len() implies K::key_lt(
                            #[trigger] s2[a].0,
                            #[trigger] s2[b].0,
                        ) by {
                            if b < i {
                            } else if a < i {
                                assert(s2[b] == s[b + 1]);
                            } else {
                                assert(s2[a] == s[a + 1]);
                                assert(s2[b] == s[b + 1]);
                            }
                        }
                    }
                    self.lemma_view();
                    assert forall|e: K::V| #[trigger] self.map().dom().contains(e)
                        <==> old(self).map().remove(k@).dom().contains(e) by {
                        if self.map().dom().contains(e) {
                            let j = choose|j: int| 0 <= j < s2.len() && s2[j].0 == e;
                            if j < i {
                                assert(s[j].0 == e);
                            } else {
                                assert(s[j + 1].0 == e);
                            }
                        }
                        if old(self).map().dom().contains(e) && e != k@ {
                            let j = choose|j: int| 0 <= j < s.len() && s[j].0 == e;
                            if j < i {
                                assert(s2[j].0 == e);
                            } else {
                                assert(s2[j - 1].0 == e);
                            }
                        }
                    }
                    assert forall|e: K::V| #[trigger] self.map().dom().contains(e) implies self.map()[e]
                        == old(self).map().remove(k@)[e] by {
                        let j = choose|j: int| 0 <= j < s2.len() && s2[j].0 == e;
                        if j < i {
                            assert(s2[j] == s[j]);
                        } else {
                            assert(s2[j] == s[j + 1]);
                        }
                    }
                    assert(self.map() =~= old(self).map().remove(k@));
                }
                Some(v)
            },
        }
    }
}

impl<K: SortKey + Dup, V: Dup> SortedMap<K, V> {
    /// A copy with the same view.
    pub fn duplicate(&self) -> (r: Self)
        ensures
            r.kv() == self.kv(),
            self.values_inv() ==> r.values_inv(),
    {
        let mut entries: Vec<(K, V)> = Vec::new();
        let mut i: usize = 0;
        while i < self.entries.len()
            invariant
                i <= self.entries@.len(),
                entries@.len() == i,
                forall|j: int|
                    0 <= j < i ==> (#[trigger] entries@[j]).0@ == self.entries@[j].0@
                        && entries@[j].1@ == self.entries@[j].1@ && (self.entries@[j].1.inv()
                        ==> entries@[j].1.inv()),
            decreases self.entries.len() - i,
        {
            let k = self.entries[i].0.dup();
            let v = self.entries[i].1.dup();
            entries.push((k, v));
            i = i + 1;
        }
        let r = SortedMap { entries };
        assert(r.kv() =~= self.kv());
        r
    }
}

} // verus!
