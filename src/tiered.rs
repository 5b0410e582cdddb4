//! The tier chain: lookup, insertion, scope creation and iteration.

use std::borrow::Borrow;
use std::collections::hash_map::RandomState;
use std::collections::HashMap;
use std::hash::{BuildHasher, Hash};
use crate::table::{shrink_table, table_capacity, table_hasher};
use vstd::prelude::*;
use vstd::std_specs::hash::{
    builds_valid_hashers, contains_borrowed_key, group_hash_axioms, into_iter as iteration_order,
    maps_borrowed_key_to_value, obeys_key_model, spec_hash_map_iter,
};
use vstd::std_specs::cmp::PartialEqSpec;
use vstd::std_specs::iter::IteratorSpec;

verus! {

broadcast use group_hash_axioms;

/// One tier of a scoped map.
///
/// A tier owns its local table and borrows its parent tier, which outlives it.
/// `parent_size` and `parent_cap` are snapshots of the parent's aggregate
/// length and capacity, taken when the tier was created.
#[verifier::reject_recursive_types(H)]
pub struct TieredMap<'a, K, V, H = RandomState> {
    parent: Option<&'a TieredMap<'a, K, V, H>>,
    map: HashMap<K, V, H>,
    parent_cap: usize,
    parent_size: usize,
}

/// The entries of one table, in the order in which the table hands them out.
pub open spec fn local_entries<K, V, H>(m: &HashMap<K, V, H>) -> Seq<(K, V)> {
    iteration_order(spec_hash_map_iter(m))
}

/// The listing of a table holds each of its entries exactly once.
pub open spec fn lists_table<K, V, H>(m: &HashMap<K, V, H>) -> bool {
    &&& m@.dom().finite()
    &&& local_entries(m).len() == m@.len()
    &&& local_entries(m).to_set() == m@.kv_pairs()
    &&& local_entries(m).no_duplicates()
}

/// No two entries of `s` share a key.
pub open spec fn distinct_keys<K, V>(s: Seq<(K, V)>) -> bool {
    forall|i: int, j: int|
        0 <= i < s.len() && 0 <= j < s.len() && i != j ==> #[trigger] s[i].0 != #[trigger] s[j].0
}

/// Filtering keeps only entries of the sequence, and keeps keys distinct.
proof fn lemma_filter_keeps_distinct_keys<K, V>(s: Seq<(K, V)>, keep: spec_fn((K, V)) -> bool)
    ensures
        forall|x: (K, V)| #[trigger] s.filter(keep).contains(x) ==> s.contains(x),
        distinct_keys(s) ==> distinct_keys(s.filter(keep)),
    decreases s.len(),
{
    if s.len() > 0 {
        let init = s.drop_last();
        let last = s.last();
        lemma_filter_keeps_distinct_keys(init, keep);
        init.lemma_filter_push(last, keep);
        assert(init.push(last) =~= s);
        let f = init.filter(keep);
        assert forall|x: (K, V)| #[trigger] s.filter(keep).contains(x) implies s.contains(x) by {
            if x != last {
                let j = choose|j: int| 0 <= j < s.filter(keep).len() && s.filter(keep)[j] == x;
                if keep(last) {
                    assert(f.contains(x)) by {
                        assert(f[j] == x);
                    }
                } else {
                    assert(f.contains(x));
                }
                let k = choose|k: int| 0 <= k < init.len() && init[k] == x;
                assert(s[k] == x);
            } else {
                assert(s[s.len() - 1] == x);
            }
        }
        if distinct_keys(s) {
            assert(distinct_keys(init));
            if keep(last) {
                assert forall|i: int| 0 <= i < f.len() implies #[trigger] f[i].0 != last.0 by {
                    assert(f.contains(f[i]));
                    let j = choose|j: int| 0 <= j < init.len() && init[j] == f[i];
                    assert(s[j] == f[i]);
                    assert(s[s.len() - 1] == last);
                }
                assert(distinct_keys(f.push(last)));
            }
        }
    }
}

/// Learns how `m` lists its entries, from the contract of `HashMap::iter`.
fn note_listing<K, V, H>(m: &HashMap<K, V, H>)
    ensures
        obeys_key_model::<K>() && builds_valid_hashers::<H>() ==> lists_table(m),
{
    let listing = m.iter();
    proof {
        if obeys_key_model::<K>() && builds_valid_hashers::<H>() {
            assert(local_entries(m) == listing.remaining().unref());
            let pairs = m@.kv_pairs();
            let first = |p: (K, V)| p.0;
            vstd::seq_lib::seq_to_set_is_finite(local_entries(m));
            pairs.lemma_map_finite(first);
            assert forall|k: K| #[trigger] m@.dom().contains(k) implies pairs.map(first).contains(k) by {
                assert(pairs.contains((k, m@[k])));
            }
            assert(pairs.map(first) =~= m@.dom());
        }
    }
}

/// The entries of `m` in the order in which its iterator yields them.
fn table_entries<'b, K, V, H>(m: &'b HashMap<K, V, H>) -> (r: Vec<(&'b K, &'b V)>)
    requires
        obeys_key_model::<K>(),
        builds_valid_hashers::<H>(),
    ensures
        r@.unref() == local_entries(m),
{
    let mut r: Vec<(&'b K, &'b V)> = Vec::new();
    for e in it: m.iter()
        invariant
            it.seq().unref() == local_entries(m),
            r@ == it.seq().take(it.index()),
    {
        r.push(e);
    }
    r
}

/// `a + b`, held at `usize::MAX`.
pub open spec fn capped_sum(a: int, b: int) -> int {
    if a + b > usize::MAX {
        usize::MAX as int
    } else {
        a + b
    }
}

/// `m` after inserting each pair of `pairs`, first to last.
pub open spec fn insert_all<K, V>(m: Map<K, V>, pairs: Seq<(K, V)>) -> Map<K, V>
    decreases pairs.len(),
{
    if pairs.len() == 0 {
        m
    } else {
        insert_all(m, pairs.drop_last()).insert(pairs.last().0, pairs.last().1)
    }
}

impl<'a, K, V, H> TieredMap<'a, K, V, H> {
    /// The entries stored in this tier itself.
    pub closed spec fn local(&self) -> Map<K, V> {
        self.map@
    }

    /// The tier this one falls through to.
    pub closed spec fn parent_tier(&self) -> Option<&'a TieredMap<'a, K, V, H>> {
        self.parent
    }

    /// The parent capacity recorded when this tier was created.
    pub closed spec fn parent_capacity(&self) -> nat {
        self.parent_cap as nat
    }

    /// Aggregate length: the local count plus the parent's length as recorded.
    pub closed spec fn spec_len(&self) -> nat {
        (self.parent_size + self.map@.len()) as nat
    }

    /// Number of tiers above this one.
    pub closed spec fn depth(&self) -> nat
        decreases self,
    {
        match self.parent {
            Some(p) => p.depth() + 1,
            None => 0,
        }
    }

    /// Well-formedness of the whole chain: hashing behaves, each recorded
    /// parent length is the parent's length, and lengths fit in `usize`.
    pub closed spec fn wf(&self) -> bool
        decreases self,
    {
        &&& obeys_key_model::<K>()
        &&& builds_valid_hashers::<H>()
        &&& self.spec_len() <= usize::MAX
        &&& self.parent_cap >= self.parent_size
        &&& lists_table(&self.map)
        &&& match self.parent {
            Some(p) => p.wf() && self.parent_size == p.spec_len(),
            None => self.parent_size == 0 && self.parent_cap == 0,
        }
    }

    /// What the chain shows: inner tiers shadow outer ones.
    pub closed spec fn view(&self) -> Map<K, V>
        decreases self,
    {
        match self.parent {
            Some(p) => p.view().union_prefer_right(self.map@),
            None => self.map@,
        }
    }

    /// Whether an entry's key is one this tier does not hold itself.
    pub closed spec fn unshadowed(&self) -> spec_fn((K, V)) -> bool {
        |e: (K, V)| !self.map@.contains_key(e.0)
    }

    /// The entries the chain shows, innermost tier first: this tier's own
    /// entries, then those shown above it whose key this tier does not hold.
    pub closed spec fn shown(&self) -> Seq<(K, V)>
        decreases self,
    {
        local_entries(&self.map) + match self.parent {
            Some(p) => p.shown().filter(self.unshadowed()),
            None => Seq::empty(),
        }
    }

    /// Whether some tier holds a key that borrows as `k`.
    pub closed spec fn has<Q: ?Sized>(&self, k: &Q) -> bool
        decreases self,
    {
        contains_borrowed_key(self.map@, k) || match self.parent {
            Some(p) => p.has(k),
            None => false,
        }
    }

    /// Whether a lookup of `k` may give `v`: this tier maps `k` to `v`, or
    /// this tier lacks `k` and the lookup in the parent gives `v`.
    pub closed spec fn resolves<Q: ?Sized>(&self, k: &Q, v: V) -> bool
        decreases self,
    {
        maps_borrowed_key_to_value(self.map@, k, v) || (!contains_borrowed_key(self.map@, k)
            && match self.parent {
            Some(p) => p.resolves(k, v),
            None => false,
        })
    }

    /// The tier that a new scope of this one hangs from: empty tiers that
    /// have a parent are skipped.
    pub closed spec fn scope_base(&self) -> TieredMap<'a, K, V, H>
        decreases self,
    {
        match self.parent {
            Some(p) => if self.map@.is_empty() {
                p.scope_base()
            } else {
                *self
            },
            None => *self,
        }
    }
}

impl<'a, K, V, H> TieredMap<'a, K, V, H> {
    /// For a key of the map's own type, what a lookup finds is what the view shows.
    pub proof fn lemma_lookup_is_view(&self, k: K)
        requires
            self.wf(),
        ensures
            self.has(&k) <==> self@.contains_key(k),
            forall|v: V| self.resolves(&k, v) <==> (self@.contains_key(k) && self@[k] == v),
        decreases self,
    {
        if let Some(p) = self.parent {
            p.lemma_lookup_is_view(k);
        }
        assert forall|v: V| self.resolves(&k, v) <==> (self@.contains_key(k) && self@[k] == v) by {
            if self.map@.contains_key(k) {
                assert(self@[k] == self.map@[k]);
            } else if let Some(p) = self.parent {
                assert(self@.contains_key(k) == p@.contains_key(k));
                assert(p@.contains_key(k) ==> self@[k] == p@[k]);
                assert(self.resolves(&k, v) == p.resolves(&k, v));
            }
            assert(contains_borrowed_key(self.map@, &k) <==> self.map@.contains_key(k));
            assert(maps_borrowed_key_to_value(self.map@, &k, v) <==> (self.map@.contains_key(k)
                && self.map@[k] == v));
        }
    }

    /// Shadowing: a key that a tier holds itself resolves to that tier's
    /// value, whatever the tiers above hold.
    pub proof fn lemma_local_shadows(&self, k: K)
        requires
            self.wf(),
            self.local().contains_key(k),
        ensures
            self.has(&k),
            forall|v: V| self.resolves(&k, v) <==> v == self.local()[k],
    {
        self.lemma_lookup_is_view(k);
    }

    /// Fall-through: a key that a tier lacks resolves as it does in the
    /// parent, and is absent when there is no parent.
    pub proof fn lemma_falls_through(&self, k: K)
        requires
            self.wf(),
            !self.local().contains_key(k),
        ensures
            match self.parent_tier() {
                Some(p) => (self.has(&k) <==> p.has(&k)) && forall|v: V|
                    self.resolves(&k, v) <==> p.resolves(&k, v),
                None => !self.has(&k) && forall|v: V| !self.resolves(&k, v),
            },
    {
    }

    /// Empty-tier elision: the tier a new scope hangs from is the root or a
    /// non-empty tier, and shows what this tier shows, with the same length.
    pub proof fn lemma_scope_base(&self)
        requires
            self.wf(),
        ensures
            self.scope_base().wf(),
            self.scope_base().parent_tier() is None || !self.scope_base().local().is_empty(),
            self.scope_base()@ == self@,
            self.scope_base().spec_len() == self.spec_len(),
            self.parent_tier() is None || !self.local().is_empty() ==> self.scope_base() == *self,
            self.local().is_empty() ==> (self.parent_tier() matches Some(p) ==> self.scope_base()
                == p.scope_base()),
        decreases self,
    {
        if let Some(p) = self.parent {
            if self.map@.is_empty() {
                p.lemma_scope_base();
                assert(self@ =~= p@);
            }
        }
    }

    /// Iteration completeness: the chain shows each key at most once, and
    /// exactly the pairs its view holds.
    pub proof fn lemma_iteration_complete(&self)
        requires
            self.wf(),
        ensures
            distinct_keys(self.shown()),
            self.shown().to_set() == self@.kv_pairs(),
            self.shown().len() == self@.len(),
        decreases self,
    {
        broadcast use vstd::seq_lib::group_filter_ensures;
        let local = local_entries(&self.map);
        let all = self.shown();
        assert forall|i: int, j: int|
            0 <= i < local.len() && 0 <= j < local.len() && i != j implies #[trigger] local[i].0
            != #[trigger] local[j].0 by {
            assert(local.to_set().contains(local[i]));
            assert(local.to_set().contains(local[j]));
        }
        match self.parent {
            None => {
                assert(all =~= local);
            },
            Some(p) => {
                p.lemma_iteration_complete();
                let keep = self.unshadowed();
                let above = p.shown().filter(keep);
                lemma_filter_keeps_distinct_keys(p.shown(), keep);
                assert forall|i: int| 0 <= i < above.len() implies !self.map@.contains_key(
                    #[trigger] above[i].0,
                ) by {
                    assert(keep(above[i]));
                }
                assert forall|i: int, j: int|
                    0 <= i < all.len() && 0 <= j < all.len() && i != j implies #[trigger] all[i].0
                    != #[trigger] all[j].0 by {
                    if i >= local.len() && j >= local.len() {
                        assert(all[i] == above[i - local.len()]);
                        assert(all[j] == above[j - local.len()]);
                    } else if i < local.len() && j >= local.len() {
                        assert(all[j] == above[j - local.len()]);
                        assert(local.to_set().contains(local[i]));
                    } else if i >= local.len() && j < local.len() {
                        assert(all[i] == above[i - local.len()]);
                        assert(local.to_set().contains(local[j]));
                    }
                }
                assert forall|x: (K, V)| #[trigger] all.to_set().contains(x) implies self@.kv_pairs().contains(x) by {
                    let i = choose|i: int| 0 <= i < all.len() && all[i] == x;
                    if i < local.len() {
                        assert(local.to_set().contains(x));
                    } else {
                        assert(above[i - local.len()] == x);
                        assert(above.contains(x));
                        assert(keep(x));
                        assert(p.shown().to_set().contains(x));
                    }
                }
                assert forall|x: (K, V)| #[trigger] self@.kv_pairs().contains(x) implies all.to_set().contains(x) by {
                    if self.map@.contains_key(x.0) {
                        assert(local.to_set().contains(x));
                        let i = choose|i: int| 0 <= i < local.len() && local[i] == x;
                        assert(all[i] == x);
                    } else {
                        assert(p@.kv_pairs().contains(x));
                        assert(p.shown().to_set().contains(x));
                        let i = choose|i: int| 0 <= i < p.shown().len() && p.shown()[i] == x;
                        p.shown().lemma_filter_contains(keep, i);
                        let j = choose|j: int| 0 <= j < above.len() && above[j] == x;
                        assert(all[local.len() + j] == x);
                    }
                }
                assert(all.to_set() =~= self@.kv_pairs());
            },
        }
        let keys = all.map_values(|e: (K, V)| e.0);
        assert forall|i: int, j: int| 0 <= i < keys.len() && 0 <= j < keys.len() && i != j implies keys[i] != keys[j] by {
            assert(all[i].0 != all[j].0);
        }
        assert(keys.no_duplicates());
        keys.unique_seq_to_set();
        assert forall|k: K| #[trigger] self@.dom().contains(k) implies keys.to_set().contains(k) by {
            assert(self@.kv_pairs().contains((k, self@[k])));
            assert(all.to_set().contains((k, self@[k])));
            let i = choose|i: int| 0 <= i < all.len() && all[i] == (k, self@[k]);
            assert(keys[i] == k);
        }
        assert forall|k: K| #[trigger] keys.to_set().contains(k) implies self@.dom().contains(k) by {
            let i = choose|i: int| 0 <= i < keys.len() && keys[i] == k;
            assert(all.to_set().contains(all[i]));
        }
        assert(keys.to_set() =~= self@.dom());
    }
}

impl<'a, K: Eq + Hash, V> TieredMap<'a, K, V, RandomState> {
    /// An empty root tier with the default hash builder.
    pub fn new() -> (t: Self)
        requires
            obeys_key_model::<K>(),
        ensures
            t.wf(),
            t.parent_tier() is None,
            t.parent_capacity() == 0,
            t.local() == Map::<K, V>::empty(),
            t@ == Map::<K, V>::empty(),
            t.spec_len() == 0,
    {
        let map = HashMap::new();
        note_listing(&map);
        TieredMap { parent: None, map, parent_cap: 0, parent_size: 0 }
    }

    /// An empty root tier whose table is sized for `capacity` entries.
    pub fn with_capacity(capacity: usize) -> (t: Self)
        requires
            obeys_key_model::<K>(),
        ensures
            t.wf(),
            t.parent_tier() is None,
            t.parent_capacity() == 0,
            t.local() == Map::<K, V>::empty(),
            t@ == Map::<K, V>::empty(),
            t.spec_len() == 0,
    {
        let map = HashMap::with_capacity(capacity);
        note_listing(&map);
        TieredMap { parent: None, map, parent_cap: 0, parent_size: 0 }
    }
}

impl<'a, K: Eq + Hash, V, H: BuildHasher> TieredMap<'a, K, V, H> {
    /// A root tier holding `pairs`, inserted first to last, hashing with the
    /// hash builder's default.
    pub fn from_iter(pairs: Vec<(K, V)>) -> (t: Self) where H: Default
        requires
            obeys_key_model::<K>(),
            builds_valid_hashers::<H>(),
        ensures
            t.wf(),
            t.parent_tier() is None,
            t.parent_capacity() == 0,
            t.local() == insert_all(Map::<K, V>::empty(), pairs@),
            t@ == t.local(),
            t.spec_len() == t.local().len(),
    {
        let mut t = Self::with_hasher(H::default());
        t.extend(pairs);
        t
    }

    /// An empty root tier that hashes with `hash_builder`.
    pub fn with_hasher(hash_builder: H) -> (t: Self)
        requires
            obeys_key_model::<K>(),
            builds_valid_hashers::<H>(),
        ensures
            t.wf(),
            t.parent_tier() is None,
            t.parent_capacity() == 0,
            t.local() == Map::<K, V>::empty(),
            t@ == Map::<K, V>::empty(),
            t.spec_len() == 0,
    {
        let map = HashMap::with_hasher(hash_builder);
        note_listing(&map);
        TieredMap { parent: None, map, parent_cap: 0, parent_size: 0 }
    }

    /// An empty root tier sized for `capacity` entries that hashes with `hash_builder`.
    pub fn with_capacity_and_hasher(capacity: usize, hash_builder: H) -> (t: Self)
        requires
            obeys_key_model::<K>(),
            builds_valid_hashers::<H>(),
        ensures
            t.wf(),
            t.parent_tier() is None,
            t.parent_capacity() == 0,
            t.local() == Map::<K, V>::empty(),
            t@ == Map::<K, V>::empty(),
            t.spec_len() == 0,
    {
        let map = HashMap::with_capacity_and_hasher(capacity, hash_builder);
        note_listing(&map);
        TieredMap { parent: None, map, parent_cap: 0, parent_size: 0 }
    }

    /// The hash builder of this tier's table.
    pub fn hasher(&self) -> &H {
        table_hasher(&self.map)
    }

    /// Aggregate capacity for a local table capacity of `local`: the parent
    /// capacity recorded at creation plus `local`, held at `usize::MAX`.
    pub fn capacity_with(&self, local: usize) -> (r: usize)
        ensures
            r == capped_sum(self.parent_capacity() as int, local as int),
    {
        self.parent_cap.saturating_add(local)
    }

    /// Aggregate capacity: the local table's capacity plus the parent
    /// capacity recorded at creation, held at `usize::MAX`. It is never below
    /// the aggregate length.
    pub fn capacity(&self) -> (r: usize)
        requires
            self.wf(),
        ensures
            exists|local: usize|
                local >= self.local().len() && r == #[trigger] capped_sum(
                    self.parent_capacity() as int,
                    local as int,
                ),
            r >= self.spec_len(),
    {
        let local = table_capacity(&self.map);
        self.capacity_with(local)
    }

    /// Makes room for `additional` more local entries.
    pub fn reserve(&mut self, additional: usize)
        requires
            old(self).wf(),
        ensures
            final(self).wf(),
            final(self).local() == old(self).local(),
            final(self).parent_tier() == old(self).parent_tier(),
            final(self).parent_capacity() == old(self).parent_capacity(),
            final(self)@ == old(self)@,
            final(self).spec_len() == old(self).spec_len(),
    {
        self.map.reserve(additional);
        note_listing(&self.map);
    }

    /// Shrinks the local table's allocation.
    pub fn shrink_to_fit(&mut self)
        requires
            old(self).wf(),
        ensures
            final(self).wf(),
            final(self).local() == old(self).local(),
            final(self).parent_tier() == old(self).parent_tier(),
            final(self).parent_capacity() == old(self).parent_capacity(),
            final(self)@ == old(self)@,
            final(self).spec_len() == old(self).spec_len(),
    {
        shrink_table(&mut self.map);
        note_listing(&self.map);
    }

    /// Aggregate length: the local count plus the parent length recorded at creation.
    pub fn len(&self) -> (r: usize)
        requires
            self.wf(),
        ensures
            r == self.spec_len(),
    {
        self.parent_size + self.map.len()
    }

    /// The value of the innermost tier that holds `k`.
    pub fn get<Q: ?Sized>(&self, k: &Q) -> (r: Option<&V>) where K: Borrow<Q>, Q: Hash + Eq
        requires
            self.wf(),
        ensures
            match r {
                Some(v) => self.resolves(k, *v),
                None => !self.has(k),
            },
        decreases self,
    {
        match self.map.get(k) {
            Some(v) => Some(v),
            None => match self.parent {
                Some(p) => p.get(k),
                None => None,
            },
        }
    }

    /// Whether some tier of the chain holds `k`.
    pub fn contains_key<Q: ?Sized>(&self, k: &Q) -> (r: bool) where K: Borrow<Q>, Q: Hash + Eq
        requires
            self.wf(),
        ensures
            r == self.has(k),
        decreases self,
    {
        if self.map.contains_key(k) {
            true
        } else {
            match self.parent {
                Some(p) => p.contains_key(k),
                None => false,
            }
        }
    }

    /// Inserts each pair of `pairs`, first to last, into this tier only.
    pub fn extend(&mut self, pairs: Vec<(K, V)>)
        requires
            old(self).wf(),
            old(self).spec_len() + pairs.len() <= usize::MAX,
        ensures
            final(self).wf(),
            final(self).local() == insert_all(old(self).local(), pairs@),
            final(self).parent_tier() == old(self).parent_tier(),
            final(self).parent_capacity() == old(self).parent_capacity(),
            final(self)@ == insert_all(old(self)@, pairs@),
    {
        let ghost start = *self;
        let ghost all = pairs@;
        for e in it: pairs
            invariant
                it.seq() == all,
                start.wf(),
                start.spec_len() + all.len() <= usize::MAX,
                self.wf(),
                self.spec_len() <= start.spec_len() + it.index(),
                self.local() == insert_all(start.local(), all.take(it.index())),
                self@ == insert_all(start@, all.take(it.index())),
                self.parent_tier() == start.parent_tier(),
                self.parent_capacity() == start.parent_capacity(),
        {
            let (k, v) = e;
            proof {
                assert(all.take(it.index() + 1).drop_last() =~= all.take(it.index()));
            }
            self.insert(k, v);
        }
        proof {
            assert(all.take(all.len() as int) =~= all);
        }
    }

    /// Inserts a copy of each pair of `pairs`, first to last, into this tier only.
    pub fn extend_copied(&mut self, pairs: Vec<(&K, &V)>) where K: Copy, V: Copy
        requires
            old(self).wf(),
            old(self).spec_len() + pairs.len() <= usize::MAX,
        ensures
            final(self).wf(),
            final(self).local() == insert_all(old(self).local(), pairs@.unref()),
            final(self).parent_tier() == old(self).parent_tier(),
            final(self).parent_capacity() == old(self).parent_capacity(),
            final(self)@ == insert_all(old(self)@, pairs@.unref()),
    {
        let ghost all = pairs@.unref();
        let mut i: usize = 0;
        while i < pairs.len()
            invariant
                i <= pairs.len(),
                all == pairs@.unref(),
                old(self).spec_len() + pairs.len() <= usize::MAX,
                self.wf(),
                self.spec_len() <= old(self).spec_len() + i,
                self.local() == insert_all(old(self).local(), all.take(i as int)),
                self@ == insert_all(old(self)@, all.take(i as int)),
                self.parent_tier() == old(self).parent_tier(),
                self.parent_capacity() == old(self).parent_capacity(),
            decreases pairs.len() - i,
        {
            let (k, v) = pairs[i];
            proof {
                assert(all.take(i + 1).drop_last() =~= all.take(i as int));
            }
            self.insert(*k, *v);
            i = i + 1;
        }
        proof {
            assert(all.take(pairs.len() as int) =~= all);
        }
    }

    /// The value of the innermost tier that holds `k`, which must be present.
    pub fn index<Q: ?Sized>(&self, k: &Q) -> (r: &V) where K: Borrow<Q>, Q: Hash + Eq
        requires
            self.wf(),
            self.has(k),
        ensures
            self.resolves(k, *r),
    {
        self.get(k).unwrap()
    }

    /// The entries the chain shows, innermost tier first, one per key.
    fn shown_items(&self) -> (r: Vec<(&K, &V)>)
        requires
            self.wf(),
        ensures
            r@.unref() == self.shown(),
        decreases self,
    {
        let mut r = table_entries(&self.map);
        if let Some(p) = self.parent {
            let above = p.shown_items();
            let ghost keep = self.unshadowed();
            let ghost local = local_entries(&self.map);
            let mut i: usize = 0;
            while i < above.len()
                invariant
                    i <= above.len(),
                    self.wf(),
                    self.parent == Some(p),
                    keep == self.unshadowed(),
                    above@.unref() == p.shown(),
                    r@.unref() == local + above@.unref().take(i as int).filter(keep),
                decreases above.len() - i,
            {
                let e = above[i];
                let ghost pre = above@.unref().take(i as int);
                proof {
                    assert(above@.unref().take(i + 1) =~= pre.push((*e.0, *e.1)));
                    pre.lemma_filter_push((*e.0, *e.1), keep);
                }
                if !self.map.contains_key(e.0) {
                    let ghost before = r@;
                    r.push(e);
                    proof {
                        assert(r@.unref() =~= before.unref().push((*e.0, *e.1)));
                        assert(r@.unref() =~= local + pre.filter(keep).push((*e.0, *e.1)));
                    }
                }
                i = i + 1;
            }
            proof {
                assert(above@.unref().take(above.len() as int) =~= above@.unref());
            }
        }
        r
    }

    /// An iterator over the entries the chain shows, innermost tier first:
    /// each key once, with the value of the innermost tier holding it.
    pub fn iter(&self) -> (it: Iter<'_, K, V>)
        requires
            self.wf(),
        ensures
            it.wf(),
            it.rest() == self.shown(),
            distinct_keys(it.rest()),
            it.rest().to_set() == self@.kv_pairs(),
            it.rest().len() == self@.len(),
    {
        let it = Iter { items: self.shown_items(), pos: 0 };
        proof {
            self.lemma_iteration_complete();
            assert(it.rest() =~= self.shown());
        }
        it
    }

    /// Inserts into this tier only; returns the value this tier held for `k`.
    pub fn insert(&mut self, k: K, v: V) -> (r: Option<V>)
        requires
            old(self).wf(),
            old(self).spec_len() < usize::MAX,
        ensures
            final(self).wf(),
            final(self).local() == old(self).local().insert(k, v),
            final(self).parent_tier() == old(self).parent_tier(),
            final(self).parent_capacity() == old(self).parent_capacity(),
            final(self)@ == old(self)@.insert(k, v),
            final(self).spec_len() == old(self).spec_len() + if old(self).local().contains_key(k) {
                0int
            } else {
                1int
            },
            r == if old(self).local().contains_key(k) {
                Some(old(self).local()[k])
            } else {
                None
            },
    {
        let r = self.map.insert(k, v);
        note_listing(&self.map);
        proof {
            assert(self.map@.dom() =~= old(self).map@.dom().insert(k));
            assert(self@ =~= old(self)@.insert(k, v));
        }
        r
    }
}

impl<'a, K, V, H> TieredMap<'a, K, V, H> {
    /// Entry `i` of what this chain shows is shown by `other` with an equal value.
    pub open spec fn entry_found_in(&self, other: &TieredMap<'a, K, V, H>, i: int) -> bool where
        V: PartialEq,
     {
        let e = self.shown()[i];
        other@.contains_key(e.0) && e.1.eq_spec(&other@[e.0])
    }

    /// Equality by contents: the aggregate lengths agree and every entry
    /// `self` shows is shown by `other` with an equal value.
    pub open spec fn same_contents(&self, other: &TieredMap<'a, K, V, H>) -> bool where
        V: PartialEq,
     {
        &&& self.spec_len() == other.spec_len()
        &&& forall|i: int| 0 <= i < self.shown().len() ==> #[trigger] self.entry_found_in(other, i)
    }
}

impl<'a, K, V: PartialEq, H> TieredMap<'a, K, V, H> {
    /// A map has the same contents as itself, when `==` on values is reflexive.
    pub proof fn lemma_same_contents_reflexive(&self)
        requires
            self.wf(),
            forall|v: V| #[trigger] v.eq_spec(&v),
        ensures
            self.same_contents(self),
    {
        self.lemma_iteration_complete();
        assert forall|i: int| 0 <= i < self.shown().len() implies #[trigger] self.entry_found_in(self, i) by {
            assert(self.shown().to_set().contains(self.shown()[i]));
        }
    }
}

impl<'a, K: Eq + Hash, V: PartialEq, H: BuildHasher> TieredMap<'a, K, V, H> {
    /// Whether the two maps hold the same contents, whatever the shape of
    /// their tier chains.
    pub fn eq(&self, other: &TieredMap<'a, K, V, H>) -> (r: bool)
        requires
            self.wf(),
            other.wf(),
            V::obeys_eq_spec(),
        ensures
            r == self.same_contents(other),
    {
        if self.len() != other.len() {
            return false;
        }
        let ghost all = self.shown();
        let mut it = self.iter();
        loop
            invariant
                it.wf(),
                all == self.shown(),
                self.wf(),
                other.wf(),
                V::obeys_eq_spec(),
                self.spec_len() == other.spec_len(),
                it.rest().len() <= all.len(),
                it.rest() == all.skip(all.len() - it.rest().len()),
                forall|i: int| 0 <= i < all.len() - it.rest().len() ==> #[trigger] self.entry_found_in(other, i),
            decreases it.rest().len(),
        {
            let ghost before = it.rest();
            let ghost n = all.len() - before.len();
            match it.next() {
                None => {
                    return true;
                },
                Some((k, v)) => {
                    proof {
                        assert(all[n] == before[0]);
                        assert(it.rest() =~= all.skip(all.len() - it.rest().len()));
                        other.lemma_lookup_is_view(*k);
                    }
                    match other.get(k) {
                        Some(w) => {
                            if !v.eq(w) {
                                assert(!self.entry_found_in(other, n));
                                return false;
                            }
                        },
                        None => {
                            assert(!self.entry_found_in(other, n));
                            return false;
                        },
                    }
                },
            }
        }
    }
}

impl<'a, K: Eq + Hash, V, H: BuildHasher + Clone> TieredMap<'a, K, V, H> {
    /// A new, empty scope over this tier. Empty tiers that have a parent are
    /// skipped: the scope hangs from the nearest non-empty tier, or the root.
    pub fn new_scope(&self) -> (s: TieredMap<'_, K, V, H>)
        requires
            self.wf(),
        ensures
            s.wf(),
            s.local() == Map::<K, V>::empty(),
            s.parent_tier() matches Some(p) && *p == self.scope_base(),
            s@ == self@,
            s.spec_len() == self.spec_len(),
            exists|local: usize|
                s.parent_capacity() == #[trigger] capped_sum(
                    self.scope_base().parent_capacity() as int,
                    local as int,
                ),
        decreases self,
    {
        if let Some(p) = self.parent {
            if self.map.is_empty() {
                proof {
                    assert(self@ =~= p@);
                }
                return p.new_scope();
            }
        }
        let hash_builder = table_hasher(&self.map).clone();
        let map = HashMap::with_hasher(hash_builder);
        note_listing(&map);
        let s = TieredMap {
            parent: Some(self),
            map,
            parent_cap: self.capacity(),
            parent_size: self.len(),
        };
        proof {
            assert(s@ =~= self@);
        }
        s
    }
}

impl<'a, K, V, H: Default> Default for TieredMap<'a, K, V, H> {
    /// An empty root tier with the hash builder's default.
    fn default() -> (t: Self)
        ensures
            t.parent_tier() is None,
            t.parent_capacity() == 0,
            t.local() == Map::<K, V>::empty(),
            t@ == Map::<K, V>::empty(),
            t.spec_len() == 0,
            obeys_key_model::<K>() && builds_valid_hashers::<H>() ==> t.wf(),
    {
        let map = HashMap::with_hasher(H::default());
        note_listing(&map);
        TieredMap { parent: None, map, parent_cap: 0, parent_size: 0 }
    }
}

impl<'a, K: Clone, V: Clone, H: Clone> Clone for TieredMap<'a, K, V, H> {
    /// A tier with the same parent, a copy of the local table and the same
    /// recorded parent length and capacity.
    fn clone(&self) -> (t: Self)
        ensures
            t.parent_tier() == self.parent_tier(),
            t.parent_capacity() == self.parent_capacity(),
            t.local() == self.local(),
            t@ == self@,
            t.spec_len() == self.spec_len(),
            self.wf() ==> t.wf(),
    {
        let map = self.map.clone();
        note_listing(&map);
        let t = TieredMap { parent: self.parent, map, parent_cap: self.parent_cap, parent_size: self.parent_size };
        proof {
            assert(local_entries(&t.map) == local_entries(&map));
        }
        t
    }
}

/// An iterator over the entries a tiered map shows, innermost tier first.
#[derive(Clone)]
pub struct Iter<'a, K, V> {
    items: Vec<(&'a K, &'a V)>,
    pos: usize,
}

impl<'a, K, V> Iter<'a, K, V> {
    /// The iterator stands within its entries.
    pub closed spec fn wf(&self) -> bool {
        self.pos <= self.items.len()
    }

    /// What the iterator has still to yield, in order.
    pub closed spec fn rest(&self) -> Seq<(K, V)> {
        self.items@.unref().skip(self.pos as int)
    }

    /// Yields the next entry.
    pub fn next(&mut self) -> (r: Option<(&'a K, &'a V)>)
        requires
            old(self).wf(),
        ensures
            final(self).wf(),
            match r {
                Some(e) => {
                    &&& old(self).rest().len() > 0
                    &&& (*e.0, *e.1) == old(self).rest()[0]
                    &&& final(self).rest() == old(self).rest().drop_first()
                },
                None => old(self).rest().len() == 0 && final(self).rest() == old(self).rest(),
            },
    {
        if self.pos < self.items.len() {
            let e = self.items[self.pos];
            self.pos = self.pos + 1;
            proof {
                assert(self.rest() =~= old(self).rest().drop_first());
            }
            Some(e)
        } else {
            None
        }
    }

    /// The exact number of entries still to come, as a lower and an upper bound.
    pub fn size_hint(&self) -> (r: (usize, Option<usize>))
        requires
            self.wf(),
        ensures
            r.0 == self.rest().len(),
            r.1 == Some(r.0),
    {
        let l = self.len();
        (l, Some(l))
    }

    /// The number of entries still to come.
    pub fn len(&self) -> (r: usize)
        requires
            self.wf(),
        ensures
            r == self.rest().len(),
    {
        self.items.len() - self.pos
    }
}

} // verus!
