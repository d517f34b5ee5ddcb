//! Broad phase over two dynamic bounding volume trees: one for active
//! objects and one for sleeping objects, each with its own pair registry.

use vstd::prelude::*;
use std::collections::HashMap;
use crate::aabb::{tree_limit, Aabb};
use crate::dbvt::{appended, appended_hits, appended_ray_hits, extends, is_hit, is_ray_hit, point_box, Dbvt};
use crate::ray::Ray;
use crate::math::{Pnt3, COORD_LIMIT};
use crate::pair_manager::{keys_of, entry_pairs, lemma_keys_len, pair_of, Pair, PairEntry, PairManager, PairReader, PairVisitor};

verus! {

broadcast use vstd::std_specs::hash::group_hash_axioms;

/// The items of `s` from position `i` on.
pub open spec fn suffix_set(s: Seq<u64>, i: int) -> Set<u64> {
    Set::new(|u: u64| exists|j: int| i <= j < s.len() && s[j] == u)
}

proof fn lemma_suffix_step(s: Seq<u64>, i: int)
    requires
        0 <= i < s.len(),
        s.no_duplicates(),
    ensures
        suffix_set(s, i).contains(s[i]),
        suffix_set(s, i + 1) == suffix_set(s, i).remove(s[i]),
{
    assert forall|u: u64| suffix_set(s, i + 1).contains(u) <==> suffix_set(s, i).remove(s[i]).contains(u) by {
        if suffix_set(s, i + 1).contains(u) {
            let j = choose|j: int| i + 1 <= j < s.len() && s[j] == u;
            assert(s[j] == u);
        }
        if suffix_set(s, i).remove(s[i]).contains(u) {
            let j = choose|j: int| i <= j < s.len() && s[j] == u;
            assert(s[j] == u);
        }
    }
    assert(suffix_set(s, i + 1) =~= suffix_set(s, i).remove(s[i]));
}

proof fn lemma_suffix_push(s: Seq<u64>, u: u64)
    ensures
        suffix_set(s.push(u), 0) == suffix_set(s, 0).insert(u),
{
    assert forall|v: u64| suffix_set(s.push(u), 0).contains(v) <==> suffix_set(s, 0).insert(u).contains(v) by {
        if suffix_set(s, 0).contains(v) {
            let j = choose|j: int| 0 <= j < s.len() && s[j] == v;
            assert(s.push(u)[j] == v);
        }
        if suffix_set(s.push(u), 0).contains(v) {
            let j = choose|j: int| 0 <= j < s.push(u).len() && s.push(u)[j] == v;
            if j < s.len() {
                assert(s[j] == v);
            }
        }
        if v == u {
            assert(s.push(u)[s.len() as int] == v);
        }
    }
    assert(suffix_set(s.push(u), 0) =~= suffix_set(s, 0).insert(u));
}

/// The stored boxes after the object `u` reported the box `b`: when its stored
/// box no longer contains `b`, it becomes `b` loosened by `margin`.
pub open spec fn refresh_one(m: Map<u64, Aabb>, u: u64, b: Aabb, margin: int) -> Map<u64, Aabb> {
    if m.contains_key(u) && !m[u].contains_spec(b) {
        m.insert(u, b.loosened_spec(margin))
    } else {
        m
    }
}

/// The stored boxes after every object of `fresh` reported its box, in order.
pub open spec fn refresh(m: Map<u64, Aabb>, fresh: Seq<(u64, Aabb)>, margin: int) -> Map<u64, Aabb>
    decreases fresh.len(),
{
    if fresh.len() == 0 {
        m
    } else {
        refresh_one(refresh(m, fresh.drop_last(), margin), fresh.last().0, fresh.last().1, margin)
    }
}

/// `new` is `old` followed by, without repetition, every object of `active`
/// or `inactive` whose box meets `q`.
pub open spec fn query_result(
    old: Seq<u64>,
    new: Seq<u64>,
    active: Map<u64, Aabb>,
    inactive: Map<u64, Aabb>,
    q: Aabb,
) -> bool {
    &&& extends(old, new)
    &&& appended(old, new).no_duplicates()
    &&& forall|u: u64| #[trigger] appended(old, new).contains(u) <==> (is_hit(active, q, None, u) || is_hit(inactive, q, None, u))
}

/// Appending two runs whose members are told by two disjoint predicates
/// gives one run, without repetition, of the members of either.
proof fn lemma_two_parts(o: Seq<u64>, mid: Seq<u64>, new: Seq<u64>, p1: spec_fn(u64) -> bool, p2: spec_fn(u64) -> bool)
    requires
        extends(o, mid),
        extends(mid, new),
        appended(o, mid).no_duplicates(),
        appended(mid, new).no_duplicates(),
        forall|u: u64| #[trigger] appended(o, mid).contains(u) <==> p1(u),
        forall|u: u64| #[trigger] appended(mid, new).contains(u) <==> p2(u),
        forall|u: u64| !(#[trigger] p1(u) && p2(u)),
    ensures
        extends(o, new),
        appended(o, new).no_duplicates(),
        forall|u: u64| #[trigger] appended(o, new).contains(u) <==> (p1(u) || p2(u)),
{
    assert(new.subrange(0, o.len() as int) =~= o) by {
        assert(new.subrange(0, mid.len() as int) =~= mid);
        assert(mid.subrange(0, o.len() as int) =~= o);
    }
    let a = appended(o, mid);
    let b = appended(mid, new);
    assert(appended(o, new) =~= a + b) by {
        assert(new.subrange(0, mid.len() as int) =~= mid);
    }
    assert forall|u: u64| #[trigger] appended(o, new).contains(u) <==> (p1(u) || p2(u)) by {
        vstd::seq_lib::lemma_seq_concat_contains_all_elements(a, b, u);
    }
    assert forall|i: int, j: int| 0 <= i < a.len() && 0 <= j < b.len() implies a[i] != b[j] by {
        assert(a.contains(a[i]));
        assert(b.contains(b[j]));
    }
    vstd::seq_lib::lemma_no_dup_in_concat(a, b);
}

proof fn lemma_two_trees(o: Seq<u64>, mid: Seq<u64>, new: Seq<u64>, active: Map<u64, Aabb>, inactive: Map<u64, Aabb>, q: Aabb)
    requires
        appended_hits(o, mid, active, q, None),
        appended_hits(mid, new, inactive, q, None),
        active.dom().disjoint(inactive.dom()),
    ensures
        query_result(o, new, active, inactive, q),
{
    lemma_two_parts(o, mid, new, |u: u64| is_hit(active, q, None, u), |u: u64| is_hit(inactive, q, None, u));
}

proof fn lemma_two_trees_ray(o: Seq<u64>, mid: Seq<u64>, new: Seq<u64>, active: Map<u64, Aabb>, inactive: Map<u64, Aabb>, ray: Ray)
    requires
        appended_ray_hits(o, mid, active, ray),
        appended_ray_hits(mid, new, inactive, ray),
        active.dom().disjoint(inactive.dom()),
    ensures
        extends(o, new),
        appended(o, new).no_duplicates(),
        forall|u: u64| #[trigger] appended(o, new).contains(u) <==> (is_ray_hit(active, ray, u) || is_ray_hit(inactive, ray, u)),
{
    lemma_two_parts(o, mid, new, |u: u64| is_ray_hit(active, ray, u), |u: u64| is_ray_hit(inactive, ray, u));
}

/// Two query results without repetition and with the same members are equal
/// as multisets; with the query contracts this makes two box, point or ray
/// queries on the same state append the same multiset.
pub proof fn lemma_same_items(a: Seq<u64>, b: Seq<u64>)
    requires
        a.no_duplicates(),
        b.no_duplicates(),
        forall|u: u64| a.contains(u) <==> b.contains(u),
    ensures
        a.to_multiset() == b.to_multiset(),
{
    broadcast use vstd::multiset::group_multiset_axioms;
    broadcast use vstd::seq_lib::to_multiset_contains;
    a.lemma_multiset_has_no_duplicates();
    b.lemma_multiset_has_no_duplicates();
    assert forall|u: u64| a.to_multiset().count(u) == b.to_multiset().count(u) by {
        if a.contains(u) {
            assert(a.to_multiset().contains(u));
            assert(b.to_multiset().contains(u));
        } else {
            assert(!a.to_multiset().contains(u));
            assert(!b.to_multiset().contains(u));
        }
    }
    assert(a.to_multiset() =~= b.to_multiset());
}

/// Two box or point queries on the same state append the same objects, each
/// once: equal as multisets.
pub proof fn lemma_query_deterministic(
    o1: Seq<u64>,
    r1: Seq<u64>,
    o2: Seq<u64>,
    r2: Seq<u64>,
    active: Map<u64, Aabb>,
    inactive: Map<u64, Aabb>,
    q: Aabb,
)
    requires
        query_result(o1, r1, active, inactive, q),
        query_result(o2, r2, active, inactive, q),
    ensures
        appended(o1, r1).to_multiset() == appended(o2, r2).to_multiset(),
{
    assert forall|u: u64| appended(o1, r1).contains(u) <==> appended(o2, r2).contains(u) by {
        assert(appended(o1, r1).contains(u) == appended(o2, r2).contains(u));
    }
    lemma_same_items(appended(o1, r1), appended(o2, r2));
}

/// `mid` is `old` with the newly registered pairs appended, and `after`'s
/// active pairs and cursor are what one eviction pass, sized by the number of
/// new pairs, left of `mid` with the cursor at `cur`.
pub open spec fn registered_then_evicted<D: Dispatcher<DV>, DV>(
    old: Seq<PairEntry<DV>>,
    mid: Seq<PairEntry<DV>>,
    after: DBVTBroadPhase<D, DV>,
    cur: int,
) -> bool {
    &&& old.len() <= mid.len()
    &&& mid.subrange(0, old.len() as int) == old
    &&& after.evicted_from(mid, cur, mid.len() - old.len())
}

/// `after` is `before` followed by one call for each pair of `s`: no two of
/// the new calls are for the same pair, and every pair of `s` has one.
pub open spec fn dispatched_once(before: Seq<(u64, u64)>, after: Seq<(u64, u64)>, s: Set<Pair>) -> bool {
    &&& before.len() <= after.len()
    &&& after.subrange(0, before.len() as int) == before
    &&& forall|i: int, j: int|
        before.len() <= i < after.len() && before.len() <= j < after.len() && i != j
            ==> #[trigger] pair_of(after[i].0, after[i].1) != #[trigger] pair_of(after[j].0, after[j].1)
    &&& forall|k: Pair| #[trigger] s.contains(k) <==> exists|i: int|
        before.len() <= i < after.len() && #[trigger] pair_of(after[i].0, after[i].1) == k
}

proof fn lemma_dispatched_none(c: Seq<(u64, u64)>)
    ensures
        dispatched_once(c, c, Set::empty()),
{
    assert(c.subrange(0, c.len() as int) =~= c);
}

proof fn lemma_dispatched_push(o: Seq<(u64, u64)>, c: Seq<(u64, u64)>, s: Set<Pair>, a: u64, b: u64)
    requires
        dispatched_once(o, c, s),
        !s.contains(pair_of(a, b)),
    ensures
        dispatched_once(o, c.push((a, b)), s.insert(pair_of(a, b))),
{
    let c2 = c.push((a, b));
    assert(c2.subrange(0, o.len() as int) =~= c.subrange(0, o.len() as int));
    assert forall|i: int, j: int|
        o.len() <= i < c2.len() && o.len() <= j < c2.len() && i != j
            implies #[trigger] pair_of(c2[i].0, c2[i].1) != #[trigger] pair_of(c2[j].0, c2[j].1) by {
        if i == c.len() {
            assert(c2[j] == c[j]);
            assert(s.contains(pair_of(c[j].0, c[j].1)));
        } else if j == c.len() {
            assert(c2[i] == c[i]);
            assert(s.contains(pair_of(c[i].0, c[i].1)));
        } else {
            assert(c2[i] == c[i] && c2[j] == c[j]);
        }
    }
    assert forall|k: Pair| #[trigger] s.insert(pair_of(a, b)).contains(k) <==> exists|i: int|
        o.len() <= i < c2.len() && #[trigger] pair_of(c2[i].0, c2[i].1) == k by {
        if s.contains(k) {
            let i = choose|i: int| o.len() <= i < c.len() && #[trigger] pair_of(c[i].0, c[i].1) == k;
            assert(c2[i] == c[i]);
            assert(pair_of(c2[i].0, c2[i].1) == k);
        }
        if k == pair_of(a, b) {
            assert(c2[c.len() as int] == (a, b));
            assert(pair_of(c2[c.len() as int].0, c2[c.len() as int].1) == k);
        }
        if exists|i: int| o.len() <= i < c2.len() && #[trigger] pair_of(c2[i].0, c2[i].1) == k {
            let i = choose|i: int| o.len() <= i < c2.len() && #[trigger] pair_of(c2[i].0, c2[i].1) == k;
            if i < c.len() {
                assert(c2[i] == c[i]);
                assert(pair_of(c[i].0, c[i].1) == k);
                assert(s.contains(k));
            } else {
                assert(c2[i] == (a, b));
            }
        }
    }
}

proof fn lemma_dispatched_chain(o: Seq<(u64, u64)>, m: Seq<(u64, u64)>, n: Seq<(u64, u64)>, s1: Set<Pair>, s2: Set<Pair>)
    requires
        dispatched_once(o, m, s1),
        dispatched_once(m, n, s2),
        s1.disjoint(s2),
    ensures
        dispatched_once(o, n, s1.union(s2)),
{
    assert(n.subrange(0, o.len() as int) =~= m.subrange(0, o.len() as int)) by {
        assert forall|i: int| 0 <= i < o.len() implies n[i] == m[i] by {
            assert(n.subrange(0, m.len() as int)[i] == n[i]);
        }
    }
    assert forall|i: int| 0 <= i < m.len() implies n[i] == m[i] by {
        assert(n.subrange(0, m.len() as int)[i] == n[i]);
    }
    assert forall|i: int, j: int|
        o.len() <= i < n.len() && o.len() <= j < n.len() && i != j
            implies #[trigger] pair_of(n[i].0, n[i].1) != #[trigger] pair_of(n[j].0, n[j].1) by {
        if i < m.len() && j >= m.len() {
            assert(s1.contains(pair_of(m[i].0, m[i].1)));
            assert(s2.contains(pair_of(n[j].0, n[j].1)));
        } else if j < m.len() && i >= m.len() {
            assert(s1.contains(pair_of(m[j].0, m[j].1)));
            assert(s2.contains(pair_of(n[i].0, n[i].1)));
        } else if i < m.len() && j < m.len() {
            assert(pair_of(m[i].0, m[i].1) != pair_of(m[j].0, m[j].1));
        }
    }
    assert forall|k: Pair| #[trigger] s1.union(s2).contains(k) <==> exists|i: int|
        o.len() <= i < n.len() && #[trigger] pair_of(n[i].0, n[i].1) == k by {
        if s1.contains(k) {
            let i = choose|i: int| o.len() <= i < m.len() && #[trigger] pair_of(m[i].0, m[i].1) == k;
            assert(n[i] == m[i]);
        }
        if s2.contains(k) {
            let i = choose|i: int| m.len() <= i < n.len() && #[trigger] pair_of(n[i].0, n[i].1) == k;
        }
        if exists|i: int| o.len() <= i < n.len() && #[trigger] pair_of(n[i].0, n[i].1) == k {
            let i = choose|i: int| o.len() <= i < n.len() && #[trigger] pair_of(n[i].0, n[i].1) == k;
            if i < m.len() {
                assert(n[i] == m[i]);
                assert(s1.contains(k));
            } else {
                assert(s2.contains(k));
            }
        }
    }
}

/// The number of entries one eviction pass scans after `new_colls` new
/// pairs, in a registry of `len` entries: `new_colls` clamped to `[len / 10, len]`.
pub open spec fn eviction_count(new_colls: int, len: int) -> int {
    if new_colls < len / 10 {
        len / 10
    } else if new_colls > len {
        len
    } else {
        new_colls
    }
}

/// The keys at positions `off, off + 1, ..., off + num - 1` of `s`, modulo its length.
pub open spec fn eviction_window<DV>(s: Seq<PairEntry<DV>>, off: int, num: int) -> Set<Pair> {
    Set::new(|k: Pair| exists|n: int| 0 <= n < num && #[trigger] s[(off + n) % (s.len() as int)].key == k)
}

proof fn lemma_refresh_dom(m: Map<u64, Aabb>, fresh: Seq<(u64, Aabb)>, margin: int)
    ensures
        refresh(m, fresh, margin).dom() == m.dom(),
    decreases fresh.len(),
{
    if fresh.len() > 0 {
        lemma_refresh_dom(m, fresh.drop_last(), margin);
        let m2 = refresh(m, fresh.drop_last(), margin);
        assert(refresh_one(m2, fresh.last().0, fresh.last().1, margin).dom() =~= m2.dom());
    }
}

/// After `update`, the stored box of every reported active object contains
/// the box it reported.
pub proof fn lemma_refresh_contains(m: Map<u64, Aabb>, fresh: Seq<(u64, Aabb)>, margin: int, j: int)
    requires
        0 <= j < fresh.len(),
        0 <= margin <= COORD_LIMIT,
        m.contains_key(fresh[j].0),
        forall|i: int| 0 <= i < fresh.len() ==> (#[trigger] fresh[i]).1.bounded(COORD_LIMIT as int),
        forall|i: int, k: int| 0 <= i < k < fresh.len() ==> (#[trigger] fresh[i]).0 != (#[trigger] fresh[k]).0,
    ensures
        refresh(m, fresh, margin).contains_key(fresh[j].0),
        refresh(m, fresh, margin)[fresh[j].0].contains_spec(fresh[j].1),
    decreases fresh.len(),
{
    let s2 = fresh.drop_last();
    let last = fresh.len() - 1;
    lemma_refresh_dom(m, s2, margin);
    if j < last {
        assert(s2[j] == fresh[j]);
        assert forall|i: int| 0 <= i < s2.len() implies (#[trigger] s2[i]).1.bounded(COORD_LIMIT as int) by {
            assert(s2[i] == fresh[i]);
        }
        assert forall|i: int, k: int| 0 <= i < k < s2.len() implies (#[trigger] s2[i]).0 != (#[trigger] s2[k]).0 by {
            assert(s2[i] == fresh[i] && s2[k] == fresh[k]);
        }
        lemma_refresh_contains(m, s2, margin, j);
        assert(fresh[j].0 != fresh[last].0);
    } else {
        assert(fresh[last].1.bounded(COORD_LIMIT as int));
        crate::aabb::lemma_aabb_loosened_contains(fresh[last].1, margin);
    }
}

/// `new` is `old` followed by each pair of `s`, as `(first, second)`, exactly once.
pub open spec fn seen_once(old: Seq<(u64, u64)>, new: Seq<(u64, u64)>, s: Set<Pair>) -> bool {
    &&& old.len() <= new.len()
    &&& new.subrange(0, old.len() as int) =~= old
    &&& new.subrange(old.len() as int, new.len() as int).no_duplicates()
    &&& forall|p: (u64, u64)| #[trigger] new.subrange(old.len() as int, new.len() as int).contains(p)
        <==> s.contains(Pair { first: p.0, second: p.1 })
}

/// The identifiers reported in `fresh`.
pub open spec fn fresh_ids(fresh: Seq<(u64, Aabb)>) -> Set<u64> {
    Set::new(|u: u64| exists|j: int| 0 <= j < fresh.len() && fresh[j].0 == u)
}

/// The member of `k` other than `u`.
pub open spec fn other_member(k: Pair, u: u64) -> u64 {
    if k.first == u { k.second } else { k.first }
}

/// The policy that decides which pairs of objects are of interest, and that
/// builds the data kept for each of them.
pub trait Dispatcher<DV> {
    /// Whether the pair of objects `a` and `b` is of interest.
    spec fn accepts(&self, a: u64, b: u64) -> bool;

    /// The filter does not depend on the order of the two objects.
    proof fn accepts_symmetric(&self, a: u64, b: u64)
        ensures
            self.accepts(a, b) == self.accepts(b, a),
    ;

    /// Cheap test of whether the pair is of interest.
    fn is_valid(&self, a: u64, b: u64) -> (r: bool)
        ensures
            r == self.accepts(a, b),
    ;

    /// The pairs handed to `dispatch` so far, in order.
    spec fn calls(&self) -> Vec<(u64, u64)>;

    /// Builds the data of a newly found pair; the filter is left as it was.
    fn dispatch(&mut self, a: u64, b: u64) -> (r: DV)
        ensures
            forall|x: u64, y: u64| #[trigger] final(self).accepts(x, y) == old(self).accepts(x, y),
            final(self).calls()@ == old(self).calls()@.push((a, b)),
    ;
}

/// Broad phase based on two dynamic bounding volume trees.
pub struct DBVTBroadPhase<D, DV> {
    tree: Dbvt,
    stree: Dbvt,
    active2bv: HashMap<u64, Aabb>,
    inactive2bv: HashMap<u64, Aabb>,
    pairs: PairManager<DV>,
    spairs: PairManager<DV>,
    dispatcher: D,
    margin: i64,
    update_off: usize,
}

impl<D: Dispatcher<DV>, DV> DBVTBroadPhase<D, DV> {
    /// Loose boxes of the active objects.
    pub closed spec fn active(&self) -> Map<u64, Aabb> {
        self.tree@
    }

    /// Loose boxes of the sleeping objects.
    pub closed spec fn inactive(&self) -> Map<u64, Aabb> {
        self.stree@
    }

    /// Pairs registered with at least one active member.
    pub closed spec fn pair_keys(&self) -> Set<Pair> {
        self.pairs.keys()
    }

    /// Pairs registered between sleeping members.
    pub closed spec fn spair_keys(&self) -> Set<Pair> {
        self.spairs.keys()
    }

    /// The entries of the active pair registry, in iteration order.
    pub closed spec fn pair_entries(&self) -> Seq<PairEntry<DV>> {
        self.pairs@
    }

    /// The amount by which every stored box exceeds its object's box.
    pub closed spec fn margin_spec(&self) -> int {
        self.margin as int
    }

    /// The pair filter.
    pub closed spec fn dispatcher_spec(&self) -> D {
        self.dispatcher
    }

    pub open spec fn live(&self, u: u64) -> bool {
        self.active().contains_key(u) || self.inactive().contains_key(u)
    }

    /// The stored box of a live object.
    pub open spec fn bv_of(&self, u: u64) -> Aabb {
        if self.active().contains_key(u) {
            self.active()[u]
        } else {
            self.inactive()[u]
        }
    }

    /// `k` joins two live objects, one of them in `s`, whose stored boxes meet
    /// and that the filter accepts.
    pub open spec fn fresh_pair(&self, k: Pair, s: Set<u64>) -> bool {
        &&& self.live(k.first)
        &&& self.live(k.second)
        &&& self.dispatcher_spec().accepts(k.first, k.second)
        &&& self.bv_of(k.first).intersects_spec(self.bv_of(k.second))
        &&& (s.contains(k.first) || s.contains(k.second))
    }

    /// Every pair of distinct live objects, one of them active, whose stored
    /// boxes meet and that the filter accepts, is registered in the active registry.
    pub open spec fn complete(&self) -> bool {
        forall|a: u64, b: u64|
            #[trigger] self.dispatcher_spec().accepts(a, b) && self.active().contains_key(a) && self.live(b) && a != b
                && self.bv_of(a).intersects_spec(self.bv_of(b)) ==> self.pair_keys().contains(pair_of(a, b))
    }

    /// Every such pair of sleeping objects is registered in the sleeping registry.
    pub open spec fn sleeping_complete(&self) -> bool {
        forall|a: u64, b: u64|
            #[trigger] self.dispatcher_spec().accepts(a, b) && self.inactive().contains_key(a) && self.inactive().contains_key(b)
                && a != b && self.inactive()[a].intersects_spec(self.inactive()[b])
                ==> self.spair_keys().contains(pair_of(a, b))
    }

    /// A pair of two sleeping objects left in the active registry is stale:
    /// its boxes do not meet, or the filter refuses it.
    pub open spec fn sleeping_pairs_stale(&self) -> bool {
        forall|k: Pair|
            #[trigger] self.pair_keys().contains(k) && self.inactive().contains_key(k.first)
                && self.inactive().contains_key(k.second) ==> !(self.dispatcher_spec().accepts(k.first, k.second)
                && self.inactive()[k.first].intersects_spec(self.inactive()[k.second]))
    }

    /// Every pair of the sleeping registry is accepted by the filter and its boxes meet.
    pub open spec fn sleeping_pairs_current(&self) -> bool {
        forall|k: Pair|
            #[trigger] self.spair_keys().contains(k) ==> self.dispatcher_spec().accepts(k.first, k.second)
                && self.inactive()[k.first].intersects_spec(self.inactive()[k.second])
    }

    /// Registered pairs join two distinct objects that are live or about to be
    /// reinserted; sleeping pairs join two sleeping objects.
    pub open spec fn keys_live(&self, pending: Set<u64>) -> bool {
        &&& forall|k: Pair|
            #[trigger] self.pair_keys().contains(k) ==> k.first < k.second && (self.live(k.first)
                || pending.contains(k.first)) && (self.live(k.second) || pending.contains(k.second))
        &&& forall|k: Pair|
            #[trigger] self.spair_keys().contains(k) ==> k.first < k.second
                && self.inactive().contains_key(k.first) && self.inactive().contains_key(k.second)
    }

    /// Consistency of the trees, the index maps and the registries while the
    /// objects of `pending` wait to be reinserted in the active tree.
    pub closed spec fn internal_wf(&self, pending: Set<u64>) -> bool {
        &&& self.tree.wf()
        &&& self.stree.wf()
        &&& self.pairs.wf()
        &&& self.spairs.wf()
        &&& self.active2bv@.dom() == self.tree@.dom().union(pending)
        &&& forall|u: u64| #[trigger] self.tree@.contains_key(u) ==> self.active2bv@[u] == self.tree@[u]
        &&& forall|u: u64| #[trigger] pending.contains(u) ==> self.active2bv@[u].wf()
            && self.active2bv@[u].bounded(tree_limit())
        &&& self.inactive2bv@ == self.stree@
        &&& self.tree@.dom().disjoint(self.stree@.dom())
        &&& pending.disjoint(self.tree@.dom())
        &&& pending.disjoint(self.stree@.dom())
        &&& 0 <= self.margin <= COORD_LIMIT
    }

    /// The invariant while the objects of `pending` wait for reinsertion.
    pub open spec fn wf_pending(&self, pending: Set<u64>) -> bool {
        &&& self.internal_wf(pending)
        &&& 0 <= self.margin_spec() <= COORD_LIMIT
        &&& self.active().dom().disjoint(self.inactive().dom())
        &&& self.complete()
        &&& self.sleeping_complete()
        &&& self.sleeping_pairs_stale()
        &&& self.sleeping_pairs_current()
        &&& self.keys_live(pending)
    }

    /// The broad phase's invariant.
    pub open spec fn wf(&self) -> bool {
        self.wf_pending(Set::empty())
    }

    /// An empty broad phase; every stored box will be its object's box loosened by `margin`.
    pub fn new(dispatcher: D, margin: i64) -> (r: Self)
        requires
            0 <= margin <= COORD_LIMIT,
        ensures
            r.wf(),
            r.active() == Map::<u64, Aabb>::empty(),
            r.inactive() == Map::<u64, Aabb>::empty(),
            r.pair_keys() == Set::<Pair>::empty(),
            r.spair_keys() == Set::<Pair>::empty(),
            r.margin_spec() == margin,
            r.dispatcher_spec() == dispatcher,
            r.pair_entries().len() == 0,
            r.cursor() == 0,
    {
        let r = DBVTBroadPhase {
            tree: Dbvt::new(),
            stree: Dbvt::new(),
            active2bv: HashMap::new(),
            inactive2bv: HashMap::new(),
            pairs: PairManager::new(),
            spairs: PairManager::new(),
            dispatcher,
            margin,
            update_off: 0,
        };
        assert(r.active2bv@.dom() =~= r.tree@.dom().union(Set::empty()));
        r
    }

    /// Number of pairs in the active registry.
    pub fn num_interferences(&self) -> (r: usize)
        requires
            self.wf(),
        ensures
            r == self.pair_entries().len(),
            self.pair_keys().finite(),
            r == self.pair_keys().len(),
    {
        proof {
            lemma_keys_len(self.pairs@);
        }
        self.pairs.len()
    }

    /// The pair filter.
    pub fn dispatcher(&self) -> (r: &D)
        ensures
            *r == self.dispatcher_spec(),
    {
        &self.dispatcher
    }

    /// The entry at position `i` of the active registry.
    pub fn pair_at(&self, i: usize) -> (r: &PairEntry<DV>)
        requires
            i < self.pair_entries().len(),
        ensures
            *r == self.pair_entries()[i as int],
    {
        self.pairs.entry_at(i)
    }

    /// Whether the pair `{a, b}` is in the active registry.
    pub fn has_pair(&self, a: u64, b: u64) -> (r: bool)
        requires
            self.wf(),
        ensures
            r == self.pair_keys().contains(pair_of(a, b)),
    {
        self.pairs.contains(&Pair::new(a, b))
    }

    /// Whether the pair `{a, b}` is in the sleeping registry.
    pub fn has_sleeping_pair(&self, a: u64, b: u64) -> (r: bool)
        requires
            self.wf(),
        ensures
            r == self.spair_keys().contains(pair_of(a, b)),
    {
        self.spairs.contains(&Pair::new(a, b))
    }

    /// Removes the object `uid`, active or sleeping, and every registered pair
    /// that involves it; an unknown identifier changes nothing.
    pub fn remove(&mut self, uid: u64)
        requires
            old(self).wf(),
        ensures
            final(self).wf(),
            final(self).active() == old(self).active().remove(uid),
            final(self).inactive() == old(self).inactive().remove(uid),
            final(self).pair_keys() == old(self).pair_keys().filter(|k: Pair| !k.involves(uid)),
            final(self).spair_keys() == old(self).spair_keys().filter(|k: Pair| !k.involves(uid)),
            forall|k: Pair| #[trigger] final(self).pair_keys().contains(k) ==> !k.involves(uid),
            forall|k: Pair| #[trigger] final(self).spair_keys().contains(k) ==> !k.involves(uid),
            forall|kk: Pair| #[trigger] final(self).pair_keys().contains(kk) ==> final(self).pair_data(kk) == old(self).pair_data(kk),
            forall|kk: Pair| #[trigger] final(self).spair_keys().contains(kk) ==> final(self).spair_data(kk) == old(self).spair_data(kk),
            final(self).dispatcher_spec() == old(self).dispatcher_spec(),
            final(self).margin_spec() == old(self).margin_spec(),
    {
        match self.active2bv.remove(&uid) {
            Some(bv) => {
                self.tree.remove(uid, &bv);
            },
            None => {
                match self.inactive2bv.remove(&uid) {
                    Some(bv) => {
                        self.stree.remove(uid, &bv);
                    },
                    None => {
                        assert(self.active2bv@ =~= old(self).active2bv@);
                        assert(self.inactive2bv@ =~= old(self).inactive2bv@);
                        assert(self.active() =~= old(self).active().remove(uid));
                        assert(self.inactive() =~= old(self).inactive().remove(uid));
                        assert(self.pair_keys() =~= old(self).pair_keys().filter(|k: Pair| !k.involves(uid)));
                        assert(self.spair_keys() =~= old(self).spair_keys().filter(|k: Pair| !k.involves(uid)));
                        assert(self.internal_wf(Set::empty()));
                        proof {
                            Self::lemma_same_views(*old(self), *self);
                        }
                        return;
                    },
                }
            },
        }
        self.pairs.remove_involving(uid);
        self.spairs.remove_involving(uid);
        proof {
            assert(self.active2bv@.dom() =~= self.tree@.dom().union(Set::empty()));
            assert(self.active() =~= old(self).active().remove(uid));
            assert(self.inactive() =~= old(self).inactive().remove(uid));
            assert(self.internal_wf(Set::empty()));
            assert(self.dispatcher_spec() == old(self).dispatcher_spec());
            assert forall|a: u64, b: u64|
                #[trigger] self.dispatcher_spec().accepts(a, b) && self.active().contains_key(a) && self.live(b) && a != b
                    && self.bv_of(a).intersects_spec(self.bv_of(b)) implies self.pair_keys().contains(pair_of(a, b)) by {
                assert(old(self).bv_of(a) == self.bv_of(a));
                assert(old(self).bv_of(b) == self.bv_of(b));
                assert(old(self).pair_keys().contains(pair_of(a, b)));
            }
            assert(self.complete());
            assert forall|a: u64, b: u64|
                #[trigger] self.dispatcher_spec().accepts(a, b) && self.inactive().contains_key(a) && self.inactive().contains_key(b)
                    && a != b && self.inactive()[a].intersects_spec(self.inactive()[b])
                    implies self.spair_keys().contains(pair_of(a, b)) by {
                assert(old(self).spair_keys().contains(pair_of(a, b)));
            }
            assert(self.sleeping_complete());
            assert forall|k: Pair| #[trigger] self.pair_keys().contains(k) implies old(self).pair_keys().contains(k)
                && !k.involves(uid) by {
                assert(old(self).pair_keys().filter(|k: Pair| !k.involves(uid)).contains(k));
            }
            assert forall|k: Pair| #[trigger] self.spair_keys().contains(k) implies old(self).spair_keys().contains(k)
                && !k.involves(uid) by {
                assert(old(self).spair_keys().filter(|k: Pair| !k.involves(uid)).contains(k));
            }
            assert(self.sleeping_pairs_stale());
            assert(self.keys_live(Set::empty()));
        }
    }

    /// The index of active objects, including those waiting for reinsertion.
    pub closed spec fn indexed_active(&self) -> Map<u64, Aabb> {
        self.active2bv@
    }

    /// Reinserts `uid`, which waits in `rest`, into the active tree after
    /// registering every accepted pair that it forms with the leaves of both
    /// trees; returns the number of pairs newly registered.
    fn reinsert_one(&mut self, uid: u64, Ghost(rest): Ghost<Set<u64>>) -> (r: usize)
        requires
            old(self).wf_pending(rest),
            rest.contains(uid),
        ensures
            final(self).wf_pending(rest.remove(uid)),
            final(self).active() == old(self).active().insert(uid, old(self).indexed_active()[uid]),
            final(self).inactive() == old(self).inactive(),
            final(self).indexed_active() == old(self).indexed_active(),
            final(self).spair_keys() == old(self).spair_keys(),
            old(self).pair_keys().subset_of(final(self).pair_keys()),
            final(self).pair_entries().len() == old(self).pair_entries().len() + r,
            r == 0 ==> final(self).pair_keys() == old(self).pair_keys(),
            final(self).pair_entries().subrange(0, old(self).pair_entries().len() as int) == old(self).pair_entries(),
            final(self).cursor() == old(self).cursor(),
            forall|k: Pair| #[trigger] final(self).pair_keys().contains(k) && !old(self).pair_keys().contains(k)
                ==> final(self).fresh_pair(k, set![uid]),
            r > 0 ==> exists|k: Pair| #[trigger] final(self).pair_keys().contains(k) && !old(self).pair_keys().contains(k),
            forall|kk: Pair| #[trigger] old(self).pair_keys().contains(kk) ==> final(self).pair_data(kk) == old(self).pair_data(kk),
            forall|x: u64, y: u64| #[trigger] final(self).dispatcher_spec().accepts(x, y) == old(self).dispatcher_spec().accepts(x, y),
            final(self).margin_spec() == old(self).margin_spec(),
            dispatched_once(old(self).dispatcher_spec().calls()@, final(self).dispatcher_spec().calls()@, final(self).pair_keys().difference(old(self).pair_keys())),
            r == 0 ==> final(self).dispatcher_spec() == old(self).dispatcher_spec(),
    {
        let bv = match self.active2bv.get(&uid) {
            Some(b) => *b,
            None => {
                proof {
                    assert(self.active2bv@.dom().contains(uid));
                }
                Aabb { mins: Pnt3 { x: 0, y: 0, z: 0 }, maxs: Pnt3 { x: 0, y: 0, z: 0 } }
            },
        };
        assert(bv == self.active2bv@[uid]);
        let mut collector: Vec<u64> = Vec::new();
        self.tree.interferences_with_leaf(uid, &bv, &mut collector);
        let ghost mid = collector@;
        self.stree.interferences_with_leaf(uid, &bv, &mut collector);
        proof {
            assert(appended(Seq::<u64>::empty(), mid) =~= mid);
            assert(appended(Seq::<u64>::empty(), collector@) =~= collector@);
            assert(collector@ =~= mid + appended(mid, collector@));
            assert forall|u: u64| #[trigger] collector@.contains(u) <==> (is_hit(self.tree@, bv, Some(uid), u)
                || is_hit(self.stree@, bv, Some(uid), u)) by {
                vstd::seq_lib::lemma_seq_concat_contains_all_elements(mid, appended(mid, collector@), u);
            }
        }
        let start_len = self.pairs.len();
        let mut new_colls: usize = 0;
        proof {
            lemma_dispatched_none(old(self).dispatcher_spec().calls()@);
            assert(self.pair_keys().difference(old(self).pair_keys()) =~= Set::empty());
        }
        let mut j: usize = 0;
        while j < collector.len()
            invariant
                j <= collector@.len(),
                self.wf_pending(rest),
                forall|u: u64| #[trigger] collector@.contains(u) <==> (is_hit(self.tree@, bv, Some(uid), u)
                    || is_hit(self.stree@, bv, Some(uid), u)),
                self.tree@ == old(self).tree@,
                self.stree@ == old(self).stree@,
                self.active2bv@ == old(self).active2bv@,
                self.spair_keys() == old(self).spair_keys(),
                old(self).pair_keys().subset_of(self.pair_keys()),
                self.pair_entries().len() == old(self).pair_entries().len() + new_colls,
                start_len == old(self).pair_entries().len(),
                self.pair_entries().subrange(0, old(self).pair_entries().len() as int) =~= old(self).pair_entries(),
                self.update_off == old(self).update_off,
                new_colls == 0 ==> self.pair_keys() == old(self).pair_keys(),
                new_colls > 0 ==> exists|k: Pair| #[trigger] self.pair_keys().contains(k) && !old(self).pair_keys().contains(k),
                forall|kk: Pair| #[trigger] old(self).pair_keys().contains(kk) ==> self.pair_data(kk) == old(self).pair_data(kk),
                forall|k: Pair| #[trigger] self.pair_keys().contains(k) && !old(self).pair_keys().contains(k)
                    ==> k == pair_of(uid, other_member(k, uid)) && (is_hit(self.tree@, bv, Some(uid), other_member(k, uid))
                    || is_hit(self.stree@, bv, Some(uid), other_member(k, uid))) && self.dispatcher_spec().accepts(uid, other_member(k, uid)),
                forall|x: u64, y: u64| #[trigger] self.dispatcher_spec().accepts(x, y) == old(self).dispatcher_spec().accepts(x, y),
                self.margin == old(self).margin,
                dispatched_once(old(self).dispatcher_spec().calls()@, self.dispatcher_spec().calls()@, self.pair_keys().difference(old(self).pair_keys())),
                new_colls == 0 ==> self.dispatcher == old(self).dispatcher,
                rest.contains(uid),
                bv == self.active2bv@[uid],
                forall|jj: int| 0 <= jj < j && self.dispatcher_spec().accepts(uid, #[trigger] collector@[jj])
                    ==> self.pair_keys().contains(pair_of(uid, collector@[jj])),
            decreases collector@.len() - j,
        {
            let c = collector[j];
            assert(collector@.contains(c));
            if self.dispatcher.is_valid(uid, c) {
                let k = Pair::new(uid, c);
                if !self.pairs.contains(&k) {
                    let ghost before = *self;
                    proof {
                        assert(!before.pair_keys().difference(old(self).pair_keys()).contains(k));
                        lemma_dispatched_push(
                            old(self).dispatcher_spec().calls()@,
                            before.dispatcher_spec().calls()@,
                            before.pair_keys().difference(old(self).pair_keys()),
                            uid,
                            c,
                        );
                    }
                    let dv = self.dispatcher.dispatch(uid, c);
                    self.pairs.insert(k, dv);
                    new_colls = self.pairs.len() - start_len;
                    proof {
                        assert forall|x: u64, y: u64| #[trigger] self.dispatcher_spec().accepts(x, y) == old(self).dispatcher_spec().accepts(x, y) by {
                            assert(self.dispatcher.accepts(x, y) == before.dispatcher.accepts(x, y));
                            assert(before.dispatcher_spec().accepts(x, y) == old(self).dispatcher_spec().accepts(x, y));
                        }
                        assert(self.pair_keys() == before.pair_keys().insert(k));
                        assert(self.pair_keys().contains(k) && !old(self).pair_keys().contains(k));
                        assert(self.pair_keys().difference(old(self).pair_keys()) =~= before.pair_keys().difference(
                            old(self).pair_keys()).insert(k));
                        assert forall|kk: Pair| #[trigger] old(self).pair_keys().contains(kk) implies self.pair_data(kk) == old(self).pair_data(kk) by {
                            assert(before.pair_keys().contains(kk));
                            assert(before.pair_data(kk) == old(self).pair_data(kk));
                        }
                        assert(self.dispatcher_spec().accepts(uid, c));
                        assert(other_member(k, uid) == c);
                        assert forall|kk: Pair| #[trigger] self.pair_keys().contains(kk) && !old(self).pair_keys().contains(kk)
                            implies kk == pair_of(uid, other_member(kk, uid)) && (is_hit(self.tree@, bv, Some(uid), other_member(kk, uid))
                            || is_hit(self.stree@, bv, Some(uid), other_member(kk, uid))) && self.dispatcher_spec().accepts(uid, other_member(kk, uid)) by {
                            if kk != k {
                                assert(before.pair_keys().contains(kk));
                                assert(before.dispatcher_spec().accepts(uid, other_member(kk, uid)));
                            }
                        }
                        assert forall|a: u64, b: u64|
                            #[trigger] self.dispatcher_spec().accepts(a, b) && self.active().contains_key(a) && self.live(b) && a != b
                                && self.bv_of(a).intersects_spec(self.bv_of(b)) implies self.pair_keys().contains(pair_of(a, b)) by {
                            assert(before.dispatcher_spec().accepts(a, b));
                        }
                        assert forall|a: u64, b: u64|
                            #[trigger] self.dispatcher_spec().accepts(a, b) && self.inactive().contains_key(a) && self.inactive().contains_key(b)
                                && a != b && self.inactive()[a].intersects_spec(self.inactive()[b])
                                implies self.spair_keys().contains(pair_of(a, b)) by {
                            assert(before.dispatcher_spec().accepts(a, b));
                        }
                        assert forall|kk: Pair|
                            #[trigger] self.pair_keys().contains(kk) && self.inactive().contains_key(kk.first)
                                && self.inactive().contains_key(kk.second) implies !(self.dispatcher_spec().accepts(kk.first, kk.second)
                                && self.inactive()[kk.first].intersects_spec(self.inactive()[kk.second])) by {
                            if kk != k {
                                assert(before.pair_keys().contains(kk));
                                assert(before.dispatcher_spec().accepts(kk.first, kk.second) == self.dispatcher_spec().accepts(kk.first, kk.second));
                            }
                        }
                        assert(self.internal_wf(rest));
                        assert(self.keys_live(rest));
                    }
                }
            }
            j = j + 1;
        }
        let ghost before = *self;
        self.tree.insert(uid, bv);
        proof {
            let rest2 = rest.remove(uid);
            assert(self.active2bv@.dom() =~= self.tree@.dom().union(rest2));
            assert(self.internal_wf(rest2));
            assert forall|a: u64, b: u64|
                #[trigger] self.dispatcher_spec().accepts(a, b) && self.active().contains_key(a) && self.live(b) && a != b
                    && self.bv_of(a).intersects_spec(self.bv_of(b)) implies self.pair_keys().contains(pair_of(a, b)) by {
                assert(before.dispatcher_spec().accepts(a, b) == self.dispatcher_spec().accepts(a, b));
                if a == uid {
                    assert(before.live(b));
                    assert(is_hit(before.tree@, bv, Some(uid), b) || is_hit(before.stree@, bv, Some(uid), b));
                    assert(collector@.contains(b));
                    let jj = choose|jj: int| 0 <= jj < collector@.len() && collector@[jj] == b;
                    assert(self.dispatcher_spec().accepts(uid, collector@[jj]));
                } else if b == uid {
                    self.dispatcher.accepts_symmetric(a, b);
                    assert(is_hit(before.tree@, bv, Some(uid), a));
                    assert(collector@.contains(a));
                    let jj = choose|jj: int| 0 <= jj < collector@.len() && collector@[jj] == a;
                    assert(self.dispatcher_spec().accepts(uid, collector@[jj]));
                    crate::pair_manager::lemma_pair_symmetric(a, b);
                } else {
                    assert(before.bv_of(a) == self.bv_of(a));
                    assert(before.bv_of(b) == self.bv_of(b));
                }
            }
            assert(self.inactive() == before.inactive());
            assert(self.spair_keys() == before.spair_keys());
            assert(self.pair_keys() == before.pair_keys());
            assert(self.dispatcher_spec() == before.dispatcher_spec());
            assert(self.sleeping_complete());
            assert(self.sleeping_pairs_stale());
            assert(self.keys_live(rest2));
            assert(self.active() =~= old(self).active().insert(uid, old(self).indexed_active()[uid]));
            assert forall|k: Pair| #[trigger] self.pair_keys().contains(k) && !old(self).pair_keys().contains(k)
                implies self.fresh_pair(k, set![uid]) by {
                let c = other_member(k, uid);
                assert(before.pair_keys().contains(k));
                assert(before.dispatcher_spec().accepts(uid, c));
                self.dispatcher.accepts_symmetric(uid, c);
                assert(self.bv_of(uid) == bv);
                assert(self.bv_of(c) == before.bv_of(c));
            }
        }
        new_colls
    }

    /// The invariant speaks only of the views: a state whose internal
    /// consistency holds and whose views equal those of a well-formed state
    /// is well formed.
    proof fn lemma_same_views(a: Self, b: Self)
        requires
            a.wf(),
            b.internal_wf(Set::empty()),
            b.active() == a.active(),
            b.inactive() == a.inactive(),
            b.pair_keys() == a.pair_keys(),
            b.spair_keys() == a.spair_keys(),
            b.dispatcher_spec() == a.dispatcher_spec(),
            b.margin_spec() == a.margin_spec(),
        ensures
            b.wf(),
    {
    }

    /// The stored box of a live object, read from the index maps.
    fn lookup(&self, u: u64) -> (r: Aabb)
        requires
            self.wf(),
            self.live(u),
        ensures
            r == self.bv_of(u),
    {
        match self.active2bv.get(&u) {
            Some(b) => *b,
            None => {
                match self.inactive2bv.get(&u) {
                    Some(b) => *b,
                    None => {
                        proof {
                            assert(self.inactive2bv@.contains_key(u));
                        }
                        Aabb { mins: Pnt3 { x: 0, y: 0, z: 0 }, maxs: Pnt3 { x: 0, y: 0, z: 0 } }
                    },
                }
            },
        }
    }

    /// The stored boxes of the two members of `k` do not meet.
    pub open spec fn is_stale(&self, k: Pair) -> bool {
        !self.bv_of(k.first).intersects_spec(self.bv_of(k.second))
    }

    /// The data of the active pair `k`.
    pub closed spec fn pair_data(&self, k: Pair) -> DV {
        self.pairs.value_of(k)
    }

    /// The data of the sleeping pair `k`.
    pub closed spec fn spair_data(&self, k: Pair) -> DV {
        self.spairs.value_of(k)
    }

    /// This state's active pairs and cursor are what one eviction pass left
    /// of the registry `mid`, whose cursor stood at `cur`, after `n` new
    /// pairs: with no new pair nothing is scanned; otherwise
    /// `eviction_count(n, len)` entries are scanned from position
    /// `cur % len` on, the stale ones among them are dropped, and the cursor
    /// moves on by that count, modulo the registry's new length.
    pub open spec fn evicted_from(&self, mid: Seq<PairEntry<DV>>, cur: int, n: int) -> bool {
        if n == 0 || mid.len() == 0 {
            self.pair_keys() == keys_of(mid) && self.cursor() == cur
        } else {
            let len = mid.len() as int;
            let num = eviction_count(n, len);
            let scanned = eviction_window(mid, cur % len, num);
            &&& self.pair_keys() == keys_of(mid).difference(scanned.filter(|k: Pair| self.is_stale(k)))
            &&& self.cursor() == if self.pair_entries().len() == 0 {
                0
            } else {
                (cur + num) % (self.pair_entries().len() as int)
            }
        }
    }

    /// The tree of active objects.
    pub closed spec fn active_tree(&self) -> Dbvt {
        self.tree
    }

    /// The tree of sleeping objects.
    pub closed spec fn sleeping_tree(&self) -> Dbvt {
        self.stree
    }

    /// Both trees of a well-formed broad phase are well formed, hence (by
    /// `Dbvt::lemma_nodes_wf`) every internal node's box contains its
    /// children's boxes; their leaves are the active and the sleeping objects.
    pub proof fn lemma_trees_wf(&self)
        requires
            self.wf(),
        ensures
            self.active_tree().wf(),
            self.sleeping_tree().wf(),
            self.active_tree()@ == self.active(),
            self.sleeping_tree()@ == self.inactive(),
    {
    }

    /// One eviction pass drops exactly the stale pairs at the scanned
    /// positions: a stale pair found there is gone, and a pair that is gone
    /// was stale. Each pass after new pairs scans at least one entry and at
    /// least a tenth of the registry, so with the entries in place a stale
    /// pair is reached within ten such passes.
    pub proof fn lemma_eviction_pass(after: Self, mid: Seq<PairEntry<DV>>, cur: int, n: int, m: int)
        requires
            after.evicted_from(mid, cur, n),
            n > 0,
            mid.len() > 0,
            0 <= m < eviction_count(n, mid.len() as int),
        ensures
            eviction_count(n, mid.len() as int) >= 1,
            eviction_count(n, mid.len() as int) >= mid.len() / 10,
            after.is_stale(mid[(cur % (mid.len() as int) + m) % (mid.len() as int)].key)
                ==> !after.pair_keys().contains(mid[(cur % (mid.len() as int) + m) % (mid.len() as int)].key),
            forall|k: Pair| #[trigger] keys_of(mid).contains(k) && !after.pair_keys().contains(k) ==> after.is_stale(k),
    {
        let len = mid.len() as int;
        let k = mid[(cur % len + m) % len].key;
        assert(eviction_window(mid, cur % len, eviction_count(n, len)).contains(k));
    }

    /// The ring cursor of the incremental eviction.
    pub closed spec fn cursor(&self) -> int {
        self.update_off as int
    }

    /// Drops the stale pair `k` from the active registry.
    fn remove_stale_pair(&mut self, k: &Pair)
        requires
            old(self).wf(),
            old(self).is_stale(*k),
        ensures
            final(self).wf(),
            final(self).tree@ == old(self).tree@,
            final(self).stree@ == old(self).stree@,
            final(self).active2bv@ == old(self).active2bv@,
            final(self).spairs == old(self).spairs,
            final(self).pair_keys() == old(self).pair_keys().remove(*k),
            forall|kk: Pair| #[trigger] final(self).pair_keys().contains(kk) ==> final(self).pair_data(kk) == old(self).pair_data(kk),
            final(self).dispatcher == old(self).dispatcher,
            final(self).margin == old(self).margin,
            final(self).update_off == old(self).update_off,
    {
        let ghost before = *self;
        let _ = self.pairs.get_and_remove(k);
        proof {
            assert(self.active2bv@.dom() =~= self.tree@.dom().union(Set::empty()));
            assert forall|a: u64, b: u64|
                #[trigger] self.dispatcher_spec().accepts(a, b) && self.active().contains_key(a) && self.live(b) && a != b
                    && self.bv_of(a).intersects_spec(self.bv_of(b)) implies self.pair_keys().contains(pair_of(a, b)) by {
                assert(before.dispatcher_spec().accepts(a, b));
                assert(before.pair_keys().contains(pair_of(a, b)));
            }
            assert forall|a: u64, b: u64|
                #[trigger] self.dispatcher_spec().accepts(a, b) && self.inactive().contains_key(a) && self.inactive().contains_key(b)
                    && a != b && self.inactive()[a].intersects_spec(self.inactive()[b])
                    implies self.spair_keys().contains(pair_of(a, b)) by {
                assert(before.dispatcher_spec().accepts(a, b));
            }
            assert forall|kk: Pair|
                #[trigger] self.pair_keys().contains(kk) && self.inactive().contains_key(kk.first)
                    && self.inactive().contains_key(kk.second) implies !(self.dispatcher_spec().accepts(kk.first, kk.second)
                    && self.inactive()[kk.first].intersects_spec(self.inactive()[kk.second])) by {
                assert(before.pair_keys().contains(kk));
                assert(before.dispatcher_spec().accepts(kk.first, kk.second) == self.dispatcher_spec().accepts(kk.first, kk.second));
            }
            assert(self.spair_keys() == before.spair_keys());
            assert(self.inactive() == before.inactive());
            assert(self.active() == before.active());
            assert(self.dispatcher_spec() == before.dispatcher_spec());
            assert(self.sleeping_pairs_current());
            assert forall|kk: Pair| #[trigger] self.pair_keys().contains(kk) implies before.pair_keys().contains(kk) by {}
            assert(self.keys_live(Set::empty()));
        }
    }

    /// Incremental eviction: when `new_colls` pairs were just registered,
    /// scans `eviction_count(new_colls, len)` entries of the active registry
    /// from the ring cursor on, drops those whose boxes no longer meet, and
    /// moves the cursor past the scanned entries.
    fn evict_stale(&mut self, new_colls: usize)
        requires
            old(self).wf(),
        ensures
            final(self).wf(),
            final(self).active() == old(self).active(),
            final(self).inactive() == old(self).inactive(),
            final(self).indexed_active() == old(self).indexed_active(),
            final(self).spair_keys() == old(self).spair_keys(),
            final(self).dispatcher_spec() == old(self).dispatcher_spec(),
            final(self).margin_spec() == old(self).margin_spec(),
            forall|kk: Pair| #[trigger] final(self).pair_keys().contains(kk) ==> final(self).pair_data(kk) == old(self).pair_data(kk),
            final(self).evicted_from(old(self).pair_entries(), old(self).cursor(), new_colls as int),
    {
        let len = self.pairs.len();
        if new_colls == 0 || len == 0 {
            return;
        }
        let lo = len / 10;
        let num = if new_colls < lo {
            lo
        } else if new_colls > len {
            len
        } else {
            new_colls
        };
        let off = self.update_off % len;
        let ghost scanned = eviction_window(self.pairs@, off as int, num as int);
        let mut stale: Vec<Pair> = Vec::new();
        let mut n: usize = 0;
        while n < num
            invariant
                n <= num <= len,
                off < len,
                len == self.pairs@.len(),
                *self == *old(self),
                self.wf(),
                scanned == eviction_window(self.pairs@, off as int, num as int),
                forall|k: Pair| #[trigger] stale@.contains(k) ==> self.is_stale(k) && scanned.contains(k),
                forall|m: int| 0 <= m < n && #[trigger] self.is_stale(self.pairs@[(off + m) % (len as int)].key)
                    ==> stale@.contains(self.pairs@[(off + m) % (len as int)].key),
            decreases num - n,
        {
            let idx = ((off as u128 + n as u128) % (len as u128)) as usize;
            let k = self.pairs.key_at(idx);
            proof {
                assert(self.pair_keys().contains(k));
            }
            let ba = self.lookup(k.first);
            let bb = self.lookup(k.second);
            let ghost old_stale = stale@;
            if !ba.intersects(&bb) {
                stale.push(k);
            }
            proof {
                assert forall|x: Pair| old_stale.contains(x) implies stale@.contains(x) by {
                    let i = choose|i: int| 0 <= i < old_stale.len() && old_stale[i] == x;
                    assert(stale@[i] == x);
                }
                assert(scanned.contains(k)) by {
                    assert(self.pairs@[(off + n) % (len as int)].key == k);
                }
                assert forall|m: int| 0 <= m < n + 1 && #[trigger] self.is_stale(self.pairs@[(off + m) % (len as int)].key)
                    implies stale@.contains(self.pairs@[(off + m) % (len as int)].key) by {
                    if m == n {
                        assert(stale@[stale@.len() - 1] == k);
                    } else {
                        assert(old_stale.contains(self.pairs@[(off + m) % (len as int)].key));
                    }
                }
                assert forall|kk: Pair| #[trigger] stale@.contains(kk) implies self.is_stale(kk) && scanned.contains(kk) by {
                    let i = choose|i: int| 0 <= i < stale@.len() && stale@[i] == kk;
                    if i < old_stale.len() {
                        assert(old_stale[i] == kk);
                        assert(old_stale.contains(kk));
                    }
                }
            }
            n = n + 1;
        }
        let ghost removed = scanned.filter(|k: Pair| old(self).is_stale(k));
        proof {
            assert forall|k: Pair| removed.contains(k) implies stale@.contains(k) by {
                let m = choose|m: int| 0 <= m < num && #[trigger] self.pairs@[(off + m) % (len as int)].key == k;
            }
        }
        let mut j: usize = 0;
        while j < stale.len()
            invariant
                j <= stale@.len(),
                self.wf(),
                self.tree@ == old(self).tree@,
                self.stree@ == old(self).stree@,
                self.active2bv@ == old(self).active2bv@,
                self.spairs == old(self).spairs,
                self.dispatcher == old(self).dispatcher,
                self.margin == old(self).margin,
                self.update_off == old(self).update_off,
                forall|k: Pair| #[trigger] stale@.contains(k) ==> old(self).is_stale(k) && removed.contains(k),
                forall|k: Pair| removed.contains(k) ==> stale@.contains(k),
                self.pair_keys() == old(self).pair_keys().difference(Set::new(|k: Pair| exists|jj: int| 0 <= jj < j && stale@[jj] == k)),
                forall|kk: Pair| #[trigger] self.pair_keys().contains(kk) ==> self.pair_data(kk) == old(self).pair_data(kk),
            decreases stale@.len() - j,
        {
            let k = stale[j];
            proof {
                assert(stale@.contains(k));
                assert(self.bv_of(k.first) == old(self).bv_of(k.first));
                assert(self.bv_of(k.second) == old(self).bv_of(k.second));
            }
            let ghost before = *self;
            self.remove_stale_pair(&k);
            proof {
                assert(self.pair_keys() =~= old(self).pair_keys().difference(Set::new(|kk: Pair| exists|jj: int| 0 <= jj < j + 1 && stale@[jj] == kk))) by {
                    assert(stale@[j as int] == k);
                }
            }
            j = j + 1;
        }
        proof {
            assert(Set::new(|kk: Pair| exists|jj: int| 0 <= jj < stale@.len() && stale@[jj] == kk) =~= removed) by {
                assert forall|kk: Pair| removed.contains(kk) implies exists|jj: int| 0 <= jj < stale@.len() && stale@[jj] == kk by {
                    assert(stale@.contains(kk));
                }
                assert forall|jj: int| 0 <= jj < stale@.len() implies removed.contains(#[trigger] stale@[jj]) by {
                    assert(stale@.contains(stale@[jj]));
                }
            }
        }
        let cur = self.pairs.len();
        let ghost before = *self;
        self.update_off = if cur == 0 {
            0
        } else {
            ((self.update_off as u128 + num as u128) % (cur as u128)) as usize
        };
        proof {
            assert(self.active2bv@.dom() =~= self.tree@.dom().union(Set::empty()));
            Self::lemma_same_views(before, *self);
            assert(scanned.filter(|k: Pair| self.is_stale(k)) =~= scanned.filter(|k: Pair| old(self).is_stale(k))) by {
                assert forall|k: Pair| self.is_stale(k) == old(self).is_stale(k) by {
                    assert(self.bv_of(k.first) == old(self).bv_of(k.first));
                    assert(self.bv_of(k.second) == old(self).bv_of(k.second));
                }
            }
        }
    }

    /// Reinserts every object of `pending`, registering the pairs it forms,
    /// then runs the incremental eviction of stale pairs.
    fn process_updates(&mut self, pending: Vec<u64>)
        requires
            old(self).wf_pending(suffix_set(pending@, 0)),
            pending@.no_duplicates(),
        ensures
            final(self).wf(),
            final(self).active() == old(self).indexed_active(),
            final(self).inactive() == old(self).inactive(),
            final(self).spair_keys() == old(self).spair_keys(),
            forall|x: u64, y: u64| #[trigger] final(self).dispatcher_spec().accepts(x, y) == old(self).dispatcher_spec().accepts(x, y),
            final(self).margin_spec() == old(self).margin_spec(),
            pending@.len() == 0 ==> final(self).pair_keys() == old(self).pair_keys(),
            forall|k: Pair| #[trigger] final(self).pair_keys().contains(k) && !old(self).pair_keys().contains(k)
                ==> final(self).fresh_pair(k, suffix_set(pending@, 0)),
            final(self).pair_keys().subset_of(old(self).pair_keys()) ==> final(self).pair_keys() == old(self).pair_keys(),
            forall|kk: Pair| #[trigger] final(self).pair_keys().contains(kk) && old(self).pair_keys().contains(kk)
                ==> final(self).pair_data(kk) == old(self).pair_data(kk),
            exists|mid: Seq<PairEntry<DV>>| #[trigger] registered_then_evicted(old(self).pair_entries(), mid, *final(self), old(self).cursor()),
            dispatched_once(old(self).dispatcher_spec().calls()@, final(self).dispatcher_spec().calls()@, final(self).pair_keys().difference(old(self).pair_keys())),
            final(self).pair_keys().subset_of(old(self).pair_keys()) ==> final(self).dispatcher_spec() == old(self).dispatcher_spec(),
    {
        let mut new_colls: usize = 0;
        let mut i: usize = 0;
        proof {
            lemma_dispatched_none(old(self).dispatcher_spec().calls()@);
            assert(self.pair_keys().difference(old(self).pair_keys()) =~= Set::empty());
        }
        while i < pending.len()
            invariant
                i <= pending@.len(),
                pending@.no_duplicates(),
                self.wf_pending(suffix_set(pending@, i as int)),
                self.indexed_active() == old(self).indexed_active(),
                self.inactive() == old(self).inactive(),
                self.spair_keys() == old(self).spair_keys(),
                forall|x: u64, y: u64| #[trigger] self.dispatcher_spec().accepts(x, y) == old(self).dispatcher_spec().accepts(x, y),
                dispatched_once(old(self).dispatcher_spec().calls()@, self.dispatcher_spec().calls()@, self.pair_keys().difference(old(self).pair_keys())),
                new_colls == 0 ==> self.dispatcher == old(self).dispatcher,
                self.margin_spec() == old(self).margin_spec(),
                new_colls <= self.pair_entries().len(),
                i == 0 ==> new_colls == 0,
                new_colls == 0 ==> self.pair_keys() == old(self).pair_keys(),
                forall|k: Pair| #[trigger] self.pair_keys().contains(k) && !old(self).pair_keys().contains(k)
                    ==> self.fresh_pair(k, suffix_set(pending@, 0)),
                old(self).pair_keys().subset_of(self.pair_keys()),
                new_colls > 0 ==> exists|k: Pair| #[trigger] self.pair_keys().contains(k) && !old(self).pair_keys().contains(k),
                forall|kk: Pair| #[trigger] old(self).pair_keys().contains(kk) ==> self.pair_data(kk) == old(self).pair_data(kk),
                self.pair_entries().len() == old(self).pair_entries().len() + new_colls,
                self.pair_entries().subrange(0, old(self).pair_entries().len() as int) =~= old(self).pair_entries(),
                self.cursor() == old(self).cursor(),
            decreases pending@.len() - i,
        {
            let uid = pending[i];
            proof {
                lemma_suffix_step(pending@, i as int);
            }
            let ghost before = *self;
            let n = self.reinsert_one(uid, Ghost(suffix_set(pending@, i as int)));
            proof {
                assert forall|x: u64, y: u64| #[trigger] self.dispatcher_spec().accepts(x, y) == old(self).dispatcher_spec().accepts(x, y) by {
                    assert(before.dispatcher_spec().accepts(x, y) == old(self).dispatcher_spec().accepts(x, y));
                }
                assert forall|kk: Pair| #[trigger] old(self).pair_keys().contains(kk) implies self.pair_data(kk) == old(self).pair_data(kk) by {
                    assert(before.pair_keys().contains(kk));
                    assert(before.pair_data(kk) == old(self).pair_data(kk));
                }
                assert(old(self).pair_keys().subset_of(before.pair_keys()));
                lemma_dispatched_chain(
                    old(self).dispatcher_spec().calls()@,
                    before.dispatcher_spec().calls()@,
                    self.dispatcher_spec().calls()@,
                    before.pair_keys().difference(old(self).pair_keys()),
                    self.pair_keys().difference(before.pair_keys()),
                );
                assert(before.pair_keys().difference(old(self).pair_keys()).union(self.pair_keys().difference(before.pair_keys()))
                    =~= self.pair_keys().difference(old(self).pair_keys()));
                if n > 0 {
                    let k = choose|k: Pair| #[trigger] self.pair_keys().contains(k) && !before.pair_keys().contains(k);
                    assert(self.pair_keys().contains(k) && !old(self).pair_keys().contains(k));
                } else if new_colls > 0 {
                    let k = choose|k: Pair| #[trigger] before.pair_keys().contains(k) && !old(self).pair_keys().contains(k);
                    assert(self.pair_keys().contains(k) && !old(self).pair_keys().contains(k));
                }
                assert forall|k: Pair| #[trigger] self.pair_keys().contains(k) && !old(self).pair_keys().contains(k)
                    implies self.fresh_pair(k, suffix_set(pending@, 0)) by {
                    assert(suffix_set(pending@, 0).contains(uid)) by {
                        assert(pending@[i as int] == uid);
                    }
                    assert(self.dispatcher_spec().accepts(k.first, k.second) == before.dispatcher_spec().accepts(k.first, k.second));
                    if before.pair_keys().contains(k) {
                        assert(before.fresh_pair(k, suffix_set(pending@, 0)));
                        assert(before.bv_of(k.first) == self.bv_of(k.first));
                        assert(before.bv_of(k.second) == self.bv_of(k.second));
                    } else {
                        assert(self.fresh_pair(k, set![uid]));
                    }
                }
            }
            let total = self.pairs.len();
            assert(new_colls + n <= total);
            new_colls = new_colls + n;
            i = i + 1;
        }
        proof {
            assert(suffix_set(pending@, pending@.len() as int) =~= Set::<u64>::empty());
            assert(self.indexed_active() =~= self.active());
        }
        let ghost before = *self;
        let ghost mid = self.pairs@;
        self.evict_stale(new_colls);
        proof {
            assert(registered_then_evicted(old(self).pair_entries(), mid, *self, old(self).cursor()));
        }
        proof {
            if new_colls == 0 {
                assert(self.pair_keys() == before.pair_keys());
            }
            assert forall|kk: Pair| #[trigger] self.pair_keys().contains(kk) && old(self).pair_keys().contains(kk)
                implies self.pair_data(kk) == old(self).pair_data(kk) by {
                assert(before.pair_data(kk) == old(self).pair_data(kk));
            }
            if self.pair_keys().subset_of(old(self).pair_keys()) && new_colls > 0 {
                let k = choose|k: Pair| #[trigger] before.pair_keys().contains(k) && !old(self).pair_keys().contains(k);
                assert(before.fresh_pair(k, suffix_set(pending@, 0)));
                assert(!before.is_stale(k));
                assert(self.pair_keys().contains(k));
            }
            if self.pair_keys().subset_of(old(self).pair_keys()) {
                assert(self.pair_keys() =~= old(self).pair_keys());
            }
            assert forall|k: Pair| #[trigger] self.pair_keys().contains(k) && !old(self).pair_keys().contains(k)
                implies self.fresh_pair(k, suffix_set(pending@, 0)) by {
                assert(before.pair_keys().contains(k));
                assert(before.fresh_pair(k, suffix_set(pending@, 0)));
                assert(self.dispatcher_spec() == before.dispatcher_spec());
                assert(self.active() == before.active());
                assert(self.inactive() == before.inactive());
            }
            assert forall|x: u64, y: u64| #[trigger] self.dispatcher_spec().accepts(x, y) == old(self).dispatcher_spec().accepts(x, y) by {
                assert(before.dispatcher_spec().accepts(x, y) == old(self).dispatcher_spec().accepts(x, y));
            }
            assert(self.pair_keys().difference(old(self).pair_keys()) =~= before.pair_keys().difference(old(self).pair_keys())) by {
                assert forall|k: Pair| #[trigger] before.pair_keys().contains(k) && !old(self).pair_keys().contains(k)
                    implies self.pair_keys().contains(k) by {
                    assert(before.fresh_pair(k, suffix_set(pending@, 0)));
                    assert(!before.is_stale(k));
                }
            }
            if self.pair_keys().subset_of(old(self).pair_keys()) && new_colls > 0 {
                let k = choose|k: Pair| #[trigger] before.pair_keys().contains(k) && !old(self).pair_keys().contains(k);
                assert(self.pair_keys().contains(k));
            }
        }
    }

    /// Adds the object `uid`, whose box is `bv`, as an active object: its
    /// stored box is `bv` loosened by the margin, and every accepted pair it
    /// forms with an object of either tree is registered.
    pub fn add(&mut self, uid: u64, bv: Aabb)
        requires
            old(self).wf(),
            !old(self).live(uid),
            bv.wf(),
            bv.bounded(COORD_LIMIT as int),
        ensures
            final(self).wf(),
            final(self).active() == old(self).active().insert(uid, bv.loosened_spec(old(self).margin_spec())),
            final(self).inactive() == old(self).inactive(),
            final(self).spair_keys() == old(self).spair_keys(),
            forall|k: Pair| #[trigger] final(self).pair_keys().contains(k) && !old(self).pair_keys().contains(k)
                ==> final(self).fresh_pair(k, set![uid]),
            forall|kk: Pair| #[trigger] final(self).pair_keys().contains(kk) && old(self).pair_keys().contains(kk)
                ==> final(self).pair_data(kk) == old(self).pair_data(kk),
            exists|mid: Seq<PairEntry<DV>>| #[trigger] registered_then_evicted(old(self).pair_entries(), mid, *final(self), old(self).cursor()),
            dispatched_once(old(self).dispatcher_spec().calls()@, final(self).dispatcher_spec().calls()@,
                final(self).pair_keys().difference(old(self).pair_keys())),
            final(self).pair_keys().subset_of(old(self).pair_keys()) ==> final(self).dispatcher_spec() == old(self).dispatcher_spec(),
            forall|x: u64, y: u64| #[trigger] final(self).dispatcher_spec().accepts(x, y) == old(self).dispatcher_spec().accepts(x, y),
            final(self).margin_spec() == old(self).margin_spec(),
    {
        let loose = bv.loosened(self.margin);
        let ghost before = *self;
        self.active2bv.insert(uid, loose);
        let mut pending: Vec<u64> = Vec::new();
        pending.push(uid);
        let ghost pend = suffix_set(pending@, 0);
        proof {
            lemma_suffix_push(Seq::<u64>::empty(), uid);
            assert(Seq::<u64>::empty().push(uid) =~= pending@);
            assert(suffix_set(Seq::<u64>::empty(), 0) =~= Set::<u64>::empty());
            assert(pend =~= set![uid]);
            assert(self.active2bv@.dom() =~= self.tree@.dom().union(pend));
            assert(self.internal_wf(pend));
            assert(self.active() == before.active());
            assert(self.inactive() == before.inactive());
            assert(self.pair_keys() == before.pair_keys());
            assert(self.spair_keys() == before.spair_keys());
            assert(self.dispatcher_spec() == before.dispatcher_spec());
            assert(self.keys_live(pend));
            assert(self.indexed_active() =~= old(self).active().insert(uid, bv.loosened_spec(old(self).margin_spec())));
            assert(self.pairs == old(self).pairs);
        }
        assert(self.pair_entries() == old(self).pair_entries() && self.cursor() == old(self).cursor()
            && self.dispatcher_spec() == old(self).dispatcher_spec() && self.pair_keys() == old(self).pair_keys());
        self.process_updates(pending);
        proof {
            assert forall|k: Pair| #[trigger] self.pair_keys().contains(k) && !old(self).pair_keys().contains(k)
                implies self.fresh_pair(k, set![uid]) by {
                assert(self.fresh_pair(k, pend));
            }
        }
    }

    /// Marks `uid` for reinsertion when its stored box no longer contains
    /// `bv`: the stored box becomes `bv` loosened by the margin, and the leaf
    /// leaves the active tree until it is reinserted.
    fn mark_outdated(&mut self, uid: u64, bv: &Aabb, pending: &mut Vec<u64>)
        requires
            old(self).wf_pending(suffix_set(old(pending)@, 0)),
            old(pending)@.no_duplicates(),
            !suffix_set(old(pending)@, 0).contains(uid),
            bv.wf(),
            bv.bounded(COORD_LIMIT as int),
        ensures
            final(self).wf_pending(suffix_set(final(pending)@, 0)),
            final(pending)@.no_duplicates(),
            suffix_set(final(pending)@, 0).subset_of(suffix_set(old(pending)@, 0).insert(uid)),
            final(self).indexed_active() == refresh_one(old(self).indexed_active(), uid, *bv, old(self).margin_spec()),
            final(self).inactive() == old(self).inactive(),
            final(self).spair_keys() == old(self).spair_keys(),
            final(self).pair_keys() == old(self).pair_keys(),
            final(self).pairs == old(self).pairs,
            final(self).update_off == old(self).update_off,
            !(old(self).active().contains_key(uid) && !old(self).active()[uid].contains_spec(*bv)) ==> final(pending)@ == old(pending)@,
            final(self).dispatcher_spec() == old(self).dispatcher_spec(),
            final(self).margin_spec() == old(self).margin_spec(),
    {
        let ghost pend = suffix_set(pending@, 0);
        match self.active2bv.get(&uid) {
            Some(c) => {
                let cached = *c;
                assert(self.tree@.contains_key(uid));
                if !cached.contains(bv) {
                    let loose = bv.loosened(self.margin);
                    let ghost before = *self;
                    self.tree.remove(uid, &cached);
                    self.active2bv.insert(uid, loose);
                    proof {
                        lemma_suffix_push(pending@, uid);
                        assert forall|j: int, k: int| 0 <= j < pending@.push(uid).len() && 0 <= k < pending@.push(uid).len() && j != k
                            implies pending@.push(uid)[j] != pending@.push(uid)[k] by {
                            if j == pending@.len() as int {
                                assert(pend.contains(pending@[k]));
                            }
                            if k == pending@.len() as int {
                                assert(pend.contains(pending@[j]));
                            }
                        }
                    }
                    pending.push(uid);
                    proof {
                        let pend2 = suffix_set(pending@, 0);
                        assert(pend2 == pend.insert(uid));
                        assert(self.active2bv@.dom() =~= self.tree@.dom().union(pend2));
                        assert(self.internal_wf(pend2));
                        assert(self.inactive() == before.inactive());
                        assert(self.pair_keys() == before.pair_keys());
                        assert(self.spair_keys() == before.spair_keys());
                        assert(self.dispatcher_spec() == before.dispatcher_spec());
                        assert forall|a: u64, b: u64|
                            #[trigger] self.dispatcher_spec().accepts(a, b) && self.active().contains_key(a) && self.live(b) && a != b
                                && self.bv_of(a).intersects_spec(self.bv_of(b)) implies self.pair_keys().contains(pair_of(a, b)) by {
                            assert(before.bv_of(a) == self.bv_of(a));
                            assert(before.bv_of(b) == self.bv_of(b));
                        }
                        assert(self.complete());
                        assert(self.sleeping_complete());
                        assert(self.sleeping_pairs_stale());
                        assert(self.keys_live(pend2));
                        assert(self.indexed_active() =~= refresh_one(old(self).indexed_active(), uid, *bv, old(self).margin_spec()));
                    }
                }
            },
            None => {},
        }
    }

    /// Checks the object `uid` against its new box `bv`; when the stored box
    /// no longer contains it, the object is reinserted with `bv` loosened by
    /// the margin and its new pairs are registered.
    pub fn update_object(&mut self, uid: u64, bv: Aabb)
        requires
            old(self).wf(),
            bv.wf(),
            bv.bounded(COORD_LIMIT as int),
        ensures
            final(self).wf(),
            final(self).active() == refresh_one(old(self).active(), uid, bv, old(self).margin_spec()),
            final(self).inactive() == old(self).inactive(),
            final(self).spair_keys() == old(self).spair_keys(),
            forall|k: Pair| #[trigger] final(self).pair_keys().contains(k) && !old(self).pair_keys().contains(k)
                ==> final(self).fresh_pair(k, set![uid]),
            !(old(self).active().contains_key(uid) && !old(self).active()[uid].contains_spec(bv)) ==> final(self).pair_keys()
                == old(self).pair_keys(),
            forall|kk: Pair| #[trigger] final(self).pair_keys().contains(kk) && old(self).pair_keys().contains(kk)
                ==> final(self).pair_data(kk) == old(self).pair_data(kk),
            forall|x: u64, y: u64| #[trigger] final(self).dispatcher_spec().accepts(x, y) == old(self).dispatcher_spec().accepts(x, y),
            final(self).margin_spec() == old(self).margin_spec(),
            exists|mid: Seq<PairEntry<DV>>| #[trigger] registered_then_evicted(old(self).pair_entries(), mid, *final(self), old(self).cursor()),
            dispatched_once(old(self).dispatcher_spec().calls()@, final(self).dispatcher_spec().calls()@,
                final(self).pair_keys().difference(old(self).pair_keys())),
            final(self).pair_keys().subset_of(old(self).pair_keys()) ==> final(self).dispatcher_spec() == old(self).dispatcher_spec(),
            !old(self).active().contains_key(uid) ==> final(self).dispatcher_spec() == old(self).dispatcher_spec()
                && final(self).pair_keys() == old(self).pair_keys(),
    {
        let mut pending: Vec<u64> = Vec::new();
        proof {
            assert(suffix_set(pending@, 0) =~= Set::<u64>::empty());
            assert(self.indexed_active() =~= self.active());
        }
        self.mark_outdated(uid, &bv, &mut pending);
        let ghost pend = suffix_set(pending@, 0);
        assert(self.pair_entries() == old(self).pair_entries() && self.cursor() == old(self).cursor()
            && self.dispatcher_spec() == old(self).dispatcher_spec() && self.pair_keys() == old(self).pair_keys());
        self.process_updates(pending);
        proof {
            assert forall|k: Pair| #[trigger] self.pair_keys().contains(k) && !old(self).pair_keys().contains(k)
                implies self.fresh_pair(k, set![uid]) by {
                assert(self.fresh_pair(k, pend));
                assert(pend.subset_of(Set::<u64>::empty().insert(uid)));
            }
        }
    }

    /// The per-frame step: every object of `fresh` reports its current box;
    /// those that escaped their stored box are reinserted and their new pairs
    /// registered. Afterwards every reported object's stored box contains its
    /// reported box, and every accepted pair of live objects, one of them
    /// active, whose stored boxes meet is registered. For the registered pairs
    /// to cover every pair whose current boxes meet, every active object must
    /// be reported.
    pub fn update(&mut self, fresh: &Vec<(u64, Aabb)>)
        requires
            old(self).wf(),
            forall|j: int| 0 <= j < fresh@.len() ==> (#[trigger] fresh@[j]).1.wf() && fresh@[j].1.bounded(COORD_LIMIT as int),
            forall|j: int, k: int| 0 <= j < k < fresh@.len() ==> (#[trigger] fresh@[j]).0 != (#[trigger] fresh@[k]).0,
        ensures
            final(self).wf(),
            final(self).complete(),
            final(self).active() == refresh(old(self).active(), fresh@, old(self).margin_spec()),
            final(self).inactive() == old(self).inactive(),
            final(self).spair_keys() == old(self).spair_keys(),
            forall|k: Pair| #[trigger] final(self).pair_keys().contains(k) && !old(self).pair_keys().contains(k)
                ==> final(self).fresh_pair(k, fresh_ids(fresh@)),
            exists|mid: Seq<PairEntry<DV>>| #[trigger] registered_then_evicted(old(self).pair_entries(), mid, *final(self), old(self).cursor()),
            dispatched_once(old(self).dispatcher_spec().calls()@, final(self).dispatcher_spec().calls()@,
                final(self).pair_keys().difference(old(self).pair_keys())),
            final(self).pair_keys().subset_of(old(self).pair_keys()) ==> final(self).dispatcher_spec() == old(self).dispatcher_spec(),
            final(self).pair_keys().subset_of(old(self).pair_keys()) ==> final(self).pair_keys() == old(self).pair_keys(),
            forall|j: int| 0 <= j < fresh@.len() && #[trigger] old(self).active().contains_key(fresh@[j].0)
                ==> final(self).active().contains_key(fresh@[j].0) && final(self).active()[fresh@[j].0].contains_spec(fresh@[j].1),
            forall|kk: Pair| #[trigger] final(self).pair_keys().contains(kk) && old(self).pair_keys().contains(kk)
                ==> final(self).pair_data(kk) == old(self).pair_data(kk),
            forall|x: u64, y: u64| #[trigger] final(self).dispatcher_spec().accepts(x, y) == old(self).dispatcher_spec().accepts(x, y),
            final(self).margin_spec() == old(self).margin_spec(),
    {
        let mut pending: Vec<u64> = Vec::new();
        proof {
            assert(suffix_set(pending@, 0) =~= Set::<u64>::empty());
            assert(self.indexed_active() =~= self.active());
            assert(fresh@.subrange(0, 0) =~= Seq::<(u64, Aabb)>::empty());
        }
        let mut k: usize = 0;
        while k < fresh.len()
            invariant
                k <= fresh@.len(),
                forall|j: int| 0 <= j < fresh@.len() ==> (#[trigger] fresh@[j]).1.wf() && fresh@[j].1.bounded(COORD_LIMIT as int),
                forall|j: int, l: int| 0 <= j < l < fresh@.len() ==> (#[trigger] fresh@[j]).0 != (#[trigger] fresh@[l]).0,
                self.wf_pending(suffix_set(pending@, 0)),
                pending@.no_duplicates(),
                forall|u: u64| #[trigger] suffix_set(pending@, 0).contains(u) ==> exists|j: int| 0 <= j < k && fresh@[j].0 == u,
                self.indexed_active() == refresh(old(self).active(), fresh@.subrange(0, k as int), old(self).margin_spec()),
                self.inactive() == old(self).inactive(),
                self.spair_keys() == old(self).spair_keys(),
                self.pair_keys() == old(self).pair_keys(),
                self.pairs == old(self).pairs,
                self.update_off == old(self).update_off,
                self.dispatcher_spec() == old(self).dispatcher_spec(),
                self.margin_spec() == old(self).margin_spec(),
            decreases fresh@.len() - k,
        {
            let (uid, bv) = fresh[k];
            proof {
                if suffix_set(pending@, 0).contains(uid) {
                    let j = choose|j: int| 0 <= j < k && fresh@[j].0 == uid;
                    assert(fresh@[j].0 != fresh@[k as int].0);
                }
                assert(fresh@[k as int].1.wf());
            }
            let ghost old_pending = pending@;
            self.mark_outdated(uid, &bv, &mut pending);
            proof {
                assert(fresh@.subrange(0, k + 1).drop_last() =~= fresh@.subrange(0, k as int));
                assert forall|u: u64| #[trigger] suffix_set(pending@, 0).contains(u) implies exists|j: int| 0 <= j < k + 1 && fresh@[j].0 == u by {
                    if u != uid {
                        assert(suffix_set(old_pending, 0).contains(u));
                        let j = choose|j: int| 0 <= j < k && fresh@[j].0 == u;
                        assert(0 <= j < k + 1 && fresh@[j].0 == u);
                    } else {
                        assert(fresh@[k as int].0 == u);
                    }
                }
            }
            k = k + 1;
        }
        proof {
            assert(fresh@.subrange(0, fresh@.len() as int) =~= fresh@);
        }
        let ghost pend = suffix_set(pending@, 0);
        assert(self.pair_entries() == old(self).pair_entries() && self.cursor() == old(self).cursor()
            && self.dispatcher_spec() == old(self).dispatcher_spec() && self.pair_keys() == old(self).pair_keys());
        self.process_updates(pending);
        proof {
            assert forall|j: int| 0 <= j < fresh@.len() && #[trigger] old(self).active().contains_key(fresh@[j].0)
                implies self.active().contains_key(fresh@[j].0) && self.active()[fresh@[j].0].contains_spec(fresh@[j].1) by {
                lemma_refresh_contains(old(self).active(), fresh@, old(self).margin_spec(), j);
            }
            assert forall|k: Pair| #[trigger] self.pair_keys().contains(k) && !old(self).pair_keys().contains(k)
                implies self.fresh_pair(k, fresh_ids(fresh@)) by {
                assert(self.fresh_pair(k, pend));
                if pend.contains(k.first) {
                    let j = choose|j: int| 0 <= j < fresh@.len() && fresh@[j].0 == k.first;
                    assert(fresh_ids(fresh@).contains(k.first));
                }
                if pend.contains(k.second) {
                    let j = choose|j: int| 0 <= j < fresh@.len() && fresh@[j].0 == k.second;
                    assert(fresh_ids(fresh@).contains(k.second));
                }
            }
        }
    }

    /// The pairs that `u`, with box `bv`, forms with the other sleeping
    /// objects whose boxes meet `bv` and that the filter accepts.
    pub open spec fn sleeping_partners(&self, u: u64, bv: Aabb) -> Set<Pair> {
        Set::new(|k: Pair| exists|y: u64| #[trigger] pair_of(u, y) == k && is_hit(self.inactive(), bv, Some(u), y)
            && self.dispatcher_spec().accepts(u, y))
    }

    /// Puts the active object `uid` to sleep: it moves to the sleeping tree,
    /// and the pairs it forms with overlapping sleeping objects move from the
    /// active registry to the sleeping one. A sleeping or unknown object is
    /// left as it is.
    pub fn deactivate(&mut self, uid: u64)
        requires
            old(self).wf(),
        ensures
            final(self).wf(),
            old(self).active().contains_key(uid) ==> {
                let bv = old(self).active()[uid];
                let moved = old(self).sleeping_partners(uid, bv);
                &&& final(self).active() == old(self).active().remove(uid)
                &&& final(self).inactive() == old(self).inactive().insert(uid, bv)
                &&& final(self).pair_keys() == old(self).pair_keys().difference(moved)
                &&& final(self).spair_keys() == old(self).spair_keys().union(moved)
            },
            !old(self).active().contains_key(uid) ==> {
                &&& final(self).active() == old(self).active()
                &&& final(self).inactive() == old(self).inactive()
                &&& final(self).pair_keys() == old(self).pair_keys()
                &&& final(self).spair_keys() == old(self).spair_keys()
            },
            old(self).active().contains_key(uid) ==> forall|kk: Pair| #[trigger] old(self).sleeping_partners(uid, old(self).active()[uid]).contains(kk)
                ==> final(self).spair_data(kk) == old(self).pair_data(kk),
            forall|kk: Pair| #[trigger] final(self).pair_keys().contains(kk) ==> final(self).pair_data(kk) == old(self).pair_data(kk),
            forall|kk: Pair| #[trigger] old(self).spair_keys().contains(kk) ==> final(self).spair_data(kk) == old(self).spair_data(kk),
            final(self).dispatcher_spec() == old(self).dispatcher_spec(),
            final(self).margin_spec() == old(self).margin_spec(),
    {
        let bv = match self.active2bv.remove(&uid) {
            None => {
                proof {
                    assert(self.active2bv@ =~= old(self).active2bv@);
                    assert(self.internal_wf(Set::empty()));
                    Self::lemma_same_views(*old(self), *self);
                }
                return;
            },
            Some(b) => b,
        };
        let ghost moved = old(self).sleeping_partners(uid, bv);
        assert(bv == old(self).active()[uid]);
        self.inactive2bv.insert(uid, bv);
        self.tree.remove(uid, &bv);
        let mut collector: Vec<u64> = Vec::new();
        self.stree.interferences_with_leaf(uid, &bv, &mut collector);
        proof {
            assert(appended(Seq::<u64>::empty(), collector@) =~= collector@);
        }
        let mut j: usize = 0;
        while j < collector.len()
            invariant
                j <= collector@.len(),
                collector@.no_duplicates(),
                forall|u: u64| #[trigger] collector@.contains(u) <==> is_hit(old(self).inactive(), bv, Some(uid), u),
                self.tree@ == old(self).tree@.remove(uid),
                self.stree@ == old(self).stree@,
                self.tree.wf(),
                self.stree.wf(),
                self.pairs.wf(),
                self.spairs.wf(),
                self.active2bv@ == old(self).active2bv@.remove(uid),
                self.inactive2bv@ == old(self).inactive2bv@.insert(uid, bv),
                self.dispatcher == old(self).dispatcher,
                self.margin == old(self).margin,
                old(self).wf(),
                old(self).active().contains_key(uid),
                bv == old(self).active()[uid],
                moved == old(self).sleeping_partners(uid, bv),
                self.pairs.keys() == old(self).pair_keys().difference(
                    Set::new(|k: Pair| exists|jj: int| 0 <= jj < j && #[trigger] pair_of(uid, collector@[jj]) == k
                        && old(self).dispatcher_spec().accepts(uid, collector@[jj]))),
                self.spairs.keys() == old(self).spair_keys().union(
                    Set::new(|k: Pair| exists|jj: int| 0 <= jj < j && #[trigger] pair_of(uid, collector@[jj]) == k
                        && old(self).dispatcher_spec().accepts(uid, collector@[jj]))),
                forall|kk: Pair| #[trigger] self.pairs.keys().contains(kk) ==> self.pairs.value_of(kk) == old(self).pairs.value_of(kk),
                forall|kk: Pair| #[trigger] old(self).spair_keys().contains(kk) ==> self.spairs.value_of(kk) == old(self).spairs.value_of(kk),
                forall|kk: Pair| #[trigger] self.spairs.keys().contains(kk) && !old(self).spair_keys().contains(kk)
                    ==> self.spairs.value_of(kk) == old(self).pairs.value_of(kk),
            decreases collector@.len() - j,
        {
            let c = collector[j];
            let ghost done = Set::new(|k: Pair| exists|jj: int| 0 <= jj < j && #[trigger] pair_of(uid, collector@[jj]) == k
                && old(self).dispatcher_spec().accepts(uid, collector@[jj]));
            let ghost done2 = Set::new(|k: Pair| exists|jj: int| 0 <= jj < j + 1 && #[trigger] pair_of(uid, collector@[jj]) == k
                && old(self).dispatcher_spec().accepts(uid, collector@[jj]));
            proof {
                assert(collector@.contains(c));
            }
            if self.dispatcher.is_valid(uid, c) {
                let k = Pair::new(uid, c);
                proof {
                    assert(done2 =~= done.insert(k)) by {
                        assert(pair_of(uid, collector@[j as int]) == k);
                    }
                    assert(!done.contains(k)) by {
                        if done.contains(k) {
                            let jj = choose|jj: int| 0 <= jj < j && #[trigger] pair_of(uid, collector@[jj]) == k
                                && old(self).dispatcher_spec().accepts(uid, collector@[jj]);
                            assert(collector@[jj] != collector@[j as int]);
                        }
                    }
                    assert(old(self).tree@.contains_key(uid));
                    assert(old(self).stree@.contains_key(c));
                    assert(old(self).pair_keys().contains(k)) by {
                        assert(old(self).bv_of(uid) == bv);
                        assert(old(self).bv_of(c) == old(self).inactive()[c]);
                    }
                    assert(!old(self).spair_keys().contains(k));
                }
                let ghost spairs0 = self.spairs;
                let ghost pairs0 = self.pairs;
                match self.pairs.get_and_remove(&k) {
                    Some(e) => {
                        self.spairs.insert(e.key, e.value);
                    },
                    None => {},
                }
                proof {
                    assert(pairs0.keys().contains(k));
                    assert forall|kk: Pair| #[trigger] self.spairs.keys().contains(kk) && !old(self).spair_keys().contains(kk)
                        implies self.spairs.value_of(kk) == old(self).pairs.value_of(kk) by {
                        if kk != k {
                            assert(spairs0.keys().contains(kk));
                        }
                    }
                    assert forall|kk: Pair| #[trigger] old(self).spair_keys().contains(kk) implies self.spairs.value_of(kk) == old(self).spairs.value_of(kk) by {
                        assert(spairs0.keys().contains(kk));
                    }
                    assert forall|kk: Pair| #[trigger] self.pairs.keys().contains(kk) implies self.pairs.value_of(kk) == old(self).pairs.value_of(kk) by {
                        assert(pairs0.keys().contains(kk));
                    }
                    assert(self.pairs.keys() =~= old(self).pair_keys().difference(done2));
                    assert(self.spairs.keys() =~= old(self).spair_keys().union(done2));
                }
            } else {
                proof {
                    assert(done2 =~= done) by {
                        if done2.contains(pair_of(uid, c)) {
                            let jj = choose|jj: int| 0 <= jj < j + 1 && #[trigger] pair_of(uid, collector@[jj]) == pair_of(uid, c)
                                && old(self).dispatcher_spec().accepts(uid, collector@[jj]);
                        }
                    }
                }
            }
            j = j + 1;
        }
        let ghost before = *self;
        proof {
            old(self).tree.lemma_leaf_wf(uid);
        }
        self.stree.insert(uid, bv);
        proof {
            let done = Set::new(|k: Pair| exists|jj: int| 0 <= jj < collector@.len() && #[trigger] pair_of(uid, collector@[jj]) == k
                && old(self).dispatcher_spec().accepts(uid, collector@[jj]));
            assert(done =~= moved) by {
                assert forall|k: Pair| #[trigger] moved.contains(k) implies done.contains(k) by {
                    let y = choose|y: u64| #[trigger] pair_of(uid, y) == k && is_hit(old(self).inactive(), bv, Some(uid), y)
                        && old(self).dispatcher_spec().accepts(uid, y);
                    assert(collector@.contains(y));
                    let jj = choose|jj: int| 0 <= jj < collector@.len() && collector@[jj] == y;
                    assert(pair_of(uid, collector@[jj]) == k);
                }
                assert forall|k: Pair| #[trigger] done.contains(k) implies moved.contains(k) by {
                    let jj = choose|jj: int| 0 <= jj < collector@.len() && #[trigger] pair_of(uid, collector@[jj]) == k
                        && old(self).dispatcher_spec().accepts(uid, collector@[jj]);
                    let y = collector@[jj];
                    assert(collector@.contains(y));
                    assert(pair_of(uid, y) == k && is_hit(old(self).inactive(), bv, Some(uid), y)
                        && old(self).dispatcher_spec().accepts(uid, y));
                }
            }
            assert forall|kk: Pair| #[trigger] moved.contains(kk) implies self.spair_data(kk) == old(self).pair_data(kk) by {
                assert(!old(self).spair_keys().contains(kk)) by {
                    let y = choose|y: u64| #[trigger] pair_of(uid, y) == kk && is_hit(old(self).inactive(), bv, Some(uid), y)
                        && old(self).dispatcher_spec().accepts(uid, y);
                }
                assert(self.spairs.keys().contains(kk));
            }
            assert(self.active() =~= old(self).active().remove(uid));
            assert(self.inactive() =~= old(self).inactive().insert(uid, bv));
            assert(self.active2bv@.dom() =~= self.tree@.dom().union(Set::empty()));
            assert(self.inactive2bv@ =~= self.stree@);
            assert(self.internal_wf(Set::empty()));
            assert(self.dispatcher_spec() == old(self).dispatcher_spec());
            assert forall|a: u64, b: u64|
                #[trigger] self.dispatcher_spec().accepts(a, b) && self.active().contains_key(a) && self.live(b) && a != b
                    && self.bv_of(a).intersects_spec(self.bv_of(b)) implies self.pair_keys().contains(pair_of(a, b)) by {
                assert(old(self).bv_of(a) == self.bv_of(a));
                assert(old(self).bv_of(b) == self.bv_of(b));
                assert(old(self).pair_keys().contains(pair_of(a, b)));
                if moved.contains(pair_of(a, b)) {
                    let y = choose|y: u64| #[trigger] pair_of(uid, y) == pair_of(a, b) && is_hit(old(self).inactive(), bv, Some(uid), y)
                        && old(self).dispatcher_spec().accepts(uid, y);
                    assert(old(self).tree@.contains_key(a));
                }
            }
            assert forall|a: u64, b: u64|
                #[trigger] self.dispatcher_spec().accepts(a, b) && self.inactive().contains_key(a) && self.inactive().contains_key(b)
                    && a != b && self.inactive()[a].intersects_spec(self.inactive()[b])
                    implies self.spair_keys().contains(pair_of(a, b)) by {
                if a == uid {
                    assert(is_hit(old(self).inactive(), bv, Some(uid), b));
                    assert(moved.contains(pair_of(a, b)));
                } else if b == uid {
                    self.dispatcher.accepts_symmetric(a, b);
                    crate::pair_manager::lemma_pair_symmetric(a, b);
                    assert(is_hit(old(self).inactive(), bv, Some(uid), a));
                    assert(moved.contains(pair_of(b, a)));
                } else {
                    assert(old(self).spair_keys().contains(pair_of(a, b)));
                }
            }
            assert forall|k: Pair|
                #[trigger] self.pair_keys().contains(k) && self.inactive().contains_key(k.first)
                    && self.inactive().contains_key(k.second) implies !(self.dispatcher_spec().accepts(k.first, k.second)
                    && self.inactive()[k.first].intersects_spec(self.inactive()[k.second])) by {
                assert(old(self).pair_keys().contains(k));
                assert(!moved.contains(k));
                if k.first == uid {
                    if self.dispatcher_spec().accepts(k.first, k.second) && self.inactive()[k.first].intersects_spec(self.inactive()[k.second]) {
                        assert(pair_of(uid, k.second) == k);
                        assert(is_hit(old(self).inactive(), bv, Some(uid), k.second));
                    }
                } else if k.second == uid {
                    if self.dispatcher_spec().accepts(k.first, k.second) && self.inactive()[k.first].intersects_spec(self.inactive()[k.second]) {
                        self.dispatcher.accepts_symmetric(k.first, k.second);
                        assert(pair_of(uid, k.first) == k);
                        assert(is_hit(old(self).inactive(), bv, Some(uid), k.first));
                    }
                }
            }
            assert forall|k: Pair| #[trigger] self.pair_keys().contains(k) implies k.first < k.second && self.live(k.first) && self.live(k.second) by {
                assert(old(self).pair_keys().contains(k));
            }
            assert forall|k: Pair| #[trigger] self.spair_keys().contains(k) implies self.dispatcher_spec().accepts(k.first, k.second)
                && self.inactive()[k.first].intersects_spec(self.inactive()[k.second]) by {
                if moved.contains(k) {
                    let y = choose|y: u64| #[trigger] pair_of(uid, y) == k && is_hit(old(self).inactive(), bv, Some(uid), y)
                        && old(self).dispatcher_spec().accepts(uid, y);
                    self.dispatcher.accepts_symmetric(uid, y);
                } else {
                    assert(old(self).spair_keys().contains(k));
                }
            }
            assert forall|k: Pair| #[trigger] self.spair_keys().contains(k) implies k.first < k.second
                && self.inactive().contains_key(k.first) && self.inactive().contains_key(k.second) by {
                if moved.contains(k) {
                    let y = choose|y: u64| #[trigger] pair_of(uid, y) == k && is_hit(old(self).inactive(), bv, Some(uid), y)
                        && old(self).dispatcher_spec().accepts(uid, y);
                } else {
                    assert(old(self).spair_keys().contains(k));
                }
            }
            assert(self.keys_live(Set::empty()));
        }
    }

    /// Wakes the sleeping object `uid`: it moves back to the active tree, and
    /// the pairs it forms with overlapping sleeping objects move from the
    /// sleeping registry to the active one, each handed to `visitor` on the
    /// way. An active or unknown object is left as it is.
    pub fn activate<V: PairVisitor<DV>>(&mut self, uid: u64, visitor: &mut V)
        requires
            old(self).wf(),
        ensures
            final(self).wf(),
            old(self).inactive().contains_key(uid) ==> {
                let bv = old(self).inactive()[uid];
                let moved = old(self).sleeping_partners(uid, bv);
                &&& final(self).active() == old(self).active().insert(uid, bv)
                &&& final(self).inactive() == old(self).inactive().remove(uid)
                &&& final(self).pair_keys() == old(self).pair_keys().union(moved)
                &&& final(self).spair_keys() == old(self).spair_keys().difference(moved)
            },
            !old(self).inactive().contains_key(uid) ==> {
                &&& final(self).active() == old(self).active()
                &&& final(self).inactive() == old(self).inactive()
                &&& final(self).pair_keys() == old(self).pair_keys()
                &&& final(self).spair_keys() == old(self).spair_keys()
            },
            old(self).inactive().contains_key(uid) ==> seen_once(
                old(visitor).seen()@,
                final(visitor).seen()@,
                old(self).sleeping_partners(uid, old(self).inactive()[uid]),
            ),
            !old(self).inactive().contains_key(uid) ==> final(visitor).seen()@ == old(visitor).seen()@,
            forall|kk: Pair| #[trigger] old(self).pair_keys().contains(kk) ==> final(self).pair_data(kk) == old(self).pair_data(kk),
            forall|kk: Pair| #[trigger] final(self).spair_keys().contains(kk) ==> final(self).spair_data(kk) == old(self).spair_data(kk),
            final(self).dispatcher_spec() == old(self).dispatcher_spec(),
            final(self).margin_spec() == old(self).margin_spec(),
    {
        let bv = match self.inactive2bv.remove(&uid) {
            None => {
                proof {
                    assert(self.inactive2bv@ =~= old(self).inactive2bv@);
                    assert(self.internal_wf(Set::empty()));
                    Self::lemma_same_views(*old(self), *self);
                }
                return;
            },
            Some(b) => b,
        };
        let ghost moved = old(self).sleeping_partners(uid, bv);
        assert(bv == old(self).inactive()[uid]);
        self.active2bv.insert(uid, bv);
        self.stree.remove(uid, &bv);
        let mut collector: Vec<u64> = Vec::new();
        self.stree.interferences_with_leaf(uid, &bv, &mut collector);
        proof {
            assert(appended(Seq::<u64>::empty(), collector@) =~= collector@);
            assert forall|u: u64| #[trigger] collector@.contains(u) <==> is_hit(old(self).inactive(), bv, Some(uid), u) by {
                assert(is_hit(old(self).inactive(), bv, Some(uid), u) == is_hit(self.stree@, bv, Some(uid), u));
            }
        }
        let ghost mut log: Seq<(u64, u64)> = Seq::empty();
        let mut j: usize = 0;
        while j < collector.len()
            invariant
                j <= collector@.len(),
                visitor.seen()@ == old(visitor).seen()@ + log,
                log.no_duplicates(),
                forall|p: (u64, u64)| #[trigger] log.contains(p) <==> Set::new(|k: Pair| exists|jj: int| 0 <= jj < j && #[trigger] pair_of(uid, collector@[jj]) == k
                        && old(self).dispatcher_spec().accepts(uid, collector@[jj])).contains(Pair { first: p.0, second: p.1 }),
                forall|kk: Pair| #[trigger] old(self).pair_keys().contains(kk) ==> self.pairs.value_of(kk) == old(self).pairs.value_of(kk),
                forall|kk: Pair| #[trigger] self.spairs.keys().contains(kk) ==> self.spairs.value_of(kk) == old(self).spairs.value_of(kk),
                collector@.no_duplicates(),
                forall|u: u64| #[trigger] collector@.contains(u) <==> is_hit(old(self).inactive(), bv, Some(uid), u),
                self.tree@ == old(self).tree@,
                self.stree@ == old(self).stree@.remove(uid),
                self.tree.wf(),
                self.stree.wf(),
                self.pairs.wf(),
                self.spairs.wf(),
                self.active2bv@ == old(self).active2bv@.insert(uid, bv),
                self.inactive2bv@ == old(self).inactive2bv@.remove(uid),
                self.dispatcher == old(self).dispatcher,
                self.margin == old(self).margin,
                old(self).wf(),
                old(self).inactive().contains_key(uid),
                bv == old(self).inactive()[uid],
                moved == old(self).sleeping_partners(uid, bv),
                self.pairs.keys() == old(self).pair_keys().union(
                    Set::new(|k: Pair| exists|jj: int| 0 <= jj < j && #[trigger] pair_of(uid, collector@[jj]) == k
                        && old(self).dispatcher_spec().accepts(uid, collector@[jj]))),
                self.spairs.keys() == old(self).spair_keys().difference(
                    Set::new(|k: Pair| exists|jj: int| 0 <= jj < j && #[trigger] pair_of(uid, collector@[jj]) == k
                        && old(self).dispatcher_spec().accepts(uid, collector@[jj]))),
            decreases collector@.len() - j,
        {
            let c = collector[j];
            let ghost done = Set::new(|k: Pair| exists|jj: int| 0 <= jj < j && #[trigger] pair_of(uid, collector@[jj]) == k
                && old(self).dispatcher_spec().accepts(uid, collector@[jj]));
            let ghost done2 = Set::new(|k: Pair| exists|jj: int| 0 <= jj < j + 1 && #[trigger] pair_of(uid, collector@[jj]) == k
                && old(self).dispatcher_spec().accepts(uid, collector@[jj]));
            proof {
                assert(collector@.contains(c));
            }
            if self.dispatcher.is_valid(uid, c) {
                let k = Pair::new(uid, c);
                proof {
                    assert(done2 =~= done.insert(k)) by {
                        assert(pair_of(uid, collector@[j as int]) == k);
                    }
                    assert(!done.contains(k)) by {
                        if done.contains(k) {
                            let jj = choose|jj: int| 0 <= jj < j && #[trigger] pair_of(uid, collector@[jj]) == k
                                && old(self).dispatcher_spec().accepts(uid, collector@[jj]);
                            assert(collector@[jj] != collector@[j as int]);
                        }
                    }
                    assert(old(self).stree@.contains_key(c));
                    assert(old(self).spair_keys().contains(k));
                    assert(!old(self).pair_keys().contains(k)) by {
                        if old(self).pair_keys().contains(k) {
                            old(self).dispatcher.accepts_symmetric(uid, c);
                        }
                    }
                }
                let ghost log0 = log;
                let ghost pairs0 = self.pairs;
                match self.spairs.get_and_remove(&k) {
                    Some(e) => {
                        let mut e = e;
                        visitor.visit(e.key.first, e.key.second, &mut e.value);
                        proof {
                            log = log.push((k.first, k.second));
                        }
                        self.pairs.insert(e.key, e.value);
                    },
                    None => {},
                }
                proof {
                    assert(visitor.seen()@ =~= old(visitor).seen()@ + log);
                    assert forall|kk: Pair| #[trigger] old(self).pair_keys().contains(kk) implies self.pairs.value_of(kk) == old(self).pairs.value_of(kk) by {
                        assert(pairs0.keys().contains(kk));
                        assert(pairs0.value_of(kk) == old(self).pairs.value_of(kk));
                    }
                    assert(!log0.contains((k.first, k.second)));
                    assert forall|p: (u64, u64)| #[trigger] log.contains(p) <==> done2.contains(Pair { first: p.0, second: p.1 }) by {
                        if log.contains(p) && !log0.contains(p) {
                            let i = choose|i: int| 0 <= i < log.len() && log[i] == p;
                            assert(i == log0.len());
                        }
                        if log0.contains(p) {
                            let i = choose|i: int| 0 <= i < log0.len() && log0[i] == p;
                            assert(log[i] == p);
                        }
                        if p == (k.first, k.second) {
                            assert(log[log.len() - 1] == p);
                        }
                    }
                    assert(log.no_duplicates()) by {
                        assert forall|x: int, y: int| 0 <= x < log.len() && 0 <= y < log.len() && x != y implies log[x] != log[y] by {
                            if x == log0.len() {
                                assert(log0.contains(log[y]));
                            } else if y == log0.len() {
                                assert(log0.contains(log[x]));
                            }
                        }
                    }
                    assert(self.pairs.keys() =~= old(self).pair_keys().union(done2));
                    assert(self.spairs.keys() =~= old(self).spair_keys().difference(done2));
                }
            } else {
                proof {
                    assert(done2 =~= done) by {
                        if done2.contains(pair_of(uid, c)) {
                            let jj = choose|jj: int| 0 <= jj < j + 1 && #[trigger] pair_of(uid, collector@[jj]) == pair_of(uid, c)
                                && old(self).dispatcher_spec().accepts(uid, collector@[jj]);
                        }
                    }
                }
            }
            j = j + 1;
        }
        proof {
            old(self).stree.lemma_leaf_wf(uid);
        }
        self.tree.insert(uid, bv);
        proof {
            let done = Set::new(|k: Pair| exists|jj: int| 0 <= jj < collector@.len() && #[trigger] pair_of(uid, collector@[jj]) == k
                && old(self).dispatcher_spec().accepts(uid, collector@[jj]));
            assert(done =~= moved) by {
                assert forall|k: Pair| #[trigger] moved.contains(k) implies done.contains(k) by {
                    let y = choose|y: u64| #[trigger] pair_of(uid, y) == k && is_hit(old(self).inactive(), bv, Some(uid), y)
                        && old(self).dispatcher_spec().accepts(uid, y);
                    assert(collector@.contains(y));
                    let jj = choose|jj: int| 0 <= jj < collector@.len() && collector@[jj] == y;
                    assert(pair_of(uid, collector@[jj]) == k);
                }
                assert forall|k: Pair| #[trigger] done.contains(k) implies moved.contains(k) by {
                    let jj = choose|jj: int| 0 <= jj < collector@.len() && #[trigger] pair_of(uid, collector@[jj]) == k
                        && old(self).dispatcher_spec().accepts(uid, collector@[jj]);
                    let y = collector@[jj];
                    assert(collector@.contains(y));
                    assert(pair_of(uid, y) == k && is_hit(old(self).inactive(), bv, Some(uid), y)
                        && old(self).dispatcher_spec().accepts(uid, y));
                }
            }
            let news = visitor.seen()@.subrange(old(visitor).seen()@.len() as int, visitor.seen()@.len() as int);
            assert(news =~= log);
            assert forall|p: (u64, u64)| #[trigger] news.contains(p) <==> moved.contains(Pair { first: p.0, second: p.1 }) by {
                assert(log.contains(p) <==> done.contains(Pair { first: p.0, second: p.1 }));
            }
            assert(visitor.seen()@.subrange(0, old(visitor).seen()@.len() as int) =~= old(visitor).seen()@);
            assert(self.active() =~= old(self).active().insert(uid, bv));
            assert(self.inactive() =~= old(self).inactive().remove(uid));
            assert(self.active2bv@.dom() =~= self.tree@.dom().union(Set::empty()));
            assert(self.inactive2bv@ =~= self.stree@);
            assert(self.internal_wf(Set::empty()));
            assert(self.dispatcher_spec() == old(self).dispatcher_spec());
            assert forall|a: u64, b: u64|
                #[trigger] self.dispatcher_spec().accepts(a, b) && self.active().contains_key(a) && self.live(b) && a != b
                    && self.bv_of(a).intersects_spec(self.bv_of(b)) implies self.pair_keys().contains(pair_of(a, b)) by {
                assert(old(self).bv_of(a) == self.bv_of(a));
                assert(old(self).bv_of(b) == self.bv_of(b));
                if a == uid {
                    if old(self).tree@.contains_key(b) {
                        self.dispatcher.accepts_symmetric(a, b);
                        crate::pair_manager::lemma_pair_symmetric(a, b);
                        assert(old(self).pair_keys().contains(pair_of(b, a)));
                    } else {
                        assert(is_hit(old(self).inactive(), bv, Some(uid), b));
                        assert(moved.contains(pair_of(a, b)));
                    }
                } else {
                    assert(old(self).pair_keys().contains(pair_of(a, b)));
                }
            }
            assert forall|a: u64, b: u64|
                #[trigger] self.dispatcher_spec().accepts(a, b) && self.inactive().contains_key(a) && self.inactive().contains_key(b)
                    && a != b && self.inactive()[a].intersects_spec(self.inactive()[b])
                    implies self.spair_keys().contains(pair_of(a, b)) by {
                assert(old(self).spair_keys().contains(pair_of(a, b)));
                if moved.contains(pair_of(a, b)) {
                    let y = choose|y: u64| #[trigger] pair_of(uid, y) == pair_of(a, b) && is_hit(old(self).inactive(), bv, Some(uid), y)
                        && old(self).dispatcher_spec().accepts(uid, y);
                }
            }
            assert forall|k: Pair|
                #[trigger] self.pair_keys().contains(k) && self.inactive().contains_key(k.first)
                    && self.inactive().contains_key(k.second) implies !(self.dispatcher_spec().accepts(k.first, k.second)
                    && self.inactive()[k.first].intersects_spec(self.inactive()[k.second])) by {
                if moved.contains(k) {
                    let y = choose|y: u64| #[trigger] pair_of(uid, y) == k && is_hit(old(self).inactive(), bv, Some(uid), y)
                        && old(self).dispatcher_spec().accepts(uid, y);
                } else {
                    assert(old(self).pair_keys().contains(k));
                }
            }
            assert forall|k: Pair| #[trigger] self.pair_keys().contains(k) implies k.first < k.second && self.live(k.first) && self.live(k.second) by {
                if moved.contains(k) {
                    let y = choose|y: u64| #[trigger] pair_of(uid, y) == k && is_hit(old(self).inactive(), bv, Some(uid), y)
                        && old(self).dispatcher_spec().accepts(uid, y);
                } else {
                    assert(old(self).pair_keys().contains(k));
                }
            }
            assert forall|k: Pair| #[trigger] self.spair_keys().contains(k) implies k.first < k.second
                && self.inactive().contains_key(k.first) && self.inactive().contains_key(k.second) by {
                assert(old(self).spair_keys().contains(k));
                assert(!moved.contains(k));
                if k.first == uid {
                    assert(pair_of(uid, k.second) == k);
                    assert(is_hit(old(self).inactive(), bv, Some(uid), k.second));
                } else if k.second == uid {
                    old(self).dispatcher.accepts_symmetric(k.first, k.second);
                    assert(pair_of(uid, k.first) == k);
                    assert(is_hit(old(self).inactive(), bv, Some(uid), k.first));
                }
            }
            assert forall|k: Pair| #[trigger] self.spair_keys().contains(k) implies self.dispatcher_spec().accepts(k.first, k.second)
                && self.inactive()[k.first].intersects_spec(self.inactive()[k.second]) by {
                assert(old(self).spair_keys().contains(k));
                assert(self.inactive().contains_key(k.first) && self.inactive().contains_key(k.second));
            }
            assert(self.keys_live(Set::empty()));
        }
    }

    /// Appends to `out` every object, active or sleeping, whose stored box meets `bv`.
    pub fn interferences_with_bounding_volume(&self, bv: &Aabb, out: &mut Vec<u64>)
        requires
            self.wf(),
        ensures
            query_result(old(out)@, final(out)@, self.active(), self.inactive(), *bv),
    {
        let ghost o = out@;
        self.tree.interferences_with_bounding_volume(bv, out);
        let ghost mid = out@;
        self.stree.interferences_with_bounding_volume(bv, out);
        proof {
            lemma_two_trees(o, mid, out@, self.active(), self.inactive(), *bv);
        }
    }

    /// Appends to `out` every object, active or sleeping, whose stored box contains `p`.
    pub fn interferences_with_point(&self, p: &Pnt3, out: &mut Vec<u64>)
        requires
            self.wf(),
        ensures
            query_result(old(out)@, final(out)@, self.active(), self.inactive(), point_box(*p)),
            forall|u: u64| #[trigger] self.live(u) ==> (self.bv_of(u).intersects_spec(point_box(*p))
                <==> self.bv_of(u).contains_point_spec(*p)),
    {
        let ghost o = out@;
        self.tree.interferences_with_point(p, out);
        let ghost mid = out@;
        self.stree.interferences_with_point(p, out);
        proof {
            lemma_two_trees(o, mid, out@, self.active(), self.inactive(), point_box(*p));
        }
    }

    /// Putting an active object to sleep and waking it again, with no other
    /// change in between, leaves the active registry's pairs as they were,
    /// and the data of every pair that did not move through the sleeping
    /// registry (the moved ones are handed to the visitor, which may change
    /// them): `s1` is `s0` after `deactivate(uid)`, and `s2` is `s1` after
    /// `activate(uid, ..)`.
    pub proof fn lemma_sleep_wake_neutral(s0: Self, s1: Self, s2: Self, uid: u64)
        requires
            s0.wf(),
            s0.active().contains_key(uid),
            s1.inactive() == s0.inactive().insert(uid, s0.active()[uid]),
            s1.pair_keys() == s0.pair_keys().difference(s0.sleeping_partners(uid, s0.active()[uid])),
            s1.dispatcher_spec() == s0.dispatcher_spec(),
            s1.inactive().contains_key(uid),
            s2.pair_keys() == s1.pair_keys().union(s1.sleeping_partners(uid, s1.inactive()[uid])),
            forall|kk: Pair| #[trigger] s1.pair_keys().contains(kk) ==> s1.pair_data(kk) == s0.pair_data(kk),
            forall|kk: Pair| #[trigger] s1.pair_keys().contains(kk) ==> s2.pair_data(kk) == s1.pair_data(kk),
        ensures
            s2.pair_keys() == s0.pair_keys(),
            forall|kk: Pair| #[trigger] s0.pair_keys().contains(kk) && !s0.sleeping_partners(uid, s0.active()[uid]).contains(kk)
                ==> s2.pair_data(kk) == s0.pair_data(kk),
    {
        let bv = s0.active()[uid];
        let m0 = s0.sleeping_partners(uid, bv);
        let m1 = s1.sleeping_partners(uid, s1.inactive()[uid]);
        assert(s1.inactive()[uid] == bv);
        assert forall|k: Pair| m1.contains(k) <==> m0.contains(k) by {
            if m1.contains(k) {
                let y = choose|y: u64| #[trigger] pair_of(uid, y) == k && is_hit(s1.inactive(), bv, Some(uid), y)
                    && s1.dispatcher_spec().accepts(uid, y);
                assert(is_hit(s0.inactive(), bv, Some(uid), y));
            }
            if m0.contains(k) {
                let y = choose|y: u64| #[trigger] pair_of(uid, y) == k && is_hit(s0.inactive(), bv, Some(uid), y)
                    && s0.dispatcher_spec().accepts(uid, y);
                assert(is_hit(s1.inactive(), bv, Some(uid), y));
            }
        }
        assert forall|k: Pair| m0.contains(k) implies s0.pair_keys().contains(k) by {
            let y = choose|y: u64| #[trigger] pair_of(uid, y) == k && is_hit(s0.inactive(), bv, Some(uid), y)
                && s0.dispatcher_spec().accepts(uid, y);
            assert(s0.bv_of(uid) == bv);
            assert(s0.bv_of(y) == s0.inactive()[y]);
        }
        assert(s2.pair_keys() =~= s0.pair_keys());
    }

    /// Hands every pair of the active registry, with its data, to `reader`.
    pub fn for_each_pair<R: PairReader<DV>>(&self, reader: &mut R)
        ensures
            final(reader).seen()@ == old(reader).seen()@ + entry_pairs(self.pair_entries()),
    {
        self.pairs.for_each(reader);
    }

    /// Hands every pair of the active registry to `visitor`, which may change
    /// its data; the registered pairs stay as they are.
    pub fn for_each_pair_mut<V: PairVisitor<DV>>(&mut self, visitor: &mut V)
        requires
            old(self).wf(),
        ensures
            final(self).wf(),
            final(self).active() == old(self).active(),
            final(self).inactive() == old(self).inactive(),
            final(self).pair_keys() == old(self).pair_keys(),
            final(self).spair_keys() == old(self).spair_keys(),
            final(self).dispatcher_spec() == old(self).dispatcher_spec(),
            final(visitor).seen()@ == old(visitor).seen()@ + entry_pairs(old(self).pair_entries()),
    {
        let ghost before = *self;
        self.pairs.for_each_mut(visitor);
        proof {
            assert(self.active2bv@.dom() =~= self.tree@.dom().union(Set::empty()));
            assert(self.internal_wf(Set::empty()));
            Self::lemma_same_views(*old(self), *self);
        }
    }

    /// Appends to `out` every object, active or sleeping, whose stored box the ray meets.
    pub fn interferences_with_ray(&self, ray: &Ray, out: &mut Vec<u64>)
        requires
            self.wf(),
            ray.wf(),
        ensures
            extends(old(out)@, final(out)@),
            appended(old(out)@, final(out)@).no_duplicates(),
            forall|u: u64| #[trigger] appended(old(out)@, final(out)@).contains(u) <==> (is_ray_hit(self.active(), *ray, u)
                || is_ray_hit(self.inactive(), *ray, u)),
    {
        let ghost o = out@;
        self.tree.interferences_with_ray(ray, out);
        let ghost mid = out@;
        self.stree.interferences_with_ray(ray, out);
        proof {
            lemma_two_trees_ray(o, mid, out@, self.active(), self.inactive(), *ray);
        }
    }
}

} // verus!
