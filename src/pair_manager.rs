//! A registry from unordered pairs of object identifiers to per-pair data.

use vstd::prelude::*;
use std::collections::HashMap;

verus! {

broadcast use vstd::std_specs::hash::group_hash_axioms;

/// Called on registered pairs with their data, for reading.
pub trait PairReader<DV> {
    /// The pairs handed over so far, in order.
    spec fn seen(&self) -> Vec<(u64, u64)>;

    fn read(&mut self, a: u64, b: u64, data: &DV)
        ensures
            final(self).seen()@ == old(self).seen()@.push((a, b)),
    ;
}

/// Called on registered pairs with their data, which it may change.
pub trait PairVisitor<DV> {
    /// The pairs handed over so far, in order.
    spec fn seen(&self) -> Vec<(u64, u64)>;

    fn visit(&mut self, a: u64, b: u64, data: &mut DV)
        ensures
            final(self).seen()@ == old(self).seen()@.push((a, b)),
    ;
}

/// The members of each entry's pair, in order.
pub open spec fn entry_pairs<DV>(s: Seq<PairEntry<DV>>) -> Seq<(u64, u64)> {
    s.map_values(|e: PairEntry<DV>| (e.key.first, e.key.second))
}

/// A position of `k` in `s`.
pub open spec fn index_of<DV>(s: Seq<PairEntry<DV>>, k: Pair) -> int {
    choose|i: int| 0 <= i < s.len() && s[i].key == k
}

/// With distinct keys, the entry at `i` is the one `index_of` designates.
pub proof fn lemma_index_of<DV>(s: Seq<PairEntry<DV>>, i: int)
    requires
        distinct_keys(s),
        0 <= i < s.len(),
    ensures
        index_of(s, s[i].key) == i,
{
    assert(s[i].key == s[i].key);
    let j = index_of(s, s[i].key);
    assert(0 <= j < s.len() && s[j].key == s[i].key);
}

/// With distinct keys, a set holds as many keys as there are entries.
pub proof fn lemma_keys_len<DV>(s: Seq<PairEntry<DV>>)
    requires
        distinct_keys(s),
    ensures
        keys_of(s).finite(),
        keys_of(s).len() == s.len(),
{
    let m = s.map_values(|e: PairEntry<DV>| e.key);
    assert(m.no_duplicates()) by {
        assert forall|i: int, j: int| 0 <= i < m.len() && 0 <= j < m.len() && i != j implies m[i] != m[j] by {
            assert(m[i] == s[i].key && m[j] == s[j].key);
            assert(s[i].key != s[j].key);
        }
    }
    assert forall|k: Pair| #[trigger] m.to_set().contains(k) <==> keys_of(s).contains(k) by {
        if keys_of(s).contains(k) {
            let i = choose|i: int| 0 <= i < s.len() && #[trigger] s[i].key == k;
            assert(m[i] == k);
        }
        if m.to_set().contains(k) {
            assert(m.contains(k));
            let i = choose|i: int| 0 <= i < m.len() && m[i] == k;
            assert(s[i].key == k);
        }
    }
    assert(m.to_set() =~= keys_of(s));
    m.unique_seq_to_set();
    vstd::seq_lib::seq_to_set_is_finite(m);
}

/// An unordered pair of object identifiers, stored with `first <= second`.
#[derive(Clone, Copy, Debug, PartialEq, Eq, Structural)]
pub struct Pair {
    pub first: u64,
    pub second: u64,
}

/// The pair `{a, b}` in its stored order.
pub open spec fn pair_of(a: u64, b: u64) -> Pair {
    if a <= b {
        Pair { first: a, second: b }
    } else {
        Pair { first: b, second: a }
    }
}

impl Pair {
    /// The pair `{a, b}`; the order of the arguments does not matter.
    pub fn new(a: u64, b: u64) -> (r: Pair)
        ensures
            r == pair_of(a, b),
    {
        if a <= b {
            Pair { first: a, second: b }
        } else {
            Pair { first: b, second: a }
        }
    }

    /// Whether `u` is one of the two members.
    pub open spec fn involves(self, u: u64) -> bool {
        self.first == u || self.second == u
    }
}

/// The pair `{a, b}` does not depend on the order of `a` and `b`.
pub proof fn lemma_pair_symmetric(a: u64, b: u64)
    ensures
        pair_of(a, b) == pair_of(b, a),
        pair_of(a, b).involves(a),
        pair_of(a, b).involves(b),
{
}

/// One registered pair with its data.
pub struct PairEntry<DV> {
    pub key: Pair,
    pub value: DV,
}

/// A registry of pairs, each present at most once.
pub struct PairManager<DV> {
    entries: Vec<PairEntry<DV>>,
    index: HashMap<u128, usize>,
}

/// The hash-map key of a pair: its two members side by side in 128 bits.
pub open spec fn pack(k: Pair) -> u128 {
    (k.first as int * 0x1_0000_0000_0000_0000 + k.second as int) as u128
}

fn pack_exec(k: &Pair) -> (r: u128)
    ensures
        r == pack(*k),
{
    (k.first as u128) * 0x1_0000_0000_0000_0000u128 + (k.second as u128)
}

proof fn lemma_pack_injective(a: Pair, b: Pair)
    ensures
        pack(a) == pack(b) ==> a == b,
{
}

impl<DV> View for PairManager<DV> {
    type V = Seq<PairEntry<DV>>;

    closed spec fn view(&self) -> Seq<PairEntry<DV>> {
        self.entries@
    }
}

/// The keys of a sequence of entries.
pub open spec fn keys_of<DV>(s: Seq<PairEntry<DV>>) -> Set<Pair> {
    Set::new(|k: Pair| exists|i: int| 0 <= i < s.len() && #[trigger] s[i].key == k)
}

/// No key appears twice.
pub open spec fn distinct_keys<DV>(s: Seq<PairEntry<DV>>) -> bool {
    forall|i: int, j: int| 0 <= i < s.len() && 0 <= j < s.len() && i != j ==> s[i].key != s[j].key
}

proof fn lemma_keys_push<DV>(s: Seq<PairEntry<DV>>, e: PairEntry<DV>)
    ensures
        keys_of(s.push(e)) == keys_of(s).insert(e.key),
{
    assert forall|k: Pair| keys_of(s.push(e)).contains(k) <==> keys_of(s).insert(e.key).contains(k) by {
        if keys_of(s).contains(k) {
            let i = choose|i: int| 0 <= i < s.len() && #[trigger] s[i].key == k;
            assert(s.push(e)[i].key == k);
        }
        if k == e.key {
            assert(s.push(e)[s.len() as int].key == k);
        }
        if keys_of(s.push(e)).contains(k) {
            let i = choose|i: int| 0 <= i < s.push(e).len() && #[trigger] s.push(e)[i].key == k;
            if i < s.len() {
                assert(s[i].key == k);
            }
        }
    }
    assert(keys_of(s.push(e)) =~= keys_of(s).insert(e.key));
}

proof fn lemma_keys_swap_remove<DV>(s: Seq<PairEntry<DV>>, i: int)
    requires
        0 <= i < s.len(),
        distinct_keys(s),
    ensures
        keys_of(s.update(i, s.last()).drop_last()) == keys_of(s).remove(s[i].key),
        distinct_keys(s.update(i, s.last()).drop_last()),
{
    let t = s.update(i, s.last()).drop_last();
    let n = s.len() - 1;
    assert forall|k: Pair| keys_of(t).contains(k) <==> keys_of(s).remove(s[i].key).contains(k) by {
        if keys_of(t).contains(k) {
            let j = choose|j: int| 0 <= j < t.len() && #[trigger] t[j].key == k;
            if j == i {
                assert(s[n].key == k);
            } else {
                assert(s[j].key == k);
            }
        }
        if keys_of(s).remove(s[i].key).contains(k) {
            let j = choose|j: int| 0 <= j < s.len() && #[trigger] s[j].key == k;
            if j == n {
                assert(t[i].key == k);
            } else {
                assert(t[j].key == k);
            }
        }
    }
    assert(keys_of(t) =~= keys_of(s).remove(s[i].key));
}

impl<DV> PairManager<DV> {
    /// The registered pairs.
    pub open spec fn keys(&self) -> Set<Pair> {
        keys_of(self@)
    }

    /// The data of the registered pair `k`.
    pub open spec fn value_of(&self, k: Pair) -> DV {
        self@[index_of(self@, k)].value
    }

    /// The hash index maps each registered pair to its position, and nothing else.
    pub closed spec fn index_wf(&self) -> bool {
        &&& forall|i: int| 0 <= i < self@.len() ==> #[trigger] self.index@.contains_key(pack(self@[i].key))
            && self.index@[pack(self@[i].key)] == i
        &&& forall|p: u128| #[trigger] self.index@.contains_key(p) ==> self.index@[p] < self@.len()
            && pack(self@[self.index@[p] as int].key) == p
    }

    /// No pair is registered twice, and the hash index is exact.
    pub open spec fn wf(&self) -> bool {
        distinct_keys(self@) && self.index_wf()
    }

    /// An empty registry.
    pub fn new() -> (r: PairManager<DV>)
        ensures
            r.wf(),
            r@ == Seq::<PairEntry<DV>>::empty(),
            r.keys() == Set::<Pair>::empty(),
    {
        let r = PairManager { entries: Vec::new(), index: HashMap::new() };
        assert(r.keys() =~= Set::<Pair>::empty());
        r
    }

    /// Number of registered pairs.
    pub fn len(&self) -> (r: usize)
        ensures
            r == self@.len(),
    {
        self.entries.len()
    }

    /// The key of the entry at `i`.
    pub fn key_at(&self, i: usize) -> (r: Pair)
        requires
            i < self@.len(),
        ensures
            r == self@[i as int].key,
    {
        self.entries[i].key
    }

    /// The entry at `i`.
    pub fn entry_at(&self, i: usize) -> (r: &PairEntry<DV>)
        requires
            i < self@.len(),
        ensures
            *r == self@[i as int],
    {
        &self.entries[i]
    }

    /// The position of `k`, if it is registered.
    pub fn find(&self, k: &Pair) -> (r: Option<usize>)
        requires
            self.wf(),
        ensures
            match r {
                Some(i) => i < self@.len() && self@[i as int].key == *k,
                None => !self.keys().contains(*k),
            },
    {
        let p = pack_exec(k);
        match self.index.get(&p) {
            Some(i) => {
                proof {
                    lemma_pack_injective(self@[*i as int].key, *k);
                }
                Some(*i)
            },
            None => {
                proof {
                    if self.keys().contains(*k) {
                        let j = choose|j: int| 0 <= j < self@.len() && #[trigger] self@[j].key == *k;
                        assert(self.index@.contains_key(pack(self@[j].key)));
                    }
                }
                None
            },
        }
    }

    /// Whether `k` is registered.
    pub fn contains(&self, k: &Pair) -> (r: bool)
        requires
            self.wf(),
        ensures
            r == self.keys().contains(*k),
    {
        match self.find(k) {
            Some(i) => {
                assert(self@[i as int].key == *k);
                true
            },
            None => false,
        }
    }

    /// Registers `k` with `value`; `k` must not be registered yet.
    pub fn insert(&mut self, k: Pair, value: DV)
        requires
            old(self).wf(),
            !old(self).keys().contains(k),
        ensures
            final(self).wf(),
            final(self)@ == old(self)@.push(PairEntry { key: k, value }),
            final(self).keys() == old(self).keys().insert(k),
            final(self).value_of(k) == value,
            forall|kk: Pair| #[trigger] old(self).keys().contains(kk) ==> final(self).value_of(kk) == old(self).value_of(kk),
    {
        proof {
            lemma_keys_push(self@, PairEntry { key: k, value });
            assert forall|i: int| 0 <= i < old(self)@.len() implies old(self)@[i].key != k by {
                assert(old(self)@[i].key == old(self)@[i].key);
            }
        }
        let n = self.entries.len();
        let p = pack_exec(&k);
        self.index.insert(p, n);
        self.entries.push(PairEntry { key: k, value });
        proof {
            assert forall|i: int| 0 <= i < self@.len() implies #[trigger] self.index@.contains_key(pack(self@[i].key))
                && self.index@[pack(self@[i].key)] == i by {
                if i < n {
                    assert(old(self).keys().contains(old(self)@[i].key) || true);
                    lemma_pack_injective(old(self)@[i].key, k);
                    assert(old(self)@[i].key != k);
                }
            }
            assert forall|q: u128| #[trigger] self.index@.contains_key(q) implies self.index@[q] < self@.len()
                && pack(self@[self.index@[q] as int].key) == q by {
                if q != p {
                    assert(old(self).index@.contains_key(q));
                }
            }
            assert(self.index_wf());
            lemma_index_of(self@, old(self)@.len() as int);
            assert forall|kk: Pair| #[trigger] old(self).keys().contains(kk) implies self.value_of(kk) == old(self).value_of(kk) by {
                let j = choose|j: int| 0 <= j < old(self)@.len() && #[trigger] old(self)@[j].key == kk;
                lemma_index_of(old(self)@, j);
                assert(self@[j] == old(self)@[j]);
                lemma_index_of(self@, j);
            }
        }
    }

    /// Removes the entry at `i`; the last entry takes its place.
    pub fn remove_at(&mut self, i: usize) -> (r: PairEntry<DV>)
        requires
            old(self).wf(),
            i < old(self)@.len(),
        ensures
            final(self).wf(),
            r == old(self)@[i as int],
            final(self)@ == old(self)@.update(i as int, old(self)@.last()).drop_last(),
            final(self).keys() == old(self).keys().remove(old(self)@[i as int].key),
            forall|kk: Pair| #[trigger] final(self).keys().contains(kk) ==> final(self).value_of(kk) == old(self).value_of(kk),
    {
        proof {
            lemma_keys_swap_remove(self@, i as int);
        }
        let last = self.entries.len() - 1;
        let pi = pack_exec(&self.entries[i].key);
        let pl = pack_exec(&self.entries[last].key);
        let r = self.entries.swap_remove(i);
        self.index.remove(&pi);
        if i < last {
            self.index.insert(pl, i);
        }
        assert(self@ =~= old(self)@.update(i as int, old(self)@.last()).drop_last());
        proof {
            let o = old(self)@;
            assert forall|j: int| 0 <= j < self@.len() implies #[trigger] self.index@.contains_key(pack(self@[j].key))
                && self.index@[pack(self@[j].key)] == j by {
                if j != i {
                    assert(self@[j] == o[j]);
                    lemma_pack_injective(o[j].key, o[i as int].key);
                    lemma_pack_injective(o[j].key, o[last as int].key);
                } else {
                    lemma_pack_injective(o[last as int].key, o[i as int].key);
                }
            }
            assert forall|q: u128| #[trigger] self.index@.contains_key(q) implies self.index@[q] < self@.len()
                && pack(self@[self.index@[q] as int].key) == q by {
                if i < last && q == pl {
                } else {
                    assert(old(self).index@.contains_key(q));
                    let m = old(self).index@[q];
                    assert(pack(o[m as int].key) == q);
                    if m == last as int && i < last {
                        lemma_pack_injective(o[m as int].key, o[last as int].key);
                    }
                    if m == i as int {
                        assert(q == pi);
                    }
                    if m == last as int && i == last {
                        assert(q == pi);
                    }
                    assert(m != i as int);
                    assert(m != last as int || i == last);
                    assert(self@[m as int] == o[m as int]);
                }
            }
            assert(self.index_wf());
            assert forall|kk: Pair| #[trigger] self.keys().contains(kk) implies self.value_of(kk) == old(self).value_of(kk) by {
                let j = choose|j: int| 0 <= j < self@.len() && #[trigger] self@[j].key == kk;
                lemma_index_of(self@, j);
                if j == i {
                    lemma_index_of(old(self)@, old(self)@.len() - 1);
                } else {
                    lemma_index_of(old(self)@, j);
                }
            }
        }
        r
    }

    /// Removes `k` and hands back its entry, if it was registered.
    pub fn get_and_remove(&mut self, k: &Pair) -> (r: Option<PairEntry<DV>>)
        requires
            old(self).wf(),
        ensures
            final(self).wf(),
            final(self).keys() == old(self).keys().remove(*k),
            r.is_some() == old(self).keys().contains(*k),
            r matches Some(e) ==> e.key == *k && old(self)@.contains(e) && e.value == old(self).value_of(*k),
            forall|kk: Pair| #[trigger] final(self).keys().contains(kk) ==> final(self).value_of(kk) == old(self).value_of(kk),
    {
        match self.find(k) {
            Some(i) => {
                let e = self.remove_at(i);
                assert(old(self)@[i as int] == e);
                proof {
                    lemma_index_of(old(self)@, i as int);
                }
                Some(e)
            },
            None => {
                assert(old(self).keys().remove(*k) =~= old(self).keys());
                None
            },
        }
    }

    /// Removes every pair that involves `u`.
    pub fn remove_involving(&mut self, u: u64)
        requires
            old(self).wf(),
        ensures
            final(self).wf(),
            final(self).keys() == old(self).keys().filter(|k: Pair| !k.involves(u)),
            forall|kk: Pair| #[trigger] final(self).keys().contains(kk) ==> final(self).value_of(kk) == old(self).value_of(kk),
    {
        let mut i: usize = 0;
        while i < self.entries.len()
            invariant
                self.wf(),
                i <= self@.len(),
                self.keys().subset_of(old(self).keys()),
                forall|k: Pair| #[trigger] old(self).keys().contains(k) && !k.involves(u) ==> self.keys().contains(k),
                forall|j: int| 0 <= j < i ==> !(#[trigger] self@[j]).key.involves(u),
                forall|kk: Pair| #[trigger] self.keys().contains(kk) ==> self.value_of(kk) == old(self).value_of(kk),
            decreases self@.len() - i,
        {
            let k = self.entries[i].key;
            if k.first == u || k.second == u {
                let ghost before = self@;
                self.remove_at(i);
                assert forall|j: int| 0 <= j < i implies !(#[trigger] self@[j]).key.involves(u) by {
                    assert(self@[j] == before[j]);
                }
            } else {
                i = i + 1;
            }
        }
        assert forall|k: Pair| #[trigger] self.keys().contains(k) implies !k.involves(u) by {
            let j = choose|j: int| 0 <= j < self@.len() && #[trigger] self@[j].key == k;
            assert(!self@[j].key.involves(u));
        }
        assert(self.keys() =~= old(self).keys().filter(|k: Pair| !k.involves(u)));
    }

    /// Hands every entry, in order, to `reader`.
    pub fn for_each<R: PairReader<DV>>(&self, reader: &mut R)
        ensures
            final(reader).seen()@ == old(reader).seen()@ + entry_pairs(self@),
    {
        let mut i: usize = 0;
        while i < self.entries.len()
            invariant
                i <= self@.len(),
                reader.seen()@ == old(reader).seen()@ + entry_pairs(self@.subrange(0, i as int)),
            decreases self@.len() - i,
        {
            let e = &self.entries[i];
            reader.read(e.key.first, e.key.second, &e.value);
            assert(entry_pairs(self@.subrange(0, i + 1)) =~= entry_pairs(self@.subrange(0, i as int)).push(
                (e.key.first, e.key.second)));
            i = i + 1;
        }
        assert(self@.subrange(0, self@.len() as int) =~= self@);
    }

    /// Hands every entry, in order, to `visitor`, which may change its data;
    /// the registered pairs and their order stay as they are.
    pub fn for_each_mut<V: PairVisitor<DV>>(&mut self, visitor: &mut V)
        requires
            old(self).wf(),
        ensures
            final(self).wf(),
            final(self)@.len() == old(self)@.len(),
            forall|i: int| 0 <= i < old(self)@.len() ==> (#[trigger] final(self)@[i]).key == old(self)@[i].key,
            final(self).keys() == old(self).keys(),
            final(visitor).seen()@ == old(visitor).seen()@ + entry_pairs(old(self)@),
    {
        let mut i: usize = 0;
        while i < self.entries.len()
            invariant
                i <= self@.len(),
                visitor.seen()@ == old(visitor).seen()@ + entry_pairs(old(self)@.subrange(0, i as int)),
                self@.len() == old(self)@.len(),
                forall|j: int| 0 <= j < old(self)@.len() ==> (#[trigger] self@[j]).key == old(self)@[j].key,
                self.index@ == old(self).index@,
            decreases self@.len() - i,
        {
            let key = self.entries[i].key;
            let e = &mut self.entries[i];
            visitor.visit(key.first, key.second, &mut e.value);
            assert(entry_pairs(old(self)@.subrange(0, i + 1)) =~= entry_pairs(old(self)@.subrange(0, i as int)).push(
                (key.first, key.second)));
            i = i + 1;
        }
        assert(old(self)@.subrange(0, old(self)@.len() as int) =~= old(self)@);
        proof {
            assert forall|k: Pair| self.keys().contains(k) <==> old(self).keys().contains(k) by {
                if self.keys().contains(k) {
                    let j = choose|j: int| 0 <= j < self@.len() && #[trigger] self@[j].key == k;
                    assert(old(self)@[j].key == k);
                }
                if old(self).keys().contains(k) {
                    let j = choose|j: int| 0 <= j < old(self)@.len() && #[trigger] old(self)@[j].key == k;
                    assert(self@[j].key == k);
                }
            }
            assert(self.keys() =~= old(self).keys());
            assert forall|j: int| 0 <= j < self@.len() implies #[trigger] self.index@.contains_key(pack(self@[j].key))
                && self.index@[pack(self@[j].key)] == j by {
                assert(self@[j].key == old(self)@[j].key);
            }
            assert forall|q: u128| #[trigger] self.index@.contains_key(q) implies self.index@[q] < self@.len()
                && pack(self@[self.index@[q] as int].key) == q by {
                assert(old(self).index@.contains_key(q));
            }
            assert(self.index_wf());
            assert forall|a: int, b: int| 0 <= a < self@.len() && 0 <= b < self@.len() && a != b implies self@[a].key != self@[b].key by {
                assert(self@[a].key == old(self)@[a].key && self@[b].key == old(self)@[b].key);
            }
        }
    }
}

} // verus!
