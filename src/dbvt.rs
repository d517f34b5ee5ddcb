//! A dynamic bounding volume tree: a binary tree whose leaves carry object
//! identifiers with their (loose) boxes, and whose internal nodes carry the
//! merge of their children's boxes.

use vstd::prelude::*;
use vstd::seq_lib::{lemma_no_dup_in_concat, lemma_seq_concat_contains_all_elements};
use crate::aabb::{tree_limit, Aabb};
use crate::math::Pnt3;
use crate::ray::{lemma_ray_hits_grow, ray_hits, ray_intersects_aabb, Ray};

verus! {

/// A node of the tree.
pub enum DbvtNode {
    Leaf { bv: Aabb, uid: u64 },
    Internal { bv: Aabb, left: Box<DbvtNode>, right: Box<DbvtNode> },
}

/// A leaf `u` of `leaves` meets the box `q` and is not the excluded one.
pub open spec fn is_hit(leaves: Map<u64, Aabb>, q: Aabb, exclude: Option<u64>, u: u64) -> bool {
    &&& leaves.contains_key(u)
    &&& exclude != Some(u)
    &&& leaves[u].intersects_spec(q)
}

/// `new` is `old` followed by some items.
pub open spec fn extends(old: Seq<u64>, new: Seq<u64>) -> bool {
    old.len() <= new.len() && new.subrange(0, old.len() as int) =~= old
}

/// The items appended to `old` to give `new`.
pub open spec fn appended(old: Seq<u64>, new: Seq<u64>) -> Seq<u64> {
    new.subrange(old.len() as int, new.len() as int)
}

/// The items appended to `old` to give `new` are, without repetition, the
/// hits of `q` among `leaves`.
pub open spec fn appended_hits(
    old: Seq<u64>,
    new: Seq<u64>,
    leaves: Map<u64, Aabb>,
    q: Aabb,
    exclude: Option<u64>,
) -> bool {
    &&& extends(old, new)
    &&& appended(old, new).no_duplicates()
    &&& forall|u: u64| #[trigger] appended(old, new).contains(u) <==> is_hit(leaves, q, exclude, u)
}

/// The leaf `u` of `leaves` is met by the ray.
pub open spec fn is_ray_hit(leaves: Map<u64, Aabb>, ray: Ray, u: u64) -> bool {
    leaves.contains_key(u) && ray_hits(ray, leaves[u])
}

/// The items appended to `old` to give `new` are, without repetition, the
/// leaves of `leaves` met by the ray.
pub open spec fn appended_ray_hits(old: Seq<u64>, new: Seq<u64>, leaves: Map<u64, Aabb>, ray: Ray) -> bool {
    &&& extends(old, new)
    &&& appended(old, new).no_duplicates()
    &&& forall|u: u64| #[trigger] appended(old, new).contains(u) <==> is_ray_hit(leaves, ray, u)
}

impl DbvtNode {
    pub open spec fn bv(self) -> Aabb {
        match self {
            DbvtNode::Leaf { bv, .. } => bv,
            DbvtNode::Internal { bv, .. } => bv,
        }
    }

    /// The identifiers of the leaves below this node, with their boxes.
    pub open spec fn leaves(self) -> Map<u64, Aabb>
        decreases self,
    {
        match self {
            DbvtNode::Leaf { bv, uid } => map![uid => bv],
            DbvtNode::Internal { left, right, .. } => left.leaves().union_prefer_right(right.leaves()),
        }
    }

    /// Every box is well formed and within the tree's coordinate limit; every
    /// internal box is the merge of its children's boxes; no identifier
    /// appears twice.
    pub open spec fn wf(self) -> bool
        decreases self,
    {
        &&& self.bv().wf()
        &&& self.bv().bounded(tree_limit())
        &&& match self {
            DbvtNode::Leaf { .. } => true,
            DbvtNode::Internal { bv, left, right } => {
                &&& left.wf()
                &&& right.wf()
                &&& bv == left.bv().merged_spec(right.bv())
                &&& left.leaves().dom().disjoint(right.leaves().dom())
            },
        }
    }

    fn bv_exec(&self) -> (r: Aabb)
        ensures
            r == self.bv(),
    {
        match self {
            DbvtNode::Leaf { bv, .. } => *bv,
            DbvtNode::Internal { bv, .. } => *bv,
        }
    }
}

/// The box of a well-formed node is itself well formed and bounded.
proof fn lemma_wf_bv(n: DbvtNode)
    requires
        n.wf(),
    ensures
        n.bv().wf(),
        n.bv().bounded(tree_limit()),
{
}

/// The box of a well-formed node contains the box of each leaf below it.
pub proof fn lemma_node_contains_leaves(n: DbvtNode, u: u64)
    requires
        n.wf(),
        n.leaves().contains_key(u),
    ensures
        n.bv().contains_spec(n.leaves()[u]),
    decreases n,
{
    match n {
        DbvtNode::Leaf { .. } => {},
        DbvtNode::Internal { left, right, .. } => {
            if right.leaves().contains_key(u) {
                lemma_node_contains_leaves(*right, u);
            } else {
                lemma_node_contains_leaves(*left, u);
            }
        },
    }
}

proof fn lemma_node_leaf_wf(n: DbvtNode, u: u64)
    requires
        n.wf(),
        n.leaves().contains_key(u),
    ensures
        n.leaves()[u].wf(),
        n.leaves()[u].bounded(tree_limit()),
    decreases n,
{
    match n {
        DbvtNode::Leaf { .. } => {},
        DbvtNode::Internal { left, right, .. } => {
            if right.leaves().contains_key(u) {
                lemma_node_leaf_wf(*right, u);
            } else {
                lemma_node_leaf_wf(*left, u);
            }
        },
    }
}

/// Every internal node's box contains the boxes of both its children.
pub proof fn lemma_internal_contains_children(n: DbvtNode)
    requires
        n.wf(),
    ensures
        n matches DbvtNode::Internal { bv, left, right } ==> bv.contains_spec(left.bv()) && bv.contains_spec(
            right.bv(),
        ),
{
}

/// Whether the leaf `uid` lies below `node`, given the box it would have there.
fn has_leaf(node: &DbvtNode, uid: u64, bv: &Aabb) -> (r: bool)
    requires
        node.wf(),
        node.leaves().contains_key(uid) ==> node.leaves()[uid] == *bv,
    ensures
        r == node.leaves().contains_key(uid),
    decreases node,
{
    match node {
        DbvtNode::Leaf { uid: u, .. } => *u == uid,
        DbvtNode::Internal { bv: nbv, left, right } => {
            if !nbv.contains(bv) {
                proof {
                    if node.leaves().contains_key(uid) {
                        lemma_node_contains_leaves(*node, uid);
                    }
                }
                false
            } else {
                has_leaf(left, uid, bv) || has_leaf(right, uid, bv)
            }
        },
    }
}

/// Inserts a new leaf below `node`, descending at each internal node into the
/// child whose box grows least in volume (the left one on ties).
fn insert_node(node: DbvtNode, uid: u64, bv: Aabb) -> (r: DbvtNode)
    requires
        node.wf(),
        !node.leaves().contains_key(uid),
        bv.wf(),
        bv.bounded(tree_limit()),
    ensures
        r.wf(),
        r.leaves() == node.leaves().insert(uid, bv),
    decreases node,
{
    match node {
        DbvtNode::Leaf { bv: lbv, uid: luid } => {
            let r = DbvtNode::Internal {
                bv: lbv.merged(&bv),
                left: Box::new(DbvtNode::Leaf { bv: lbv, uid: luid }),
                right: Box::new(DbvtNode::Leaf { bv, uid }),
            };
            proof {
                reveal_with_fuel(DbvtNode::leaves, 2);
                reveal_with_fuel(DbvtNode::wf, 2);
            }
            assert(r.leaves() =~= node.leaves().insert(uid, bv));
            r
        },
        DbvtNode::Internal { bv: nbv, left, right } => {
            let lbv = left.bv_exec();
            let rbv = right.bv_exec();
            proof {
                lemma_wf_bv(*left);
                lemma_wf_bv(*right);
            }
            let grow_left = lbv.merged(&bv).volume() + rbv.volume();
            let grow_right = rbv.merged(&bv).volume() + lbv.volume();
            if grow_left <= grow_right {
                let nl = insert_node(*left, uid, bv);
                let r = DbvtNode::Internal { bv: nl.bv_exec().merged(&rbv), left: Box::new(nl), right };
                assert(r.leaves() =~= node.leaves().insert(uid, bv));
                r
            } else {
                let nr = insert_node(*right, uid, bv);
                let r = DbvtNode::Internal { bv: lbv.merged(&nr.bv_exec()), left, right: Box::new(nr) };
                assert(r.leaves() =~= node.leaves().insert(uid, bv));
                r
            }
        },
    }
}

pub open spec fn opt_leaves(n: Option<DbvtNode>) -> Map<u64, Aabb> {
    match n {
        None => Map::empty(),
        Some(n) => n.leaves(),
    }
}

pub open spec fn opt_wf(n: Option<DbvtNode>) -> bool {
    match n {
        None => true,
        Some(n) => n.wf(),
    }
}

/// Removes the leaf `uid` from below `node`; its sibling takes the place of
/// its parent, and the boxes above are refreshed.
fn remove_node(node: DbvtNode, uid: u64, bv: &Aabb) -> (r: Option<DbvtNode>)
    requires
        node.wf(),
        node.leaves().contains_key(uid),
        node.leaves()[uid] == *bv,
    ensures
        opt_wf(r),
        opt_leaves(r) == node.leaves().remove(uid),
    decreases node,
{
    match node {
        DbvtNode::Leaf { .. } => {
            assert(node.leaves().remove(uid) =~= Map::empty());
            None
        },
        DbvtNode::Internal { bv: nbv, left, right } => {
            if has_leaf(&left, uid, bv) {
                match remove_node(*left, uid, bv) {
                    None => {
                        assert forall|k: u64| #[trigger] left.leaves().contains_key(k) implies k == uid by {
                            assert(!opt_leaves(None).contains_key(k));
                        }
                        assert(right.leaves() =~= node.leaves().remove(uid));
                        Some(*right)
                    },
                    Some(nl) => {
                        let rbv = right.bv_exec();
                        let r = DbvtNode::Internal { bv: nl.bv_exec().merged(&rbv), left: Box::new(nl), right };
                        assert(r.leaves() =~= node.leaves().remove(uid));
                        Some(r)
                    },
                }
            } else {
                match remove_node(*right, uid, bv) {
                    None => {
                        assert forall|k: u64| #[trigger] right.leaves().contains_key(k) implies k == uid by {
                            assert(!opt_leaves(None).contains_key(k));
                        }
                        assert(left.leaves() =~= node.leaves().remove(uid));
                        Some(*left)
                    },
                    Some(nr) => {
                        let lbv = left.bv_exec();
                        let r = DbvtNode::Internal { bv: lbv.merged(&nr.bv_exec()), left, right: Box::new(nr) };
                        assert(r.leaves() =~= node.leaves().remove(uid));
                        Some(r)
                    },
                }
            }
        },
    }
}

fn is_excluded(exclude: Option<u64>, uid: u64) -> (r: bool)
    ensures
        r == (exclude == Some(uid)),
{
    match exclude {
        Some(e) => e == uid,
        None => false,
    }
}

fn push_if(hit: bool, uid: u64, out: &mut Vec<u64>)
    ensures
        final(out)@ == if hit { old(out)@.push(uid) } else { old(out)@ },
{
    if hit {
        out.push(uid);
    }
}

/// Depth-first, left before right: appends every leaf below `node` whose box
/// meets `q`, except `exclude`, pruning the subtrees whose box misses `q`.
fn collect_hits(node: &DbvtNode, q: &Aabb, exclude: Option<u64>, out: &mut Vec<u64>)
    requires
        node.wf(),
    ensures
        appended_hits(old(out)@, final(out)@, node.leaves(), *q, exclude),
    decreases node,
{
    let ghost o = out@;
    match node {
        DbvtNode::Leaf { bv, uid } => {
            let hit = bv.intersects(q) && !is_excluded(exclude, *uid);
            push_if(hit, *uid, out);
            proof {
                assert(out@.subrange(0, o.len() as int) =~= o);
                if hit {
                    assert(appended(o, out@) =~= seq![*uid]);
                } else {
                    assert(appended(o, out@) =~= Seq::<u64>::empty());
                }
                assert forall|u: u64| #[trigger] appended(o, out@).contains(u) <==> is_hit(node.leaves(), *q, exclude, u) by {
                    if node.leaves().contains_key(u) {
                        assert(u == *uid);
                    }
                    if u == *uid && hit {
                        assert(appended(o, out@)[0] == u);
                    }
                }
            }
        },
        DbvtNode::Internal { bv, left, right } => {
            if bv.intersects(q) {
                collect_hits(left, q, exclude, out);
                let ghost mid = out@;
                collect_hits(right, q, exclude, out);
                proof {
                    let a = appended(o, mid);
                    let b = appended(mid, out@);
                    assert(appended(o, out@) =~= a + b);
                    assert(out@.subrange(0, o.len() as int) =~= o);
                    assert forall|u: u64| #[trigger] appended(o, out@).contains(u) <==> is_hit(node.leaves(), *q, exclude, u) by {
                        lemma_seq_concat_contains_all_elements(a, b, u);
                    }
                    assert forall|i: int, j: int| 0 <= i < a.len() && 0 <= j < b.len() implies a[i] != b[j] by {
                        assert(a.contains(a[i]));
                        assert(b.contains(b[j]));
                    }
                    lemma_no_dup_in_concat(a, b);
                }
            } else {
                proof {
                    assert(appended(o, out@) =~= Seq::<u64>::empty());
                    assert forall|u: u64| #[trigger] appended(o, out@).contains(u) <==> is_hit(node.leaves(), *q, exclude, u) by {
                        if is_hit(node.leaves(), *q, exclude, u) {
                            lemma_node_contains_leaves(*node, u);
                        }
                    }
                }
            }
        },
    }
}

/// Depth-first, left before right: appends every leaf below `node` met by
/// the ray, pruning the subtrees whose box the ray misses.
fn collect_ray_hits(node: &DbvtNode, ray: &Ray, out: &mut Vec<u64>)
    requires
        node.wf(),
        ray.wf(),
    ensures
        appended_ray_hits(old(out)@, final(out)@, node.leaves(), *ray),
    decreases node,
{
    let ghost o = out@;
    match node {
        DbvtNode::Leaf { bv, uid } => {
            let hit = ray_intersects_aabb(ray, bv);
            push_if(hit, *uid, out);
            proof {
                assert(out@.subrange(0, o.len() as int) =~= o);
                if hit {
                    assert(appended(o, out@) =~= seq![*uid]);
                } else {
                    assert(appended(o, out@) =~= Seq::<u64>::empty());
                }
                assert forall|u: u64| #[trigger] appended(o, out@).contains(u) <==> is_ray_hit(node.leaves(), *ray, u) by {
                    if node.leaves().contains_key(u) {
                        assert(u == *uid);
                    }
                    if u == *uid && hit {
                        assert(appended(o, out@)[0] == u);
                    }
                }
            }
        },
        DbvtNode::Internal { bv, left, right } => {
            if ray_intersects_aabb(ray, bv) {
                collect_ray_hits(left, ray, out);
                let ghost mid = out@;
                collect_ray_hits(right, ray, out);
                proof {
                    let a = appended(o, mid);
                    let b = appended(mid, out@);
                    assert(appended(o, out@) =~= a + b);
                    assert(out@.subrange(0, o.len() as int) =~= o);
                    assert forall|u: u64| #[trigger] appended(o, out@).contains(u) <==> is_ray_hit(node.leaves(), *ray, u) by {
                        lemma_seq_concat_contains_all_elements(a, b, u);
                    }
                    assert forall|i: int, j: int| 0 <= i < a.len() && 0 <= j < b.len() implies a[i] != b[j] by {
                        assert(a.contains(a[i]));
                        assert(b.contains(b[j]));
                    }
                    lemma_no_dup_in_concat(a, b);
                }
            } else {
                proof {
                    assert(appended(o, out@) =~= Seq::<u64>::empty());
                    assert(out@.subrange(0, o.len() as int) =~= o);
                    assert forall|u: u64| #[trigger] appended(o, out@).contains(u) <==> is_ray_hit(node.leaves(), *ray, u) by {
                        if is_ray_hit(node.leaves(), *ray, u) {
                            lemma_node_contains_leaves(*node, u);
                            lemma_ray_hits_grow(*ray, node.leaves()[u], *bv);
                        }
                    }
                }
            }
        },
    }
}

/// A dynamic bounding volume tree over object identifiers.
pub struct Dbvt {
    root: Option<DbvtNode>,
}

impl View for Dbvt {
    type V = Map<u64, Aabb>;

    /// The identifiers of the leaves, with their boxes.
    closed spec fn view(&self) -> Map<u64, Aabb> {
        opt_leaves(self.root)
    }
}

impl Dbvt {
    /// The tree's internal invariant: see `DbvtNode::wf`.
    pub closed spec fn wf(&self) -> bool {
        opt_wf(self.root)
    }

    /// Every leaf box is well formed and within the tree's coordinate limit.
    pub proof fn lemma_leaf_wf(&self, u: u64)
        requires
            self.wf(),
            self@.contains_key(u),
        ensures
            self@[u].wf(),
            self@[u].bounded(tree_limit()),
    {
        lemma_node_leaf_wf(self.root.unwrap(), u);
    }

    /// The root node, if the tree has a leaf.
    pub closed spec fn root_node(&self) -> Option<DbvtNode> {
        self.root
    }

    /// In a well-formed tree every node is well formed: each internal
    /// node's box is the merge of its children's boxes, so it contains both
    /// (see `lemma_internal_contains_children`), and no leaf repeats.
    pub proof fn lemma_nodes_wf(&self)
        requires
            self.wf(),
        ensures
            self.root_node() matches Some(n) ==> n.wf() && n.leaves() == self@,
            self.root_node() is None ==> self@ == Map::<u64, Aabb>::empty(),
    {
    }

    /// The box of the root node.
    pub closed spec fn root_bv(&self) -> Aabb {
        self.root.unwrap().bv()
    }

    /// The box of every node contains the boxes of the leaves below it; in
    /// particular the root's box contains every leaf box.
    pub proof fn lemma_root_contains_leaves(&self, u: u64)
        requires
            self.wf(),
            self@.contains_key(u),
        ensures
            self.root_bv().contains_spec(self@[u]),
    {
        lemma_node_contains_leaves(self.root.unwrap(), u);
    }

    /// An empty tree.
    pub fn new() -> (r: Dbvt)
        ensures
            r.wf(),
            r@ == Map::<u64, Aabb>::empty(),
    {
        Dbvt { root: None }
    }

    /// Whether the tree has no leaf.
    pub fn is_empty(&self) -> (r: bool)
        requires
            self.wf(),
        ensures
            r == (self@.dom() == Set::<u64>::empty()),
    {
        proof {
            if self.root.is_some() {
                let u = lemma_nonempty(self.root.unwrap());
                assert(self@.dom().contains(u));
            }
        }
        self.root.is_none()
    }

    /// Inserts the leaf `uid` with box `bv`.
    pub fn insert(&mut self, uid: u64, bv: Aabb)
        requires
            old(self).wf(),
            !old(self)@.contains_key(uid),
            bv.wf(),
            bv.bounded(tree_limit()),
        ensures
            final(self).wf(),
            final(self)@ == old(self)@.insert(uid, bv),
    {
        let root = self.root.take();
        match root {
            None => {
                self.root = Some(DbvtNode::Leaf { bv, uid });
                assert(self@ =~= old(self)@.insert(uid, bv));
            },
            Some(n) => {
                self.root = Some(insert_node(n, uid, bv));
            },
        }
    }

    /// Removes the leaf `uid`, whose box in the tree is `bv`.
    pub fn remove(&mut self, uid: u64, bv: &Aabb)
        requires
            old(self).wf(),
            old(self)@.contains_key(uid),
            old(self)@[uid] == *bv,
        ensures
            final(self).wf(),
            final(self)@ == old(self)@.remove(uid),
    {
        let root = self.root.take();
        match root {
            None => {},
            Some(n) => {
                self.root = remove_node(n, uid, bv);
            },
        }
    }

    /// Appends to `out` every leaf other than `exclude` whose box meets `q`.
    pub fn interferences_with_leaf(&self, uid: u64, q: &Aabb, out: &mut Vec<u64>)
        requires
            self.wf(),
        ensures
            appended_hits(old(out)@, final(out)@, self@, *q, Some(uid)),
    {
        self.visit(q, Some(uid), out);
    }

    /// Appends to `out` every leaf whose box meets `q`.
    pub fn interferences_with_bounding_volume(&self, q: &Aabb, out: &mut Vec<u64>)
        requires
            self.wf(),
        ensures
            appended_hits(old(out)@, final(out)@, self@, *q, None),
    {
        self.visit(q, None, out);
    }

    /// Appends to `out` every leaf whose box contains `p`.
    pub fn interferences_with_point(&self, p: &Pnt3, out: &mut Vec<u64>)
        requires
            self.wf(),
        ensures
            appended_hits(old(out)@, final(out)@, self@, point_box(*p), None),
            forall|u: u64| #[trigger] self@.contains_key(u) ==> (self@[u].intersects_spec(point_box(*p))
                <==> self@[u].contains_point_spec(*p)),
    {
        let q = Aabb { mins: *p, maxs: *p };
        self.visit(&q, None, out);
    }

    /// Appends to `out` every leaf whose box the ray meets.
    pub fn interferences_with_ray(&self, ray: &Ray, out: &mut Vec<u64>)
        requires
            self.wf(),
            ray.wf(),
        ensures
            appended_ray_hits(old(out)@, final(out)@, self@, *ray),
    {
        match &self.root {
            None => {
                assert(appended(old(out)@, out@) =~= Seq::<u64>::empty());
                assert(out@.subrange(0, old(out)@.len() as int) =~= old(out)@);
            },
            Some(n) => collect_ray_hits(n, ray, out),
        }
    }

    fn visit(&self, q: &Aabb, exclude: Option<u64>, out: &mut Vec<u64>)
        requires
            self.wf(),
        ensures
            appended_hits(old(out)@, final(out)@, self@, *q, exclude),
    {
        match &self.root {
            None => {
                assert(appended(old(out)@, out@) =~= Seq::<u64>::empty());
                assert(out@.subrange(0, old(out)@.len() as int) =~= old(out)@);
            },
            Some(n) => collect_hits(n, q, exclude, out),
        }
    }
}

/// The box made of the single point `p`.
pub open spec fn point_box(p: Pnt3) -> Aabb {
    Aabb { mins: p, maxs: p }
}

proof fn lemma_nonempty(n: DbvtNode) -> (u: u64)
    ensures
        n.leaves().contains_key(u),
    decreases n,
{
    match n {
        DbvtNode::Leaf { bv, uid } => uid,
        DbvtNode::Internal { left, right, .. } => lemma_nonempty(*left),
    }
}

} // verus!
