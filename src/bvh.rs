use crate::aabb::{lemma_encloses_transitive, lemma_enclosing_overlaps, AABB};
use generational_arena::{Arena, Index};
use vstd::prelude::*;
use vstd::set_lib::{lemma_len_subset, lemma_set_disjoint_lens, lemma_set_empty_equivalency_len};

verus! {

/// Handle of a node: the raw parts (slot, generation) of its arena index.
pub type NodeId = (usize, u64);

/// Handle of a leaf, valid until the leaf is removed.
pub type BVHLeafId = (usize, u64);

/// A node of the hierarchy, as stored in the node arena.
#[derive(Debug, Clone, Copy)]
pub enum BVHNode {
    Leaf { parent: Option<NodeId>, bounding: AABB, data: u64 },
    Internal { parent: Option<NodeId>, left: NodeId, right: NodeId, bounding: AABB },
}

impl BVHNode {
    pub open spec fn parent(self) -> Option<NodeId> {
        match self {
            BVHNode::Leaf { parent, .. } => parent,
            BVHNode::Internal { parent, .. } => parent,
        }
    }

    pub open spec fn bounding(self) -> AABB {
        match self {
            BVHNode::Leaf { bounding, .. } => bounding,
            BVHNode::Internal { bounding, .. } => bounding,
        }
    }

    pub open spec fn data(self) -> u64 {
        match self {
            BVHNode::Leaf { data, .. } => data,
            BVHNode::Internal { .. } => 0,
        }
    }

    pub open spec fn left(self) -> NodeId {
        match self {
            BVHNode::Internal { left, .. } => left,
            BVHNode::Leaf { .. } => (0, 0),
        }
    }

    pub open spec fn right(self) -> NodeId {
        match self {
            BVHNode::Internal { right, .. } => right,
            BVHNode::Leaf { .. } => (0, 0),
        }
    }

    pub open spec fn with_parent(self, p: Option<NodeId>) -> BVHNode {
        match self {
            BVHNode::Leaf { bounding, data, .. } => BVHNode::Leaf { parent: p, bounding, data },
            BVHNode::Internal { left, right, bounding, .. } => BVHNode::Internal {
                parent: p,
                left,
                right,
                bounding,
            },
        }
    }

    fn set_parent(&mut self, p: Option<NodeId>)
        ensures
            *final(self) == old(self).with_parent(p),
    {
        match self {
            BVHNode::Leaf { parent, .. } => {
                *parent = p;
            },
            BVHNode::Internal { parent, .. } => {
                *parent = p;
            },
        }
    }

    fn get_parent(&self) -> (r: Option<NodeId>)
        ensures
            r == self.parent(),
    {
        match self {
            BVHNode::Leaf { parent, .. } => *parent,
            BVHNode::Internal { parent, .. } => *parent,
        }
    }

    fn get_bounding(&self) -> (r: AABB)
        ensures
            r == self.bounding(),
    {
        match self {
            BVHNode::Leaf { bounding, .. } => *bounding,
            BVHNode::Internal { bounding, .. } => *bounding,
        }
    }
}

/// What an arena of nodes holds, by the raw parts of each live index.
pub uninterp spec fn arena_nodes(a: Arena<BVHNode>) -> Map<NodeId, BVHNode>;

/// Declares `generational_arena::Arena` to the verifier as an opaque type;
/// what an arena of nodes holds is `arena_nodes`.
#[verifier::external_type_specification]
#[verifier::external_body]
#[verifier::reject_recursive_types(T)]
pub struct ExArena<T>(Arena<T>);

/// Relies on `generational_arena::Arena::new`: a new arena holds nothing.
#[verifier::external_body]
fn arena_new() -> (r: Arena<BVHNode>)
    ensures
        forall|k: NodeId| !arena_nodes(r).contains_key(k),
{
    Arena::new()
}

/// Relies on `generational_arena::Arena::insert`: the value is stored under a
/// fresh index, one that no live entry holds, and nothing else changes.
#[verifier::external_body]
fn arena_insert(a: &mut Arena<BVHNode>, n: BVHNode) -> (k: NodeId)
    ensures
        !arena_nodes(*old(a)).contains_key(k),
        arena_nodes(*final(a)) == arena_nodes(*old(a)).insert(k, n),
{
    a.insert(n).into_raw_parts()
}

/// Relies on `generational_arena::Arena::remove`: a live entry is taken out and
/// returned; an index that is not live (never issued, or removed) gives `None`.
#[verifier::external_body]
fn arena_remove(a: &mut Arena<BVHNode>, k: NodeId) -> (r: Option<BVHNode>)
    ensures
        r == (if arena_nodes(*old(a)).contains_key(k) {
            Some(arena_nodes(*old(a))[k])
        } else {
            None
        }),
        arena_nodes(*final(a)) == arena_nodes(*old(a)).remove(k),
{
    a.remove(Index::from_raw_parts(k.0, k.1))
}

/// Relies on `generational_arena::Arena::get`: the entry of a live index, else `None`.
#[verifier::external_body]
fn arena_get(a: &Arena<BVHNode>, k: NodeId) -> (r: Option<BVHNode>)
    ensures
        r == (if arena_nodes(*a).contains_key(k) {
            Some(arena_nodes(*a)[k])
        } else {
            None
        }),
{
    a.get(Index::from_raw_parts(k.0, k.1)).copied()
}

/// Relies on `generational_arena::Arena`'s `IndexMut`: overwrites the entry of
/// a live index (it panics on an index that is not live, which `requires`
/// rules out).
#[verifier::external_body]
fn arena_set(a: &mut Arena<BVHNode>, k: NodeId, n: BVHNode)
    requires
        arena_nodes(*old(a)).contains_key(k),
    ensures
        arena_nodes(*final(a)) == arena_nodes(*old(a)).insert(k, n),
{
    a[Index::from_raw_parts(k.0, k.1)] = n;
}

fn same_id(a: NodeId, b: NodeId) -> (r: bool)
    ensures
        r == (a == b),
{
    a.0 == b.0 && a.1 == b.1
}

/// Internal node `n` with child `from` replaced by `to`.
pub open spec fn replace_child(n: BVHNode, from: NodeId, to: NodeId) -> BVHNode {
    BVHNode::Internal {
        parent: n.parent(),
        left: if n.left() == from { to } else { n.left() },
        right: if n.left() == from { n.right() } else { to },
        bounding: n.bounding(),
    }
}

/// Node map after leaf `l` is paired with a new leaf `n` under a new internal node `i`.
#[verifier::opaque]
pub open spec fn attached_map(
    m: Map<NodeId, BVHNode>,
    l: NodeId,
    n: NodeId,
    i: NodeId,
    data: u64,
    bounding: AABB,
) -> Map<NodeId, BVHNode> {
    let p = m[l].parent();
    let m1 = m.insert(n, BVHNode::Leaf { parent: Some(i), bounding, data }).insert(
        i,
        BVHNode::Internal { parent: p, left: l, right: n, bounding: m[l].bounding() },
    ).insert(l, m[l].with_parent(Some(i)));
    if p is Some {
        m1.insert(p->0, replace_child(m[p->0], l, i))
    } else {
        m1
    }
}

proof fn lemma_attached_map(
    m: Map<NodeId, BVHNode>,
    l: NodeId,
    n: NodeId,
    i: NodeId,
    data: u64,
    bounding: AABB,
)
    requires
        m.contains_key(l),
        !m.contains_key(n),
        !m.contains_key(i),
        n != i,
        m[l].parent() is Some ==> m.contains_key(m[l].parent()->0) && m[l].parent()->0 != l,
    ensures
        ({
            let m2 = attached_map(m, l, n, i, data, bounding);
            let p = m[l].parent();
            &&& forall|k: NodeId| #[trigger] m2.contains_key(k) <==> (m.contains_key(k) || k == n || k == i)
            &&& m2[n] == BVHNode::Leaf { parent: Some(i), bounding, data }
            &&& m2[i] == BVHNode::Internal { parent: p, left: l, right: n, bounding: m[l].bounding() }
            &&& m2[l] == m[l].with_parent(Some(i))
            &&& p is Some ==> m2[p->0] == replace_child(m[p->0], l, i)
            &&& forall|k: NodeId| #[trigger] m2.contains_key(k) && k != l && k != n && k != i && Some(k) != p ==> m2[k] == m[k]
        }),
{
    reveal(attached_map);
}

/// Leaf sets after leaf `l` is paired with a new leaf `n` under a new internal node `i`.
pub open spec fn attached_sub(
    s: Map<NodeId, Set<NodeId>>,
    dom: Set<NodeId>,
    l: NodeId,
    n: NodeId,
    i: NodeId,
) -> Map<NodeId, Set<NodeId>> {
    Map::new(
        |k: NodeId| dom.contains(k),
        |k: NodeId|
            if k == i {
                Set::empty().insert(l).insert(n)
            } else if k == n {
                Set::empty().insert(n)
            } else if k != l && s[k].contains(l) {
                s[k].insert(n)
            } else {
                s[k]
            },
    )
}

/// Node map after leaf `x` and its parent `p` are taken out and the sibling
/// `s` takes the parent's place under `g`.
#[verifier::opaque]
pub open spec fn detached_map(
    m: Map<NodeId, BVHNode>,
    x: NodeId,
    p: NodeId,
    s: NodeId,
    g: Option<NodeId>,
) -> Map<NodeId, BVHNode> {
    let m1 = m.remove(x).remove(p).insert(s, m[s].with_parent(g));
    if g is Some {
        m1.insert(g->0, replace_child(m[g->0], p, s))
    } else {
        m1
    }
}

proof fn lemma_detached_map(
    m: Map<NodeId, BVHNode>,
    x: NodeId,
    p: NodeId,
    s: NodeId,
    g: Option<NodeId>,
)
    requires
        m.contains_key(x),
        m.contains_key(p),
        m.contains_key(s),
        x != p && x != s && p != s,
        g is Some ==> m.contains_key(g->0) && g->0 != x && g->0 != p && g->0 != s,
    ensures
        ({
            let m2 = detached_map(m, x, p, s, g);
            &&& forall|k: NodeId| #[trigger] m2.contains_key(k) <==> (m.contains_key(k) && k != x && k != p)
            &&& m2[s] == m[s].with_parent(g)
            &&& g is Some ==> m2[g->0] == replace_child(m[g->0], p, s)
            &&& forall|k: NodeId| #[trigger] m2.contains_key(k) && k != s && Some(k) != g ==> m2[k] == m[k]
        }),
{
    reveal(detached_map);
}

/// Whether the boxes of nodes `x` and `y` overlap.
pub open spec fn node_overlap(m: Map<NodeId, BVHNode>, x: NodeId, y: NodeId) -> bool {
    m[x].bounding().overlaps(m[y].bounding())
}

/// `hs` lists, once each, the overlapping pairs with the first leaf in `a`
/// and the second in `b`.
pub open spec fn cross_listed(
    m: Map<NodeId, BVHNode>,
    hs: Seq<(NodeId, NodeId)>,
    a: Set<NodeId>,
    b: Set<NodeId>,
) -> bool {
    &&& forall|i: int|
        #![trigger hs[i]]
        0 <= i < hs.len() ==> a.contains(hs[i].0) && b.contains(hs[i].1) && node_overlap(
            m,
            hs[i].0,
            hs[i].1,
        )
    &&& forall|i: int, j: int| 0 <= i < j < hs.len() ==> #[trigger] hs[i] != #[trigger] hs[j]
    &&& forall|x: NodeId, y: NodeId|
        #![trigger a.contains(x), b.contains(y)]
        a.contains(x) && b.contains(y) && node_overlap(m, x, y) ==> exists|i: int|
            0 <= i < hs.len() && #[trigger] hs[i] == (x, y)
}

/// `hs` lists, once each and in one order only, the overlapping pairs of
/// distinct leaves in `s`.
pub open spec fn within_listed(
    m: Map<NodeId, BVHNode>,
    hs: Seq<(NodeId, NodeId)>,
    s: Set<NodeId>,
) -> bool {
    &&& forall|i: int|
        #![trigger hs[i]]
        0 <= i < hs.len() ==> s.contains(hs[i].0) && s.contains(hs[i].1) && hs[i].0
            != hs[i].1 && node_overlap(m, hs[i].0, hs[i].1)
    &&& forall|i: int, j: int|
        0 <= i < j < hs.len() ==> #[trigger] hs[i] != #[trigger] hs[j] && hs[i] != (hs[j].1, hs[j].0)
    &&& forall|x: NodeId, y: NodeId|
        #![trigger s.contains(x), s.contains(y)]
        s.contains(x) && s.contains(y) && x != y && node_overlap(m, x, y) ==> exists|i: int|
            0 <= i < hs.len() && (#[trigger] hs[i] == (x, y) || hs[i] == (y, x))
}

/// Leaves `a` and `b` of `v` are distinct and their boxes overlap.
pub open spec fn leaves_overlap(v: Map<BVHLeafId, (u64, AABB)>, a: BVHLeafId, b: BVHLeafId) -> bool {
    v.contains_key(a) && v.contains_key(b) && a != b && v[a].1.overlaps(v[b].1)
}

/// `hs` lists every unordered pair of overlapping leaves of `v` exactly once.
pub open spec fn lists_overlaps(v: Map<BVHLeafId, (u64, AABB)>, hs: Seq<(BVHLeafId, BVHLeafId)>) -> bool {
    &&& forall|i: int| 0 <= i < hs.len() ==> #[trigger] leaves_overlap(v, hs[i].0, hs[i].1)
    &&& forall|i: int, j: int|
        0 <= i < j < hs.len() ==> #[trigger] hs[i] != #[trigger] hs[j] && hs[i] != (hs[j].1, hs[j].0)
    &&& forall|a: BVHLeafId, b: BVHLeafId|
        #[trigger] leaves_overlap(v, a, b) ==> exists|i: int|
            0 <= i < hs.len() && (#[trigger] hs[i] == (a, b) || hs[i] == (b, a))
}

/// The payloads of each pair of leaves.
pub open spec fn payload_pairs(v: Map<BVHLeafId, (u64, AABB)>, hs: Seq<(BVHLeafId, BVHLeafId)>) -> Seq<(u64, u64)> {
    hs.map_values(|h: (BVHLeafId, BVHLeafId)| (v[h.0].0, v[h.1].0))
}

/// The leaves of `v` left after removing `ids[0]`, then `ids[1]`, and so on.
pub open spec fn remove_all(v: Map<BVHLeafId, (u64, AABB)>, ids: Seq<BVHLeafId>) -> Map<
    BVHLeafId,
    (u64, AABB),
>
    decreases ids.len(),
{
    if ids.len() == 0 {
        v
    } else {
        remove_all(v, ids.drop_last()).remove(ids.last())
    }
}

proof fn lemma_remove_all_dom(v: Map<BVHLeafId, (u64, AABB)>, ids: Seq<BVHLeafId>, k: BVHLeafId)
    ensures
        remove_all(v, ids).contains_key(k) == (v.contains_key(k) && !ids.contains(k)),
    decreases ids.len(),
{
    if ids.len() > 0 {
        lemma_remove_all_dom(v, ids.drop_last(), k);
        assert(ids.contains(k) == (ids.drop_last().contains(k) || ids.last() == k)) by {
            if ids.contains(k) {
                let i = choose|i: int| 0 <= i < ids.len() && ids[i] == k;
                if i < ids.len() - 1 {
                    assert(ids.drop_last()[i] == k);
                }
            }
            if ids.drop_last().contains(k) {
                let i = choose|i: int| 0 <= i < ids.drop_last().len() && ids.drop_last()[i] == k;
                assert(ids[i] == k);
            }
        }
    }
}

/// Removing every inserted leaf, in any order and whatever else was removed
/// in between, leaves the hierarchy without leaves: `remove` takes out
/// exactly its leaf, so the leaves left are those never removed.
pub proof fn lemma_remove_all_empties(v: Map<BVHLeafId, (u64, AABB)>, ids: Seq<BVHLeafId>)
    requires
        forall|k: BVHLeafId| v.contains_key(k) ==> ids.contains(k),
    ensures
        remove_all(v, ids) == Map::<BVHLeafId, (u64, AABB)>::empty(),
{
    assert forall|k: BVHLeafId| !#[trigger] remove_all(v, ids).contains_key(k) by {
        lemma_remove_all_dom(v, ids, k);
    }
    assert(remove_all(v, ids) =~= Map::<BVHLeafId, (u64, AABB)>::empty());
}

/// Collects items handed out by a query.
pub trait Storage<T> {
    /// The items stored so far, in order.
    spec fn stored(&self) -> Seq<T>;

    fn store(&mut self, item: T)
        ensures
            final(self).stored() == old(self).stored().push(item),
    ;
}

impl<T> Storage<T> for Vec<T> {
    open spec fn stored(&self) -> Seq<T> {
        self@
    }

    fn store(&mut self, item: T) {
        self.push(item);
    }
}

/// Dynamic bounding-volume hierarchy: a binary tree whose leaves carry a box
/// and a payload, and whose internal nodes carry the merge of their children's
/// boxes.
pub struct BVH {
    root: Option<NodeId>,
    nodes: Arena<BVHNode>,
    num_leaves: usize,
    /// For each node, the leaves of its subtree.
    sub: Ghost<Map<NodeId, Set<NodeId>>>,
}

pub open spec fn leaf_keys(m: Map<NodeId, BVHNode>) -> Set<NodeId> {
    Set::new(|k: NodeId| m.contains_key(k) && m[k] is Leaf)
}

impl View for BVH {
    type V = Map<BVHLeafId, (u64, AABB)>;

    /// The leaves, each with its payload and box.
    closed spec fn view(&self) -> Map<BVHLeafId, (u64, AABB)> {
        let m = arena_nodes(self.nodes);
        Map::new(
            |k: NodeId| m.contains_key(k) && m[k] is Leaf,
            |k: NodeId| (m[k].data(), m[k].bounding()),
        )
    }
}

impl BVH {
    closed spec fn nodes_map(&self) -> Map<NodeId, BVHNode> {
        arena_nodes(self.nodes)
    }

    closed spec fn child_ok(&self, k: NodeId) -> bool {
        let m = self.nodes_map();
        let s = self.sub@;
        let n = m[k];
        n is Internal ==> {
            &&& m.contains_key(n.left())
            &&& m.contains_key(n.right())
            &&& m[n.left()].parent() == Some(k)
            &&& m[n.right()].parent() == Some(k)
            &&& s[k] == s[n.left()] + s[n.right()]
            &&& s[n.left()].disjoint(s[n.right()])
        }
    }

    closed spec fn node_ok(&self, k: NodeId) -> bool {
        let m = self.nodes_map();
        let s = self.sub@;
        let n = m[k];
        &&& n is Leaf ==> s[k] == Set::empty().insert(k)
        &&& self.child_ok(k)
        &&& s[k].finite()
        &&& s[k].len() > 0
        &&& forall|j: NodeId| #[trigger] s[k].contains(j) ==> m.contains_key(j) && m[j] is Leaf
        &&& n.parent() is None ==> self.root == Some(k)
        &&& n.parent() is Some ==> {
            let p = n.parent()->0;
            &&& m.contains_key(p)
            &&& m[p] is Internal
            &&& (m[p].left() == k || m[p].right() == k)
        }
    }

    closed spec fn bound_ok(&self, k: NodeId) -> bool {
        let m = self.nodes_map();
        let n = m[k];
        n is Internal ==> n.bounding() == m[n.left()].bounding().merged(m[n.right()].bounding())
    }

    #[verifier::opaque]
    closed spec fn structure_ok(&self) -> bool {
        let m = self.nodes_map();
        let s = self.sub@;
        &&& m.dom().finite()
        &&& s.dom() == m.dom()
        &&& self.root is None ==> m.dom() == Set::<NodeId>::empty()
        &&& self.root is Some ==> {
            let r = self.root->0;
            &&& m.contains_key(r)
            &&& m[r].parent() is None
            &&& s[r] == leaf_keys(m)
        }
        &&& forall|k: NodeId| #[trigger] m.contains_key(k) ==> self.node_ok(k)
        &&& self.num_leaves == leaf_keys(m).len()
    }

    /// Every invariant holds, except possibly that the box of node `cur` is
    /// the merge of its children's.
    closed spec fn wf_except(&self, cur: NodeId) -> bool {
        &&& self.structure_ok()
        &&& forall|k: NodeId| #[trigger] self.nodes_map().contains_key(k) && k != cur ==> self.bound_ok(k)
    }

    /// The hierarchy's invariant.
    pub closed spec fn wf(&self) -> bool {
        &&& self.structure_ok()
        &&& forall|k: NodeId| #[trigger] self.nodes_map().contains_key(k) ==> self.bound_ok(k)
    }

    /// The invariant's clauses on the whole tree.
    closed spec fn top_ok(&self) -> bool {
        let m = self.nodes_map();
        let s = self.sub@;
        &&& m.dom().finite()
        &&& s.dom() == m.dom()
        &&& self.root is None ==> m.dom() == Set::<NodeId>::empty()
        &&& self.root is Some ==> {
            let r = self.root->0;
            &&& m.contains_key(r)
            &&& m[r].parent() is None
            &&& s[r] == leaf_keys(m)
        }
        &&& self.num_leaves == leaf_keys(m).len()
    }

    proof fn lemma_structure_elim(&self)
        requires
            self.structure_ok(),
        ensures
            self.top_ok(),
    {
        reveal(BVH::structure_ok);
    }

    proof fn lemma_structure_intro(&self)
        requires
            self.top_ok(),
            forall|k: NodeId| #[trigger] self.nodes_map().contains_key(k) ==> self.node_ok(k),
        ensures
            self.structure_ok(),
    {
        reveal(BVH::structure_ok);
    }

    proof fn lemma_node_ok(&self, k: NodeId)
        requires
            self.structure_ok(),
            self.nodes_map().contains_key(k),
        ensures
            self.node_ok(k),
    {
        reveal(BVH::structure_ok);
    }

    proof fn lemma_wf_from_except(&self, cur: NodeId)
        requires
            self.wf_except(cur),
            self.bound_ok(cur),
        ensures
            self.wf(),
    {
        assert forall|k: NodeId| #[trigger] self.nodes_map().contains_key(k) implies self.bound_ok(k) by {
            if k != cur {
            }
        }
    }

    proof fn lemma_view_dom(&self)
        ensures
            self@.dom() == leaf_keys(self.nodes_map()),
    {
        assert(self@.dom() =~= leaf_keys(self.nodes_map()));
    }

    /// Children of an internal node are distinct and have fewer leaves.
    proof fn lemma_children(&self, k: NodeId)
        requires
            self.structure_ok(),
            self.nodes_map().contains_key(k),
            self.nodes_map()[k] is Internal,
        ensures
            ({
                let n = self.nodes_map()[k];
                &&& n.left() != n.right()
                &&& self.sub@[n.left()].len() < self.sub@[k].len()
                &&& self.sub@[n.right()].len() < self.sub@[k].len()
            }),
    {
        reveal(BVH::structure_ok);
        let m = self.nodes_map();
        let n = m[k];
        assert(self.node_ok(k));
        assert(self.node_ok(n.left()));
        assert(self.node_ok(n.right()));
        let a = self.sub@[n.left()];
        let b = self.sub@[n.right()];
        lemma_set_disjoint_lens(a, b);
        lemma_set_empty_equivalency_len(a);
        if n.left() == n.right() {
            let x = choose|x: NodeId| a.contains(x);
            assert(false);
        }
    }

    /// Creates an empty hierarchy.
    pub fn new() -> (r: BVH)
        ensures
            r.wf(),
            r@ == Map::<BVHLeafId, (u64, AABB)>::empty(),
    {
        let r = BVH { root: None, nodes: arena_new(), num_leaves: 0, sub: Ghost(Map::empty()) };
        proof {
            reveal(BVH::structure_ok);
            assert(r.nodes_map().dom() =~= Set::empty());
            assert(leaf_keys(r.nodes_map()) =~= Set::empty());
            assert(r@ =~= Map::empty());
        }
        r
    }

    /// Number of leaves.
    pub fn len(&self) -> (r: usize)
        requires
            self.wf(),
        ensures
            r == self@.len(),
    {
        proof {
            reveal(BVH::structure_ok);
            self.lemma_view_dom();
        }
        self.num_leaves
    }

    /// Whether the hierarchy has no leaves.
    pub fn is_empty(&self) -> (r: bool)
        requires
            self.wf(),
        ensures
            r == (self@.len() == 0),
    {
        proof {
            reveal(BVH::structure_ok);
            self.lemma_view_dom();
        }
        self.num_leaves == 0
    }
    /// Restores the box of `id` and of its ancestors to the merge of their
    /// children's boxes, going up until a box is unchanged.
    fn recalculate_bounding_volume(&mut self, id: NodeId)
        requires
            old(self).wf_except(id),
            old(self).nodes_map().contains_key(id),
        ensures
            final(self).wf(),
            final(self)@ == old(self)@,
            final(self).root == old(self).root,
            final(self).nodes_map().dom() == old(self).nodes_map().dom(),
    {
        let ghost pre = *self;
        let mut cur = id;
        loop
            invariant
                self.wf_except(cur),
                self.nodes_map().contains_key(cur),
                self@ == pre@,
                self.root == pre.root,
                self.nodes_map().dom() == pre.nodes_map().dom(),
            ensures
                self.wf(),
                self@ == pre@,
                self.root == pre.root,
                self.nodes_map().dom() == pre.nodes_map().dom(),
            decreases self.num_leaves - self.sub@[cur].len(),
        {
            proof {
                self.lemma_node_ok(cur);
            }
            let node = arena_get(&self.nodes, cur).unwrap();
            match node {
                BVHNode::Leaf { .. } => {
                    proof {
                        self.lemma_wf_from_except(cur);
                    }
                    break;
                },
                BVHNode::Internal { parent, left, right, bounding } => {
                    let lb = arena_get(&self.nodes, left).unwrap().get_bounding();
                    let rb = arena_get(&self.nodes, right).unwrap().get_bounding();
                    let new_bounding = lb.merge(&rb);
                    if new_bounding == bounding {
                        proof {
                            self.lemma_wf_from_except(cur);
                        }
                        break;
                    }
                    let ghost before = *self;
                    arena_set(
                        &mut self.nodes,
                        cur,
                        BVHNode::Internal { parent, left, right, bounding: new_bounding },
                    );
                    proof {
                        self.lemma_set_internal_bounding(before, cur);
                    }
                    match parent {
                        None => {
                            break;
                        },
                        Some(p) => {
                            proof {
                                self.lemma_node_ok(cur);
                                self.lemma_node_ok(p);
                                self.lemma_children(p);
                                self.lemma_sub_bounded(p);
                            }
                            cur = p;
                        },
                    }
                },
            }
        }
    }

    /// The leaves under a node are at most all the leaves.
    proof fn lemma_sub_bounded(&self, k: NodeId)
        requires
            self.structure_ok(),
            self.nodes_map().contains_key(k),
        ensures
            self.sub@[k].len() <= self.num_leaves,
    {
        reveal(BVH::structure_ok);
        assert(self.node_ok(k));
        assert(self.sub@[k].subset_of(leaf_keys(self.nodes_map())));
        assert(leaf_keys(self.nodes_map()).subset_of(self.nodes_map().dom()));
        lemma_len_subset(leaf_keys(self.nodes_map()), self.nodes_map().dom());
        lemma_len_subset(self.sub@[k], leaf_keys(self.nodes_map()));
    }

    /// Giving internal node `cur` the merge of its children's boxes keeps the
    /// structure; only its parent's box may then be stale.
    proof fn lemma_set_internal_bounding(&self, before: BVH, cur: NodeId)
        requires
            before.wf_except(cur),
            before.nodes_map().contains_key(cur),
            before.nodes_map()[cur] is Internal,
            self.root == before.root,
            self.num_leaves == before.num_leaves,
            self.sub == before.sub,
            ({
                let n = before.nodes_map()[cur];
                let m = before.nodes_map();
                self.nodes_map() == m.insert(
                    cur,
                    BVHNode::Internal {
                        parent: n.parent(),
                        left: n.left(),
                        right: n.right(),
                        bounding: m[n.left()].bounding().merged(m[n.right()].bounding()),
                    },
                )
            }),
        ensures
            self@ == before@,
            self.nodes_map().dom() == before.nodes_map().dom(),
            before.nodes_map()[cur].parent() is None ==> self.wf(),
            before.nodes_map()[cur].parent() is Some ==> self.wf_except(
                before.nodes_map()[cur].parent()->0,
            ),
    {
        reveal(BVH::structure_ok);
        let m = before.nodes_map();
        let m2 = self.nodes_map();
        assert(m2.dom() =~= m.dom());
        assert(leaf_keys(m2) =~= leaf_keys(m));
        assert(self@ =~= before@);
        assert forall|k: NodeId| #[trigger] m2.contains_key(k) implies self.node_ok(k) by {
            assert(before.node_ok(k));
            if m[k] is Internal {
                assert(before.node_ok(m[k].left()));
                assert(before.node_ok(m[k].right()));
            }
        }
        assert forall|k: NodeId|
            #[trigger] m2.contains_key(k) && k != cur && Some(k) != m[cur].parent() implies self.bound_ok(k) by {
            assert(before.bound_ok(k));
            assert(before.node_ok(k));
            if m[k] is Internal {
                assert(before.node_ok(m[k].left()));
                assert(before.node_ok(m[k].right()));
                assert(m[k].left() != cur);
                assert(m[k].right() != cur);
            }
        }
        assert(self.bound_ok(cur));
        if m[cur].parent() is None {
            assert forall|k: NodeId| #[trigger] m2.contains_key(k) implies self.bound_ok(k) by {
                if k != cur {
                    assert(Some(k) != m[cur].parent());
                }
            }
        }
    }
    /// Inserts a leaf carrying `data` and `bounding`, and returns its handle.
    /// Descends from the root, at each internal node towards the child whose
    /// box grows less in volume, and pairs the leaf reached with the new one.
    pub fn insert(&mut self, data: u64, bounding: AABB) -> (id: BVHLeafId)
        requires
            old(self).wf(),
            old(self)@.len() < usize::MAX,
        ensures
            final(self).wf(),
            !old(self)@.contains_key(id),
            final(self)@ == old(self)@.insert(id, (data, bounding)),
    {
        match self.root {
            None => {
                let ghost pre = *self;
                let id = arena_insert(&mut self.nodes, BVHNode::Leaf { parent: None, bounding, data });
                self.root = Some(id);
                self.num_leaves = 1;
                self.sub = Ghost(Map::empty().insert(id, Set::empty().insert(id)));
                proof {
                    reveal(BVH::structure_ok);
                    let m = self.nodes_map();
                    assert(pre.nodes_map().dom() =~= Set::empty());
                    assert(m.dom() =~= Set::empty().insert(id));
                    assert(leaf_keys(m) =~= Set::empty().insert(id));
                    assert(self.sub@.dom() =~= m.dom());
                    assert(self.node_ok(id));
                    assert(self@ =~= pre@.insert(id, (data, bounding)));
                }
                id
            },
            Some(root) => {
                let mut cur = root;
                proof {
                    reveal(BVH::structure_ok);
                }
                loop
                    invariant
                        self.wf(),
                        self.nodes_map().contains_key(cur),
                    ensures
                        self.nodes_map().contains_key(cur),
                        self.nodes_map()[cur] is Leaf,
                    decreases self.sub@[cur].len(),
                {
                    proof {
                        self.lemma_node_ok(cur);
                    }
                    let node = arena_get(&self.nodes, cur).unwrap();
                    match node {
                        BVHNode::Leaf { .. } => {
                            break;
                        },
                        BVHNode::Internal { left, right, .. } => {
                            proof {
                                self.lemma_children(cur);
                            }
                            let lb = arena_get(&self.nodes, left).unwrap().get_bounding();
                            let rb = arena_get(&self.nodes, right).unwrap().get_bounding();
                            let left_delta = lb.merge(&bounding).volume() - lb.volume();
                            let right_delta = rb.merge(&bounding).volume() - rb.volume();
                            if left_delta < right_delta {
                                cur = left;
                            } else {
                                cur = right;
                            }
                        },
                    }
                }
                self.attach_to_leaf(cur, data, bounding)
            },
        }
    }

    /// Pairs leaf `leaf_id` with a new leaf under a new internal node that
    /// takes the old leaf's place, then refreshes the boxes above.
    fn attach_to_leaf(&mut self, leaf_id: NodeId, data: u64, bounding: AABB) -> (id: BVHLeafId)
        requires
            old(self).wf(),
            old(self).nodes_map().contains_key(leaf_id),
            old(self).nodes_map()[leaf_id] is Leaf,
            old(self)@.len() < usize::MAX,
        ensures
            final(self).wf(),
            !old(self)@.contains_key(id),
            final(self)@ == old(self)@.insert(id, (data, bounding)),
    {
        let ghost pre = *self;
        proof {
            self.lemma_node_ok(leaf_id);
            self.lemma_view_dom();
            reveal(BVH::structure_ok);
        }
        let leaf = arena_get(&self.nodes, leaf_id).unwrap();
        let parent = leaf.get_parent();
        let new_leaf_id = arena_insert(&mut self.nodes, BVHNode::Leaf { parent: None, bounding, data });
        let internal_id = arena_insert(
            &mut self.nodes,
            BVHNode::Internal {
                parent,
                left: leaf_id,
                right: new_leaf_id,
                bounding: leaf.get_bounding(),
            },
        );
        match parent {
            Some(p) => {
                proof {
                    pre.lemma_node_ok(p);
                }
                let pn = arena_get(&self.nodes, p).unwrap();
                if let BVHNode::Internal { parent: pp, left, right, bounding: pb } = pn {
                    if same_id(left, leaf_id) {
                        arena_set(
                            &mut self.nodes,
                            p,
                            BVHNode::Internal { parent: pp, left: internal_id, right, bounding: pb },
                        );
                    } else {
                        arena_set(
                            &mut self.nodes,
                            p,
                            BVHNode::Internal { parent: pp, left, right: internal_id, bounding: pb },
                        );
                    }
                }
            },
            None => {
                self.root = Some(internal_id);
            },
        }
        let mut moved = leaf;
        moved.set_parent(Some(internal_id));
        arena_set(&mut self.nodes, leaf_id, moved);
        arena_set(
            &mut self.nodes,
            new_leaf_id,
            BVHNode::Leaf { parent: Some(internal_id), bounding, data },
        );
        self.num_leaves = self.num_leaves + 1;
        self.sub = Ghost(
            attached_sub(pre.sub@, self.nodes_map().dom(), leaf_id, new_leaf_id, internal_id),
        );
        proof {
            let m = pre.nodes_map();
            assert(self.nodes_map() =~= attached_map(
                m,
                leaf_id,
                new_leaf_id,
                internal_id,
                data,
                bounding,
            )) by {
                reveal(attached_map);
            }
            self.lemma_attached(pre, leaf_id, new_leaf_id, internal_id, data, bounding);
        }
        self.recalculate_bounding_volume(internal_id);
        new_leaf_id
    }

    /// What holds of the states around pairing leaf `l` with a new leaf `n`
    /// under a new internal node `i`.
    closed spec fn attach_step(
        &self,
        pre: BVH,
        l: NodeId,
        n: NodeId,
        i: NodeId,
        data: u64,
        bounding: AABB,
    ) -> bool {
        &&& pre.wf()
        &&& pre.nodes_map().contains_key(l)
        &&& pre.nodes_map()[l] is Leaf
        &&& !pre.nodes_map().contains_key(n)
        &&& !pre.nodes_map().insert(n, BVHNode::Leaf { parent: None, bounding, data }).contains_key(i)
        &&& self.nodes_map() == attached_map(pre.nodes_map(), l, n, i, data, bounding)
        &&& self.sub@ == attached_sub(pre.sub@, self.nodes_map().dom(), l, n, i)
        &&& self.num_leaves == pre.num_leaves + 1
        &&& pre.nodes_map()[l].parent() is None ==> self.root == Some(i)
        &&& pre.nodes_map()[l].parent() is Some ==> self.root == pre.root
    }

    proof fn lemma_attached_node(
        &self,
        pre: BVH,
        l: NodeId,
        n: NodeId,
        i: NodeId,
        data: u64,
        bounding: AABB,
        k: NodeId,
    )
        requires
            self.attach_step(pre, l, n, i, data, bounding),
            self.nodes_map().contains_key(k),
            pre.node_ok(l),
            pre.nodes_map()[l].parent() is Some ==> pre.node_ok(pre.nodes_map()[l].parent()->0),
            pre.nodes_map().contains_key(k) ==> pre.node_ok(k),
            ({
                let m2 = self.nodes_map();
                let m = pre.nodes_map();
                let p = m[l].parent();
                &&& forall|k: NodeId| #[trigger] m2.contains_key(k) <==> (m.contains_key(k) || k == n || k == i)
                &&& m2[n] == BVHNode::Leaf { parent: Some(i), bounding, data }
                &&& m2[i] == BVHNode::Internal { parent: p, left: l, right: n, bounding: m[l].bounding() }
                &&& m2[l] == m[l].with_parent(Some(i))
                &&& p is Some ==> m2[p->0] == replace_child(m[p->0], l, i)
                &&& forall|k: NodeId| #[trigger] m2.contains_key(k) && k != l && k != n && k != i && Some(k) != p ==> m2[k] == m[k]
            }),
        ensures
            self.node_ok(k),
    {
        let m = pre.nodes_map();
        let m2 = self.nodes_map();
        let s = pre.sub@;
        let s2 = self.sub@;
        let p = m[l].parent();
        if k == n {
            assert(s2[k] == Set::empty().insert(n));
            assert(m2[i].right() == n);
            assert(self.node_ok(k));
        } else if k == i {
            assert(s2[l] == Set::empty().insert(l));
            assert(s2[n] == Set::empty().insert(n));
            assert(s2[i] =~= s2[l] + s2[n]);
            assert(s2[i].len() == 2) by {
                assert(s2[i] == Set::empty().insert(l).insert(n));
            }
            assert forall|j: NodeId| #[trigger] s2[i].contains(j) implies m2.contains_key(j) && m2[j] is Leaf by {
            }
            assert(self.child_ok(k));
            if p is Some {
                assert(m2.contains_key(p->0));
                assert(m2[p->0] == replace_child(m[p->0], l, i));
            }
            assert(self.node_ok(k));
        } else if k == l {
            assert(s2[l] == s[l]);
            assert(m2[i].left() == l);
            assert(self.node_ok(k));
        } else {
            assert(s[k].contains(l) ==> s2[k] == s[k].insert(n));
            assert(!s[k].contains(l) ==> s2[k] == s[k]);
            assert forall|j: NodeId| #[trigger] s2[k].contains(j) implies m2.contains_key(j) && m2[j] is Leaf by {
                if j != n {
                    assert(s[k].contains(j));
                    assert(m.contains_key(j) && m[j] is Leaf);
                    assert(m2.contains_key(j));
                    if j != l {
                        assert(j != i);
                        assert(Some(j) != p);
                        assert(m2[j] == m[j]);
                    }
                }
            }
            if m[k] is Internal {
                let a = m[k].left();
                let b = m[k].right();
                assert(a != n && a != i && b != n && b != i);
                assert(m2.contains_key(a) && m2.contains_key(b));
                if Some(a) == p {
                    assert(m2[a] == replace_child(m[a], l, i));
                } else if a != l {
                    assert(m2[a] == m[a]);
                }
                if Some(b) == p {
                    assert(m2[b] == replace_child(m[b], l, i));
                } else if b != l {
                    assert(m2[b] == m[b]);
                }
                pre.lemma_node_ok(a);
                pre.lemma_node_ok(b);
                assert(!s[a].contains(n));
                assert(!s[b].contains(n));
                if p is Some && k == p->0 {
                    let c = if a == l { b } else { a };
                    assert(m2[c].parent() == m[c].parent());
                    assert(s[c].contains(l) == false);
                    assert(s2[c] == s[c]);
                    assert(s2[i] == Set::empty().insert(l).insert(n));
                    assert(s[l] == Set::empty().insert(l));
                    if a == l {
                        assert(s2[k] =~= s2[i] + s2[c]);
                    } else {
                        assert(s2[k] =~= s2[c] + s2[i]);
                    }
                    assert(self.child_ok(k));
                } else {
                    assert(a != l && b != l);
                    assert(m2[a].parent() == m[a].parent());
                    assert(m2[b].parent() == m[b].parent());
                    if s[k].contains(l) {
                        if s[a].contains(l) {
                            assert(s2[a] == s[a].insert(n));
                            assert(s2[b] == s[b]);
                        } else {
                            assert(s2[b] == s[b].insert(n));
                            assert(s2[a] == s[a]);
                        }
                        assert(s2[k] =~= s2[a] + s2[b]);
                    } else {
                        assert(s2[a] == s[a]);
                        assert(s2[b] == s[b]);
                    }
                    assert(self.child_ok(k));
                }
            }
            if m[k].parent() is None {
                assert(pre.root == Some(k)) by {
                    reveal(BVH::structure_ok);
                }
                assert(p is Some);
            } else {
                let q = m[k].parent()->0;
                pre.lemma_node_ok(q);
                assert(m2.contains_key(q));
                if Some(q) == p {
                    assert(m2[q] == replace_child(m[q], l, i));
                } else {
                    assert(q != l && q != n && q != i);
                    assert(m2[q] == m[q]);
                }
            }
            assert(self.node_ok(k));
        }
    }

    proof fn lemma_attached(
        &self,
        pre: BVH,
        l: NodeId,
        n: NodeId,
        i: NodeId,
        data: u64,
        bounding: AABB,
    )
        requires
            self.attach_step(pre, l, n, i, data, bounding),
        ensures
            self.wf_except(i),
            self.nodes_map().contains_key(i),
            self@ == pre@.insert(n, (data, bounding)),
    {
        let m = pre.nodes_map();
        let m2 = self.nodes_map();
        let s = pre.sub@;
        let s2 = self.sub@;
        assert(pre.node_ok(l)) by {
            pre.lemma_node_ok(l);
        }
        let p = m[l].parent();
        if p is Some {
            pre.lemma_node_ok(p->0);
        }
        assert(n != i);
        lemma_attached_map(m, l, n, i, data, bounding);
        assert(m2.dom() =~= m.dom().insert(n).insert(i));
        assert forall|k: NodeId| #[trigger] leaf_keys(m2).contains(k) == leaf_keys(m).insert(n).contains(k) by {
            if m.contains_key(k) && k != l && Some(k) != p {
                assert(k != n && k != i);
                assert(m2.contains_key(k));
                assert(m2[k] == m[k]);
            }
        }
        assert(leaf_keys(m2) =~= leaf_keys(m).insert(n));
        assert forall|k: NodeId| #[trigger] self@.contains_key(k) implies self@[k] == pre@.insert(n, (data, bounding))[k] by {
            if m.contains_key(k) && k != l && Some(k) != p {
                assert(k != n && k != i);
                assert(m2.contains_key(k));
                assert(m2[k] == m[k]);
            }
        }
        assert(self@ =~= pre@.insert(n, (data, bounding)));
        assert forall|k: NodeId| #[trigger] m2.contains_key(k) implies self.node_ok(k) by {
            if m.contains_key(k) {
                pre.lemma_node_ok(k);
            }
            self.lemma_attached_node(pre, l, n, i, data, bounding, k);
        }
        pre.lemma_structure_elim();
        assert(s2.dom() =~= m2.dom());
        if self.root == Some(i) {
            assert(pre.root == Some(l));
            assert(leaf_keys(m) =~= Set::empty().insert(l)) by {
                assert(s[l] == Set::empty().insert(l));
            }
            assert(s2[i] =~= leaf_keys(m2));
        } else {
            let r = pre.root->0;
            pre.lemma_node_ok(r);
            assert(m2.contains_key(r));
            if Some(r) == p {
                assert(m2[r] == replace_child(m[r], l, i));
            } else {
                assert(r != n && r != i);
                assert(m2[r] == m[r]);
            }
            assert(r != l);
            assert(s[r].contains(l));
            assert(s2[r] =~= leaf_keys(m2));
        }
        assert(m2.dom().finite());
        lemma_len_subset(leaf_keys(m), m.dom());
        assert(!leaf_keys(m).contains(n));
        assert(self.num_leaves == leaf_keys(m2).len());
        assert(self.top_ok());
        self.lemma_structure_intro();
        assert forall|k: NodeId| #[trigger] m2.contains_key(k) && k != i implies self.bound_ok(k) by {
            if k != n && k != l {
                assert(pre.bound_ok(k));
                pre.lemma_node_ok(k);
                if m[k] is Internal {
                    pre.lemma_node_ok(m[k].left());
                    pre.lemma_node_ok(m[k].right());
                }
            }
        }
    }
    /// Removes the leaf `id` and returns its payload; `None`, with nothing
    /// changed, when `id` is not a live leaf. The leaf's sibling takes the
    /// place of their parent, and the boxes above are refreshed.
    pub fn remove(&mut self, id: BVHLeafId) -> (r: Option<u64>)
        requires
            old(self).wf(),
        ensures
            final(self).wf(),
            r == (if old(self)@.contains_key(id) {
                Some(old(self)@[id].0)
            } else {
                None
            }),
            final(self)@ == old(self)@.remove(id),
    {
        let ghost pre = *self;
        proof {
            self.lemma_view_dom();
        }
        let node = arena_get(&self.nodes, id);
        let (parent, data) = match node {
            Some(BVHNode::Leaf { parent, data, .. }) => (parent, data),
            _ => {
                proof {
                    assert(self@ =~= pre@.remove(id));
                }
                return None;
            },
        };
        proof {
            self.lemma_node_ok(id);
            self.lemma_structure_elim();
            lemma_len_subset(leaf_keys(self.nodes_map()), self.nodes_map().dom());
            lemma_len_subset(Set::empty().insert(id), leaf_keys(self.nodes_map()));
        }
        match parent {
            None => {
                arena_remove(&mut self.nodes, id);
                self.root = None;
                self.num_leaves = 0;
                self.sub = Ghost(Map::empty());
                proof {
                    pre.lemma_only_root(id);
                    assert(self.nodes_map().dom() =~= Set::empty());
                    assert(leaf_keys(self.nodes_map()) =~= Set::empty());
                    assert(self@ =~= pre@.remove(id));
                    assert(self.top_ok());
                    self.lemma_structure_intro();
                }
            },
            Some(p) => {
                proof {
                    pre.lemma_node_ok(p);
                    pre.lemma_children(p);
                }
                let pn = arena_get(&self.nodes, p).unwrap();
                let (grand, left, right) = match pn {
                    BVHNode::Internal { parent, left, right, .. } => (parent, left, right),
                    BVHNode::Leaf { .. } => {
                        proof {
                            assert(false);
                        }
                        return None;
                    },
                };
                let sibling = if same_id(left, id) {
                    right
                } else {
                    left
                };
                proof {
                    pre.lemma_node_ok(sibling);
                    if grand is Some {
                        pre.lemma_node_ok(grand->0);
                        pre.lemma_children(grand->0);
                        if pre.nodes_map()[sibling] is Internal {
                            pre.lemma_children(sibling);
                        }
                    }
                }
                arena_remove(&mut self.nodes, id);
                arena_remove(&mut self.nodes, p);
                let mut sn = arena_get(&self.nodes, sibling).unwrap();
                sn.set_parent(grand);
                arena_set(&mut self.nodes, sibling, sn);
                match grand {
                    Some(g) => {
                        let gn = arena_get(&self.nodes, g).unwrap();
                        if let BVHNode::Internal { parent: gp, left: gl, right: gr, bounding: gb } = gn {
                            if same_id(gl, p) {
                                arena_set(
                                    &mut self.nodes,
                                    g,
                                    BVHNode::Internal { parent: gp, left: sibling, right: gr, bounding: gb },
                                );
                            } else {
                                arena_set(
                                    &mut self.nodes,
                                    g,
                                    BVHNode::Internal { parent: gp, left: gl, right: sibling, bounding: gb },
                                );
                            }
                        }
                    },
                    None => {
                        self.root = Some(sibling);
                    },
                }
                self.num_leaves = self.num_leaves - 1;
                self.sub = Ghost(
                    Map::new(
                        |k: NodeId| self.nodes_map().contains_key(k),
                        |k: NodeId| pre.sub@[k].remove(id),
                    ),
                );
                proof {
                    assert(self.nodes_map() =~= detached_map(pre.nodes_map(), id, p, sibling, grand))
                        by {
                        reveal(detached_map);
                    }
                    self.lemma_detached(pre, id, p, sibling, grand);
                }
                match grand {
                    Some(g) => {
                        self.recalculate_bounding_volume(g);
                    },
                    None => {},
                }
            },
        }
        Some(data)
    }

    /// A leaf without a parent is the only node.
    proof fn lemma_only_root(&self, x: NodeId)
        requires
            self.wf(),
            self.nodes_map().contains_key(x),
            self.nodes_map()[x] is Leaf,
            self.nodes_map()[x].parent() is None,
        ensures
            self.nodes_map().dom() == Set::empty().insert(x),
            leaf_keys(self.nodes_map()) == Set::empty().insert(x),
            self.num_leaves == 1,
    {
        self.lemma_structure_elim();
        self.lemma_node_ok(x);
        let m = self.nodes_map();
        assert(self.root == Some(x));
        assert(leaf_keys(m) =~= Set::empty().insert(x));
        assert(Set::empty().insert(x).len() == 1);
        assert forall|k: NodeId| #[trigger] m.contains_key(k) implies k == x by {
            self.lemma_node_ok(k);
            if m[k] is Internal {
                self.lemma_children(k);
                self.lemma_sub_bounded(k);
                self.lemma_node_ok(m[k].left());
                assert(false);
            } else {
                assert(leaf_keys(m).contains(k));
            }
        }
        assert(m.dom() =~= Set::empty().insert(x));
    }

    /// What holds of the states around taking out leaf `x` and its parent `p`.
    closed spec fn detach_step(
        &self,
        pre: BVH,
        x: NodeId,
        p: NodeId,
        sib: NodeId,
        g: Option<NodeId>,
    ) -> bool {
        let m = pre.nodes_map();
        &&& pre.wf()
        &&& m.contains_key(x)
        &&& m[x] is Leaf
        &&& m[x].parent() == Some(p)
        &&& m.contains_key(p)
        &&& m[p] is Internal
        &&& (m[p].left() == x && m[p].right() == sib || m[p].right() == x && m[p].left() == sib)
        &&& m[p].parent() == g
        &&& self.nodes_map() == detached_map(m, x, p, sib, g)
        &&& self.sub@ == Map::new(
            |k: NodeId| self.nodes_map().contains_key(k),
            |k: NodeId| pre.sub@[k].remove(x),
        )
        &&& self.num_leaves == pre.num_leaves - 1
        &&& (g is None ==> self.root == Some(sib))
        &&& (g is Some ==> self.root == pre.root)
    }

    proof fn lemma_detached_node(
        &self,
        pre: BVH,
        x: NodeId,
        p: NodeId,
        sib: NodeId,
        g: Option<NodeId>,
        k: NodeId,
    )
        requires
            self.detach_step(pre, x, p, sib, g),
            self.nodes_map().contains_key(k),
            x != p && x != sib && p != sib,
            g is Some ==> pre.nodes_map().contains_key(g->0) && g->0 != x && g->0 != p && g->0 != sib,
            g is Some ==> pre.node_ok(g->0),
            pre.node_ok(p),
            pre.node_ok(sib),
            pre.node_ok(x),
            pre.node_ok(k),
            g is Some && pre.nodes_map()[sib] is Internal ==> pre.nodes_map()[sib].left() != g->0
                && pre.nodes_map()[sib].right() != g->0,
            pre.nodes_map()[k].parent() is Some ==> pre.node_ok(pre.nodes_map()[k].parent()->0),
            ({
                let m2 = self.nodes_map();
                let m = pre.nodes_map();
                &&& forall|k: NodeId| #[trigger] m2.contains_key(k) <==> (m.contains_key(k) && k != x && k != p)
                &&& m2[sib] == m[sib].with_parent(g)
                &&& g is Some ==> m2[g->0] == replace_child(m[g->0], p, sib)
                &&& forall|k: NodeId| #[trigger] m2.contains_key(k) && k != sib && Some(k) != g ==> m2[k] == m[k]
            }),
        ensures
            self.node_ok(k),
    {
        let m = pre.nodes_map();
        let m2 = self.nodes_map();
        let s = pre.sub@;
        let s2 = self.sub@;
        assert(s2[k] == s[k].remove(x));
        // leaves under k, still leaves
        assert forall|j: NodeId| #[trigger] s2[k].contains(j) implies m2.contains_key(j) && m2[j] is Leaf by {
            assert(s[k].contains(j));
            assert(m.contains_key(j) && m[j] is Leaf);
            assert(j != p);
            assert(m2.contains_key(j));
            if j != sib && Some(j) != g {
                assert(m2[j] == m[j]);
            }
        }
        if m[k] is Leaf {
            assert(k != x);
            assert(s2[k] =~= s[k]);
        } else {
            let a = m[k].left();
            let b = m[k].right();
            pre.lemma_node_ok(a);
            pre.lemma_node_ok(b);
            let a2 = m2[k].left();
            let b2 = m2[k].right();
            if Some(k) == g {
                assert(m2[k] == replace_child(m[k], p, sib));
                let o = if a == p { b } else { a };
                assert(o != x && o != p);
                assert(m2.contains_key(o));
                if o != sib {
                    assert(m2[o] == m[o]);
                }
                assert(o != sib);
                assert(s2[sib] =~= s[sib]);
                assert(s2[o] =~= s[o]);
                assert(s[p] =~= s[x] + s[sib] || s[p] =~= s[sib] + s[x]);
                assert(s[x] =~= Set::empty().insert(x));
                if a == p {
                    assert(s2[k] =~= s2[sib] + s2[o]);
                } else {
                    assert(s2[k] =~= s2[o] + s2[sib]);
                }
                lemma_len_subset(s2[o], s2[k]);
                assert(self.child_ok(k));
            } else {
                assert(a != p && b != p && a != x && b != x);
                if k == sib {
                    assert(m2[k] == m[k].with_parent(g));
                } else {
                    assert(m2[k] == m[k]);
                }
                assert(m2[k].left() == a && m2[k].right() == b && m2[k] is Internal);
                assert(m2.contains_key(a) && m2.contains_key(b));
                if a != sib && Some(a) != g {
                    assert(m2[a] == m[a]);
                }
                if b != sib && Some(b) != g {
                    assert(m2[b] == m[b]);
                }
                assert(a != sib && b != sib);
                assert(s2[a] =~= s[a].remove(x));
                assert(s2[b] =~= s[b].remove(x));
                assert(s2[k] =~= s2[a] + s2[b]);
                if s[a].contains(x) {
                    assert(s2[b] =~= s[b]);
                    lemma_len_subset(s2[b], s2[k]);
                } else {
                    assert(s2[a] =~= s[a]);
                    lemma_len_subset(s2[a], s2[k]);
                }
                assert(self.child_ok(k));
            }
        }
        // parent link
        if k == sib {
            if g is Some {
                assert(m2.contains_key(g->0));
            } else {
                assert(self.root == Some(k));
            }
        } else if m[k].parent() is Some {
            let q = m[k].parent()->0;
            assert(q != x);
            assert(q != p);
            assert(m2.contains_key(q));
            if Some(q) == g {
                assert(m2[q] == replace_child(m[q], p, sib));
            } else if q == sib {
                assert(m2[q] == m[q].with_parent(g));
            } else {
                assert(m2[q] == m[q]);
            }
            if Some(k) == g {
                assert(m2[k].parent() == m[k].parent());
            } else {
                assert(m2[k] == m[k]);
            }
        } else {
            assert(pre.root == Some(k)) by {
                reveal(BVH::structure_ok);
            }
            assert(g is Some);
            if Some(k) == g {
                assert(m2[k].parent() == m[k].parent());
            } else {
                assert(m2[k] == m[k]);
            }
        }
    }

    proof fn lemma_detached(&self, pre: BVH, x: NodeId, p: NodeId, sib: NodeId, g: Option<NodeId>)
        requires
            self.detach_step(pre, x, p, sib, g),
        ensures
            g is Some ==> self.wf_except(g->0) && self.nodes_map().contains_key(g->0),
            g is None ==> self.wf(),
            self@ == pre@.remove(x),
    {
        let m = pre.nodes_map();
        let m2 = self.nodes_map();
        let s = pre.sub@;
        let s2 = self.sub@;
        pre.lemma_node_ok(x);
        pre.lemma_node_ok(p);
        pre.lemma_children(p);
        pre.lemma_node_ok(sib);
        pre.lemma_structure_elim();
        if g is Some {
            pre.lemma_node_ok(g->0);
            pre.lemma_children(g->0);
            assert(g->0 != sib);
            assert(s[sib].len() < s[p].len());
            assert(s[p].len() < s[g->0].len());
            if m[sib] is Internal {
                pre.lemma_children(sib);
                assert(m[sib].left() != g->0);
                assert(m[sib].right() != g->0);
            }
        }
        lemma_detached_map(m, x, p, sib, g);
        assert forall|k: NodeId| #[trigger] m2.contains_key(k) implies self.node_ok(k) by {
            pre.lemma_node_ok(k);
            if m[k].parent() is Some {
                pre.lemma_node_ok(m[k].parent()->0);
            }
            self.lemma_detached_node(pre, x, p, sib, g, k);
        }
        assert(m2.dom() =~= m.dom().remove(x).remove(p));
        assert forall|k: NodeId| #[trigger] leaf_keys(m2).contains(k) == leaf_keys(m).remove(x).contains(k) by {
            if m2.contains_key(k) && k != sib && Some(k) != g {
                assert(m2[k] == m[k]);
            }
        }
        assert(leaf_keys(m2) =~= leaf_keys(m).remove(x));
        assert forall|k: NodeId| #[trigger] self@.contains_key(k) implies self@[k] == pre@.remove(x)[k] by {
            if m2.contains_key(k) && k != sib && Some(k) != g {
                assert(m2[k] == m[k]);
            }
        }
        assert(self@ =~= pre@.remove(x));
        assert(s2.dom() =~= m2.dom());
        lemma_len_subset(leaf_keys(m), m.dom());
        let r = self.root->0;
        if g is None {
            assert(pre.root == Some(p));
            assert(s[p] =~= s[x] + s[sib] || s[p] =~= s[sib] + s[x]);
            assert(s2[sib] =~= leaf_keys(m2));
        } else {
            pre.lemma_node_ok(r);
            assert(r != x && r != p);
            assert(m2.contains_key(r));
            if Some(r) != g {
                assert(r != sib);
                assert(m2[r] == m[r]);
            }
            assert(s2[r] =~= leaf_keys(m2));
        }
        assert(self.top_ok());
        self.lemma_structure_intro();
        assert forall|k: NodeId| #[trigger] m2.contains_key(k) && Some(k) != g implies self.bound_ok(k) by {
            assert(pre.bound_ok(k));
            pre.lemma_node_ok(k);
            if m[k] is Internal {
                let a = m[k].left();
                let b = m[k].right();
                pre.lemma_node_ok(a);
                pre.lemma_node_ok(b);
                assert(a != p && b != p);
                if k != sib {
                    assert(m2[k] == m[k]);
                }
                assert(m2.contains_key(a) && m2.contains_key(b));
                if a != sib && Some(a) != g {
                    assert(m2[a] == m[a]);
                }
                if b != sib && Some(b) != g {
                    assert(m2[b] == m[b]);
                }
            }
        }
    }
    /// The payloads of each pair of nodes.
    closed spec fn node_payloads(&self, hs: Seq<(NodeId, NodeId)>) -> Seq<(u64, u64)> {
        hs.map_values(|h: (NodeId, NodeId)| (self.nodes_map()[h.0].data(), self.nodes_map()[h.1].data()))
    }

    proof fn lemma_payloads_concat(&self, h1: Seq<(NodeId, NodeId)>, h2: Seq<(NodeId, NodeId)>)
        ensures
            self.node_payloads(h1 + h2) == self.node_payloads(h1) + self.node_payloads(h2),
    {
        assert(self.node_payloads(h1 + h2) =~= self.node_payloads(h1) + self.node_payloads(h2));
    }

    /// A node's box encloses the box of every leaf below it.
    proof fn lemma_encloses_leaves(&self, k: NodeId)
        requires
            self.wf(),
            self.nodes_map().contains_key(k),
        ensures
            forall|j: NodeId|
                #[trigger] self.sub@[k].contains(j) ==> self.nodes_map()[k].bounding().encloses(
                    self.nodes_map()[j].bounding(),
                ),
        decreases self.sub@[k].len(),
    {
        self.lemma_node_ok(k);
        let m = self.nodes_map();
        if m[k] is Internal {
            let l = m[k].left();
            let r = m[k].right();
            self.lemma_children(k);
            self.lemma_encloses_leaves(l);
            self.lemma_encloses_leaves(r);
            assert(self.bound_ok(k));
            crate::aabb::lemma_merge_encloses(m[l].bounding(), m[r].bounding());
            assert forall|j: NodeId| #[trigger] self.sub@[k].contains(j) implies m[k].bounding().encloses(
                m[j].bounding(),
            ) by {
                if self.sub@[l].contains(j) {
                    lemma_encloses_transitive(m[k].bounding(), m[l].bounding(), m[j].bounding());
                } else {
                    lemma_encloses_transitive(m[k].bounding(), m[r].bounding(), m[j].bounding());
                }
            }
        }
    }

    /// Two leaves below nodes whose boxes are apart do not overlap.
    proof fn lemma_apart(&self, a: NodeId, b: NodeId)
        requires
            self.wf(),
            self.nodes_map().contains_key(a),
            self.nodes_map().contains_key(b),
            !self.nodes_map()[a].bounding().overlaps(self.nodes_map()[b].bounding()),
        ensures
            forall|x: NodeId, y: NodeId|
                #![trigger self.sub@[a].contains(x), self.sub@[b].contains(y)]
                self.sub@[a].contains(x) && self.sub@[b].contains(y) ==> !node_overlap(
                    self.nodes_map(),
                    x,
                    y,
                ),
    {
        let m = self.nodes_map();
        self.lemma_encloses_leaves(a);
        self.lemma_encloses_leaves(b);
        assert forall|x: NodeId, y: NodeId|
            #![trigger self.sub@[a].contains(x), self.sub@[b].contains(y)]
            self.sub@[a].contains(x) && self.sub@[b].contains(y) implies !node_overlap(m, x, y) by {
            if node_overlap(m, x, y) {
                lemma_enclosing_overlaps(m[a].bounding(), m[x].bounding(), m[y].bounding());
                lemma_enclosing_overlaps(m[b].bounding(), m[y].bounding(), m[a].bounding());
            }
        }
    }

    /// Stores the payloads of the overlapping pairs with one leaf below `a`
    /// and the other below `b`, pruning where the nodes' boxes are apart.
    fn cross_overlaps<S: Storage<(u64, u64)>>(&self, a: NodeId, b: NodeId, storage: &mut S) -> (hs:
        Ghost<Seq<(NodeId, NodeId)>>)
        requires
            self.wf(),
            self.nodes_map().contains_key(a),
            self.nodes_map().contains_key(b),
            self.sub@[a].disjoint(self.sub@[b]),
        ensures
            cross_listed(self.nodes_map(), hs@, self.sub@[a], self.sub@[b]),
            final(storage).stored() == old(storage).stored() + self.node_payloads(hs@),
        decreases self.sub@[a].len() + self.sub@[b].len(),
    {
        let ghost m = self.nodes_map();
        let ghost sa = self.sub@[a];
        let ghost sb = self.sub@[b];
        proof {
            self.lemma_node_ok(a);
            self.lemma_node_ok(b);
        }
        let na = arena_get(&self.nodes, a).unwrap();
        let nb = arena_get(&self.nodes, b).unwrap();
        let ba = na.get_bounding();
        let bb = nb.get_bounding();
        if !ba.intersect(&bb) {
            proof {
                self.lemma_apart(a, b);
                assert(self.node_payloads(Seq::empty()) =~= Seq::empty());
                assert(storage.stored() =~= storage.stored() + Seq::<(u64, u64)>::empty());
            }
            return Ghost(Seq::empty());
        }
        let split_a = match (na, nb) {
            (BVHNode::Leaf { data: da, .. }, BVHNode::Leaf { data: db, .. }) => {
                storage.store((da, db));
                let ghost hs = seq![(a, b)];
                proof {
                    assert(sa == Set::empty().insert(a));
                    assert(sb == Set::empty().insert(b));
                    assert(self.node_payloads(hs) =~= seq![(da, db)]);
                    assert(cross_listed(m, hs, sa, sb)) by {
                        assert forall|x: NodeId, y: NodeId|
                            #![trigger sa.contains(x), sb.contains(y)]
                            sa.contains(x) && sb.contains(y) && node_overlap(m, x, y) implies exists|i: int|
                                0 <= i < hs.len() && #[trigger] hs[i] == (x, y) by {
                            assert(hs[0] == (x, y));
                        }
                    }
                }
                return Ghost(hs);
            },
            (BVHNode::Leaf { .. }, BVHNode::Internal { .. }) => false,
            (BVHNode::Internal { .. }, BVHNode::Leaf { .. }) => true,
            (BVHNode::Internal { .. }, BVHNode::Internal { .. }) => ba.volume() > bb.volume(),
        };
        let ghost pre_stored = storage.stored();
        if split_a {
            let (l, r) = match na {
                BVHNode::Internal { left, right, .. } => (left, right),
                BVHNode::Leaf { .. } => {
                    proof {
                        assert(false);
                    }
                    return Ghost(Seq::empty());
                },
            };
            proof {
                self.lemma_children(a);
                self.lemma_node_ok(l);
                self.lemma_node_ok(r);
            }
            let h1 = self.cross_overlaps(l, b, storage);
            let h2 = self.cross_overlaps(r, b, storage);
            let ghost hs = h1@ + h2@;
            proof {
                self.lemma_payloads_concat(h1@, h2@);
                assert(storage.stored() =~= pre_stored + self.node_payloads(hs));
                let sl = self.sub@[l];
                let sr = self.sub@[r];
                assert forall|i: int| 0 <= i < hs.len() implies #[trigger] sa.contains(hs[i].0) && sb.contains(hs[i].1)
                    && node_overlap(m, hs[i].0, hs[i].1) by {
                    if i < h1@.len() {
                        assert(hs[i] == h1@[i]);
                    } else {
                        assert(hs[i] == h2@[i - h1@.len()]);
                    }
                }
                assert forall|i: int, j: int| 0 <= i < j < hs.len() implies #[trigger] hs[i] != #[trigger] hs[j] by {
                    if i < h1@.len() && j >= h1@.len() {
                        assert(hs[i] == h1@[i]);
                        assert(hs[j] == h2@[j - h1@.len()]);
                        assert(sl.contains(hs[i].0));
                        assert(sr.contains(hs[j].0));
                    } else if i < h1@.len() {
                        assert(hs[i] == h1@[i]);
                        assert(hs[j] == h1@[j]);
                    } else {
                        assert(hs[i] == h2@[i - h1@.len()]);
                        assert(hs[j] == h2@[j - h1@.len()]);
                    }
                }
                assert forall|x: NodeId, y: NodeId|
                    #![trigger sa.contains(x), sb.contains(y)]
                    sa.contains(x) && sb.contains(y) && node_overlap(m, x, y) implies exists|i: int|
                        0 <= i < hs.len() && #[trigger] hs[i] == (x, y) by {
                    if sl.contains(x) {
                        let i = choose|i: int| 0 <= i < h1@.len() && #[trigger] h1@[i] == (x, y);
                        assert(hs[i] == (x, y));
                    } else {
                        assert(sr.contains(x));
                        let i = choose|i: int| 0 <= i < h2@.len() && #[trigger] h2@[i] == (x, y);
                        assert(hs[h1@.len() + i] == (x, y));
                    }
                }
            }
            Ghost(hs)
        } else {
            let (l, r) = match nb {
                BVHNode::Internal { left, right, .. } => (left, right),
                BVHNode::Leaf { .. } => {
                    proof {
                        assert(false);
                    }
                    return Ghost(Seq::empty());
                },
            };
            proof {
                self.lemma_children(b);
                self.lemma_node_ok(l);
                self.lemma_node_ok(r);
            }
            let h1 = self.cross_overlaps(a, l, storage);
            let h2 = self.cross_overlaps(a, r, storage);
            let ghost hs = h1@ + h2@;
            proof {
                self.lemma_payloads_concat(h1@, h2@);
                assert(storage.stored() =~= pre_stored + self.node_payloads(hs));
                let sl = self.sub@[l];
                let sr = self.sub@[r];
                assert forall|i: int| 0 <= i < hs.len() implies #[trigger] sa.contains(hs[i].0) && sb.contains(hs[i].1)
                    && node_overlap(m, hs[i].0, hs[i].1) by {
                    if i < h1@.len() {
                        assert(hs[i] == h1@[i]);
                    } else {
                        assert(hs[i] == h2@[i - h1@.len()]);
                    }
                }
                assert forall|i: int, j: int| 0 <= i < j < hs.len() implies #[trigger] hs[i] != #[trigger] hs[j] by {
                    if i < h1@.len() && j >= h1@.len() {
                        assert(hs[i] == h1@[i]);
                        assert(hs[j] == h2@[j - h1@.len()]);
                        assert(sl.contains(hs[i].1));
                        assert(sr.contains(hs[j].1));
                    } else if i < h1@.len() {
                        assert(hs[i] == h1@[i]);
                        assert(hs[j] == h1@[j]);
                    } else {
                        assert(hs[i] == h2@[i - h1@.len()]);
                        assert(hs[j] == h2@[j - h1@.len()]);
                    }
                }
                assert forall|x: NodeId, y: NodeId|
                    #![trigger sa.contains(x), sb.contains(y)]
                    sa.contains(x) && sb.contains(y) && node_overlap(m, x, y) implies exists|i: int|
                        0 <= i < hs.len() && #[trigger] hs[i] == (x, y) by {
                    if sl.contains(y) {
                        let i = choose|i: int| 0 <= i < h1@.len() && #[trigger] h1@[i] == (x, y);
                        assert(hs[i] == (x, y));
                    } else {
                        assert(sr.contains(y));
                        let i = choose|i: int| 0 <= i < h2@.len() && #[trigger] h2@[i] == (x, y);
                        assert(hs[h1@.len() + i] == (x, y));
                    }
                }
            }
            Ghost(hs)
        }
    }
    /// Stores the payloads of the overlapping pairs of leaves below `n`:
    /// first those split between its two children, then those within each.
    fn within_overlaps<S: Storage<(u64, u64)>>(&self, n: NodeId, storage: &mut S) -> (hs: Ghost<
        Seq<(NodeId, NodeId)>,
    >)
        requires
            self.wf(),
            self.nodes_map().contains_key(n),
        ensures
            within_listed(self.nodes_map(), hs@, self.sub@[n]),
            final(storage).stored() == old(storage).stored() + self.node_payloads(hs@),
        decreases self.sub@[n].len(),
    {
        let ghost m = self.nodes_map();
        let ghost sn = self.sub@[n];
        proof {
            self.lemma_node_ok(n);
        }
        let node = arena_get(&self.nodes, n).unwrap();
        match node {
            BVHNode::Leaf { .. } => {
                proof {
                    assert(self.node_payloads(Seq::empty()) =~= Seq::empty());
                    assert(storage.stored() =~= storage.stored() + Seq::<(u64, u64)>::empty());
                    assert(sn == Set::empty().insert(n));
                }
                Ghost(Seq::empty())
            },
            BVHNode::Internal { left, right, .. } => {
                proof {
                    self.lemma_children(n);
                    self.lemma_node_ok(left);
                    self.lemma_node_ok(right);
                }
                let ghost pre_stored = storage.stored();
                let h0 = self.cross_overlaps(left, right, storage);
                let h1 = self.within_overlaps(left, storage);
                let h2 = self.within_overlaps(right, storage);
                let ghost hs = h0@ + h1@ + h2@;
                proof {
                    self.lemma_payloads_concat(h0@, h1@);
                    self.lemma_payloads_concat(h0@ + h1@, h2@);
                    assert(storage.stored() =~= pre_stored + self.node_payloads(hs));
                    let sl = self.sub@[left];
                    let sr = self.sub@[right];
                    let n0 = h0@.len();
                    let n1 = h1@.len();
                    assert forall|i: int| 0 <= i < hs.len() implies #[trigger] sn.contains(hs[i].0) && sn.contains(hs[i].1)
                        && hs[i].0 != hs[i].1 && node_overlap(m, hs[i].0, hs[i].1) by {
                        if i < n0 {
                            assert(hs[i] == h0@[i]);
                        } else if i < n0 + n1 {
                            assert(hs[i] == h1@[i - n0]);
                        } else {
                            assert(hs[i] == h2@[i - n0 - n1]);
                        }
                    }
                    assert forall|i: int, j: int| 0 <= i < j < hs.len() implies #[trigger] hs[i] != #[trigger] hs[j]
                        && hs[i] != (hs[j].1, hs[j].0) by {
                        if i < n0 {
                            assert(hs[i] == h0@[i]);
                        } else if i < n0 + n1 {
                            assert(hs[i] == h1@[i - n0]);
                        } else {
                            assert(hs[i] == h2@[i - n0 - n1]);
                        }
                        if j < n0 {
                            assert(hs[j] == h0@[j]);
                        } else if j < n0 + n1 {
                            assert(hs[j] == h1@[j - n0]);
                        } else {
                            assert(hs[j] == h2@[j - n0 - n1]);
                        }
                    }
                    assert forall|x: NodeId, y: NodeId|
                        #![trigger sn.contains(x), sn.contains(y)]
                        sn.contains(x) && sn.contains(y) && x != y && node_overlap(m, x, y) implies exists|i: int|
                            0 <= i < hs.len() && (#[trigger] hs[i] == (x, y) || hs[i] == (y, x)) by {
                        if sl.contains(x) && sl.contains(y) {
                            let i = choose|i: int| 0 <= i < n1 && (#[trigger] h1@[i] == (x, y) || h1@[i] == (y, x));
                            assert(hs[n0 + i] == h1@[i]);
                        } else if sr.contains(x) && sr.contains(y) {
                            let i = choose|i: int| 0 <= i < h2@.len() && (#[trigger] h2@[i] == (x, y) || h2@[i] == (y, x));
                            assert(hs[n0 + n1 + i] == h2@[i]);
                        } else if sl.contains(x) {
                            let i = choose|i: int| 0 <= i < n0 && #[trigger] h0@[i] == (x, y);
                            assert(hs[i] == h0@[i]);
                        } else {
                            crate::aabb::lemma_overlaps_symmetric(m[x].bounding(), m[y].bounding());
                            assert(node_overlap(m, y, x));
                            let i = choose|i: int| 0 <= i < n0 && #[trigger] h0@[i] == (y, x);
                            assert(hs[i] == h0@[i]);
                        }
                    }
                }
                Ghost(hs)
            },
        }
    }

    /// Stores, into `storage`, the payloads of every unordered pair of
    /// distinct leaves whose boxes overlap, each pair exactly once.
    pub fn get_overlaps<S: Storage<(u64, u64)>>(&self, storage: &mut S)
        requires
            self.wf(),
        ensures
            exists|hs: Seq<(BVHLeafId, BVHLeafId)>|
                lists_overlaps(self@, hs) && final(storage).stored() == old(storage).stored()
                    + payload_pairs(self@, hs),
    {
        proof {
            self.lemma_structure_elim();
            self.lemma_view_dom();
        }
        match self.root {
            Some(root) => {
                let hs = self.within_overlaps(root, storage);
                proof {
                    self.lemma_lists_from_within(hs@);
                }
            },
            None => {
                proof {
                    let hs = Seq::<(BVHLeafId, BVHLeafId)>::empty();
                    assert(self.nodes_map().dom() =~= Set::empty());
                    assert(payload_pairs(self@, hs) =~= Seq::empty());
                    assert(storage.stored() =~= storage.stored() + payload_pairs(self@, hs));
                    assert(lists_overlaps(self@, hs));
                }
            },
        }
    }

    proof fn lemma_lists_from_within(&self, hs: Seq<(NodeId, NodeId)>)
        requires
            self.wf(),
            self.root is Some,
            within_listed(self.nodes_map(), hs, self.sub@[self.root->0]),
        ensures
            lists_overlaps(self@, hs),
            self.node_payloads(hs) == payload_pairs(self@, hs),
    {
        self.lemma_structure_elim();
        self.lemma_view_dom();
        let m = self.nodes_map();
        let v = self@;
        let s = self.sub@[self.root->0];
        assert(s == leaf_keys(m));
        assert forall|i: int| 0 <= i < hs.len() implies #[trigger] leaves_overlap(v, hs[i].0, hs[i].1) by {
            assert(s.contains(hs[i].0));
        }
        assert forall|a: BVHLeafId, b: BVHLeafId| #[trigger] leaves_overlap(v, a, b) implies exists|i: int|
            0 <= i < hs.len() && (#[trigger] hs[i] == (a, b) || hs[i] == (b, a)) by {
            assert(s.contains(a) && s.contains(b));
        }
        assert(self.node_payloads(hs) =~= payload_pairs(self@, hs)) by {
            assert forall|i: int| 0 <= i < hs.len() implies self.node_payloads(hs)[i] == payload_pairs(self@, hs)[i] by {
                assert(s.contains(hs[i].0) && s.contains(hs[i].1));
            }
        }
    }
}

} // verus!
