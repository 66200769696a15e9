//! A compact sparse voxel octree: a cubic volume of side `2 * HALF_WIDTH`
//! storing one value per unit voxel, with uniform regions collapsed into
//! single nodes to bound memory use.

use vstd::prelude::*;

pub mod arena;
pub mod model;
pub mod pos;
pub mod store;
pub mod text;

use crate::pos::PosU8;
use vstd::std_specs::cmp::PartialEqSpec;
use vstd::string::StringExecFns;

verus! {

/// The sentinel handle: marks an octant slot as unset.
pub const EMPTY_PTR: usize = usize::MAX;

/// One node of the tree: either an entire uniform volume (`Full`, holding the
/// handle of one leaf value), or eight independent octants (`Mixed`, each slot
/// holding the sentinel, a node handle, or - at half-width 1 - a leaf handle).
#[derive(Debug, Clone, Copy)]
pub enum Node {
    Full(usize),
    Mixed([usize; 8]),
}

impl Node {
    /// A `Mixed` node with all eight octants unset.
    pub fn empty() -> (n: Self)
        ensures
            n matches Node::Mixed(cs) && forall|i: int| 0 <= i < 8 ==> cs[i] == EMPTY_PTR,
    {
        Node::Mixed([EMPTY_PTR; 8])
    }

    /// A `Mixed` node with a single octant slot populated.
    pub fn new_from_ptr(ptr: usize, ptr_index: usize) -> (n: Self)
        requires
            ptr_index < 8,
        ensures
            n matches Node::Mixed(cs) && cs[ptr_index as int] == ptr && forall|i: int|
                0 <= i < 8 && i != ptr_index ==> cs[i] == EMPTY_PTR,
    {
        let mut ptrs = [EMPTY_PTR; 8];
        ptrs[ptr_index] = ptr;
        Node::Mixed(ptrs)
    }
}

/// Exec equality on values goes through `PartialEq`; contracts can rely on it
/// only when the type's `==` agrees with logical equality. vstd proves this
/// for the integer types; for `&str` it offers no such fact, so verified
/// callers cannot discharge the obligation for string-slice values
/// (unverified callers, such as the tests, are unaffected).
pub open spec fn eq_reflects<V: PartialEq>() -> bool {
    &&& <V as vstd::std_specs::cmp::PartialEqSpec>::obeys_eq_spec()
    &&& forall|a: V, b: V| (#[trigger] a.eq_spec(&b)) <==> (a == b)
}

/// How an operation can fail: a coordinate outside the tree's volume, or an
/// operation the tree does not offer.
#[derive(Clone, Copy, Debug, PartialEq, Eq, Structural)]
pub enum OctreeError {
    InvalidPosition,
    Unsupported,
}

/// A sparse voxel octree over values of type `V`, spanning the axis domain
/// `[0, 2 * HALF_WIDTH)` on each of x, y and z.
///
/// Uniform regions are collapsed: a volume known to hold a single value is
/// one `Full` node. The root is always the node under handle 0.
pub struct Octree<V, const HALF_WIDTH: u8> {
    nodes: slab::Slab<Node>,
    leafs: arena::LeafArena<V>,
}

impl<V: Copy + PartialEq, const HALF_WIDTH: u8> Octree<V, HALF_WIDTH> {
    /// The live node slots.
    pub closed spec fn nmap(self) -> Map<usize, Node> {
        store::node_slots(self.nodes)
    }

    /// The live leaf slots.
    pub closed spec fn lmap(self) -> Map<usize, V> {
        self.leafs.entries()
    }

    /// The tree is a well-formed subtree under the root handle 0, and no
    /// `Mixed` node in it is redundant: a uniform volume has been collapsed.
    pub closed spec fn inv(self) -> bool {
        &&& self.leafs.wf()
        &&& model::node_wf(self.nmap(), self.lmap(), 0, HALF_WIDTH)
        &&& model::node_tidy(self.nmap(), self.lmap(), 0, HALF_WIDTH)
        &&& self.nmap().dom().finite()
        &&& self.nmap().dom() == model::node_span(self.nmap(), 0, HALF_WIDTH)
        &&& self.lmap().dom() == model::node_leafspan(self.nmap(), 0, HALF_WIDTH)
    }

    /// What the tree stores at position `p`, if anything.
    pub closed spec fn vox(self, p: PosU8) -> Option<V> {
        model::node_get(self.nmap(), self.lmap(), 0, HALF_WIDTH, p)
    }

    /// How many leaf slots are live.
    pub closed spec fn leaf_total(self) -> nat {
        self.lmap().dom().len()
    }

    /// The position lies inside the tree's volume.
    pub open spec fn pos_ok(p: PosU8) -> bool {
        model::fits(p, 2 * (HALF_WIDTH as int))
    }

    /// An empty tree: the root is a `Mixed` node with every octant unset.
    pub fn new() -> (t: Self)
        ensures
            t.inv(),
            forall|q: PosU8| t.vox(q) is None,
            t.leaf_total() == 0,
            t.nmap().dom() == set![0usize],
            t.nmap()[0] matches Node::Mixed(cs) && (forall|i: int|
                0 <= i < 8 ==> cs[i] == EMPTY_PTR),
            model::node_wf(t.nmap(), t.lmap(), 0, HALF_WIDTH),
            model::node_tidy(t.nmap(), t.lmap(), 0, HALF_WIDTH),
    {
        let mut nodes = store::store_empty();
        store::store_init(&mut nodes, Node::empty());
        let t = Octree { nodes, leafs: arena::LeafArena::new() };
        proof {
            let cs = t.nmap()[0]->Mixed_0;
            model::lemma_kids_span_single(t.nmap(), cs@, 8, HALF_WIDTH, 8);
            assert forall|q: PosU8| t.vox(q) is None by {
                assert(cs@[model::octant(q, HALF_WIDTH)] == EMPTY_PTR);
            }
            assert forall|v: V|
                #![trigger model::cs_uni(t.nmap(), t.lmap(), cs@, HALF_WIDTH, v)]
                !model::cs_uni(t.nmap(), t.lmap(), cs@, HALF_WIDTH, v) by {
                assert(cs@[0] == EMPTY_PTR);
            }
            assert(model::node_tidy(t.nmap(), t.lmap(), 0, HALF_WIDTH));
            assert(t.lmap().dom() =~= Set::<usize>::empty());
            assert(t.nmap().dom() =~= set![0usize]);
            assert(t.nmap().dom() =~= model::node_span(t.nmap(), 0, HALF_WIDTH));
            assert(t.lmap().dom() =~= model::node_leafspan(t.nmap(), 0, HALF_WIDTH));
        }
        t
    }

    /// Compute the octant index of `pos` at `half_width` and rewrite `pos`
    /// into the local frame of that octant (destructive descent).
    #[inline]
    fn oct_index(pos: &mut PosU8, half_width: u8) -> (idx: usize)
        ensures
            idx == model::octant(*old(pos), half_width),
            *final(pos) == model::local_pos(*old(pos), half_width),
            idx < 8,
    {
        let idx: usize = match (pos.x < half_width, pos.y < half_width, pos.z < half_width) {
            (true, true, true) => 0,
            (true, true, false) => {
                pos.z = pos.z - half_width;
                1
            }
            (true, false, true) => {
                pos.y = pos.y - half_width;
                2
            }
            (true, false, false) => {
                pos.y = pos.y - half_width;
                pos.z = pos.z - half_width;
                3
            }
            (false, true, true) => {
                pos.x = pos.x - half_width;
                4
            }
            (false, true, false) => {
                pos.x = pos.x - half_width;
                pos.z = pos.z - half_width;
                5
            }
            (false, false, true) => {
                pos.x = pos.x - half_width;
                pos.y = pos.y - half_width;
                6
            }
            (false, false, false) => {
                pos.x = pos.x - half_width;
                pos.y = pos.y - half_width;
                pos.z = pos.z - half_width;
                7
            }
        };
        idx
    }

    /// Look the position up without changing the tree: `None` when the voxel
    /// was never set. A position outside the volume holds nothing, and
    /// lookup there is answered with `None` rather than an error, per the
    /// propagation policy that absence is never an error.
    pub fn get(&mut self, pos: PosU8) -> (r: Option<V>)
        requires
            old(self).inv(),
        ensures
            *final(self) == *old(self),
            Self::pos_ok(pos) ==> r == old(self).vox(pos),
            !Self::pos_ok(pos) ==> r is None,
    {
        let w: u16 = 2 * (HALF_WIDTH as u16);
        if (pos.x as u16) >= w || (pos.y as u16) >= w || (pos.z as u16) >= w {
            return None;
        }
        let mut p = pos;
        let mut node_ptr: usize = 0;
        let mut half_width: u8 = HALF_WIDTH;
        loop
            invariant
                Self::pos_ok(pos),
                *self == *old(self),
                self.inv(),
                model::node_wf(self.nmap(), self.lmap(), node_ptr, half_width),
                model::node_get(self.nmap(), self.lmap(), node_ptr, half_width, p) == old(
                    self,
                ).vox(pos),
            decreases half_width,
        {
            let node = store::store_read(&self.nodes, node_ptr);
            match node {
                Node::Full(leaf_ptr) => {
                    return Some(self.leafs.read(leaf_ptr));
                }
                Node::Mixed(ptrs) => {
                    let ghost p0 = p;
                    let idx = Self::oct_index(&mut p, half_width);
                    let ptr = ptrs[idx];
                    proof {
                        assert(model::kid_wf(self.nmap(), self.lmap(), ptrs@[idx as int], half_width));
                        assert(model::node_get(self.nmap(), self.lmap(), node_ptr, half_width, p0)
                            == model::mixed_get(self.nmap(), self.lmap(), ptrs@, half_width, p0));
                    }
                    if ptr == EMPTY_PTR {
                        return None;
                    } else if half_width <= 1 {
                        return Some(self.leafs.read(ptr));
                    } else {
                        proof {
                            assert(model::mixed_get(self.nmap(), self.lmap(), ptrs@, half_width, p0)
                                == model::node_get(
                                self.nmap(),
                                self.lmap(),
                                ptr,
                                (half_width / 2) as u8,
                                p,
                            ));
                        }
                        half_width = half_width / 2;
                        node_ptr = ptr;
                    }
                }
            }
        }
    }
    /// Set or overwrite the voxel at `pos`: afterwards the tree stores `val`
    /// there and every other in-domain position keeps what it stored. A
    /// position outside the volume is rejected and the tree is unchanged.
    pub fn insert(&mut self, pos: PosU8, val: V) -> (r: Result<(), OctreeError>)
        requires
            old(self).inv(),
            eq_reflects::<V>(),
            HALF_WIDTH == 0 || model::hw_ok(HALF_WIDTH),
        ensures
            final(self).inv(),
            r is Ok <==> Self::pos_ok(pos),
            r is Err ==> r == Err::<(), OctreeError>(OctreeError::InvalidPosition) && *final(self)
                == *old(self),
            Self::pos_ok(pos) ==> final(self).vox(pos) == Some(val),
            Self::pos_ok(pos) ==> forall|q: PosU8|
                Self::pos_ok(q) && q != pos ==> (#[trigger] final(self).vox(q)) == old(self).vox(
                    q,
                ),
            old(self).vox(pos) == Some(val) ==> final(self).nmap() == old(self).nmap()
                && final(self).lmap() == old(self).lmap() && final(self).leaf_total() == old(
                self,
            ).leaf_total(),
            final(self).nmap().dom() == model::node_span(final(self).nmap(), 0, HALF_WIDTH),
            final(self).lmap().dom() == model::node_leafspan(final(self).nmap(), 0, HALF_WIDTH),
            final(self).leaf_total() == model::node_leafspan(
                final(self).nmap(),
                0,
                HALF_WIDTH,
            ).len(),
            model::node_wf(final(self).nmap(), final(self).lmap(), 0, HALF_WIDTH),
            model::node_tidy(final(self).nmap(), final(self).lmap(), 0, HALF_WIDTH),
            Self::pos_ok(pos) ==> final(self).leaf_total() as int == old(self).leaf_total()
                + model::insert_leaf_delta(
                old(self).nmap(),
                old(self).lmap(),
                0,
                HALF_WIDTH,
                pos,
                val,
            ),
    {
        let w: u16 = 2 * (HALF_WIDTH as u16);
        if (pos.x as u16) >= w || (pos.y as u16) >= w || (pos.z as u16) >= w {
            return Err(OctreeError::InvalidPosition);
        }
        self.insert_at(0, pos, val, HALF_WIDTH);
        proof {
            assert(self.nmap().dom() =~= model::node_span(self.nmap(), 0, HALF_WIDTH));
            assert(self.lmap().dom() =~= model::node_leafspan(self.nmap(), 0, HALF_WIDTH));
        }
        Ok(())
    }

    /// How many leaf values the tree holds (collapsed regions count one).
    pub fn leaf_count(&self) -> (n: usize)
        requires
            self.inv(),
        ensures
            n == self.leaf_total(),
    {
        self.leafs.count()
    }

    /// Removal is not offered yet: the call fails without touching the tree.
    pub fn remove(&mut self, pos: PosU8) -> (r: Result<(), OctreeError>)
        ensures
            *final(self) == *old(self),
            r == Err::<(), OctreeError>(OctreeError::Unsupported),
    {
        let _ = pos;
        Err(OctreeError::Unsupported)
    }

    /// In-place access is not offered yet: the call fails without touching
    /// the tree.
    pub fn get_mut(&mut self, pos: PosU8) -> (r: Result<(), OctreeError>)
        ensures
            *final(self) == *old(self),
            r == Err::<(), OctreeError>(OctreeError::Unsupported),
    {
        let _ = pos;
        Err(OctreeError::Unsupported)
    }

    /// The would-become-full predicate (read-only): would inserting
    /// `insert_val` at octant `insert_idx` (local position `insert_pos`)
    /// leave this `Mixed` node's whole volume holding that one value?
    fn insertion_would_make_node_full(
        &self,
        ptrs: &[usize; 8],
        insert_idx: usize,
        insert_val: &V,
        insert_pos: PosU8,
        node_half_width: u8,
    ) -> (r: bool)
        requires
            self.leafs.wf(),
            eq_reflects::<V>(),
            insert_idx < 8,
            model::mixed_wf(self.nmap(), self.lmap(), ptrs@, node_half_width),
        ensures
            r == model::would_fill(
                self.nmap(),
                self.lmap(),
                ptrs@,
                insert_idx as int,
                *insert_val,
                insert_pos,
                node_half_width,
            ),
        decreases node_half_width,
    {
        if node_half_width <= 1 {
            // every leaf slot other than the insertion octant must already
            // hold the value
            let mut i: usize = 0;
            while i < 8
                invariant
                    i <= 8,
                    insert_idx < 8,
                    node_half_width <= 1,
                    self.leafs.wf(),
                    eq_reflects::<V>(),
                    model::mixed_wf(self.nmap(), self.lmap(), ptrs@, node_half_width),
                    forall|j: int|
                        0 <= j < i && j != insert_idx ==> (#[trigger] ptrs@[j]) != EMPTY_PTR
                            && self.lmap()[ptrs@[j]] == *insert_val,
                decreases 8 - i,
            {
                if i != insert_idx {
                    let ptr = ptrs[i];
                    proof {
                        assert(model::kid_wf(self.nmap(), self.lmap(), ptrs@[i as int], node_half_width));
                    }
                    if ptr == EMPTY_PTR {
                        return false;
                    }
                    let lv = self.leafs.read(ptr);
                    if !(lv == *insert_val) {
                        return false;
                    }
                }
                i = i + 1;
            }
            true
        } else {
            let insert_node_ptr = ptrs[insert_idx];
            if insert_node_ptr == EMPTY_PTR {
                return false;
            }
            proof {
                assert(model::kid_wf(self.nmap(), self.lmap(), ptrs@[insert_idx as int], node_half_width));
            }
            let insert_node = store::store_read(&self.nodes, insert_node_ptr);
            let target_ok: bool = match insert_node {
                Node::Full(leaf_ptr) => {
                    let lv = self.leafs.read(leaf_ptr);
                    lv == *insert_val
                }
                Node::Mixed(child_ptrs) => {
                    let mut p2 = insert_pos;
                    let hw2 = node_half_width / 2;
                    let idx2 = Self::oct_index(&mut p2, hw2);
                    self.insertion_would_make_node_full(&child_ptrs, idx2, insert_val, p2, hw2)
                }
            };
            if !target_ok {
                return false;
            }
            // every sibling must already be a collapsed node holding the value
            let mut i: usize = 0;
            while i < 8
                invariant
                    i <= 8,
                    insert_idx < 8,
                    node_half_width >= 2,
                    self.leafs.wf(),
                    eq_reflects::<V>(),
                    model::mixed_wf(self.nmap(), self.lmap(), ptrs@, node_half_width),
                    forall|j: int|
                        0 <= j < i && j != insert_idx ==> (#[trigger] ptrs@[j]) != EMPTY_PTR && (
                        self.nmap()[ptrs@[j]] matches Node::Full(l) && self.lmap()[l]
                            == *insert_val),
                decreases 8 - i,
            {
                if i != insert_idx {
                    let ptr = ptrs[i];
                    proof {
                        assert(model::kid_wf(self.nmap(), self.lmap(), ptrs@[i as int], node_half_width));
                    }
                    if ptr == EMPTY_PTR {
                        return false;
                    }
                    let sib = store::store_read(&self.nodes, ptr);
                    match sib {
                        Node::Full(leaf_ptr) => {
                            let lv = self.leafs.read(leaf_ptr);
                            if !(lv == *insert_val) {
                                return false;
                            }
                        }
                        Node::Mixed(_) => {
                            return false;
                        }
                    }
                }
                i = i + 1;
            }
            true
        }
    }

    /// Build the shortest chain of fresh `Mixed` nodes from half-width
    /// `node_half_width` down to one new leaf holding `val`; only the one
    /// branch towards `pos` is populated. Returns the top handle of the
    /// chain (a leaf handle when `node_half_width` is 0).
    fn insert_nodes_below_empty_ptr(&mut self, pos: PosU8, val: V, node_half_width: u8) -> (ptr:
        usize)
        requires
            old(self).leafs.wf(),
            old(self).nmap().dom().finite(),
            node_half_width >= 1 ==> model::hw_ok(node_half_width) && model::fits(
                pos,
                2 * (node_half_width as int),
            ),
        ensures
            final(self).leafs.wf(),
            final(self).nmap().dom().finite(),
            final(self).lmap().dom().len() == old(self).lmap().dom().len() + 1,
            final(self).nmap().dom().len() == old(self).nmap().dom().len()
                + model::chain_node_count(node_half_width),
            node_half_width >= 1 ==> final(self).nmap().dom() == old(self).nmap().dom().union(
                model::node_span(final(self).nmap(), ptr, node_half_width),
            ) && final(self).lmap().dom() == old(self).lmap().dom().union(
                model::node_leafspan(final(self).nmap(), ptr, node_half_width),
            ),
            ptr != EMPTY_PTR,
            model::agree(old(self).nmap(), final(self).nmap(), old(self).nmap().dom()),
            model::agree(old(self).lmap(), final(self).lmap(), old(self).lmap().dom()),
            node_half_width == 0 ==> !old(self).lmap().dom().contains(ptr) && final(self).lmap()
                == old(self).lmap().insert(ptr, val) && final(self).nmap() == old(self).nmap(),
            node_half_width >= 1 ==> model::node_tidy(
                final(self).nmap(),
                final(self).lmap(),
                ptr,
                node_half_width,
            ) && model::node_wf(
                final(self).nmap(),
                final(self).lmap(),
                ptr,
                node_half_width,
            ) && model::node_span(final(self).nmap(), ptr, node_half_width).disjoint(
                old(self).nmap().dom(),
            ) && model::node_leafspan(final(self).nmap(), ptr, node_half_width).disjoint(
                old(self).lmap().dom(),
            ) && (forall|q: PosU8|
                model::fits(q, 2 * (node_half_width as int)) ==> model::node_get(
                    final(self).nmap(),
                    final(self).lmap(),
                    ptr,
                    node_half_width,
                    q,
                ) == (if q == pos {
                    Some(val)
                } else {
                    None::<V>
                })),
        decreases node_half_width,
    {
        if node_half_width == 0 {
            let leaf_ptr = self.leafs.acquire(val);
            proof {
                old(self).leafs.lemma_entries_finite();
                assert(self.lmap().dom() =~= old(self).lmap().dom().insert(leaf_ptr));
                assert(model::chain_node_count(0) == 0);
            }
            leaf_ptr
        } else {
            let mut p = pos;
            let oct_idx = Self::oct_index(&mut p, node_half_width);
            let child_ptr = self.insert_nodes_below_empty_ptr(p, val, node_half_width / 2);
            let ghost mid = *self;
            let node = Node::new_from_ptr(child_ptr, oct_idx);
            let node_ptr = store::store_alloc(&mut self.nodes, node);
            proof {
                let hw = node_half_width;
                let hw2 = (hw / 2) as u8;
                let cs = node->Mixed_0;
                assert(self.lmap() == mid.lmap());
                assert(self.nmap() == mid.nmap().insert(node_ptr, node));
                assert forall|k: usize| #[trigger] mid.nmap().dom().contains(k) implies
                    self.nmap().dom().contains(k) && self.nmap()[k] == mid.nmap()[k] by {}
                if hw >= 2 {
                    model::lemma_span_in_dom(mid.nmap(), mid.lmap(), child_ptr, hw2);
                    model::lemma_agree_mono(
                        mid.nmap(),
                        self.nmap(),
                        mid.nmap().dom(),
                        model::node_span(mid.nmap(), child_ptr, hw2),
                    );
                    model::lemma_agree_mono(
                        mid.lmap(),
                        self.lmap(),
                        mid.lmap().dom(),
                        model::node_leafspan(mid.nmap(), child_ptr, hw2),
                    );
                    assert(model::agree(
                        mid.lmap(),
                        self.lmap(),
                        model::node_leafspan(mid.nmap(), child_ptr, hw2),
                    ));
                    model::lemma_node_frame(
                        mid.nmap(),
                        mid.lmap(),
                        self.nmap(),
                        self.lmap(),
                        child_ptr,
                        hw2,
                    );
                }
                model::lemma_kids_span_single(self.nmap(), cs@, 8, hw, oct_idx as int);
                assert(model::kid_wf(self.nmap(), self.lmap(), child_ptr, hw));
                assert forall|i: int, j: int| 0 <= i < 8 && 0 <= j < 8 && i != j implies
                    model::kid_span(self.nmap(), cs@[i], hw).disjoint(
                        model::kid_span(self.nmap(), cs@[j], hw),
                    ) && model::kid_leafspan(self.nmap(), cs@[i], hw).disjoint(
                        model::kid_leafspan(self.nmap(), cs@[j], hw),
                    ) by {
                    if i != oct_idx {
                        assert(cs@[i] == EMPTY_PTR);
                    } else {
                        assert(cs@[j] == EMPTY_PTR);
                    }
                }
                assert(model::mixed_wf(self.nmap(), self.lmap(), cs@, hw));
                assert(!model::kids_span(self.nmap(), cs@, 8, hw).contains(node_ptr));
                assert(model::node_wf(self.nmap(), self.lmap(), node_ptr, hw));
                // only one octant is populated, so the node is not uniform,
                // and the chain below it is tidy
                let other: int = if oct_idx == 0 {
                    1int
                } else {
                    0int
                };
                assert forall|v: V| !model::cs_uni(self.nmap(), self.lmap(), cs@, hw, v) by {
                    assert(cs@[other] == EMPTY_PTR);
                }
                if hw >= 2 {
                    model::lemma_tidy_frame(
                        mid.nmap(),
                        mid.lmap(),
                        self.nmap(),
                        self.lmap(),
                        child_ptr,
                        hw2,
                    );
                }
                assert forall|i: int| 0 <= i < 8 implies model::kid_tidy(
                    self.nmap(),
                    self.lmap(),
                    #[trigger] cs@[i],
                    hw,
                ) by {
                    if i != oct_idx {
                        assert(cs@[i] == EMPTY_PTR);
                    }
                }
                assert(model::node_tidy(self.nmap(), self.lmap(), node_ptr, hw));
                assert(model::node_span(self.nmap(), node_ptr, hw) =~= set![node_ptr].union(
                    model::kid_span(self.nmap(), child_ptr, hw),
                ));
                assert(model::node_span(self.nmap(), node_ptr, hw).disjoint(old(self).nmap().dom()));
                assert(model::node_leafspan(self.nmap(), node_ptr, hw) =~= model::kid_leafspan(
                    self.nmap(),
                    child_ptr,
                    hw,
                ));
                assert(model::node_leafspan(self.nmap(), node_ptr, hw).disjoint(
                    old(self).lmap().dom(),
                ));
                // exactly one node per level and one leaf were allocated
                assert(self.nmap().dom() =~= mid.nmap().dom().insert(node_ptr));
                assert(self.nmap().dom().len() == mid.nmap().dom().len() + 1);
                assert(model::chain_node_count(hw) == 1 + model::chain_node_count((hw / 2) as u8));
                if hw >= 2 {
                    assert(model::node_span(self.nmap(), node_ptr, hw) =~= set![node_ptr].union(
                        model::node_span(mid.nmap(), child_ptr, hw2),
                    ));
                    assert(model::node_leafspan(self.nmap(), node_ptr, hw)
                        == model::node_leafspan(mid.nmap(), child_ptr, hw2));
                } else {
                    assert(model::node_span(self.nmap(), node_ptr, hw) =~= set![node_ptr]);
                    assert(model::node_leafspan(self.nmap(), node_ptr, hw) =~= set![child_ptr]);
                    assert(mid.lmap() == old(self).lmap().insert(child_ptr, val));
                    assert(mid.lmap().dom() =~= old(self).lmap().dom().insert(child_ptr));
                }
                assert(self.nmap().dom() =~= old(self).nmap().dom().union(
                    model::node_span(self.nmap(), node_ptr, hw),
                ));
                assert(self.lmap().dom() =~= old(self).lmap().dom().union(
                    model::node_leafspan(self.nmap(), node_ptr, hw),
                ));
                assert forall|q: PosU8| model::fits(q, 2 * (hw as int)) implies model::node_get(
                    self.nmap(),
                    self.lmap(),
                    node_ptr,
                    hw,
                    q,
                ) == (if q == pos {
                    Some(val)
                } else {
                    None::<V>
                }) by {
                    let oq = model::octant(q, hw);
                    let lq = model::local_pos(q, hw);
                    assert(model::node_get(self.nmap(), self.lmap(), node_ptr, hw, q)
                        == model::mixed_get(self.nmap(), self.lmap(), cs@, hw, q));
                    if oq != oct_idx {
                        assert(cs@[oq] == EMPTY_PTR);
                        assert(model::mixed_get(self.nmap(), self.lmap(), cs@, hw, q)
                            == None::<V>);
                        assert(q != pos);
                    } else if hw <= 1 {
                        assert(model::mixed_get(self.nmap(), self.lmap(), cs@, hw, q) == Some(
                            self.lmap()[child_ptr],
                        ));
                        assert(self.lmap()[child_ptr] == val);
                        assert(lq == p);
                        model::lemma_decomp_inj(q, pos, hw);
                        assert(q == pos);
                    } else {
                        assert(model::fits(lq, 2 * (hw2 as int)));
                        assert(model::mixed_get(self.nmap(), self.lmap(), cs@, hw, q)
                            == model::node_get(self.nmap(), self.lmap(), child_ptr, hw2, lq));
                        assert(model::node_get(self.nmap(), self.lmap(), child_ptr, hw2, lq)
                            == model::node_get(mid.nmap(), mid.lmap(), child_ptr, hw2, lq));
                        assert(model::node_get(mid.nmap(), mid.lmap(), child_ptr, hw2, lq) == (
                        if lq == p {
                            Some(val)
                        } else {
                            None::<V>
                        }));
                        if lq == p {
                            model::lemma_decomp_inj(q, pos, hw);
                            assert(q == pos);
                        }
                        if q == pos {
                            assert(lq == p);
                        }
                    }
                }
            }
            node_ptr
        }
    }

    /// Build the eight children that replace a `Full` node being split at
    /// half-width `node_half_with`: seven subtrees carry the old uniform
    /// value, the one at the insertion octant carries the new value down to
    /// the leaf level. Returns the handles of the new children.
    fn insert_mixed_child_nodes_for_full_node_split(
        &mut self,
        majority_val: V,
        insert_idx: usize,
        insert_val: V,
        insert_pos: PosU8,
        node_half_with: u8,
    ) -> (cs_out: [usize; 8])
        requires
            old(self).leafs.wf(),
            insert_idx < 8,
            model::hw_ok(node_half_with),
            model::fits(insert_pos, node_half_with as int),
            majority_val != insert_val,
            old(self).nmap().dom().finite(),
        ensures
            final(self).leafs.wf(),
            final(self).nmap().dom().finite(),
            final(self).nmap().dom() == old(self).nmap().dom().union(
                model::kids_span(final(self).nmap(), cs_out@, 8, node_half_with),
            ),
            final(self).lmap().dom() == old(self).lmap().dom().union(
                model::kids_leafspan(final(self).nmap(), cs_out@, 8, node_half_with),
            ),
            final(self).nmap().dom().len() == old(self).nmap().dom().len()
                + model::split_node_count(node_half_with),
            final(self).lmap().dom().len() == old(self).lmap().dom().len()
                + model::split_leaf_count(node_half_with),
            model::agree(old(self).nmap(), final(self).nmap(), old(self).nmap().dom()),
            model::agree(old(self).lmap(), final(self).lmap(), old(self).lmap().dom()),
            model::mixed_wf(final(self).nmap(), final(self).lmap(), cs_out@, node_half_with),
            forall|j: int|
                0 <= j < 8 ==> model::kid_tidy(
                    final(self).nmap(),
                    final(self).lmap(),
                    #[trigger] cs_out@[j],
                    node_half_with,
                ),
            model::kids_span(final(self).nmap(), cs_out@, 8, node_half_with).disjoint(
                old(self).nmap().dom(),
            ),
            model::kids_leafspan(final(self).nmap(), cs_out@, 8, node_half_with).disjoint(
                old(self).lmap().dom(),
            ),
            forall|q: PosU8|
                model::fits(q, 2 * (node_half_with as int)) ==> model::mixed_get(
                    final(self).nmap(),
                    final(self).lmap(),
                    cs_out@,
                    node_half_with,
                    q,
                ) == (if model::octant(q, node_half_with) == insert_idx && model::local_pos(
                    q,
                    node_half_with,
                ) == insert_pos {
                    Some(insert_val)
                } else {
                    Some(majority_val)
                }),
        decreases node_half_with,
    {
        let mut ptrs: [usize; 8] = [0; 8];
        let hw = node_half_with;
        if hw <= 1 {
            // leaf level: allocate eight leaves
            proof {
                assert(model::kids_leafspan(self.nmap(), ptrs@, 0, hw) =~= Set::<usize>::empty());
                assert(self.lmap().dom() =~= old(self).lmap().dom().union(
                    model::kids_leafspan(self.nmap(), ptrs@, 0, hw),
                ));
            }
            let mut i: usize = 0;
            while i < 8
                invariant
                    i <= 8,
                    insert_idx < 8,
                    hw <= 1,
                    self.leafs.wf(),
                    self.nmap() == old(self).nmap(),
                    model::agree(old(self).lmap(), self.lmap(), old(self).lmap().dom()),
                    self.lmap().dom() == old(self).lmap().dom().union(
                        model::kids_leafspan(self.nmap(), ptrs@, i as int, hw),
                    ),
                    self.lmap().dom().len() == old(self).lmap().dom().len() + i,
                    forall|j: int|
                        0 <= j < i ==> (#[trigger] ptrs@[j]) != EMPTY_PTR
                            && self.lmap().dom().contains(ptrs@[j]) && !old(
                            self,
                        ).lmap().dom().contains(ptrs@[j]) && self.lmap()[ptrs@[j]] == (if j
                            == insert_idx {
                            insert_val
                        } else {
                            majority_val
                        }),
                    forall|j1: int, j2: int|
                        0 <= j1 < i && 0 <= j2 < i && j1 != j2 ==> ptrs@[j1] != ptrs@[j2],
                decreases 8 - i,
            {
                let ghost prev = *self;
                let v = if i == insert_idx {
                    insert_val
                } else {
                    majority_val
                };
                let ghost ops = ptrs@;
                let leaf = self.leafs.acquire(v);
                ptrs[i] = leaf;
                proof {
                    assert forall|k: usize| #[trigger] prev.lmap().dom().contains(
                        k,
                    ) implies self.lmap().dom().contains(k) && self.lmap()[k] == prev.lmap()[k] by {}
                    model::lemma_agree_trans(old(self).lmap(), prev.lmap(), self.lmap());
                    prev.leafs.lemma_entries_finite();
                    assert(self.lmap().dom() =~= prev.lmap().dom().insert(leaf));
                    model::lemma_kids_span_parts(prev.nmap(), self.nmap(), ops, ptrs@, i as int, hw);
                    assert(model::kids_leafspan(self.nmap(), ptrs@, i + 1, hw)
                        == model::kids_leafspan(self.nmap(), ptrs@, i as int, hw).union(
                        model::kid_leafspan(self.nmap(), ptrs@[i as int], hw),
                    ));
                    assert(model::kid_leafspan(self.nmap(), ptrs@[i as int], hw) =~= set![leaf]);
                    assert(self.lmap().dom() =~= old(self).lmap().dom().union(
                        model::kids_leafspan(self.nmap(), ptrs@, i + 1, hw),
                    ));
                }
                i = i + 1;
            }
            proof {
                let fin = *self;
                assert forall|j: int| 0 <= j < 8 implies model::kid_wf(
                    fin.nmap(),
                    fin.lmap(),
                    #[trigger] ptrs@[j],
                    hw,
                ) by {}
                assert forall|i1: int, j2: int|
                    0 <= i1 < 8 && 0 <= j2 < 8 && i1 != j2 implies model::kid_span(
                    fin.nmap(),
                    ptrs@[i1],
                    hw,
                ).disjoint(model::kid_span(fin.nmap(), ptrs@[j2], hw)) && model::kid_leafspan(
                    fin.nmap(),
                    ptrs@[i1],
                    hw,
                ).disjoint(model::kid_leafspan(fin.nmap(), ptrs@[j2], hw)) by {
                    assert(model::kid_leafspan(fin.nmap(), ptrs@[i1], hw) =~= set![ptrs@[i1]]);
                    assert(model::kid_leafspan(fin.nmap(), ptrs@[j2], hw) =~= set![ptrs@[j2]]);
                }
                assert(model::mixed_wf(fin.nmap(), fin.lmap(), ptrs@, hw));
                assert forall|j: int|
                    0 <= j < 8 implies (#[trigger] model::kid_span(
                    fin.nmap(),
                    ptrs@[j],
                    hw,
                )).disjoint(old(self).nmap().dom()) && (model::kid_leafspan(
                    fin.nmap(),
                    ptrs@[j],
                    hw,
                )).disjoint(old(self).lmap().dom()) by {
                    assert(model::kid_leafspan(fin.nmap(), ptrs@[j], hw) =~= set![ptrs@[j]]);
                }
                model::lemma_kids_span_disjoint(
                    fin.nmap(),
                    ptrs@,
                    8,
                    hw,
                    old(self).nmap().dom(),
                    old(self).lmap().dom(),
                );
                model::lemma_kids_span_leaf_level(fin.nmap(), ptrs@, 8, hw);
                assert(fin.nmap().dom() =~= old(self).nmap().dom().union(
                    model::kids_span(fin.nmap(), ptrs@, 8, hw),
                ));
                assert(model::split_leaf_count(hw) == 8);
                assert(model::split_node_count(hw) == 0);
                assert forall|j: int| 0 <= j < 8 implies model::kid_tidy(
                    fin.nmap(),
                    fin.lmap(),
                    #[trigger] ptrs@[j],
                    hw,
                ) by {}
                assert forall|q: PosU8| model::fits(q, 2 * (hw as int)) implies model::mixed_get(
                    fin.nmap(),
                    fin.lmap(),
                    ptrs@,
                    hw,
                    q,
                ) == (if model::octant(q, hw) == insert_idx && model::local_pos(q, hw)
                    == insert_pos {
                    Some(insert_val)
                } else {
                    Some(majority_val)
                }) by {
                    let j = model::octant(q, hw);
                    assert(model::local_pos(q, hw) == insert_pos);
                }
            }
            ptrs
        } else {
            let hw2 = hw / 2;
            proof {
                assert(model::kids_span(self.nmap(), ptrs@, 0, hw) =~= Set::<usize>::empty());
                assert(model::kids_leafspan(self.nmap(), ptrs@, 0, hw) =~= Set::<usize>::empty());
                assert(self.nmap().dom() =~= old(self).nmap().dom().union(
                    model::kids_span(self.nmap(), ptrs@, 0, hw),
                ));
                assert(self.lmap().dom() =~= old(self).lmap().dom().union(
                    model::kids_leafspan(self.nmap(), ptrs@, 0, hw),
                ));
            }
            let mut i: usize = 0;
            while i < 8
                invariant
                    i <= 8,
                    insert_idx < 8,
                    hw >= 2,
                    hw == node_half_with,
                    hw2 == hw / 2,
                    model::hw_ok(hw),
                    model::fits(insert_pos, hw as int),
                    self.leafs.wf(),
                    model::agree(old(self).nmap(), self.nmap(), old(self).nmap().dom()),
                    model::agree(old(self).lmap(), self.lmap(), old(self).lmap().dom()),
                    old(self).nmap().dom().finite(),
                    self.nmap().dom().finite(),
                    self.nmap().dom() == old(self).nmap().dom().union(
                        model::kids_span(self.nmap(), ptrs@, i as int, hw),
                    ),
                    self.lmap().dom() == old(self).lmap().dom().union(
                        model::kids_leafspan(self.nmap(), ptrs@, i as int, hw),
                    ),
                    self.nmap().dom().len() as int == old(self).nmap().dom().len() + i + (
                    if insert_idx < i {
                        model::split_node_count(hw2) as int
                    } else {
                        0int
                    }),
                    self.lmap().dom().len() as int == old(self).lmap().dom().len() + i - (
                    if insert_idx < i {
                        1int
                    } else {
                        0int
                    }) + (if insert_idx < i {
                        model::split_leaf_count(hw2) as int
                    } else {
                        0int
                    }),
                    forall|j: int| 0 <= j < i ==> (#[trigger] ptrs@[j]) != EMPTY_PTR,
                    forall|j: int|
                        0 <= j < i ==> model::kid_wf(
                            self.nmap(),
                            self.lmap(),
                            #[trigger] ptrs@[j],
                            hw,
                        ),
                    forall|j: int|
                        0 <= j < i ==> model::kid_tidy(
                            self.nmap(),
                            self.lmap(),
                            #[trigger] ptrs@[j],
                            hw,
                        ),
                    majority_val != insert_val,
                    forall|j: int|
                        0 <= j < i ==> (#[trigger] model::kid_span(
                            self.nmap(),
                            ptrs@[j],
                            hw,
                        )).disjoint(old(self).nmap().dom()),
                    forall|j: int|
                        0 <= j < i ==> (#[trigger] model::kid_leafspan(
                            self.nmap(),
                            ptrs@[j],
                            hw,
                        )).disjoint(old(self).lmap().dom()),
                    forall|j1: int, j2: int|
                        0 <= j1 < i && 0 <= j2 < i && j1 != j2 ==> model::kid_span(
                            self.nmap(),
                            ptrs@[j1],
                            hw,
                        ).disjoint(model::kid_span(self.nmap(), ptrs@[j2], hw))
                            && model::kid_leafspan(self.nmap(), ptrs@[j1], hw).disjoint(
                            model::kid_leafspan(self.nmap(), ptrs@[j2], hw),
                        ),
                    forall|j: int, q: PosU8|
                        0 <= j < i && model::fits(q, hw as int) ==> #[trigger] model::node_get(
                            self.nmap(),
                            self.lmap(),
                            ptrs@[j],
                            hw2,
                            q,
                        ) == (if j == insert_idx && q == insert_pos {
                            Some(insert_val)
                        } else {
                            Some(majority_val)
                        }),
                decreases 8 - i,
            {
                let ghost prev = *self;
                let kid_ptr: usize;
                if i == insert_idx {
                    let mut p2 = insert_pos;
                    let child_idx = Self::oct_index(&mut p2, hw2);
                    let inner = self.insert_mixed_child_nodes_for_full_node_split(
                        majority_val,
                        child_idx,
                        insert_val,
                        p2,
                        hw2,
                    );
                    let ghost rec = *self;
                    kid_ptr = store::store_alloc(&mut self.nodes, Node::Mixed(inner));
                    proof {
                        model::lemma_kids_span_in_dom(rec.nmap(), rec.lmap(), inner@, 8, hw2);
                        assert forall|k: usize| #[trigger] rec.nmap().dom().contains(
                            k,
                        ) implies self.nmap().dom().contains(k) && self.nmap()[k]
                            == rec.nmap()[k] by {}
                        model::lemma_agree_mono(
                            rec.nmap(),
                            self.nmap(),
                            rec.nmap().dom(),
                            model::kids_span(rec.nmap(), inner@, 8, hw2),
                        );
                        model::lemma_agree_mono(
                            rec.lmap(),
                            self.lmap(),
                            rec.lmap().dom(),
                            model::kids_leafspan(rec.nmap(), inner@, 8, hw2),
                        );
                        model::lemma_kids_frame(
                            rec.nmap(),
                            rec.lmap(),
                            self.nmap(),
                            self.lmap(),
                            inner@,
                            8,
                            hw2,
                        );
                        assert(model::mixed_wf(self.nmap(), self.lmap(), inner@, hw2));
                        assert(model::kids_span(self.nmap(), inner@, 8, hw2) == model::kids_span(
                            rec.nmap(),
                            inner@,
                            8,
                            hw2,
                        ));
                        assert(!model::kids_span(self.nmap(), inner@, 8, hw2).contains(kid_ptr));
                        assert(model::node_wf(self.nmap(), self.lmap(), kid_ptr, hw2));
                        assert(model::node_span(self.nmap(), kid_ptr, hw2) =~= set![kid_ptr].union(
                            model::kids_span(rec.nmap(), inner@, 8, hw2),
                        ));
                        assert(model::node_leafspan(self.nmap(), kid_ptr, hw2)
                            =~= model::kids_leafspan(rec.nmap(), inner@, 8, hw2));
                        assert(model::node_span(self.nmap(), kid_ptr, hw2).disjoint(
                            prev.nmap().dom(),
                        ));
                        assert(model::node_leafspan(self.nmap(), kid_ptr, hw2).disjoint(
                            prev.lmap().dom(),
                        ));
                        assert(self.nmap().dom() =~= rec.nmap().dom().insert(kid_ptr));
                        assert(self.nmap().dom().len() == rec.nmap().dom().len() + 1);
                        assert forall|q: PosU8| model::fits(q, hw as int) implies model::node_get(
                            self.nmap(),
                            self.lmap(),
                            kid_ptr,
                            hw2,
                            q,
                        ) == (if q == insert_pos {
                            Some(insert_val)
                        } else {
                            Some(majority_val)
                        }) by {
                            assert(model::node_get(self.nmap(), self.lmap(), kid_ptr, hw2, q)
                                == model::mixed_get(self.nmap(), self.lmap(), inner@, hw2, q));
                            let oq2 = model::octant(q, hw2);
                            let c2 = inner@[oq2];
                            if c2 == EMPTY_PTR {
                            } else if hw2 <= 1 {
                                assert(model::kid_leafspan(rec.nmap(), c2, hw2).contains(c2));
                                model::lemma_kid_in_kids(rec.nmap(), inner@, 8, hw2, oq2);
                                assert(model::kids_leafspan(rec.nmap(), inner@, 8, hw2).contains(
                                    c2,
                                ));
                            } else {
                                assert(model::node_get(
                                    self.nmap(),
                                    self.lmap(),
                                    c2,
                                    (hw2 / 2) as u8,
                                    model::local_pos(q, hw2),
                                ) == model::node_get(
                                    rec.nmap(),
                                    rec.lmap(),
                                    c2,
                                    (hw2 / 2) as u8,
                                    model::local_pos(q, hw2),
                                ));
                            }
                            assert(model::mixed_get(self.nmap(), self.lmap(), inner@, hw2, q)
                                == model::mixed_get(rec.nmap(), rec.lmap(), inner@, hw2, q));
                            if oq2 == child_idx && model::local_pos(q, hw2) == p2 {
                                model::lemma_decomp_inj(q, insert_pos, hw2);
                            }
                        }
                        // the child carries two different values, so no level
                        // of it is uniform
                        assert(model::fits(p2, hw2 as int));
                        let oth: int = if child_idx == 0 {
                            1int
                        } else {
                            0int
                        };
                        let zero = PosU8 { x: 0, y: 0, z: 0 };
                        let q_oth = model::compose(oth, zero, hw2);
                        model::lemma_compose(oth, zero, hw2);
                        assert forall|v: V| !model::cs_uni(
                            self.nmap(),
                            self.lmap(),
                            inner@,
                            hw2,
                            v,
                        ) by {
                            if model::cs_uni(self.nmap(), self.lmap(), inner@, hw2, v) {
                                model::lemma_cs_uni_get(
                                    self.nmap(),
                                    self.lmap(),
                                    inner@,
                                    hw2,
                                    v,
                                    insert_pos,
                                );
                                model::lemma_cs_uni_get(
                                    self.nmap(),
                                    self.lmap(),
                                    inner@,
                                    hw2,
                                    v,
                                    q_oth,
                                );
                                assert(model::node_get(self.nmap(), self.lmap(), kid_ptr, hw2, insert_pos)
                                    == Some(insert_val));
                                assert(model::node_get(self.nmap(), self.lmap(), kid_ptr, hw2, q_oth)
                                    == Some(majority_val));
                                assert(v == insert_val && v == majority_val);
                                assert(false);
                            }
                        }
                        assert forall|j2: int| 0 <= j2 < 8 implies model::kid_tidy(
                            self.nmap(),
                            self.lmap(),
                            #[trigger] inner@[j2],
                            hw2,
                        ) by {
                            let c2 = inner@[j2];
                            assert(model::kid_tidy(rec.nmap(), rec.lmap(), c2, hw2));
                            if c2 != EMPTY_PTR && hw2 >= 2 {
                                assert(model::kid_wf(rec.nmap(), rec.lmap(), c2, hw2));
                                model::lemma_kid_in_kids(rec.nmap(), inner@, 8, hw2, j2);
                                model::lemma_agree_mono(
                                    rec.nmap(),
                                    self.nmap(),
                                    model::kids_span(rec.nmap(), inner@, 8, hw2),
                                    model::node_span(rec.nmap(), c2, (hw2 / 2) as u8),
                                );
                                model::lemma_agree_mono(
                                    rec.lmap(),
                                    self.lmap(),
                                    model::kids_leafspan(rec.nmap(), inner@, 8, hw2),
                                    model::node_leafspan(rec.nmap(), c2, (hw2 / 2) as u8),
                                );
                                model::lemma_tidy_frame(
                                    rec.nmap(),
                                    rec.lmap(),
                                    self.nmap(),
                                    self.lmap(),
                                    c2,
                                    (hw2 / 2) as u8,
                                );
                            }
                        }
                        assert(model::node_tidy(self.nmap(), self.lmap(), kid_ptr, hw2));
                        assert(model::kid_tidy(self.nmap(), self.lmap(), kid_ptr, hw));
                    }
                } else {
                    let leaf = self.leafs.acquire(majority_val);
                    let ghost mid = *self;
                    kid_ptr = store::store_alloc(&mut self.nodes, Node::Full(leaf));
                    proof {
                        assert(model::node_wf(self.nmap(), self.lmap(), kid_ptr, hw2));
                        assert(model::node_tidy(self.nmap(), self.lmap(), kid_ptr, hw2));
                        assert(model::kid_tidy(self.nmap(), self.lmap(), kid_ptr, hw));
                        prev.leafs.lemma_entries_finite();
                        assert(self.lmap().dom() =~= prev.lmap().dom().insert(leaf));
                        assert(self.lmap().dom().len() == prev.lmap().dom().len() + 1);
                        assert(self.nmap().dom() =~= prev.nmap().dom().insert(kid_ptr));
                        assert(self.nmap().dom().len() == prev.nmap().dom().len() + 1);
                        assert(model::node_span(self.nmap(), kid_ptr, hw2) =~= set![kid_ptr]);
                        assert(model::node_leafspan(self.nmap(), kid_ptr, hw2) =~= set![leaf]);
                        assert(model::node_span(self.nmap(), kid_ptr, hw2).disjoint(
                            prev.nmap().dom(),
                        ));
                        assert(model::node_leafspan(self.nmap(), kid_ptr, hw2).disjoint(
                            prev.lmap().dom(),
                        ));
                    }
                }
                let ghost ops = ptrs@;
                ptrs[i] = kid_ptr;
                proof {
                    assert forall|k: usize| #[trigger] prev.nmap().dom().contains(
                        k,
                    ) implies self.nmap().dom().contains(k) && self.nmap()[k]
                        == prev.nmap()[k] by {}
                    assert forall|k: usize| #[trigger] prev.lmap().dom().contains(
                        k,
                    ) implies self.lmap().dom().contains(k) && self.lmap()[k]
                        == prev.lmap()[k] by {}
                    model::lemma_agree_trans(old(self).nmap(), prev.nmap(), self.nmap());
                    model::lemma_agree_trans(old(self).lmap(), prev.lmap(), self.lmap());
                    // the kid just built owns nothing that was live before
                    // this iteration
                    assert(model::kid_span(self.nmap(), ptrs@[i as int], hw).disjoint(
                        prev.nmap().dom(),
                    ));
                    assert(model::kid_leafspan(self.nmap(), ptrs@[i as int], hw).disjoint(
                        prev.lmap().dom(),
                    ));
                    // the kids built in earlier iterations are untouched
                    assert forall|j: int| 0 <= j < i implies model::kid_wf(
                        self.nmap(),
                        self.lmap(),
                        #[trigger] ptrs@[j],
                        hw,
                    ) && model::kid_tidy(self.nmap(), self.lmap(), ptrs@[j], hw)
                        && model::kid_span(self.nmap(), ptrs@[j], hw) == model::kid_span(
                        prev.nmap(),
                        ptrs@[j],
                        hw,
                    ) && model::kid_leafspan(self.nmap(), ptrs@[j], hw) == model::kid_leafspan(
                        prev.nmap(),
                        ptrs@[j],
                        hw,
                    ) && (forall|q: PosU8|
                        model::fits(q, hw as int) ==> #[trigger] model::node_get(
                            self.nmap(),
                            self.lmap(),
                            ptrs@[j],
                            hw2,
                            q,
                        ) == model::node_get(prev.nmap(), prev.lmap(), ptrs@[j], hw2, q)) by {
                        let c = ptrs@[j];
                        assert(model::kid_wf(prev.nmap(), prev.lmap(), c, hw));
                        assert(c != EMPTY_PTR && hw >= 2);
                        model::lemma_span_in_dom(prev.nmap(), prev.lmap(), c, hw2);
                        model::lemma_agree_mono(
                            prev.nmap(),
                            self.nmap(),
                            prev.nmap().dom(),
                            model::node_span(prev.nmap(), c, hw2),
                        );
                        model::lemma_agree_mono(
                            prev.lmap(),
                            self.lmap(),
                            prev.lmap().dom(),
                            model::node_leafspan(prev.nmap(), c, hw2),
                        );
                        model::lemma_node_frame(
                            prev.nmap(),
                            prev.lmap(),
                            self.nmap(),
                            self.lmap(),
                            c,
                            hw2,
                        );
                        model::lemma_tidy_frame(
                            prev.nmap(),
                            prev.lmap(),
                            self.nmap(),
                            self.lmap(),
                            c,
                            hw2,
                        );
                    }
                    // pairwise disjointness with the new kid
                    assert forall|j: int| 0 <= j < i implies model::kid_span(
                        self.nmap(),
                        #[trigger] ptrs@[j],
                        hw,
                    ).disjoint(model::kid_span(self.nmap(), ptrs@[i as int], hw))
                        && model::kid_leafspan(self.nmap(), ptrs@[j], hw).disjoint(
                        model::kid_leafspan(self.nmap(), ptrs@[i as int], hw),
                    ) by {
                        let c = ptrs@[j];
                        model::lemma_span_in_dom(prev.nmap(), prev.lmap(), c, hw2);
                    }
                    // bookkeeping: exactly this octant's fresh handles extend
                    // the domains
                    model::lemma_kids_span_parts(prev.nmap(), self.nmap(), ops, ptrs@, i as int, hw);
                    assert(model::kids_span(self.nmap(), ptrs@, i + 1, hw) == model::kids_span(
                        self.nmap(),
                        ptrs@,
                        i as int,
                        hw,
                    ).union(model::kid_span(self.nmap(), ptrs@[i as int], hw)));
                    assert(model::kids_leafspan(self.nmap(), ptrs@, i + 1, hw)
                        == model::kids_leafspan(self.nmap(), ptrs@, i as int, hw).union(
                        model::kid_leafspan(self.nmap(), ptrs@[i as int], hw),
                    ));
                    assert(self.nmap().dom() =~= old(self).nmap().dom().union(
                        model::kids_span(self.nmap(), ptrs@, i + 1, hw),
                    ));
                    assert(self.lmap().dom() =~= old(self).lmap().dom().union(
                        model::kids_leafspan(self.nmap(), ptrs@, i + 1, hw),
                    ));
                }
                i = i + 1;
            }
            proof {
                let fin = *self;
                assert(model::split_node_count(hw) == 8 + model::split_node_count(hw2));
                assert(model::split_leaf_count(hw) == 7 + model::split_leaf_count(hw2));
                model::lemma_kids_span_disjoint(
                    fin.nmap(),
                    ptrs@,
                    8,
                    hw,
                    old(self).nmap().dom(),
                    old(self).lmap().dom(),
                );
                assert(model::mixed_wf(fin.nmap(), fin.lmap(), ptrs@, hw));
                assert forall|q: PosU8| model::fits(q, 2 * (hw as int)) implies model::mixed_get(
                    fin.nmap(),
                    fin.lmap(),
                    ptrs@,
                    hw,
                    q,
                ) == (if model::octant(q, hw) == insert_idx && model::local_pos(q, hw)
                    == insert_pos {
                    Some(insert_val)
                } else {
                    Some(majority_val)
                }) by {
                    let j = model::octant(q, hw);
                    let lq = model::local_pos(q, hw);
                    assert(model::fits(lq, hw as int));
                    assert(model::node_get(fin.nmap(), fin.lmap(), ptrs@[j], hw2, lq) == (if j
                        == insert_idx && lq == insert_pos {
                        Some(insert_val)
                    } else {
                        Some(majority_val)
                    }));
                }
            }
            ptrs
        }
    }

    /// Free every live descendant reachable through the octant slots `ptrs`
    /// of a `Mixed` node at `node_half_width`, each exactly once. Handles
    /// outside those subtrees are untouched.
    fn delete_mixed_child_nodes(&mut self, ptrs: &[usize; 8], node_half_width: u8)
        requires
            old(self).leafs.wf(),
            model::mixed_wf(old(self).nmap(), old(self).lmap(), ptrs@, node_half_width),
        ensures
            final(self).leafs.wf(),
            final(self).nmap().dom() == old(self).nmap().dom().difference(
                model::kids_span(old(self).nmap(), ptrs@, 8, node_half_width),
            ),
            final(self).lmap().dom() == old(self).lmap().dom().difference(
                model::kids_leafspan(old(self).nmap(), ptrs@, 8, node_half_width),
            ),
            model::agree(
                old(self).nmap(),
                final(self).nmap(),
                old(self).nmap().dom().difference(
                    model::kids_span(old(self).nmap(), ptrs@, 8, node_half_width),
                ),
            ),
            model::agree(
                old(self).lmap(),
                final(self).lmap(),
                old(self).lmap().dom().difference(
                    model::kids_leafspan(old(self).nmap(), ptrs@, 8, node_half_width),
                ),
            ),
        decreases node_half_width,
    {
        let hw = node_half_width;
        proof {
            assert(model::kids_span(old(self).nmap(), ptrs@, 0, hw) =~= Set::<usize>::empty());
            assert(model::kids_leafspan(old(self).nmap(), ptrs@, 0, hw) =~= Set::<usize>::empty());
            assert(self.nmap().dom() =~= old(self).nmap().dom().difference(
                model::kids_span(old(self).nmap(), ptrs@, 0, hw),
            ));
            assert(self.lmap().dom() =~= old(self).lmap().dom().difference(
                model::kids_leafspan(old(self).nmap(), ptrs@, 0, hw),
            ));
        }
        let mut i: usize = 0;
        while i < 8
            invariant
                i <= 8,
                hw == node_half_width,
                self.leafs.wf(),
                model::mixed_wf(old(self).nmap(), old(self).lmap(), ptrs@, hw),
                self.nmap().dom() == old(self).nmap().dom().difference(
                    model::kids_span(old(self).nmap(), ptrs@, i as int, hw),
                ),
                self.lmap().dom() == old(self).lmap().dom().difference(
                    model::kids_leafspan(old(self).nmap(), ptrs@, i as int, hw),
                ),
                model::agree(
                    old(self).nmap(),
                    self.nmap(),
                    old(self).nmap().dom().difference(
                        model::kids_span(old(self).nmap(), ptrs@, i as int, hw),
                    ),
                ),
                model::agree(
                    old(self).lmap(),
                    self.lmap(),
                    old(self).lmap().dom().difference(
                        model::kids_leafspan(old(self).nmap(), ptrs@, i as int, hw),
                    ),
                ),
                forall|j: int|
                    i <= j < 8 ==> model::kid_wf(self.nmap(), self.lmap(), #[trigger] ptrs@[j], hw)
                        && model::kid_span(self.nmap(), ptrs@[j], hw) == model::kid_span(
                        old(self).nmap(),
                        ptrs@[j],
                        hw,
                    ) && model::kid_leafspan(self.nmap(), ptrs@[j], hw) == model::kid_leafspan(
                        old(self).nmap(),
                        ptrs@[j],
                        hw,
                    ),
            decreases 8 - i,
        {
            let ghost prev = *self;
            let ptr = ptrs[i];
            proof {
                assert(model::kid_wf(prev.nmap(), prev.lmap(), ptrs@[i as int], hw));
            }
            if ptr != EMPTY_PTR {
                if hw <= 1 {
                    self.leafs.release(ptr);
                } else {
                    let hw2 = hw / 2;
                    let node = store::store_remove(&mut self.nodes, ptr);
                    let ghost m1 = *self;
                    proof {
                        assert(model::node_wf(prev.nmap(), prev.lmap(), ptr, hw2 as u8));
                        assert(model::node_span(prev.nmap(), ptr, hw2).contains(ptr));
                    }
                    match node {
                        Node::Full(leaf_ptr) => {
                            self.leafs.release(leaf_ptr);
                        }
                        Node::Mixed(cs2) => {
                            proof {
                                assert(!model::kids_span(prev.nmap(), cs2@, 8, hw2).contains(ptr));
                                model::lemma_kids_span_in_dom(prev.nmap(), prev.lmap(), cs2@, 8, hw2);
                                assert forall|k: usize| #[trigger] model::kids_span(
                                    prev.nmap(),
                                    cs2@,
                                    8,
                                    hw2,
                                ).contains(k) implies m1.nmap().dom().contains(k) && m1.nmap()[k]
                                    == prev.nmap()[k] by {
                                    assert(k != ptr);
                                }
                                model::lemma_kids_frame(
                                    prev.nmap(),
                                    prev.lmap(),
                                    m1.nmap(),
                                    m1.lmap(),
                                    cs2@,
                                    8,
                                    hw2,
                                );
                                assert(model::mixed_wf(m1.nmap(), m1.lmap(), cs2@, hw2));
                            }
                            self.delete_mixed_child_nodes(&cs2, hw2);
                            proof {
                                assert(model::kids_span(m1.nmap(), cs2@, 8, hw2) == model::kids_span(
                                    prev.nmap(),
                                    cs2@,
                                    8,
                                    hw2,
                                ));
                                assert(model::kids_leafspan(m1.nmap(), cs2@, 8, hw2)
                                    == model::kids_leafspan(prev.nmap(), cs2@, 8, hw2));
                            }
                        }
                    }
                }
            }
            proof {
                let c = ptrs@[i as int];
                let sp_i = model::kid_span(old(self).nmap(), c, hw);
                let lp_i = model::kid_leafspan(old(self).nmap(), c, hw);
                assert(model::kids_span(old(self).nmap(), ptrs@, i + 1, hw) == model::kids_span(
                    old(self).nmap(),
                    ptrs@,
                    i as int,
                    hw,
                ).union(sp_i));
                assert(model::kids_leafspan(old(self).nmap(), ptrs@, i + 1, hw)
                    == model::kids_leafspan(old(self).nmap(), ptrs@, i as int, hw).union(lp_i));
                assert(model::kid_span(prev.nmap(), c, hw) == sp_i);
                assert(model::kid_leafspan(prev.nmap(), c, hw) == lp_i);
                // exactly this octant's handles were freed, nothing else
                if c == EMPTY_PTR {
                    assert(sp_i =~= Set::<usize>::empty());
                    assert(lp_i =~= Set::<usize>::empty());
                    assert(self.nmap().dom() =~= old(self).nmap().dom().difference(
                        model::kids_span(old(self).nmap(), ptrs@, i + 1, hw),
                    ));
                    assert(self.lmap().dom() =~= old(self).lmap().dom().difference(
                        model::kids_leafspan(old(self).nmap(), ptrs@, i + 1, hw),
                    ));
                } else if hw <= 1 {
                    assert(lp_i =~= set![c]);
                    assert(sp_i =~= Set::<usize>::empty());
                    assert(self.nmap() == prev.nmap());
                    assert(self.lmap() == prev.lmap().remove(c));
                    assert(self.nmap().dom() =~= old(self).nmap().dom().difference(
                        model::kids_span(old(self).nmap(), ptrs@, i + 1, hw),
                    ));
                    assert(self.lmap().dom() =~= old(self).lmap().dom().difference(
                        model::kids_leafspan(old(self).nmap(), ptrs@, i + 1, hw),
                    ));
                } else {
                    let hw2i = (hw / 2) as u8;
                    match prev.nmap()[c] {
                        Node::Full(l) => {
                            assert(sp_i =~= set![c]);
                            assert(lp_i =~= set![l]);
                            assert(self.nmap() == prev.nmap().remove(c));
                            assert(self.lmap() == prev.lmap().remove(l));
                            assert(self.nmap().dom() =~= old(self).nmap().dom().difference(
                                model::kids_span(old(self).nmap(), ptrs@, i + 1, hw),
                            ));
                            assert(self.lmap().dom() =~= old(self).lmap().dom().difference(
                                model::kids_leafspan(old(self).nmap(), ptrs@, i + 1, hw),
                            ));
                        }
                        Node::Mixed(cs2) => {
                            let m1n = prev.nmap().remove(c);
                            assert(self.nmap().dom() == m1n.dom().difference(
                                model::kids_span(m1n, cs2@, 8, hw2i),
                            ));
                            assert(self.lmap().dom() == prev.lmap().dom().difference(
                                model::kids_leafspan(m1n, cs2@, 8, hw2i),
                            ));
                            assert(model::kids_span(m1n, cs2@, 8, hw2i) == model::kids_span(
                                prev.nmap(),
                                cs2@,
                                8,
                                hw2i,
                            ));
                            assert(model::kids_leafspan(m1n, cs2@, 8, hw2i)
                                == model::kids_leafspan(prev.nmap(), cs2@, 8, hw2i));
                            assert(sp_i =~= set![c].union(
                                model::kids_span(prev.nmap(), cs2@, 8, hw2i),
                            ));
                            assert(lp_i == model::kids_leafspan(prev.nmap(), cs2@, 8, hw2i));
                            assert(self.nmap().dom() =~= old(self).nmap().dom().difference(
                                model::kids_span(old(self).nmap(), ptrs@, i + 1, hw),
                            ));
                            assert(self.lmap().dom() =~= old(self).lmap().dom().difference(
                                model::kids_leafspan(old(self).nmap(), ptrs@, i + 1, hw),
                            ));
                        }
                    }
                }
                // everything this iteration freed lies inside the octant's
                // own spans
                let dif_n = old(self).nmap().dom().difference(
                    model::kids_span(old(self).nmap(), ptrs@, i + 1, hw),
                );
                let dif_l = old(self).lmap().dom().difference(
                    model::kids_leafspan(old(self).nmap(), ptrs@, i + 1, hw),
                );
                assert forall|k: usize| #[trigger] dif_n.contains(k) implies self.nmap().dom()
                    .contains(k) && self.nmap()[k] == old(self).nmap()[k] by {
                    assert(old(self).nmap().dom().difference(
                        model::kids_span(old(self).nmap(), ptrs@, i as int, hw),
                    ).contains(k));
                    assert(prev.nmap().dom().contains(k) && prev.nmap()[k] == old(self).nmap()[k]);
                    assert(!sp_i.contains(k));
                    if c != EMPTY_PTR && hw >= 2 {
                        assert(model::node_span(prev.nmap(), c, (hw / 2) as u8).contains(c));
                        assert(k != c);
                        let m1n = prev.nmap().remove(c);
                        assert(m1n.dom().contains(k) && m1n[k] == prev.nmap()[k]);
                        match prev.nmap()[c] {
                            Node::Full(_) => {}
                            Node::Mixed(cs2) => {
                                assert(!model::kids_span(prev.nmap(), cs2@, 8, (hw / 2) as u8)
                                    .contains(k));
                                assert(m1n.dom().difference(
                                    model::kids_span(m1n, cs2@, 8, (hw / 2) as u8),
                                ).contains(k));
                            }
                        }
                    }
                }
                assert(model::agree(old(self).nmap(), self.nmap(), dif_n));
                assert forall|k: usize| #[trigger] dif_l.contains(k) implies self.lmap().dom()
                    .contains(k) && self.lmap()[k] == old(self).lmap()[k] by {
                    assert(old(self).lmap().dom().difference(
                        model::kids_leafspan(old(self).nmap(), ptrs@, i as int, hw),
                    ).contains(k));
                    assert(prev.lmap().dom().contains(k) && prev.lmap()[k] == old(self).lmap()[k]);
                    assert(!lp_i.contains(k));
                    if c != EMPTY_PTR && hw >= 2 {
                        match prev.nmap()[c] {
                            Node::Full(l) => {
                                assert(lp_i.contains(l));
                                assert(k != l);
                            }
                            Node::Mixed(cs2) => {
                                assert(!model::kids_leafspan(prev.nmap(), cs2@, 8, (hw / 2) as u8)
                                    .contains(k));
                                assert(prev.lmap().dom().difference(
                                    model::kids_leafspan(
                                        prev.nmap().remove(c),
                                        cs2@,
                                        8,
                                        (hw / 2) as u8,
                                    ),
                                ).contains(k));
                            }
                        }
                    } else if c != EMPTY_PTR && hw <= 1 {
                        assert(lp_i.contains(c));
                        assert(k != c);
                    }
                }
                assert(model::agree(old(self).lmap(), self.lmap(), dif_l));
                // the octants not yet visited are untouched
                assert forall|j: int| i + 1 <= j < 8 implies model::kid_wf(
                    self.nmap(),
                    self.lmap(),
                    #[trigger] ptrs@[j],
                    hw,
                ) && model::kid_span(self.nmap(), ptrs@[j], hw) == model::kid_span(
                    old(self).nmap(),
                    ptrs@[j],
                    hw,
                ) && model::kid_leafspan(self.nmap(), ptrs@[j], hw) == model::kid_leafspan(
                    old(self).nmap(),
                    ptrs@[j],
                    hw,
                ) by {
                    let d = ptrs@[j];
                    assert(model::kid_wf(prev.nmap(), prev.lmap(), d, hw));
                    assert(sp_i.disjoint(model::kid_span(old(self).nmap(), d, hw)));
                    assert(lp_i.disjoint(model::kid_leafspan(old(self).nmap(), d, hw)));
                    if d != EMPTY_PTR {
                        if hw <= 1 {
                            assert(model::kid_leafspan(old(self).nmap(), d, hw).contains(d));
                            assert(prev.lmap().dom().contains(d));
                            if c != EMPTY_PTR {
                                assert(lp_i.contains(c));
                                assert(d != c);
                            }
                            assert(self.lmap().dom().contains(d));
                        } else {
                            let hw2 = (hw / 2) as u8;
                            model::lemma_span_in_dom(prev.nmap(), prev.lmap(), d, hw2);
                            assert forall|k: usize| #[trigger] model::node_span(
                                prev.nmap(),
                                d,
                                hw2,
                            ).contains(k) implies self.nmap().dom().contains(k) && self.nmap()[k]
                                == prev.nmap()[k] by {
                                assert(!sp_i.contains(k));
                                if c != EMPTY_PTR {
                                    assert(model::node_span(prev.nmap(), c, hw2).contains(c));
                                    assert(k != c);
                                    let m1n = prev.nmap().remove(c);
                                    assert(m1n.dom().contains(k) && m1n[k] == prev.nmap()[k]);
                                    match prev.nmap()[c] {
                                        Node::Full(_) => {}
                                        Node::Mixed(cs2) => {
                                            assert(!model::kids_span(prev.nmap(), cs2@, 8, hw2)
                                                .contains(k));
                                            assert(m1n.dom().difference(
                                                model::kids_span(m1n, cs2@, 8, hw2),
                                            ).contains(k));
                                        }
                                    }
                                }
                            }
                            assert forall|k: usize| #[trigger] model::node_leafspan(
                                prev.nmap(),
                                d,
                                hw2,
                            ).contains(k) implies self.lmap().dom().contains(k) && self.lmap()[k]
                                == prev.lmap()[k] by {
                                assert(!lp_i.contains(k));
                                if c != EMPTY_PTR {
                                    match prev.nmap()[c] {
                                        Node::Full(l) => {
                                            assert(lp_i.contains(l));
                                            assert(k != l);
                                        }
                                        Node::Mixed(cs2) => {
                                            assert(!model::kids_leafspan(
                                                prev.nmap(),
                                                cs2@,
                                                8,
                                                hw2,
                                            ).contains(k));
                                            assert(prev.lmap().dom().difference(
                                                model::kids_leafspan(
                                                    prev.nmap().remove(c),
                                                    cs2@,
                                                    8,
                                                    hw2,
                                                ),
                                            ).contains(k));
                                        }
                                    }
                                }
                            }
                            model::lemma_node_frame(
                                prev.nmap(),
                                prev.lmap(),
                                self.nmap(),
                                self.lmap(),
                                d,
                                hw2,
                            );
                        }
                    }
                }
            }
            i = i + 1;
        }
    }

    /// Set `pos` to `val` inside the subtree rooted at `node_ptr`: the one
    /// position changes, every other position of the volume keeps what it
    /// stored, and nothing outside the subtree is touched.
    #[verifier::rlimit(100)]
    fn insert_at(&mut self, node_ptr: usize, pos: PosU8, val: V, half_width: u8)
        requires
            old(self).leafs.wf(),
            eq_reflects::<V>(),
            model::hw_ok(half_width),
            model::fits(pos, 2 * (half_width as int)),
            model::node_wf(old(self).nmap(), old(self).lmap(), node_ptr, half_width),
            model::node_tidy(old(self).nmap(), old(self).lmap(), node_ptr, half_width),
            old(self).nmap().dom().finite(),
        ensures
            final(self).leafs.wf(),
            final(self).nmap().dom().finite(),
            model::node_wf(final(self).nmap(), final(self).lmap(), node_ptr, half_width),
            model::node_tidy(final(self).nmap(), final(self).lmap(), node_ptr, half_width),
            final(self).nmap().dom() == old(self).nmap().dom().difference(
                model::node_span(old(self).nmap(), node_ptr, half_width),
            ).union(model::node_span(final(self).nmap(), node_ptr, half_width)),
            final(self).lmap().dom() == old(self).lmap().dom().difference(
                model::node_leafspan(old(self).nmap(), node_ptr, half_width),
            ).union(model::node_leafspan(final(self).nmap(), node_ptr, half_width)),
            model::node_get(old(self).nmap(), old(self).lmap(), node_ptr, half_width, pos) == Some(
                val,
            ) ==> final(self).nmap() == old(self).nmap() && final(self).lmap() == old(self).lmap(),
            forall|q: PosU8|
                model::fits(q, 2 * (half_width as int)) ==> model::node_get(
                    final(self).nmap(),
                    final(self).lmap(),
                    node_ptr,
                    half_width,
                    q,
                ) == (if q == pos {
                    Some(val)
                } else {
                    model::node_get(old(self).nmap(), old(self).lmap(), node_ptr, half_width, q)
                }),
            model::agree(
                old(self).nmap(),
                final(self).nmap(),
                old(self).nmap().dom().difference(
                    model::node_span(old(self).nmap(), node_ptr, half_width),
                ),
            ),
            model::agree(
                old(self).lmap(),
                final(self).lmap(),
                old(self).lmap().dom().difference(
                    model::node_leafspan(old(self).nmap(), node_ptr, half_width),
                ),
            ),
            forall|k: usize|
                #[trigger] model::node_span(final(self).nmap(), node_ptr, half_width).contains(k)
                    ==> model::node_span(old(self).nmap(), node_ptr, half_width).contains(k)
                    || !old(self).nmap().dom().contains(k),
            forall|k: usize|
                #[trigger] model::node_leafspan(final(self).nmap(), node_ptr, half_width).contains(
                    k,
                ) ==> model::node_leafspan(old(self).nmap(), node_ptr, half_width).contains(k)
                    || !old(self).lmap().dom().contains(k),
            final(self).lmap().dom().len() as int == old(self).lmap().dom().len()
                + model::insert_leaf_delta(
                old(self).nmap(),
                old(self).lmap(),
                node_ptr,
                half_width,
                pos,
                val,
            ),
        decreases half_width,
    {
        let hw = half_width;
        let node = store::store_read(&self.nodes, node_ptr);
        match node {
            Node::Full(leaf_ptr) => {
                let full_val = self.leafs.read(leaf_ptr);
                if !(full_val == val) {
                    let mut p = pos;
                    let insert_idx = Self::oct_index(&mut p, hw);
                    let child_node_ptrs = self.insert_mixed_child_nodes_for_full_node_split(
                        full_val,
                        insert_idx,
                        val,
                        p,
                        hw,
                    );
                    let ghost s1 = *self;
                    self.leafs.release(leaf_ptr);
                    store::store_write(&mut self.nodes, node_ptr, Node::Mixed(child_node_ptrs));
                    proof {
                        let s0 = *old(self);
                        let fin = *self;
                        let cs = child_node_ptrs@;
                        model::lemma_kids_span_in_dom(s1.nmap(), s1.lmap(), cs, 8, hw);
                        // the freed leaf and the rewritten node are outside
                        // the freshly built subtrees
                        assert forall|k: usize| #[trigger] model::kids_span(
                            s1.nmap(),
                            cs,
                            8,
                            hw,
                        ).contains(k) implies fin.nmap().dom().contains(k) && fin.nmap()[k]
                            == s1.nmap()[k] by {
                            assert(model::kids_span(s1.nmap(), cs, 8, hw).disjoint(
                                s0.nmap().dom(),
                            ));
                            assert(!s0.nmap().dom().contains(k));
                            assert(k != node_ptr);
                        }
                        assert forall|k: usize| #[trigger] model::kids_leafspan(
                            s1.nmap(),
                            cs,
                            8,
                            hw,
                        ).contains(k) implies fin.lmap().dom().contains(k) && fin.lmap()[k]
                            == s1.lmap()[k] by {
                            assert(!s0.lmap().dom().contains(k));
                            assert(s1.lmap().dom().contains(k));
                            assert(k != leaf_ptr);
                        }
                        model::lemma_kids_frame(
                            s1.nmap(),
                            s1.lmap(),
                            fin.nmap(),
                            fin.lmap(),
                            cs,
                            8,
                            hw,
                        );
                        assert(model::node_wf(fin.nmap(), fin.lmap(), node_ptr, hw));
                        assert forall|q: PosU8| model::fits(q, 2 * (hw as int)) implies
                            model::node_get(fin.nmap(), fin.lmap(), node_ptr, hw, q) == (if q
                            == pos {
                            Some(val)
                        } else {
                            model::node_get(s0.nmap(), s0.lmap(), node_ptr, hw, q)
                        }) by {
                            assert(model::node_get(fin.nmap(), fin.lmap(), node_ptr, hw, q)
                                == model::mixed_get(fin.nmap(), fin.lmap(), cs, hw, q));
                            let oq = model::octant(q, hw);
                            let c2 = cs[oq];
                            if c2 == EMPTY_PTR {
                            } else if hw <= 1 {
                                assert(model::kid_leafspan(s1.nmap(), c2, hw).contains(c2));
                                model::lemma_kid_in_kids(s1.nmap(), cs, 8, hw, oq);
                                assert(model::kids_leafspan(s1.nmap(), cs, 8, hw).contains(c2));
                            } else {
                                assert(model::node_get(
                                    fin.nmap(),
                                    fin.lmap(),
                                    c2,
                                    (hw / 2) as u8,
                                    model::local_pos(q, hw),
                                ) == model::node_get(
                                    s1.nmap(),
                                    s1.lmap(),
                                    c2,
                                    (hw / 2) as u8,
                                    model::local_pos(q, hw),
                                ));
                            }
                            assert(model::mixed_get(fin.nmap(), fin.lmap(), cs, hw, q)
                                == model::mixed_get(s1.nmap(), s1.lmap(), cs, hw, q));
                            if oq == insert_idx && model::local_pos(q, hw) == p {
                                model::lemma_decomp_inj(q, pos, hw);
                            }
                            assert(model::node_get(s0.nmap(), s0.lmap(), node_ptr, hw, q) == Some(
                                full_val,
                            ));
                        }
                        let dif_n = s0.nmap().dom().difference(
                            model::node_span(s0.nmap(), node_ptr, hw),
                        );
                        let dif_l = s0.lmap().dom().difference(
                            model::node_leafspan(s0.nmap(), node_ptr, hw),
                        );
                        assert(model::node_span(s0.nmap(), node_ptr, hw) =~= set![node_ptr]);
                        assert(model::node_leafspan(s0.nmap(), node_ptr, hw) =~= set![leaf_ptr]);
                        assert forall|k: usize| #[trigger] dif_n.contains(k) implies fin.nmap()
                            .dom().contains(k) && fin.nmap()[k] == s0.nmap()[k] by {
                            assert(s0.nmap().dom().contains(k));
                            assert(k != node_ptr);
                        }
                        assert(model::agree(s0.nmap(), fin.nmap(), dif_n));
                        assert forall|k: usize| #[trigger] dif_l.contains(k) implies fin.lmap()
                            .dom().contains(k) && fin.lmap()[k] == s0.lmap()[k] by {
                            assert(s0.lmap().dom().contains(k));
                            assert(k != leaf_ptr);
                        }
                        assert(model::agree(s0.lmap(), fin.lmap(), dif_l));
                        assert forall|k: usize| #[trigger] model::node_span(
                            fin.nmap(),
                            node_ptr,
                            hw,
                        ).contains(k) implies model::node_span(s0.nmap(), node_ptr, hw).contains(k)
                            || !s0.nmap().dom().contains(k) by {
                            if k != node_ptr {
                                assert(model::kids_span(fin.nmap(), cs, 8, hw).contains(k));
                                assert(model::kids_span(fin.nmap(), cs, 8, hw) == model::kids_span(
                                    s1.nmap(),
                                    cs,
                                    8,
                                    hw,
                                ));
                            }
                        }
                        assert forall|k: usize| #[trigger] model::node_leafspan(
                            fin.nmap(),
                            node_ptr,
                            hw,
                        ).contains(k) implies model::node_leafspan(s0.nmap(), node_ptr, hw)
                            .contains(k) || !s0.lmap().dom().contains(k) by {
                            assert(model::kids_leafspan(fin.nmap(), cs, 8, hw).contains(k));
                            assert(model::kids_leafspan(fin.nmap(), cs, 8, hw)
                                == model::kids_leafspan(s1.nmap(), cs, 8, hw));
                        }
                        // the node now stores two values, so no level of the
                        // replacement is uniform
                        let q2 = PosU8 {
                            x: if pos.x == 0 {
                                1
                            } else {
                                0
                            },
                            y: pos.y,
                            z: pos.z,
                        };
                        assert(model::fits(q2, 2 * (hw as int)));
                        assert(q2 != pos);
                        assert forall|v: V| !model::cs_uni(fin.nmap(), fin.lmap(), cs, hw, v) by {
                            if model::cs_uni(fin.nmap(), fin.lmap(), cs, hw, v) {
                                model::lemma_cs_uni_get(fin.nmap(), fin.lmap(), cs, hw, v, pos);
                                model::lemma_cs_uni_get(fin.nmap(), fin.lmap(), cs, hw, v, q2);
                                assert(model::node_get(fin.nmap(), fin.lmap(), node_ptr, hw, pos)
                                    == Some(val));
                                assert(model::node_get(fin.nmap(), fin.lmap(), node_ptr, hw, q2)
                                    == Some(full_val));
                                assert(false);
                            }
                        }
                        assert forall|j: int| 0 <= j < 8 implies model::kid_tidy(
                            fin.nmap(),
                            fin.lmap(),
                            #[trigger] cs[j],
                            hw,
                        ) by {
                            assert(model::kid_tidy(s1.nmap(), s1.lmap(), cs[j], hw));
                            let c = cs[j];
                            if c != EMPTY_PTR && hw >= 2 {
                                assert(model::kid_wf(s1.nmap(), s1.lmap(), c, hw));
                                model::lemma_kid_in_kids(s1.nmap(), cs, 8, hw, j);
                                model::lemma_agree_mono(
                                    s1.nmap(),
                                    fin.nmap(),
                                    model::kids_span(s1.nmap(), cs, 8, hw),
                                    model::node_span(s1.nmap(), c, (hw / 2) as u8),
                                );
                                model::lemma_agree_mono(
                                    s1.lmap(),
                                    fin.lmap(),
                                    model::kids_leafspan(s1.nmap(), cs, 8, hw),
                                    model::node_leafspan(s1.nmap(), c, (hw / 2) as u8),
                                );
                                model::lemma_tidy_frame(
                                    s1.nmap(),
                                    s1.lmap(),
                                    fin.nmap(),
                                    fin.lmap(),
                                    c,
                                    (hw / 2) as u8,
                                );
                            }
                        }
                        assert(model::node_tidy(fin.nmap(), fin.lmap(), node_ptr, hw));
                        // reinserting the stored value never reaches this
                        // branch
                        assert(model::node_get(s0.nmap(), s0.lmap(), node_ptr, hw, pos) == Some(
                            full_val,
                        ));
                        // domains: the old leaf went, the fresh subtrees came
                        assert(fin.nmap().dom() =~= s1.nmap().dom());
                        assert(model::node_span(fin.nmap(), node_ptr, hw) =~= set![node_ptr].union(
                            model::kids_span(s1.nmap(), cs, 8, hw),
                        ));
                        assert(fin.nmap().dom() =~= s0.nmap().dom().difference(
                            model::node_span(s0.nmap(), node_ptr, hw),
                        ).union(model::node_span(fin.nmap(), node_ptr, hw)));
                        assert(fin.lmap().dom() =~= s1.lmap().dom().remove(leaf_ptr));
                        assert(model::node_leafspan(fin.nmap(), node_ptr, hw)
                            == model::kids_leafspan(s1.nmap(), cs, 8, hw));
                        assert(fin.lmap().dom() =~= s0.lmap().dom().difference(
                            model::node_leafspan(s0.nmap(), node_ptr, hw),
                        ).union(model::node_leafspan(fin.nmap(), node_ptr, hw)));
                        // one old leaf went, a split's worth came
                        s1.leafs.lemma_entries_finite();
                        assert(s1.lmap().dom().contains(leaf_ptr));
                        assert(fin.lmap().dom().len() == s1.lmap().dom().len() - 1);
                        assert(model::insert_leaf_delta(s0.nmap(), s0.lmap(), node_ptr, hw, pos, val)
                            == model::split_leaf_count(hw) - 1);
                    }
                } else {
                    proof {
                        assert forall|q: PosU8| model::fits(q, 2 * (hw as int)) implies
                            model::node_get(self.nmap(), self.lmap(), node_ptr, hw, q) == Some(
                            val,
                        ) by {}
                        model::lemma_span_in_dom(self.nmap(), self.lmap(), node_ptr, hw);
                        assert(self.nmap().dom() =~= old(self).nmap().dom().difference(
                            model::node_span(old(self).nmap(), node_ptr, hw),
                        ).union(model::node_span(self.nmap(), node_ptr, hw)));
                        assert(self.lmap().dom() =~= old(self).lmap().dom().difference(
                            model::node_leafspan(old(self).nmap(), node_ptr, hw),
                        ).union(model::node_leafspan(self.nmap(), node_ptr, hw)));
                    }
                }
            }
            Node::Mixed(ptrs_arr) => {
                let mut p = pos;
                let idx = Self::oct_index(&mut p, hw);
                let node_would_be_full = self.insertion_would_make_node_full(
                    &ptrs_arr,
                    idx,
                    &val,
                    p,
                    hw,
                );
                let ghost s0 = *old(self);
                let ghost cs = ptrs_arr@;
                if node_would_be_full {
                    proof {
                        model::lemma_would_fill_uniform(
                            s0.nmap(),
                            s0.lmap(),
                            cs,
                            idx as int,
                            val,
                            p,
                            hw,
                        );
                    }
                    self.delete_mixed_child_nodes(&ptrs_arr, hw);
                    let ghost s1 = *self;
                    proof {
                        assert(!model::kids_span(s0.nmap(), cs, 8, hw).contains(node_ptr));
                        assert(s0.nmap().dom().difference(
                            model::kids_span(s0.nmap(), cs, 8, hw),
                        ).contains(node_ptr));
                        assert(s1.nmap().dom().contains(node_ptr));
                    }
                    let leaf_ptr = self.leafs.acquire(val);
                    store::store_write(&mut self.nodes, node_ptr, Node::Full(leaf_ptr));
                    proof {
                        let fin = *self;
                        assert(model::node_wf(fin.nmap(), fin.lmap(), node_ptr, hw));
                        assert forall|q: PosU8| model::fits(q, 2 * (hw as int)) implies
                            model::node_get(fin.nmap(), fin.lmap(), node_ptr, hw, q) == (if q
                            == pos {
                            Some(val)
                        } else {
                            model::node_get(s0.nmap(), s0.lmap(), node_ptr, hw, q)
                        }) by {
                            assert(model::node_get(fin.nmap(), fin.lmap(), node_ptr, hw, q)
                                == Some(val));
                            if q != pos {
                                if model::octant(q, hw) == idx && model::local_pos(q, hw) == p {
                                    model::lemma_decomp_inj(q, pos, hw);
                                }
                                assert(model::node_get(s0.nmap(), s0.lmap(), node_ptr, hw, q)
                                    == model::mixed_get(s0.nmap(), s0.lmap(), cs, hw, q));
                                assert(model::mixed_get(s0.nmap(), s0.lmap(), cs, hw, q) == Some(
                                    val,
                                ));
                            }
                        }
                        let dif_n = s0.nmap().dom().difference(
                            model::node_span(s0.nmap(), node_ptr, hw),
                        );
                        let dif_l = s0.lmap().dom().difference(
                            model::node_leafspan(s0.nmap(), node_ptr, hw),
                        );
                        assert forall|k: usize| #[trigger] dif_n.contains(k) implies fin.nmap()
                            .dom().contains(k) && fin.nmap()[k] == s0.nmap()[k] by {
                            assert(!model::kids_span(s0.nmap(), cs, 8, hw).contains(k));
                            assert(s0.nmap().dom().difference(
                                model::kids_span(s0.nmap(), cs, 8, hw),
                            ).contains(k));
                            assert(k != node_ptr);
                        }
                        assert(model::agree(s0.nmap(), fin.nmap(), dif_n));
                        assert forall|k: usize| #[trigger] dif_l.contains(k) implies fin.lmap()
                            .dom().contains(k) && fin.lmap()[k] == s0.lmap()[k] by {
                            assert(!model::kids_leafspan(s0.nmap(), cs, 8, hw).contains(k));
                            assert(s0.lmap().dom().difference(
                                model::kids_leafspan(s0.nmap(), cs, 8, hw),
                            ).contains(k));
                            assert(s1.lmap().dom().contains(k) && s1.lmap()[k] == s0.lmap()[k]);
                            assert(k != leaf_ptr);
                        }
                        assert(model::agree(s0.lmap(), fin.lmap(), dif_l));
                        assert(model::node_span(fin.nmap(), node_ptr, hw) =~= set![node_ptr]);
                        assert(model::node_leafspan(fin.nmap(), node_ptr, hw) =~= set![leaf_ptr]);
                        assert forall|k: usize| #[trigger] model::node_leafspan(
                            fin.nmap(),
                            node_ptr,
                            hw,
                        ).contains(k) implies model::node_leafspan(s0.nmap(), node_ptr, hw)
                            .contains(k) || !s0.lmap().dom().contains(k) by {
                            assert(k == leaf_ptr);
                            if s0.lmap().dom().contains(k) {
                                assert(!s1.lmap().dom().contains(k));
                                if !model::kids_leafspan(s0.nmap(), cs, 8, hw).contains(k) {
                                    assert(s0.lmap().dom().difference(
                                        model::kids_leafspan(s0.nmap(), cs, 8, hw),
                                    ).contains(k));
                                    assert(false);
                                }
                            }
                        }
                        assert(model::node_tidy(fin.nmap(), fin.lmap(), node_ptr, hw));
                        // reinserting the stored value never collapses: the
                        // node would already have been uniform, which
                        // tidiness rules out
                        if model::node_get(s0.nmap(), s0.lmap(), node_ptr, hw, pos) == Some(val) {
                            model::lemma_wfill_uniform_already(
                                s0.nmap(),
                                s0.lmap(),
                                cs,
                                idx as int,
                                val,
                                p,
                                hw,
                                pos,
                            );
                            assert(!model::cs_uni(s0.nmap(), s0.lmap(), cs, hw, val));
                            assert(false);
                        }
                        // domains: exactly the descendants went, one leaf came
                        assert(fin.nmap().dom() =~= s1.nmap().dom());
                        assert(model::node_span(s0.nmap(), node_ptr, hw) =~= set![node_ptr].union(
                            model::kids_span(s0.nmap(), cs, 8, hw),
                        ));
                        assert(fin.nmap().dom() =~= s0.nmap().dom().difference(
                            model::node_span(s0.nmap(), node_ptr, hw),
                        ).union(model::node_span(fin.nmap(), node_ptr, hw)));
                        assert(fin.lmap().dom() =~= s1.lmap().dom().insert(leaf_ptr));
                        assert(model::node_leafspan(s0.nmap(), node_ptr, hw) == model::kids_leafspan(
                            s0.nmap(),
                            cs,
                            8,
                            hw,
                        ));
                        assert(fin.lmap().dom() =~= s0.lmap().dom().difference(
                            model::node_leafspan(s0.nmap(), node_ptr, hw),
                        ).union(model::node_leafspan(fin.nmap(), node_ptr, hw)));
                        // every octant's leaves went, one came
                        let kl = model::kids_leafspan(s0.nmap(), cs, 8, hw);
                        model::lemma_kids_span_in_dom(s0.nmap(), s0.lmap(), cs, 8, hw);
                        s0.leafs.lemma_entries_finite();
                        vstd::set_lib::lemma_len_subset(kl, s0.lmap().dom());
                        model::lemma_len_remove_subset(s0.lmap().dom(), kl);
                        assert(s1.lmap().dom().len() == s0.lmap().dom().len() - kl.len());
                        s1.leafs.lemma_entries_finite();
                        assert(fin.lmap().dom().len() == s1.lmap().dom().len() + 1);
                        assert(model::insert_leaf_delta(s0.nmap(), s0.lmap(), node_ptr, hw, pos, val)
                            == 1 - kl.len());
                    }
                } else {
                    let ptr = ptrs_arr[idx];
                    proof {
                        assert(model::kid_wf(s0.nmap(), s0.lmap(), cs[idx as int], hw));
                    }
                    if ptr == EMPTY_PTR {
                        let inserted = self.insert_nodes_below_empty_ptr(p, val, hw / 2);
                        let ghost s1 = *self;
                        let mut new_arr = ptrs_arr;
                        new_arr[idx] = inserted;
                        store::store_write(&mut self.nodes, node_ptr, Node::Mixed(new_arr));
                        proof {
                            let fin = *self;
                            let hw2 = (hw / 2) as u8;
                            let ncs = new_arr@;
                            model::lemma_span_in_dom(s0.nmap(), s0.lmap(), node_ptr, hw);
                            // the octants that were there before are untouched
                            assert forall|j: int|
                                #![trigger cs[j]]
                                0 <= j < 8 && j != idx implies model::kid_span(
                                s0.nmap(),
                                cs[j],
                                hw,
                            ).disjoint(set![node_ptr]) && model::kid_leafspan(
                                s0.nmap(),
                                cs[j],
                                hw,
                            ).disjoint(Set::<usize>::empty()) by {
                                model::lemma_kid_in_kids(s0.nmap(), cs, 8, hw, j);
                                assert(!model::kid_span(s0.nmap(), cs[j], hw).contains(node_ptr));
                            }
                            assert forall|k: usize|
                                #![trigger s0.nmap().dom().contains(k)]
                                s0.nmap().dom().contains(k) && !set![node_ptr].contains(
                                k,
                            ) implies fin.nmap().dom().contains(k) && fin.nmap()[k]
                                == s0.nmap()[k] by {
                                assert(k != node_ptr);
                            }
                            assert forall|k: usize|
                                #![trigger s0.lmap().dom().contains(k)]
                                s0.lmap().dom().contains(k) && !Set::<usize>::empty().contains(
                                k,
                            ) implies fin.lmap().dom().contains(k) && fin.lmap()[k]
                                == s0.lmap()[k] by {}
                            model::lemma_siblings_frame(
                                s0.nmap(),
                                s0.lmap(),
                                fin.nmap(),
                                fin.lmap(),
                                cs,
                                idx as int,
                                hw,
                                set![node_ptr],
                                Set::<usize>::empty(),
                            );
                            // the fresh chain is intact under the rewritten
                            // node
                            if hw >= 2 {
                                model::lemma_span_in_dom(s1.nmap(), s1.lmap(), inserted, hw2);
                                assert forall|k: usize| #[trigger] model::node_span(
                                    s1.nmap(),
                                    inserted,
                                    hw2,
                                ).contains(k) implies fin.nmap().dom().contains(k) && fin.nmap()[k]
                                    == s1.nmap()[k] by {
                                    assert(!s0.nmap().dom().contains(k));
                                    assert(k != node_ptr);
                                }
                                assert forall|k: usize| #[trigger] model::node_leafspan(
                                    s1.nmap(),
                                    inserted,
                                    hw2,
                                ).contains(k) implies fin.lmap().dom().contains(k) && fin.lmap()[k]
                                    == s1.lmap()[k] by {}
                                model::lemma_node_frame(
                                    s1.nmap(),
                                    s1.lmap(),
                                    fin.nmap(),
                                    fin.lmap(),
                                    inserted,
                                    hw2,
                                );
                                model::lemma_tidy_frame(
                                    s1.nmap(),
                                    s1.lmap(),
                                    fin.nmap(),
                                    fin.lmap(),
                                    inserted,
                                    hw2,
                                );
                            }
                            assert(model::kid_wf(fin.nmap(), fin.lmap(), inserted, hw));
                            assert(model::kid_tidy(fin.nmap(), fin.lmap(), inserted, hw));
                            assert(model::kid_span(fin.nmap(), inserted, hw).disjoint(
                                s0.nmap().dom(),
                            ));
                            assert(model::kid_leafspan(fin.nmap(), inserted, hw).disjoint(
                                s0.lmap().dom(),
                            ));
                            // the new octant owns nothing any sibling owns
                            assert forall|k: usize| #[trigger] model::kid_span(
                                fin.nmap(),
                                ncs[idx as int],
                                hw,
                            ).contains(k) implies model::kid_span(s0.nmap(), cs[idx as int], hw)
                                .contains(k) || !s0.nmap().dom().contains(k) by {
                                assert(model::kid_span(fin.nmap(), inserted, hw).disjoint(
                                    s0.nmap().dom(),
                                ));
                            }
                            assert forall|k: usize| #[trigger] model::kid_leafspan(
                                fin.nmap(),
                                ncs[idx as int],
                                hw,
                            ).contains(k) implies model::kid_leafspan(s0.nmap(), cs[idx as int], hw)
                                .contains(k) || !s0.lmap().dom().contains(k) by {
                                assert(model::kid_leafspan(fin.nmap(), inserted, hw).disjoint(
                                    s0.lmap().dom(),
                                ));
                            }
                            model::lemma_siblings_disjoint(
                                s0.nmap(),
                                s0.lmap(),
                                fin.nmap(),
                                cs,
                                ncs,
                                idx as int,
                                hw,
                            );
                            assert(model::mixed_wf(fin.nmap(), fin.lmap(), ncs, hw));
                            if model::kids_span(fin.nmap(), ncs, 8, hw).contains(node_ptr) {
                                model::lemma_kids_span_elem(fin.nmap(), ncs, 8, hw, node_ptr);
                                let j = choose|j: int|
                                    0 <= j < 8 && (#[trigger] model::kid_span(
                                        fin.nmap(),
                                        ncs[j],
                                        hw,
                                    )).contains(node_ptr);
                                if j != idx {
                                    model::lemma_kid_in_kids(s0.nmap(), cs, 8, hw, j);
                                    assert(model::kids_span(s0.nmap(), cs, 8, hw).contains(
                                        node_ptr,
                                    ));
                                }
                                assert(false);
                            }
                            assert(model::node_wf(fin.nmap(), fin.lmap(), node_ptr, hw));
                            // the one position changes, the rest keep their
                            // values
                            assert forall|q: PosU8| model::fits(q, 2 * (hw as int)) implies
                                model::node_get(fin.nmap(), fin.lmap(), node_ptr, hw, q) == (if q
                                == pos {
                                Some(val)
                            } else {
                                model::node_get(s0.nmap(), s0.lmap(), node_ptr, hw, q)
                            }) by {
                                let j = model::octant(q, hw);
                                let lq = model::local_pos(q, hw);
                                assert(model::node_get(fin.nmap(), fin.lmap(), node_ptr, hw, q)
                                    == model::mixed_get(fin.nmap(), fin.lmap(), ncs, hw, q));
                                assert(model::node_get(s0.nmap(), s0.lmap(), node_ptr, hw, q)
                                    == model::mixed_get(s0.nmap(), s0.lmap(), cs, hw, q));
                                if j != idx {
                                    assert(q != pos);
                                    assert(ncs[j] == cs[j]);
                                    if cs[j] != EMPTY_PTR && hw <= 1 {
                                        assert(model::kid_wf(s0.nmap(), s0.lmap(), cs[j], hw));
                                        assert(fin.lmap()[cs[j]] == s0.lmap()[cs[j]]);
                                    }
                                    if cs[j] != EMPTY_PTR && hw >= 2 {
                                        assert(model::node_get(fin.nmap(), fin.lmap(), cs[j], hw2, lq)
                                            == model::node_get(s0.nmap(), s0.lmap(), cs[j], hw2, lq));
                                    }
                                } else if hw <= 1 {
                                    assert(model::mixed_get(fin.nmap(), fin.lmap(), ncs, hw, q)
                                        == Some(fin.lmap()[inserted]));
                                    assert(fin.lmap()[inserted] == val);
                                    assert(lq == p);
                                    model::lemma_decomp_inj(q, pos, hw);
                                    assert(q == pos);
                                    assert(model::mixed_get(s0.nmap(), s0.lmap(), cs, hw, q)
                                        == None::<V>);
                                } else {
                                    assert(model::fits(lq, 2 * (hw2 as int)));
                                    assert(model::mixed_get(fin.nmap(), fin.lmap(), ncs, hw, q)
                                        == model::node_get(
                                        fin.nmap(),
                                        fin.lmap(),
                                        inserted,
                                        hw2,
                                        lq,
                                    ));
                                    assert(model::node_get(fin.nmap(), fin.lmap(), inserted, hw2, lq)
                                        == model::node_get(
                                        s1.nmap(),
                                        s1.lmap(),
                                        inserted,
                                        hw2,
                                        lq,
                                    ));
                                    if lq == p {
                                        model::lemma_decomp_inj(q, pos, hw);
                                        assert(q == pos);
                                    }
                                    if q == pos {
                                        assert(lq == p);
                                    }
                                    assert(model::mixed_get(s0.nmap(), s0.lmap(), cs, hw, q)
                                        == None::<V>);
                                }
                            }
                            // nothing outside this node's subtree moved
                            let dif_n = s0.nmap().dom().difference(
                                model::node_span(s0.nmap(), node_ptr, hw),
                            );
                            let dif_l = s0.lmap().dom().difference(
                                model::node_leafspan(s0.nmap(), node_ptr, hw),
                            );
                            assert forall|k: usize| #[trigger] dif_n.contains(k) implies fin.nmap()
                                .dom().contains(k) && fin.nmap()[k] == s0.nmap()[k] by {
                                assert(model::node_span(s0.nmap(), node_ptr, hw).contains(
                                    node_ptr,
                                ));
                                assert(k != node_ptr);
                            }
                            assert(model::agree(s0.nmap(), fin.nmap(), dif_n));
                            assert forall|k: usize| #[trigger] dif_l.contains(k) implies fin.lmap()
                                .dom().contains(k) && fin.lmap()[k] == s0.lmap()[k] by {}
                            assert(model::agree(s0.lmap(), fin.lmap(), dif_l));
                            // the subtree owns only what it owned or fresh
                            // handles
                            assert forall|k: usize| #[trigger] model::node_span(
                                fin.nmap(),
                                node_ptr,
                                hw,
                            ).contains(k) implies model::node_span(s0.nmap(), node_ptr, hw)
                                .contains(k) || !s0.nmap().dom().contains(k) by {
                                if k != node_ptr && s0.nmap().dom().contains(k) {
                                    assert(model::kids_span(fin.nmap(), ncs, 8, hw).contains(k));
                                    model::lemma_kids_span_elem(fin.nmap(), ncs, 8, hw, k);
                                    let j = choose|j: int|
                                        0 <= j < 8 && (#[trigger] model::kid_span(
                                            fin.nmap(),
                                            ncs[j],
                                            hw,
                                        )).contains(k);
                                    assert(j != idx);
                                    model::lemma_kid_in_kids(s0.nmap(), cs, 8, hw, j);
                                    assert(model::kids_span(s0.nmap(), cs, 8, hw).contains(k));
                                }
                            }
                            assert forall|k: usize| #[trigger] model::node_leafspan(
                                fin.nmap(),
                                node_ptr,
                                hw,
                            ).contains(k) implies model::node_leafspan(s0.nmap(), node_ptr, hw)
                                .contains(k) || !s0.lmap().dom().contains(k) by {
                                if s0.lmap().dom().contains(k) {
                                    assert(model::kids_leafspan(fin.nmap(), ncs, 8, hw).contains(
                                        k,
                                    ));
                                    model::lemma_kids_leafspan_elem(fin.nmap(), ncs, 8, hw, k);
                                    let j = choose|j: int|
                                        0 <= j < 8 && (#[trigger] model::kid_leafspan(
                                            fin.nmap(),
                                            ncs[j],
                                            hw,
                                        )).contains(k);
                                    assert(j != idx);
                                    model::lemma_kid_in_kids(s0.nmap(), cs, 8, hw, j);
                                    assert(model::kids_leafspan(s0.nmap(), cs, 8, hw).contains(
                                        k,
                                    ));
                                }
                            }
                            // the predicate said no, so the node stays
                            // non-uniform
                            model::lemma_not_wfill_witness(
                                s0.nmap(),
                                s0.lmap(),
                                cs,
                                idx as int,
                                val,
                                p,
                                hw,
                            );
                            let qw = choose|qw: PosU8|
                                model::fits(qw, 2 * (hw as int)) && !(model::octant(qw, hw) == idx
                                    && model::local_pos(qw, hw) == p) && #[trigger] model::mixed_get(
                                    s0.nmap(),
                                    s0.lmap(),
                                    cs,
                                    hw,
                                    qw,
                                ) != Some(val);
                            assert(qw != pos);
                            assert forall|v: V| !model::cs_uni(fin.nmap(), fin.lmap(), ncs, hw, v) by {
                                if model::cs_uni(fin.nmap(), fin.lmap(), ncs, hw, v) {
                                    model::lemma_cs_uni_get(fin.nmap(), fin.lmap(), ncs, hw, v, pos);
                                    model::lemma_cs_uni_get(fin.nmap(), fin.lmap(), ncs, hw, v, qw);
                                    assert(model::node_get(fin.nmap(), fin.lmap(), node_ptr, hw, pos)
                                        == Some(val));
                                    assert(model::node_get(fin.nmap(), fin.lmap(), node_ptr, hw, qw)
                                        == model::node_get(s0.nmap(), s0.lmap(), node_ptr, hw, qw));
                                    assert(false);
                                }
                            }
                            assert forall|j: int| 0 <= j < 8 implies model::kid_tidy(
                                fin.nmap(),
                                fin.lmap(),
                                #[trigger] ncs[j],
                                hw,
                            ) by {
                                if j != idx {
                                    assert(ncs[j] == cs[j]);
                                }
                            }
                            assert(model::node_tidy(fin.nmap(), fin.lmap(), node_ptr, hw));
                            // the slot was unset, so nothing was stored here
                            assert(model::node_get(s0.nmap(), s0.lmap(), node_ptr, hw, pos)
                                == None::<V>);
                            // domains: the fresh chain's handles came in,
                            // nothing went
                            let dn = s0.nmap().dom().difference(
                                model::node_span(s0.nmap(), node_ptr, hw),
                            ).union(model::node_span(fin.nmap(), node_ptr, hw));
                            assert forall|k: usize| #[trigger] fin.nmap().dom().contains(
                                k,
                            ) implies dn.contains(k) by {
                                if s0.nmap().dom().contains(k) {
                                    if model::node_span(s0.nmap(), node_ptr, hw).contains(k) && k
                                        != node_ptr {
                                        assert(model::kids_span(s0.nmap(), cs, 8, hw).contains(k));
                                        model::lemma_kids_span_elem(s0.nmap(), cs, 8, hw, k);
                                        let j = choose|j: int|
                                            0 <= j < 8 && (#[trigger] model::kid_span(
                                                s0.nmap(),
                                                cs[j],
                                                hw,
                                            )).contains(k);
                                        assert(j != idx);
                                        assert(model::kid_span(fin.nmap(), ncs[j], hw).contains(k));
                                        model::lemma_kid_in_kids(fin.nmap(), ncs, 8, hw, j);
                                        assert(model::node_span(fin.nmap(), node_ptr, hw).contains(
                                            k,
                                        ));
                                    }
                                } else {
                                    assert(hw >= 2 && model::node_span(
                                        s1.nmap(),
                                        inserted,
                                        hw2,
                                    ).contains(k));
                                    assert(model::kid_span(fin.nmap(), ncs[idx as int], hw)
                                        .contains(k));
                                    model::lemma_kid_in_kids(fin.nmap(), ncs, 8, hw, idx as int);
                                    assert(model::node_span(fin.nmap(), node_ptr, hw).contains(k));
                                }
                            }
                            assert forall|k: usize| #[trigger] dn.contains(k) implies fin.nmap()
                                .dom().contains(k) by {
                                if model::node_span(fin.nmap(), node_ptr, hw).contains(k) && k
                                    != node_ptr {
                                    assert(model::kids_span(fin.nmap(), ncs, 8, hw).contains(k));
                                    model::lemma_kids_span_elem(fin.nmap(), ncs, 8, hw, k);
                                    let j = choose|j: int|
                                        0 <= j < 8 && (#[trigger] model::kid_span(
                                            fin.nmap(),
                                            ncs[j],
                                            hw,
                                        )).contains(k);
                                    if j != idx {
                                        assert(model::kid_span(s0.nmap(), cs[j], hw).contains(k));
                                        model::lemma_span_in_dom(s0.nmap(), s0.lmap(), cs[j], hw2);
                                    } else {
                                        assert(model::node_span(s1.nmap(), inserted, hw2).contains(
                                            k,
                                        ));
                                        model::lemma_span_in_dom(
                                            s1.nmap(),
                                            s1.lmap(),
                                            inserted,
                                            hw2,
                                        );
                                    }
                                }
                            }
                            assert(fin.nmap().dom() =~= dn);
                            let dl = s0.lmap().dom().difference(
                                model::node_leafspan(s0.nmap(), node_ptr, hw),
                            ).union(model::node_leafspan(fin.nmap(), node_ptr, hw));
                            assert forall|k: usize| #[trigger] fin.lmap().dom().contains(
                                k,
                            ) implies dl.contains(k) by {
                                if s0.lmap().dom().contains(k) {
                                    if model::node_leafspan(s0.nmap(), node_ptr, hw).contains(k) {
                                        model::lemma_kids_leafspan_elem(s0.nmap(), cs, 8, hw, k);
                                        let j = choose|j: int|
                                            0 <= j < 8 && (#[trigger] model::kid_leafspan(
                                                s0.nmap(),
                                                cs[j],
                                                hw,
                                            )).contains(k);
                                        assert(j != idx);
                                        assert(model::kid_leafspan(fin.nmap(), ncs[j], hw).contains(
                                            k,
                                        ));
                                        model::lemma_kid_in_kids(fin.nmap(), ncs, 8, hw, j);
                                        assert(model::node_leafspan(fin.nmap(), node_ptr, hw)
                                            .contains(k));
                                    }
                                } else {
                                    if hw >= 2 {
                                        assert(model::node_leafspan(
                                            s1.nmap(),
                                            inserted,
                                            hw2,
                                        ).contains(k));
                                    } else {
                                        assert(k == inserted);
                                        assert(model::kid_leafspan(fin.nmap(), inserted, hw)
                                            =~= set![inserted]);
                                    }
                                    assert(model::kid_leafspan(fin.nmap(), ncs[idx as int], hw)
                                        .contains(k));
                                    model::lemma_kid_in_kids(fin.nmap(), ncs, 8, hw, idx as int);
                                    assert(model::node_leafspan(fin.nmap(), node_ptr, hw).contains(
                                        k,
                                    ));
                                }
                            }
                            assert forall|k: usize| #[trigger] dl.contains(k) implies fin.lmap()
                                .dom().contains(k) by {
                                if model::node_leafspan(fin.nmap(), node_ptr, hw).contains(k) {
                                    model::lemma_kids_leafspan_elem(fin.nmap(), ncs, 8, hw, k);
                                    let j = choose|j: int|
                                        0 <= j < 8 && (#[trigger] model::kid_leafspan(
                                            fin.nmap(),
                                            ncs[j],
                                            hw,
                                        )).contains(k);
                                    if j != idx {
                                        assert(model::kid_leafspan(s0.nmap(), cs[j], hw).contains(
                                            k,
                                        ));
                                        assert(model::kid_wf(s0.nmap(), s0.lmap(), cs[j], hw));
                                        if cs[j] != EMPTY_PTR && hw >= 2 {
                                            model::lemma_span_in_dom(
                                                s0.nmap(),
                                                s0.lmap(),
                                                cs[j],
                                                hw2,
                                            );
                                        }
                                    } else {
                                        if hw >= 2 {
                                            assert(model::node_leafspan(
                                                s1.nmap(),
                                                inserted,
                                                hw2,
                                            ).contains(k));
                                            model::lemma_span_in_dom(
                                                s1.nmap(),
                                                s1.lmap(),
                                                inserted,
                                                hw2,
                                            );
                                        } else {
                                            assert(model::kid_leafspan(fin.nmap(), inserted, hw)
                                                =~= set![inserted]);
                                            assert(k == inserted);
                                        }
                                    }
                                }
                            }
                            assert(fin.lmap().dom() =~= dl);
                            // exactly one leaf came
                            assert(fin.lmap().dom().len() == s0.lmap().dom().len() + 1);
                            assert(model::insert_leaf_delta(s0.nmap(), s0.lmap(), node_ptr, hw, pos, val)
                                == 1);
                        }
                    } else if hw <= 1 {
                        self.leafs.write(ptr, val);
                        proof {
                            let fin = *self;
                            assert(fin.nmap() == s0.nmap());
                            model::lemma_kid_in_kids(s0.nmap(), cs, 8, hw, idx as int);
                            assert(model::kid_leafspan(s0.nmap(), cs[idx as int], hw).contains(
                                ptr,
                            ));
                            assert forall|j: int| 0 <= j < 8 implies model::kid_wf(
                                fin.nmap(),
                                fin.lmap(),
                                #[trigger] cs[j],
                                hw,
                            ) by {
                                assert(model::kid_wf(s0.nmap(), s0.lmap(), cs[j], hw));
                            }
                            assert(model::node_wf(fin.nmap(), fin.lmap(), node_ptr, hw));
                            assert forall|q: PosU8| model::fits(q, 2 * (hw as int)) implies
                                model::node_get(fin.nmap(), fin.lmap(), node_ptr, hw, q) == (if q
                                == pos {
                                Some(val)
                            } else {
                                model::node_get(s0.nmap(), s0.lmap(), node_ptr, hw, q)
                            }) by {
                                let j = model::octant(q, hw);
                                if j == idx {
                                    assert(model::local_pos(q, hw) == p);
                                    model::lemma_decomp_inj(q, pos, hw);
                                    assert(q == pos);
                                } else {
                                    assert(q != pos);
                                    let c2 = cs[j];
                                    if c2 != EMPTY_PTR {
                                        assert(model::kid_leafspan(s0.nmap(), c2, hw).disjoint(
                                            model::kid_leafspan(s0.nmap(), cs[idx as int], hw),
                                        ));
                                        assert(model::kid_leafspan(s0.nmap(), c2, hw).contains(
                                            c2,
                                        ));
                                        assert(c2 != ptr);
                                    }
                                }
                            }
                            let dif_l = s0.lmap().dom().difference(
                                model::node_leafspan(s0.nmap(), node_ptr, hw),
                            );
                            assert forall|k: usize| #[trigger] dif_l.contains(k) implies fin.lmap()
                                .dom().contains(k) && fin.lmap()[k] == s0.lmap()[k] by {
                                assert(model::node_leafspan(s0.nmap(), node_ptr, hw).contains(
                                    ptr,
                                ));
                                assert(k != ptr);
                            }
                            assert(model::agree(s0.lmap(), fin.lmap(), dif_l));
                            assert(model::agree(
                                s0.nmap(),
                                fin.nmap(),
                                s0.nmap().dom().difference(
                                    model::node_span(s0.nmap(), node_ptr, hw),
                                ),
                            ));
                            // the predicate said no: some other octant still
                            // differs, so the node stays non-uniform
                            assert forall|v: V| !model::cs_uni(fin.nmap(), fin.lmap(), cs, hw, v) by {
                                if model::cs_uni(fin.nmap(), fin.lmap(), cs, hw, v) {
                                    let j = choose|j: int|
                                        0 <= j < 8 && j != idx && !((#[trigger] cs[j]) != EMPTY_PTR
                                            && s0.lmap()[cs[j]] == val);
                                    assert(0 <= j < 8 && j != idx);
                                    assert(cs[j] != EMPTY_PTR && model::kid_uni(
                                        fin.nmap(),
                                        fin.lmap(),
                                        cs[j],
                                        hw,
                                        v,
                                    ));
                                    assert(model::kid_leafspan(s0.nmap(), cs[j], hw).disjoint(
                                        model::kid_leafspan(s0.nmap(), cs[idx as int], hw),
                                    ));
                                    assert(model::kid_leafspan(s0.nmap(), cs[j], hw).contains(
                                        cs[j],
                                    ));
                                    assert(cs[j] != ptr);
                                    assert(fin.lmap()[cs[j]] == s0.lmap()[cs[j]]);
                                    assert(model::kid_uni(fin.nmap(), fin.lmap(), cs[idx as int], hw, v));
                                    assert(fin.lmap()[ptr] == val);
                                    assert(false);
                                }
                            }
                            assert(model::node_tidy(fin.nmap(), fin.lmap(), node_ptr, hw));
                            // overwriting a leaf with the value it holds
                            // leaves the stores untouched
                            if model::node_get(s0.nmap(), s0.lmap(), node_ptr, hw, pos) == Some(
                                val,
                            ) {
                                assert(s0.lmap()[ptr] == val);
                                assert(fin.lmap() =~= s0.lmap());
                            }
                            // domains: an in-place edit moves no handle
                            model::lemma_span_in_dom(s0.nmap(), s0.lmap(), node_ptr, hw);
                            assert(model::node_span(fin.nmap(), node_ptr, hw) == model::node_span(
                                s0.nmap(),
                                node_ptr,
                                hw,
                            ));
                            assert(model::node_leafspan(fin.nmap(), node_ptr, hw)
                                == model::node_leafspan(s0.nmap(), node_ptr, hw));
                            assert(fin.nmap().dom() =~= s0.nmap().dom().difference(
                                model::node_span(s0.nmap(), node_ptr, hw),
                            ).union(model::node_span(fin.nmap(), node_ptr, hw)));
                            assert(fin.lmap().dom() =~= s0.lmap().dom().insert(ptr));
                            assert(fin.lmap().dom() =~= s0.lmap().dom().difference(
                                model::node_leafspan(s0.nmap(), node_ptr, hw),
                            ).union(model::node_leafspan(fin.nmap(), node_ptr, hw)));
                            assert(fin.lmap().dom() =~= s0.lmap().dom());
                            assert(model::insert_leaf_delta(s0.nmap(), s0.lmap(), node_ptr, hw, pos, val)
                                == 0);
                        }
                    } else {
                        proof {
                            model::lemma_kid_in_kids(s0.nmap(), cs, 8, hw, idx as int);
                            assert(model::kid_tidy(s0.nmap(), s0.lmap(), cs[idx as int], hw));
                        }
                        self.insert_at(ptr, p, val, hw / 2);
                        proof {
                            let fin = *self;
                            let hw2 = (hw / 2) as u8;
                            let cspan = model::node_span(s0.nmap(), ptr, hw2);
                            let clspan = model::node_leafspan(s0.nmap(), ptr, hw2);
                            model::lemma_span_in_dom(s0.nmap(), s0.lmap(), node_ptr, hw);
                            model::lemma_span_in_dom(s0.nmap(), s0.lmap(), ptr, hw2);
                            // the node itself is outside the child's subtree
                            assert(!cspan.contains(node_ptr));
                            assert(s0.nmap().dom().difference(cspan).contains(node_ptr));
                            assert(fin.nmap()[node_ptr] == s0.nmap()[node_ptr]);
                            // the other octants are untouched
                            assert(cs[idx as int] == ptr);
                            assert(cspan == model::kid_span(s0.nmap(), cs[idx as int], hw));
                            assert forall|j: int|
                                #![trigger cs[j]]
                                0 <= j < 8 && j != idx implies model::kid_span(
                                s0.nmap(),
                                cs[j],
                                hw,
                            ).disjoint(cspan) && model::kid_leafspan(s0.nmap(), cs[j], hw).disjoint(
                                clspan,
                            ) by {
                                assert(model::kid_span(s0.nmap(), cs[j], hw).disjoint(
                                    model::kid_span(s0.nmap(), cs[idx as int], hw),
                                ));
                                assert(model::kid_leafspan(s0.nmap(), cs[j], hw).disjoint(
                                    model::kid_leafspan(s0.nmap(), cs[idx as int], hw),
                                ));
                            }
                            assert forall|k: usize|
                                #![trigger s0.nmap().dom().contains(k)]
                                s0.nmap().dom().contains(k) && !cspan.contains(
                                k,
                            ) implies fin.nmap().dom().contains(k) && fin.nmap()[k]
                                == s0.nmap()[k] by {
                                assert(s0.nmap().dom().difference(cspan).contains(k));
                            }
                            assert forall|k: usize|
                                #![trigger s0.lmap().dom().contains(k)]
                                s0.lmap().dom().contains(k) && !clspan.contains(
                                k,
                            ) implies fin.lmap().dom().contains(k) && fin.lmap()[k]
                                == s0.lmap()[k] by {
                                assert(s0.lmap().dom().difference(clspan).contains(k));
                            }
                            model::lemma_siblings_frame(
                                s0.nmap(),
                                s0.lmap(),
                                fin.nmap(),
                                fin.lmap(),
                                cs,
                                idx as int,
                                hw,
                                cspan,
                                clspan,
                            );
                            // octants own disjoint handles still
                            assert forall|k: usize| #[trigger] model::kid_span(
                                fin.nmap(),
                                cs[idx as int],
                                hw,
                            ).contains(k) implies model::kid_span(s0.nmap(), cs[idx as int], hw)
                                .contains(k) || !s0.nmap().dom().contains(k) by {
                                assert(model::node_span(fin.nmap(), ptr, hw2).contains(k));
                                assert(cspan.contains(k) || !s0.nmap().dom().contains(k));
                            }
                            assert forall|k: usize| #[trigger] model::kid_leafspan(
                                fin.nmap(),
                                cs[idx as int],
                                hw,
                            ).contains(k) implies model::kid_leafspan(s0.nmap(), cs[idx as int], hw)
                                .contains(k) || !s0.lmap().dom().contains(k) by {
                                assert(model::node_leafspan(fin.nmap(), ptr, hw2).contains(k));
                                assert(clspan.contains(k) || !s0.lmap().dom().contains(k));
                            }
                            model::lemma_siblings_disjoint(
                                s0.nmap(),
                                s0.lmap(),
                                fin.nmap(),
                                cs,
                                cs,
                                idx as int,
                                hw,
                            );
                            assert(model::mixed_wf(fin.nmap(), fin.lmap(), cs, hw));
                            if model::kids_span(fin.nmap(), cs, 8, hw).contains(node_ptr) {
                                model::lemma_kids_span_elem(fin.nmap(), cs, 8, hw, node_ptr);
                                let j = choose|j: int|
                                    0 <= j < 8 && (#[trigger] model::kid_span(
                                        fin.nmap(),
                                        cs[j],
                                        hw,
                                    )).contains(node_ptr);
                                if j != idx {
                                    model::lemma_kid_in_kids(s0.nmap(), cs, 8, hw, j);
                                    assert(model::kids_span(s0.nmap(), cs, 8, hw).contains(
                                        node_ptr,
                                    ));
                                } else {
                                    assert(cs[j] == ptr);
                                    assert(model::node_span(fin.nmap(), ptr, hw2).contains(
                                        node_ptr,
                                    ));
                                    assert(cspan.contains(node_ptr) || !s0.nmap().dom().contains(
                                        node_ptr,
                                    ));
                                }
                                assert(false);
                            }
                            assert(model::node_wf(fin.nmap(), fin.lmap(), node_ptr, hw));
                            // one position changed, the rest kept
                            assert forall|q: PosU8| model::fits(q, 2 * (hw as int)) implies
                                model::node_get(fin.nmap(), fin.lmap(), node_ptr, hw, q) == (if q
                                == pos {
                                Some(val)
                            } else {
                                model::node_get(s0.nmap(), s0.lmap(), node_ptr, hw, q)
                            }) by {
                                let j = model::octant(q, hw);
                                let lq = model::local_pos(q, hw);
                                assert(model::node_get(fin.nmap(), fin.lmap(), node_ptr, hw, q)
                                    == model::mixed_get(fin.nmap(), fin.lmap(), cs, hw, q));
                                assert(model::node_get(s0.nmap(), s0.lmap(), node_ptr, hw, q)
                                    == model::mixed_get(s0.nmap(), s0.lmap(), cs, hw, q));
                                if j != idx {
                                    assert(q != pos);
                                    if cs[j] != EMPTY_PTR {
                                        assert(model::node_get(fin.nmap(), fin.lmap(), cs[j], hw2, lq)
                                            == model::node_get(s0.nmap(), s0.lmap(), cs[j], hw2, lq));
                                    }
                                } else {
                                    assert(model::fits(lq, 2 * (hw2 as int)));
                                    assert(model::mixed_get(fin.nmap(), fin.lmap(), cs, hw, q)
                                        == model::node_get(fin.nmap(), fin.lmap(), ptr, hw2, lq));
                                    assert(model::node_get(fin.nmap(), fin.lmap(), ptr, hw2, lq)
                                        == (if lq == p {
                                        Some(val)
                                    } else {
                                        model::node_get(s0.nmap(), s0.lmap(), ptr, hw2, lq)
                                    }));
                                    if lq == p {
                                        model::lemma_decomp_inj(q, pos, hw);
                                        assert(q == pos);
                                    }
                                    if q == pos {
                                        assert(lq == p);
                                    }
                                }
                            }
                            // nothing outside this node's subtree moved
                            let dif_n = s0.nmap().dom().difference(
                                model::node_span(s0.nmap(), node_ptr, hw),
                            );
                            let dif_l = s0.lmap().dom().difference(
                                model::node_leafspan(s0.nmap(), node_ptr, hw),
                            );
                            assert forall|k: usize| #[trigger] dif_n.contains(k) implies fin.nmap()
                                .dom().contains(k) && fin.nmap()[k] == s0.nmap()[k] by {
                                assert(!cspan.contains(k));
                                assert(s0.nmap().dom().difference(cspan).contains(k));
                            }
                            assert(model::agree(s0.nmap(), fin.nmap(), dif_n));
                            assert forall|k: usize| #[trigger] dif_l.contains(k) implies fin.lmap()
                                .dom().contains(k) && fin.lmap()[k] == s0.lmap()[k] by {
                                assert(!clspan.contains(k));
                                assert(s0.lmap().dom().difference(clspan).contains(k));
                            }
                            assert(model::agree(s0.lmap(), fin.lmap(), dif_l));
                            // the subtree owns only what it owned or fresh
                            // handles
                            assert forall|k: usize| #[trigger] model::node_span(
                                fin.nmap(),
                                node_ptr,
                                hw,
                            ).contains(k) implies model::node_span(s0.nmap(), node_ptr, hw)
                                .contains(k) || !s0.nmap().dom().contains(k) by {
                                if k != node_ptr && s0.nmap().dom().contains(k) {
                                    assert(model::kids_span(fin.nmap(), cs, 8, hw).contains(k));
                                    model::lemma_kids_span_elem(fin.nmap(), cs, 8, hw, k);
                                    let j = choose|j: int|
                                        0 <= j < 8 && (#[trigger] model::kid_span(
                                            fin.nmap(),
                                            cs[j],
                                            hw,
                                        )).contains(k);
                                    model::lemma_kid_in_kids(s0.nmap(), cs, 8, hw, j);
                                    if j != idx {
                                        assert(model::kids_span(s0.nmap(), cs, 8, hw).contains(
                                            k,
                                        ));
                                    } else {
                                        assert(cs[j] == ptr);
                                        assert(model::node_span(fin.nmap(), ptr, hw2).contains(k));
                                        assert(cspan.contains(k));
                                        assert(model::kids_span(s0.nmap(), cs, 8, hw).contains(
                                            k,
                                        ));
                                    }
                                }
                            }
                            assert forall|k: usize| #[trigger] model::node_leafspan(
                                fin.nmap(),
                                node_ptr,
                                hw,
                            ).contains(k) implies model::node_leafspan(s0.nmap(), node_ptr, hw)
                                .contains(k) || !s0.lmap().dom().contains(k) by {
                                if s0.lmap().dom().contains(k) {
                                    assert(model::kids_leafspan(fin.nmap(), cs, 8, hw).contains(
                                        k,
                                    ));
                                    model::lemma_kids_leafspan_elem(fin.nmap(), cs, 8, hw, k);
                                    let j = choose|j: int|
                                        0 <= j < 8 && (#[trigger] model::kid_leafspan(
                                            fin.nmap(),
                                            cs[j],
                                            hw,
                                        )).contains(k);
                                    model::lemma_kid_in_kids(s0.nmap(), cs, 8, hw, j);
                                    if j == idx {
                                        assert(cs[j] == ptr);
                                        assert(model::node_leafspan(fin.nmap(), ptr, hw2).contains(
                                            k,
                                        ));
                                        assert(clspan.contains(k));
                                    }
                                    assert(model::kids_leafspan(s0.nmap(), cs, 8, hw).contains(
                                        k,
                                    ));
                                }
                            }
                            // the predicate said no, so the node stays
                            // non-uniform
                            model::lemma_not_wfill_witness(
                                s0.nmap(),
                                s0.lmap(),
                                cs,
                                idx as int,
                                val,
                                p,
                                hw,
                            );
                            let qw = choose|qw: PosU8|
                                model::fits(qw, 2 * (hw as int)) && !(model::octant(qw, hw) == idx
                                    && model::local_pos(qw, hw) == p) && #[trigger] model::mixed_get(
                                    s0.nmap(),
                                    s0.lmap(),
                                    cs,
                                    hw,
                                    qw,
                                ) != Some(val);
                            assert(qw != pos);
                            assert forall|v: V| !model::cs_uni(fin.nmap(), fin.lmap(), cs, hw, v) by {
                                if model::cs_uni(fin.nmap(), fin.lmap(), cs, hw, v) {
                                    model::lemma_cs_uni_get(fin.nmap(), fin.lmap(), cs, hw, v, pos);
                                    model::lemma_cs_uni_get(fin.nmap(), fin.lmap(), cs, hw, v, qw);
                                    assert(model::node_get(fin.nmap(), fin.lmap(), node_ptr, hw, pos)
                                        == Some(val));
                                    assert(model::node_get(fin.nmap(), fin.lmap(), node_ptr, hw, qw)
                                        == model::node_get(s0.nmap(), s0.lmap(), node_ptr, hw, qw));
                                    assert(false);
                                }
                            }
                            assert forall|j: int| 0 <= j < 8 implies model::kid_tidy(
                                fin.nmap(),
                                fin.lmap(),
                                #[trigger] cs[j],
                                hw,
                            ) by {
                                if j == idx {
                                    assert(cs[j] == ptr);
                                    assert(model::node_tidy(fin.nmap(), fin.lmap(), ptr, hw2));
                                }
                            }
                            assert(model::node_tidy(fin.nmap(), fin.lmap(), node_ptr, hw));
                            // reinserting the stored value changes nothing,
                            // by induction on the child
                            if model::node_get(s0.nmap(), s0.lmap(), node_ptr, hw, pos) == Some(
                                val,
                            ) {
                                assert(model::node_get(s0.nmap(), s0.lmap(), ptr, hw2, p) == Some(
                                    val,
                                ));
                                assert(fin.nmap() == s0.nmap() && fin.lmap() == s0.lmap());
                            }
                            // domains: only the descended octant's handles
                            // moved
                            let dn = s0.nmap().dom().difference(
                                model::node_span(s0.nmap(), node_ptr, hw),
                            ).union(model::node_span(fin.nmap(), node_ptr, hw));
                            assert forall|k: usize| #[trigger] fin.nmap().dom().contains(
                                k,
                            ) implies dn.contains(k) by {
                                if s0.nmap().dom().contains(k) && !cspan.contains(k) {
                                    if model::node_span(s0.nmap(), node_ptr, hw).contains(k) && k
                                        != node_ptr {
                                        model::lemma_kids_span_elem(s0.nmap(), cs, 8, hw, k);
                                        let j = choose|j: int|
                                            0 <= j < 8 && (#[trigger] model::kid_span(
                                                s0.nmap(),
                                                cs[j],
                                                hw,
                                            )).contains(k);
                                        assert(j != idx);
                                        assert(model::kid_span(fin.nmap(), cs[j], hw).contains(k));
                                        model::lemma_kid_in_kids(fin.nmap(), cs, 8, hw, j);
                                        assert(model::node_span(fin.nmap(), node_ptr, hw).contains(
                                            k,
                                        ));
                                    }
                                } else {
                                    assert(model::node_span(fin.nmap(), ptr, hw2).contains(k));
                                    assert(model::kid_span(fin.nmap(), cs[idx as int], hw).contains(
                                        k,
                                    ));
                                    model::lemma_kid_in_kids(fin.nmap(), cs, 8, hw, idx as int);
                                    assert(model::node_span(fin.nmap(), node_ptr, hw).contains(k));
                                }
                            }
                            assert forall|k: usize| #[trigger] dn.contains(k) implies fin.nmap()
                                .dom().contains(k) by {
                                if model::node_span(fin.nmap(), node_ptr, hw).contains(k) && k
                                    != node_ptr {
                                    model::lemma_kids_span_elem(fin.nmap(), cs, 8, hw, k);
                                    let j = choose|j: int|
                                        0 <= j < 8 && (#[trigger] model::kid_span(
                                            fin.nmap(),
                                            cs[j],
                                            hw,
                                        )).contains(k);
                                    if j != idx {
                                        assert(model::kid_span(s0.nmap(), cs[j], hw).contains(k));
                                        model::lemma_span_in_dom(s0.nmap(), s0.lmap(), cs[j], hw2);
                                        assert(s0.nmap().dom().contains(k));
                                        assert(cs[idx as int] == ptr);
                                        assert(model::kid_span(s0.nmap(), cs[j], hw).disjoint(
                                            model::kid_span(s0.nmap(), cs[idx as int], hw),
                                        ));
                                        assert(!cspan.contains(k));
                                        assert(s0.nmap().dom().difference(cspan).contains(k));
                                    } else {
                                        assert(model::node_span(fin.nmap(), ptr, hw2).contains(k));
                                    }
                                } else if !model::node_span(fin.nmap(), node_ptr, hw).contains(k) {
                                    assert(s0.nmap().dom().contains(k));
                                    assert(!cspan.contains(k));
                                    assert(s0.nmap().dom().difference(cspan).contains(k));
                                }
                            }
                            assert(fin.nmap().dom() =~= dn);
                            let dl = s0.lmap().dom().difference(
                                model::node_leafspan(s0.nmap(), node_ptr, hw),
                            ).union(model::node_leafspan(fin.nmap(), node_ptr, hw));
                            assert forall|k: usize| #[trigger] fin.lmap().dom().contains(
                                k,
                            ) implies dl.contains(k) by {
                                if s0.lmap().dom().contains(k) && !clspan.contains(k) {
                                    if model::node_leafspan(s0.nmap(), node_ptr, hw).contains(k) {
                                        model::lemma_kids_leafspan_elem(s0.nmap(), cs, 8, hw, k);
                                        let j = choose|j: int|
                                            0 <= j < 8 && (#[trigger] model::kid_leafspan(
                                                s0.nmap(),
                                                cs[j],
                                                hw,
                                            )).contains(k);
                                        assert(j != idx);
                                        assert(model::kid_leafspan(fin.nmap(), cs[j], hw).contains(
                                            k,
                                        ));
                                        model::lemma_kid_in_kids(fin.nmap(), cs, 8, hw, j);
                                        assert(model::node_leafspan(fin.nmap(), node_ptr, hw)
                                            .contains(k));
                                    }
                                } else {
                                    assert(model::node_leafspan(fin.nmap(), ptr, hw2).contains(k));
                                    assert(model::kid_leafspan(fin.nmap(), cs[idx as int], hw)
                                        .contains(k));
                                    model::lemma_kid_in_kids(fin.nmap(), cs, 8, hw, idx as int);
                                    assert(model::node_leafspan(fin.nmap(), node_ptr, hw).contains(
                                        k,
                                    ));
                                }
                            }
                            assert forall|k: usize| #[trigger] dl.contains(k) implies fin.lmap()
                                .dom().contains(k) by {
                                if model::node_leafspan(fin.nmap(), node_ptr, hw).contains(k) {
                                    model::lemma_kids_leafspan_elem(fin.nmap(), cs, 8, hw, k);
                                    let j = choose|j: int|
                                        0 <= j < 8 && (#[trigger] model::kid_leafspan(
                                            fin.nmap(),
                                            cs[j],
                                            hw,
                                        )).contains(k);
                                    if j != idx {
                                        assert(model::kid_leafspan(s0.nmap(), cs[j], hw).contains(
                                            k,
                                        ));
                                        assert(model::kid_wf(s0.nmap(), s0.lmap(), cs[j], hw));
                                        if cs[j] != EMPTY_PTR && hw >= 2 {
                                            model::lemma_span_in_dom(
                                                s0.nmap(),
                                                s0.lmap(),
                                                cs[j],
                                                hw2,
                                            );
                                        }
                                        assert(s0.lmap().dom().contains(k));
                                        assert(cs[idx as int] == ptr);
                                        assert(model::kid_leafspan(s0.nmap(), cs[j], hw).disjoint(
                                            model::kid_leafspan(s0.nmap(), cs[idx as int], hw),
                                        ));
                                        assert(!clspan.contains(k));
                                        assert(s0.lmap().dom().difference(clspan).contains(k));
                                    } else {
                                        assert(model::node_leafspan(fin.nmap(), ptr, hw2).contains(
                                            k,
                                        ));
                                    }
                                } else {
                                    assert(s0.lmap().dom().contains(k));
                                    assert(!clspan.contains(k));
                                    assert(s0.lmap().dom().difference(clspan).contains(k));
                                }
                            }
                            assert(fin.lmap().dom() =~= dl);
                            // the change in leaves is the child's
                            assert(model::insert_leaf_delta(s0.nmap(), s0.lmap(), node_ptr, hw, pos, val)
                                == model::insert_leaf_delta(s0.nmap(), s0.lmap(), ptr, hw2, p, val));
                        }
                    }
                }
            }
        }
    }
}

impl<V: Copy + PartialEq + core::fmt::Debug, const HALF_WIDTH: u8> Octree<V, HALF_WIDTH> {
    /// Three spaces per nesting level.
    fn indent_str(indent: usize) -> (s: String)
        ensures
            s@ == model::ind_of(indent as nat),
    {
        let mut s = String::new();
        let mut j: usize = 0;
        while j < indent
            invariant
                j <= indent,
                s@ == model::ind_of(j as nat),
            decreases indent - j,
        {
            s.append("   ");
            j = j + 1;
        }
        s
    }

    /// Diagnostic dump: a depth-first, index-ascending listing of the tree,
    /// rendered per [`model::dump_spec`]. What a leaf value looks like is up
    /// to its `Debug` impl: the contract leaves the rendering abstract.
    pub fn to_string(&self) -> (s: String)
        requires
            self.inv(),
        ensures
            exists|rend: spec_fn(usize) -> Seq<char>|
                s@ == #[trigger] model::dump_spec(
                    self.nmap(),
                    rend,
                    0,
                    HALF_WIDTH,
                    Seq::<char>::empty(),
                    0,
                ),
    {
        let r = self.dump_node(0, HALF_WIDTH, "", 0);
        proof {
            reveal_strlit("");
            assert(""@ =~= Seq::<char>::empty());
            assert(r.0@ == model::dump_spec(
                self.nmap(),
                r.1@,
                0,
                HALF_WIDTH,
                Seq::<char>::empty(),
                0,
            ));
        }
        r.0
    }

    fn dump_node(&self, ptr: usize, half_width: u8, prefix: &str, indent: usize) -> (r: (
        String,
        Ghost<spec_fn(usize) -> Seq<char>>,
    ))
        requires
            self.leafs.wf(),
            model::node_wf(self.nmap(), self.lmap(), ptr, half_width),
        ensures
            r.0@ == model::dump_spec(self.nmap(), r.1@, ptr, half_width, prefix@, indent as nat),
        decreases half_width,
    {
        let mut out = Self::indent_str(indent);
        out.append(prefix);
        out.append("Node ");
        out.append(text::fmt_usize(ptr).as_str());
        out.append(" (");
        out.append(text::fmt_u8(half_width).as_str());
        out.append("):");
        let ghost head = out@;
        proof {
            assert(head =~= model::ind_of(indent as nat) + prefix@ + "Node "@ + text::dec_of(ptr)
                + " ("@ + text::dec_of(half_width as usize) + "):"@);
        }
        let node = store::store_read(&self.nodes, ptr);
        let kid_indent = if indent < 10000 {
            indent + 1
        } else {
            indent
        };
        proof {
            assert(kid_indent as nat == model::kid_ind(indent as nat));
        }
        match node {
            Node::Full(leaf_ptr) => {
                let v = self.leafs.read(leaf_ptr);
                let txt = text::fmt_debug(&v);
                out.append("\n");
                out.append(Self::indent_str(kid_indent).as_str());
                out.append("All: ");
                out.append(txt.as_str());
                let ghost rend = (|k: usize| txt@);
                proof {
                    assert(out@ =~= model::dump_spec(
                        self.nmap(),
                        rend,
                        ptr,
                        half_width,
                        prefix@,
                        indent as nat,
                    ));
                }
                (out, Ghost(rend))
            }
            Node::Mixed(cs) => {
                let mut empties = String::new();
                let mut any_empty = false;
                let ghost mut racc: spec_fn(usize) -> Seq<char> = (|k: usize| Seq::<char>::empty());
                proof {
                    assert(out@ =~= head + model::dump_kids(
                        self.nmap(),
                        racc,
                        cs@,
                        half_width,
                        0,
                        kid_indent as nat,
                    ).0);
                }
                let mut i: usize = 0;
                while i < 8
                    invariant
                        i <= 8,
                        self.leafs.wf(),
                        model::mixed_wf(self.nmap(), self.lmap(), cs@, half_width),
                        kid_indent as nat == model::kid_ind(indent as nat),
                        out@ == head + model::dump_kids(
                            self.nmap(),
                            racc,
                            cs@,
                            half_width,
                            i as int,
                            kid_indent as nat,
                        ).0,
                        empties@ == model::dump_kids(
                            self.nmap(),
                            racc,
                            cs@,
                            half_width,
                            i as int,
                            kid_indent as nat,
                        ).1,
                        any_empty == model::dump_kids(
                            self.nmap(),
                            racc,
                            cs@,
                            half_width,
                            i as int,
                            kid_indent as nat,
                        ).2,
                    decreases 8 - i,
                {
                    let c = cs[i];
                    proof {
                        assert(model::kid_wf(self.nmap(), self.lmap(), cs@[i as int], half_width));
                    }
                    if c == EMPTY_PTR {
                        if any_empty {
                            empties.append(", ");
                        }
                        empties.append(text::fmt_usize(i).as_str());
                        any_empty = true;
                        proof {
                            assert(empties@ =~= model::dump_kids(
                                self.nmap(),
                                racc,
                                cs@,
                                half_width,
                                i + 1,
                                kid_indent as nat,
                            ).1);
                        }
                    } else if half_width <= 1 {
                        let v = self.leafs.read(c);
                        let txt = text::fmt_debug(&v);
                        out.append("\n");
                        out.append(Self::indent_str(kid_indent).as_str());
                        out.append(text::fmt_usize(i).as_str());
                        out.append(": Leaf: ");
                        out.append(txt.as_str());
                        proof {
                            let old_r = racc;
                            racc = (|k: usize| if k == c {
                                txt@
                            } else {
                                old_r(k)
                            });
                            // the new rendering entry is for a leaf no earlier
                            // octant owns
                            assert forall|k: usize| model::kids_leafspan(
                                self.nmap(),
                                cs@,
                                i as int,
                                half_width,
                            ).contains(k) implies #[trigger] old_r(k) == racc(k) by {
                                model::lemma_kids_leafspan_elem(
                                    self.nmap(),
                                    cs@,
                                    i as int,
                                    half_width,
                                    k,
                                );
                                let j = choose|j: int|
                                    0 <= j < i && (#[trigger] model::kid_leafspan(
                                        self.nmap(),
                                        cs@[j],
                                        half_width,
                                    )).contains(k);
                                assert(model::kid_leafspan(self.nmap(), cs@[j], half_width)
                                    .disjoint(
                                    model::kid_leafspan(self.nmap(), cs@[i as int], half_width),
                                ));
                                assert(model::kid_leafspan(self.nmap(), cs@[i as int], half_width)
                                    =~= set![c]);
                                assert(k != c);
                            }
                            model::lemma_dump_kids_frame(
                                self.nmap(),
                                old_r,
                                racc,
                                cs@,
                                half_width,
                                i as int,
                                kid_indent as nat,
                            );
                            assert(out@ =~= head + model::dump_kids(
                                self.nmap(),
                                racc,
                                cs@,
                                half_width,
                                i + 1,
                                kid_indent as nat,
                            ).0);
                        }
                    } else {
                        let mut pre = text::fmt_usize(i);
                        pre.append(": ");
                        out.append("\n");
                        let sub = self.dump_node(c, half_width / 2, pre.as_str(), kid_indent);
                        out.append(sub.0.as_str());
                        proof {
                            let hw2 = (half_width / 2) as u8;
                            let old_r = racc;
                            let rc = sub.1@;
                            racc = (|k: usize| if model::node_leafspan(
                                self.nmap(),
                                c,
                                hw2,
                            ).contains(k) {
                                rc(k)
                            } else {
                                old_r(k)
                            });
                            // earlier octants own none of this child's leaves
                            assert forall|k: usize| model::kids_leafspan(
                                self.nmap(),
                                cs@,
                                i as int,
                                half_width,
                            ).contains(k) implies #[trigger] old_r(k) == racc(k) by {
                                model::lemma_kids_leafspan_elem(
                                    self.nmap(),
                                    cs@,
                                    i as int,
                                    half_width,
                                    k,
                                );
                                let j = choose|j: int|
                                    0 <= j < i && (#[trigger] model::kid_leafspan(
                                        self.nmap(),
                                        cs@[j],
                                        half_width,
                                    )).contains(k);
                                assert(model::kid_leafspan(self.nmap(), cs@[j], half_width)
                                    .disjoint(
                                    model::kid_leafspan(self.nmap(), cs@[i as int], half_width),
                                ));
                                assert(!model::node_leafspan(self.nmap(), c, hw2).contains(k));
                            }
                            model::lemma_dump_kids_frame(
                                self.nmap(),
                                old_r,
                                racc,
                                cs@,
                                half_width,
                                i as int,
                                kid_indent as nat,
                            );
                            // the child's block reads the merged rendering
                            // exactly as it read its own
                            assert forall|k: usize| model::node_leafspan(
                                self.nmap(),
                                c,
                                hw2,
                            ).contains(k) implies #[trigger] rc(k) == racc(k) by {}
                            model::lemma_dump_frame(
                                self.nmap(),
                                rc,
                                racc,
                                c,
                                hw2,
                                pre@,
                                kid_indent as nat,
                            );
                            assert(pre@ =~= text::dec_of(i as usize) + ": "@);
                            assert(out@ =~= head + model::dump_kids(
                                self.nmap(),
                                racc,
                                cs@,
                                half_width,
                                i + 1,
                                kid_indent as nat,
                            ).0);
                        }
                    }
                    i = i + 1;
                }
                if any_empty {
                    out.append("\n");
                    out.append(Self::indent_str(kid_indent).as_str());
                    out.append(empties.as_str());
                    out.append(": Empty");
                }
                proof {
                    assert(out@ =~= model::dump_spec(
                        self.nmap(),
                        racc,
                        ptr,
                        half_width,
                        prefix@,
                        indent as nat,
                    ));
                }
                (out, Ghost(racc))
            }
        }
    }
}

} // verus!
