//! The mathematical model of the tree: what a subtree stores at each
//! position, when a subtree is well formed, which handles it owns, and the
//! would-become-full predicate that drives merging.

use crate::pos::PosU8;
use crate::text::dec_of;
use crate::Node;
use crate::EMPTY_PTR;
use vstd::prelude::*;

verus! {

/// Valid half-widths: powers of two. `1` marks the level whose children are
/// leaves.
pub open spec fn hw_ok(hw: u8) -> bool
    decreases hw,
{
    hw >= 1 && (hw == 1 || (hw % 2 == 0 && hw_ok(hw / 2)))
}

/// Every axis of the position is below `w`.
pub open spec fn fits(p: PosU8, w: int) -> bool {
    p.x < w && p.y < w && p.z < w
}

/// Octant index 0-7 of a position at half-width `hw`: an axis at or above
/// `hw` contributes a bit, x most significant, z least.
pub open spec fn octant(p: PosU8, hw: u8) -> int {
    (if p.x >= hw {
        4int
    } else {
        0int
    }) + (if p.y >= hw {
        2int
    } else {
        0int
    }) + (if p.z >= hw {
        1int
    } else {
        0int
    })
}

/// The position expressed in the local frame of its octant at half-width
/// `hw`: each axis that contributed a bit loses `hw`.
pub open spec fn local_pos(p: PosU8, hw: u8) -> PosU8 {
    PosU8 {
        x: if p.x >= hw {
            (p.x - hw) as u8
        } else {
            p.x
        },
        y: if p.y >= hw {
            (p.y - hw) as u8
        } else {
            p.y
        },
        z: if p.z >= hw {
            (p.z - hw) as u8
        } else {
            p.z
        },
    }
}

/// The value the subtree rooted at node handle `ptr` (of half-width `hw`)
/// stores at position `p` of its volume, if any.
pub open spec fn node_get<V>(
    nodes: Map<usize, Node>,
    leafs: Map<usize, V>,
    ptr: usize,
    hw: u8,
    p: PosU8,
) -> Option<V>
    decreases hw, 1int,
{
    match nodes[ptr] {
        Node::Full(l) => Some(leafs[l]),
        Node::Mixed(cs) => mixed_get(nodes, leafs, cs@, hw, p),
    }
}

/// The value a `Mixed` node with octant slots `cs` (at half-width `hw`)
/// stores at position `p`, if any.
pub open spec fn mixed_get<V>(
    nodes: Map<usize, Node>,
    leafs: Map<usize, V>,
    cs: Seq<usize>,
    hw: u8,
    p: PosU8,
) -> Option<V>
    decreases hw, 0int,
{
    let c = cs[octant(p, hw)];
    if c == EMPTY_PTR {
        None
    } else if hw <= 1 {
        Some(leafs[c])
    } else {
        node_get(nodes, leafs, c, (hw / 2) as u8, local_pos(p, hw))
    }
}

/// The node handles owned by the subtree rooted at `ptr`, including `ptr`.
pub open spec fn node_span(nodes: Map<usize, Node>, ptr: usize, hw: u8) -> Set<usize>
    decreases hw, 2int, 0int,
{
    set![ptr].union(
        match nodes[ptr] {
            Node::Full(l) => Set::empty(),
            Node::Mixed(cs) => kids_span(nodes, cs@, 8, hw),
        },
    )
}

/// The node handles owned by the first `n` octant subtrees of a `Mixed` node
/// of half-width `hw`.
pub open spec fn kids_span(nodes: Map<usize, Node>, cs: Seq<usize>, n: int, hw: u8) -> Set<usize>
    decreases hw, 1int, n,
{
    if n <= 0 {
        Set::empty()
    } else {
        kids_span(nodes, cs, n - 1, hw).union(kid_span(nodes, cs[n - 1], hw))
    }
}

/// The node handles owned by one octant slot of a `Mixed` node of half-width
/// `hw`: none for the sentinel or a leaf slot.
pub open spec fn kid_span(nodes: Map<usize, Node>, c: usize, hw: u8) -> Set<usize>
    decreases hw, 0int, 0int,
{
    if c == EMPTY_PTR || hw <= 1 {
        Set::empty()
    } else {
        node_span(nodes, c, (hw / 2) as u8)
    }
}

/// The leaf handles owned by the subtree rooted at `ptr`.
pub open spec fn node_leafspan(nodes: Map<usize, Node>, ptr: usize, hw: u8) -> Set<usize>
    decreases hw, 2int, 0int,
{
    match nodes[ptr] {
        Node::Full(l) => set![l],
        Node::Mixed(cs) => kids_leafspan(nodes, cs@, 8, hw),
    }
}

/// The leaf handles owned by the first `n` octant subtrees of a `Mixed` node.
pub open spec fn kids_leafspan(
    nodes: Map<usize, Node>,
    cs: Seq<usize>,
    n: int,
    hw: u8,
) -> Set<usize>
    decreases hw, 1int, n,
{
    if n <= 0 {
        Set::empty()
    } else {
        kids_leafspan(nodes, cs, n - 1, hw).union(kid_leafspan(nodes, cs[n - 1], hw))
    }
}

/// The leaf handles owned by one octant slot of a `Mixed` node.
pub open spec fn kid_leafspan(nodes: Map<usize, Node>, c: usize, hw: u8) -> Set<usize>
    decreases hw, 0int, 0int,
{
    if c == EMPTY_PTR {
        Set::empty()
    } else if hw <= 1 {
        set![c]
    } else {
        node_leafspan(nodes, c, (hw / 2) as u8)
    }
}

/// One octant slot of a `Mixed` node of half-width `hw` is well formed:
/// unset, or - at half-width 1 - a live leaf handle, or a well-formed child
/// subtree.
pub open spec fn kid_wf<V>(
    nodes: Map<usize, Node>,
    leafs: Map<usize, V>,
    c: usize,
    hw: u8,
) -> bool
    decreases hw, 0int,
{
    if c == EMPTY_PTR {
        true
    } else if hw <= 1 {
        leafs.dom().contains(c)
    } else {
        node_wf(nodes, leafs, c, (hw / 2) as u8)
    }
}

/// The octant slots of a `Mixed` node are well formed and the subtrees they
/// own are pairwise disjoint, in node handles and in leaf handles.
pub open spec fn mixed_wf<V>(
    nodes: Map<usize, Node>,
    leafs: Map<usize, V>,
    cs: Seq<usize>,
    hw: u8,
) -> bool
    decreases hw, 1int,
{
    &&& cs.len() == 8
    &&& forall|i: int| 0 <= i < 8 ==> kid_wf(nodes, leafs, #[trigger] cs[i], hw)
    &&& forall|i: int, j: int|
        0 <= i < 8 && 0 <= j < 8 && i != j ==> kid_span(nodes, cs[i], hw).disjoint(
            kid_span(nodes, cs[j], hw),
        ) && kid_leafspan(nodes, cs[i], hw).disjoint(kid_leafspan(nodes, cs[j], hw))
}

/// The subtree rooted at node handle `ptr` of half-width `hw` is well formed:
/// every handle it stores is live, and distinct octants own disjoint handles.
pub open spec fn node_wf<V>(nodes: Map<usize, Node>, leafs: Map<usize, V>, ptr: usize, hw: u8) -> bool
    decreases hw, 2int,
{
    &&& nodes.dom().contains(ptr)
    &&& match nodes[ptr] {
        Node::Full(l) => leafs.dom().contains(l),
        Node::Mixed(cs) => mixed_wf(nodes, leafs, cs@, hw) && !kids_span(nodes, cs@, 8, hw).contains(
            ptr,
        ),
    }
}

/// Would inserting `val` at octant `i0` (local position `pp`) of a `Mixed`
/// node with slots `cs` at half-width `hw` leave the node's whole volume
/// holding `val`? An unset slot never qualifies; a sibling counts only if it
/// is already a `Full` node holding `val` (or, at the leaf level, a leaf
/// holding `val`).
pub open spec fn would_fill<V>(
    nodes: Map<usize, Node>,
    leafs: Map<usize, V>,
    cs: Seq<usize>,
    i0: int,
    val: V,
    pp: PosU8,
    hw: u8,
) -> bool
    decreases hw,
{
    if hw <= 1 {
        forall|j: int| 0 <= j < 8 && j != i0 ==> (#[trigger] cs[j]) != EMPTY_PTR && leafs[cs[j]] == val
    } else {
        &&& cs[i0] != EMPTY_PTR
        &&& (match nodes[cs[i0]] {
            Node::Full(l) => leafs[l] == val,
            Node::Mixed(cs2) => would_fill(
                nodes,
                leafs,
                cs2@,
                octant(pp, (hw / 2) as u8),
                val,
                local_pos(pp, (hw / 2) as u8),
                (hw / 2) as u8,
            ),
        })
        &&& forall|j: int|
            0 <= j < 8 && j != i0 ==> (#[trigger] cs[j]) != EMPTY_PTR && (nodes[cs[j]] matches Node::Full(l)
                && leafs[l] == val)
    }
}

/// The subtree rooted at `ptr` stores `v` at every position of its volume,
/// structurally: every octant is populated and uniform.
pub open spec fn node_uni<V>(
    nodes: Map<usize, Node>,
    leafs: Map<usize, V>,
    ptr: usize,
    hw: u8,
    v: V,
) -> bool
    decreases hw, 2int,
{
    match nodes[ptr] {
        Node::Full(l) => leafs[l] == v,
        Node::Mixed(cs) => cs_uni(nodes, leafs, cs@, hw, v),
    }
}

/// Every octant slot of a `Mixed` node is populated and uniform in `v`.
pub open spec fn cs_uni<V>(
    nodes: Map<usize, Node>,
    leafs: Map<usize, V>,
    cs: Seq<usize>,
    hw: u8,
    v: V,
) -> bool
    decreases hw, 1int,
{
    forall|i: int|
        0 <= i < 8 ==> (#[trigger] cs[i]) != EMPTY_PTR && kid_uni(nodes, leafs, cs[i], hw, v)
}

/// One populated octant slot is uniform in `v`.
pub open spec fn kid_uni<V>(
    nodes: Map<usize, Node>,
    leafs: Map<usize, V>,
    c: usize,
    hw: u8,
    v: V,
) -> bool
    decreases hw, 0int,
{
    if hw <= 1 {
        leafs[c] == v
    } else {
        node_uni(nodes, leafs, c, (hw / 2) as u8, v)
    }
}

/// No `Mixed` node of the subtree is uniform: a volume known to hold one
/// value has been collapsed to a `Full` node.
pub open spec fn node_tidy<V>(nodes: Map<usize, Node>, leafs: Map<usize, V>, ptr: usize, hw: u8) -> bool
    decreases hw, 1int,
{
    match nodes[ptr] {
        Node::Full(l) => true,
        Node::Mixed(cs) => {
            &&& (forall|v: V| !cs_uni(nodes, leafs, cs@, hw, v))
            &&& forall|i: int| 0 <= i < 8 ==> kid_tidy(nodes, leafs, #[trigger] cs@[i], hw)
        },
    }
}

/// One octant slot holds no redundant `Mixed` node.
pub open spec fn kid_tidy<V>(nodes: Map<usize, Node>, leafs: Map<usize, V>, c: usize, hw: u8) -> bool
    decreases hw, 0int,
{
    if c == EMPTY_PTR || hw <= 1 {
        true
    } else {
        node_tidy(nodes, leafs, c, (hw / 2) as u8)
    }
}

/// How many fresh `Mixed` nodes the minimal empty-path chain of half-width
/// `hw` holds: one per level down to the leaf.
pub open spec fn chain_node_count(hw: u8) -> nat
    decreases hw,
{
    if hw == 0 {
        0nat
    } else {
        1nat + chain_node_count(hw / 2)
    }
}

/// How many leaves a full-node split at half-width `hw` allocates: seven per
/// level above the leaves, eight at the leaf level.
pub open spec fn split_leaf_count(hw: u8) -> nat
    decreases hw,
{
    if hw <= 1 {
        8nat
    } else {
        7nat + split_leaf_count(hw / 2)
    }
}

/// How many nodes a full-node split at half-width `hw` allocates: eight per
/// level above the leaves.
pub open spec fn split_node_count(hw: u8) -> nat
    decreases hw,
{
    if hw <= 1 {
        0nat
    } else {
        8nat + split_node_count(hw / 2)
    }
}

/// The position of the node's volume that has octant `j` and local position
/// `lp`.
pub open spec fn compose(j: int, lp: PosU8, hw: u8) -> PosU8 {
    PosU8 {
        x: if j >= 4 {
            (lp.x + hw) as u8
        } else {
            lp.x
        },
        y: if j % 4 >= 2 {
            (lp.y + hw) as u8
        } else {
            lp.y
        },
        z: if j % 2 == 1 {
            (lp.z + hw) as u8
        } else {
            lp.z
        },
    }
}

/// A valid half-width is one of the eight powers of two that fit in a byte.
pub proof fn lemma_hw_values(hw: u8)
    requires
        hw_ok(hw),
    ensures
        hw == 1 || hw == 2 || hw == 4 || hw == 8 || hw == 16 || hw == 32 || hw == 64 || hw == 128,
    decreases hw,
{
    if hw >= 2 {
        lemma_hw_values(hw / 2);
    }
}

/// Composing an octant index with a local position inverts decomposition.
pub proof fn lemma_compose(j: int, lp: PosU8, hw: u8)
    requires
        0 <= j < 8,
        hw_ok(hw),
        fits(lp, hw as int),
    ensures
        fits(compose(j, lp, hw), 2 * (hw as int)),
        octant(compose(j, lp, hw), hw) == j,
        local_pos(compose(j, lp, hw), hw) == lp,
{
    lemma_hw_values(hw);
}

/// `m2` holds the same entry as `m1` under every handle in `s`.
pub open spec fn agree<T>(m1: Map<usize, T>, m2: Map<usize, T>, s: Set<usize>) -> bool {
    forall|k: usize| #[trigger] s.contains(k) ==> m2.dom().contains(k) && m2[k] == m1[k]
}

/// Agreement on a set of handles extends to any subset.
pub proof fn lemma_agree_mono<T>(
    m1: Map<usize, T>,
    m2: Map<usize, T>,
    big: Set<usize>,
    small: Set<usize>,
)
    requires
        agree(m1, m2, big),
        small.subset_of(big),
    ensures
        agree(m1, m2, small),
{
    assert forall|k: usize| #[trigger] small.contains(k) implies m2.dom().contains(k) && m2[k]
        == m1[k] by {
        assert(big.contains(k));
    }
}

/// Decomposing a position into octant index and local position loses
/// nothing: two positions of the cube with the same octant and the same
/// local position are the same position.
pub proof fn lemma_decomp_inj(a: PosU8, b: PosU8, hw: u8)
    requires
        hw >= 1,
        octant(a, hw) == octant(b, hw),
        local_pos(a, hw) == local_pos(b, hw),
    ensures
        a == b,
{
}

/// A well-formed subtree owns only live handles.
pub proof fn lemma_span_in_dom<V>(nodes: Map<usize, Node>, leafs: Map<usize, V>, ptr: usize, hw: u8)
    requires
        node_wf(nodes, leafs, ptr, hw),
    ensures
        node_span(nodes, ptr, hw).subset_of(nodes.dom()),
        node_leafspan(nodes, ptr, hw).subset_of(leafs.dom()),
    decreases hw, 2int,
{
    match nodes[ptr] {
        Node::Full(l) => {}
        Node::Mixed(cs) => {
            lemma_kids_span_in_dom(nodes, leafs, cs@, 8, hw);
        }
    }
}

/// The handles owned by the first `n` octants of a well-formed `Mixed` node
/// are live.
pub proof fn lemma_kids_span_in_dom<V>(
    nodes: Map<usize, Node>,
    leafs: Map<usize, V>,
    cs: Seq<usize>,
    n: int,
    hw: u8,
)
    requires
        cs.len() == 8,
        0 <= n <= 8,
        forall|i: int| 0 <= i < 8 ==> kid_wf(nodes, leafs, #[trigger] cs[i], hw),
    ensures
        kids_span(nodes, cs, n, hw).subset_of(nodes.dom()),
        kids_leafspan(nodes, cs, n, hw).subset_of(leafs.dom()),
    decreases hw, 1int, n,
{
    if n > 0 {
        lemma_kids_span_in_dom(nodes, leafs, cs, n - 1, hw);
        let c = cs[n - 1];
        assert(kid_wf(nodes, leafs, c, hw));
        if c != EMPTY_PTR && hw >= 2 {
            lemma_span_in_dom(nodes, leafs, c, (hw / 2) as u8);
        }
        assert(kids_span(nodes, cs, n, hw) == kids_span(nodes, cs, n - 1, hw).union(
            kid_span(nodes, c, hw),
        ));
        assert(kids_leafspan(nodes, cs, n, hw) == kids_leafspan(nodes, cs, n - 1, hw).union(
            kid_leafspan(nodes, c, hw),
        ));
    }
}

/// What one octant owns is part of what the first `n` octants own, when it
/// is among them.
pub proof fn lemma_kid_in_kids(nodes: Map<usize, Node>, cs: Seq<usize>, n: int, hw: u8, i: int)
    requires
        0 <= i < n <= 8,
    ensures
        kid_span(nodes, cs[i], hw).subset_of(kids_span(nodes, cs, n, hw)),
        kid_leafspan(nodes, cs[i], hw).subset_of(kids_leafspan(nodes, cs, n, hw)),
    decreases n,
{
    if i < n - 1 {
        lemma_kid_in_kids(nodes, cs, n - 1, hw, i);
    }
}

/// Agreement with one map composes with agreement with the next.
pub proof fn lemma_agree_trans<T>(m0: Map<usize, T>, m1: Map<usize, T>, m2: Map<usize, T>)
    requires
        agree(m0, m1, m0.dom()),
        agree(m1, m2, m1.dom()),
    ensures
        agree(m0, m2, m0.dom()),
{
    assert forall|k: usize| #[trigger] m0.dom().contains(k) implies m2.dom().contains(k) && m2[k]
        == m0[k] by {
        assert(m1.dom().contains(k));
    }
}

/// When each of the first `n` octants owns handles disjoint from a set, so
/// do all of them together.
pub proof fn lemma_kids_span_disjoint(
    nodes: Map<usize, Node>,
    cs: Seq<usize>,
    n: int,
    hw: u8,
    sn: Set<usize>,
    sl: Set<usize>,
)
    requires
        0 <= n <= 8,
        cs.len() == 8,
        forall|j: int| 0 <= j < n ==> (#[trigger] kid_span(nodes, cs[j], hw)).disjoint(sn),
        forall|j: int| 0 <= j < n ==> (#[trigger] kid_leafspan(nodes, cs[j], hw)).disjoint(sl),
    ensures
        kids_span(nodes, cs, n, hw).disjoint(sn),
        kids_leafspan(nodes, cs, n, hw).disjoint(sl),
    decreases n,
{
    if n > 0 {
        lemma_kids_span_disjoint(nodes, cs, n - 1, hw, sn, sl);
        assert(kids_span(nodes, cs, n, hw) == kids_span(nodes, cs, n - 1, hw).union(
            kid_span(nodes, cs[n - 1], hw),
        ));
        assert(kids_leafspan(nodes, cs, n, hw) == kids_leafspan(nodes, cs, n - 1, hw).union(
            kid_leafspan(nodes, cs[n - 1], hw),
        ));
    }
}

/// What the first `n` octants own is decided by their slots' spans alone.
pub proof fn lemma_kids_span_parts(
    n1: Map<usize, Node>,
    n2: Map<usize, Node>,
    cs1: Seq<usize>,
    cs2: Seq<usize>,
    n: int,
    hw: u8,
)
    requires
        0 <= n <= 8,
        forall|j: int|
            0 <= j < n ==> (#[trigger] kid_span(n2, cs2[j], hw)) == kid_span(n1, cs1[j], hw)
                && kid_leafspan(n2, cs2[j], hw) == kid_leafspan(n1, cs1[j], hw),
    ensures
        kids_span(n2, cs2, n, hw) == kids_span(n1, cs1, n, hw),
        kids_leafspan(n2, cs2, n, hw) == kids_leafspan(n1, cs1, n, hw),
    decreases n,
{
    if n > 0 {
        lemma_kids_span_parts(n1, n2, cs1, cs2, n - 1, hw);
        assert(kids_span(n2, cs2, n, hw) == kids_span(n2, cs2, n - 1, hw).union(
            kid_span(n2, cs2[n - 1], hw),
        ));
        assert(kids_span(n1, cs1, n, hw) == kids_span(n1, cs1, n - 1, hw).union(
            kid_span(n1, cs1[n - 1], hw),
        ));
        assert(kids_leafspan(n2, cs2, n, hw) == kids_leafspan(n2, cs2, n - 1, hw).union(
            kid_leafspan(n2, cs2[n - 1], hw),
        ));
        assert(kids_leafspan(n1, cs1, n, hw) == kids_leafspan(n1, cs1, n - 1, hw).union(
            kid_leafspan(n1, cs1[n - 1], hw),
        ));
    }
}

/// At the leaf level the octant slots own no node handles.
pub proof fn lemma_kids_span_leaf_level(nodes: Map<usize, Node>, cs: Seq<usize>, n: int, hw: u8)
    requires
        0 <= n <= 8,
        hw <= 1,
    ensures
        kids_span(nodes, cs, n, hw) == Set::<usize>::empty(),
    decreases n,
{
    if n > 0 {
        lemma_kids_span_leaf_level(nodes, cs, n - 1, hw);
        assert(kids_span(nodes, cs, n, hw) == kids_span(nodes, cs, n - 1, hw).union(
            kid_span(nodes, cs[n - 1], hw),
        ));
        assert(kid_span(nodes, cs[n - 1], hw) =~= Set::<usize>::empty());
        assert(kids_span(nodes, cs, n, hw) =~= Set::<usize>::empty());
    } else {
        assert(kids_span(nodes, cs, n, hw) =~= Set::<usize>::empty());
    }
}

/// A handle owned by the first `n` octants together is owned by one of them.
pub proof fn lemma_kids_span_elem(nodes: Map<usize, Node>, cs: Seq<usize>, n: int, hw: u8, k: usize)
    requires
        0 <= n <= 8,
        kids_span(nodes, cs, n, hw).contains(k),
    ensures
        exists|j: int| 0 <= j < n && (#[trigger] kid_span(nodes, cs[j], hw)).contains(k),
    decreases n,
{
    if n > 0 {
        if kid_span(nodes, cs[n - 1], hw).contains(k) {
        } else {
            lemma_kids_span_elem(nodes, cs, n - 1, hw, k);
        }
    }
}

/// A leaf handle owned by the first `n` octants together is owned by one of
/// them.
pub proof fn lemma_kids_leafspan_elem(
    nodes: Map<usize, Node>,
    cs: Seq<usize>,
    n: int,
    hw: u8,
    k: usize,
)
    requires
        0 <= n <= 8,
        kids_leafspan(nodes, cs, n, hw).contains(k),
    ensures
        exists|j: int| 0 <= j < n && (#[trigger] kid_leafspan(nodes, cs[j], hw)).contains(k),
    decreases n,
{
    if n > 0 {
        if kid_leafspan(nodes, cs[n - 1], hw).contains(k) {
        } else {
            lemma_kids_leafspan_elem(nodes, cs, n - 1, hw, k);
        }
    }
}

/// What the first `n` octants of a `Mixed` node own when every slot except
/// possibly the one at `idx` is unset: whatever that one slot owns.
pub proof fn lemma_kids_span_single(
    nodes: Map<usize, Node>,
    cs: Seq<usize>,
    n: int,
    hw: u8,
    idx: int,
)
    requires
        0 <= n <= 8,
        cs.len() == 8,
        forall|j: int| 0 <= j < 8 && j != idx ==> cs[j] == EMPTY_PTR,
    ensures
        kids_span(nodes, cs, n, hw) == (if 0 <= idx < n {
            kid_span(nodes, cs[idx], hw)
        } else {
            Set::<usize>::empty()
        }),
        kids_leafspan(nodes, cs, n, hw) == (if 0 <= idx < n {
            kid_leafspan(nodes, cs[idx], hw)
        } else {
            Set::<usize>::empty()
        }),
    decreases n,
{
    if n > 0 {
        lemma_kids_span_single(nodes, cs, n - 1, hw, idx);
        assert(kids_span(nodes, cs, n, hw) == kids_span(nodes, cs, n - 1, hw).union(
            kid_span(nodes, cs[n - 1], hw),
        ));
        assert(kids_leafspan(nodes, cs, n, hw) == kids_leafspan(nodes, cs, n - 1, hw).union(
            kid_leafspan(nodes, cs[n - 1], hw),
        ));
        if n - 1 != idx {
            assert(kid_span(nodes, cs[n - 1], hw) =~= Set::<usize>::empty());
            assert(kid_leafspan(nodes, cs[n - 1], hw) =~= Set::<usize>::empty());
        }
        assert(kids_span(nodes, cs, n, hw) =~= (if 0 <= idx < n {
            kid_span(nodes, cs[idx], hw)
        } else {
            Set::<usize>::empty()
        }));
        assert(kids_leafspan(nodes, cs, n, hw) =~= (if 0 <= idx < n {
            kid_leafspan(nodes, cs[idx], hw)
        } else {
            Set::<usize>::empty()
        }));
    } else {
        assert(kids_span(nodes, cs, n, hw) =~= Set::<usize>::empty());
        assert(kids_leafspan(nodes, cs, n, hw) =~= Set::<usize>::empty());
    }
}

/// A subtree is untouched by any change outside the handles it owns: its
/// shape, its ownership and every lookup are the same in the new state.
pub proof fn lemma_node_frame<V>(
    n1: Map<usize, Node>,
    l1: Map<usize, V>,
    n2: Map<usize, Node>,
    l2: Map<usize, V>,
    ptr: usize,
    hw: u8,
)
    requires
        node_wf(n1, l1, ptr, hw),
        agree(n1, n2, node_span(n1, ptr, hw)),
        agree(l1, l2, node_leafspan(n1, ptr, hw)),
    ensures
        node_wf(n2, l2, ptr, hw),
        node_span(n2, ptr, hw) == node_span(n1, ptr, hw),
        node_leafspan(n2, ptr, hw) == node_leafspan(n1, ptr, hw),
        forall|p: PosU8| node_get(n2, l2, ptr, hw, p) == node_get(n1, l1, ptr, hw, p),
    decreases hw, 2int,
{
    assert(node_span(n1, ptr, hw).contains(ptr));
    match n1[ptr] {
        Node::Full(l) => {
            assert(node_leafspan(n1, ptr, hw).contains(l));
            assert(node_span(n2, ptr, hw) =~= node_span(n1, ptr, hw));
            assert(node_leafspan(n2, ptr, hw) =~= node_leafspan(n1, ptr, hw));
        }
        Node::Mixed(cs) => {
            assert(kids_span(n1, cs@, 8, hw).subset_of(node_span(n1, ptr, hw)));
            lemma_agree_mono(n1, n2, node_span(n1, ptr, hw), kids_span(n1, cs@, 8, hw));
            assert(kids_leafspan(n1, cs@, 8, hw).subset_of(node_leafspan(n1, ptr, hw)));
            lemma_agree_mono(l1, l2, node_leafspan(n1, ptr, hw), kids_leafspan(n1, cs@, 8, hw));
            lemma_kids_frame(n1, l1, n2, l2, cs@, 8, hw);
            assert(node_span(n2, ptr, hw) =~= node_span(n1, ptr, hw));
            assert(node_leafspan(n2, ptr, hw) =~= node_leafspan(n1, ptr, hw));
            assert forall|p: PosU8| node_get(n2, l2, ptr, hw, p) == node_get(
                n1,
                l1,
                ptr,
                hw,
                p,
            ) by {
                let i = octant(p, hw);
                let c = cs@[i];
                assert(node_get(n1, l1, ptr, hw, p) == mixed_get(n1, l1, cs@, hw, p));
                assert(node_get(n2, l2, ptr, hw, p) == mixed_get(n2, l2, cs@, hw, p));
                if c == EMPTY_PTR {
                } else if hw <= 1 {
                    assert(kid_leafspan(n1, c, hw).contains(c));
                    lemma_kid_in_kids(n1, cs@, 8, hw, i);
                    assert(kids_leafspan(n1, cs@, 8, hw).contains(c));
                    assert(node_leafspan(n1, ptr, hw).contains(c));
                } else {
                    assert(node_get(n2, l2, c, (hw / 2) as u8, local_pos(p, hw)) == node_get(
                        n1,
                        l1,
                        c,
                        (hw / 2) as u8,
                        local_pos(p, hw),
                    ));
                }
            }
        }
    }
}

/// The subtrees under the first `n` octants of a well-formed `Mixed` node
/// are untouched by any change outside the handles they own.
pub proof fn lemma_kids_frame<V>(
    n1: Map<usize, Node>,
    l1: Map<usize, V>,
    n2: Map<usize, Node>,
    l2: Map<usize, V>,
    cs: Seq<usize>,
    n: int,
    hw: u8,
)
    requires
        cs.len() == 8,
        0 <= n <= 8,
        forall|i: int| 0 <= i < 8 ==> kid_wf(n1, l1, #[trigger] cs[i], hw),
        agree(n1, n2, kids_span(n1, cs, n, hw)),
        agree(l1, l2, kids_leafspan(n1, cs, n, hw)),
    ensures
        forall|i: int| 0 <= i < n ==> kid_wf(n2, l2, #[trigger] cs[i], hw),
        forall|i: int|
            0 <= i < n ==> kid_span(n2, #[trigger] cs[i], hw) == kid_span(n1, cs[i], hw),
        forall|i: int|
            0 <= i < n ==> kid_leafspan(n2, #[trigger] cs[i], hw) == kid_leafspan(n1, cs[i], hw),
        kids_span(n2, cs, n, hw) == kids_span(n1, cs, n, hw),
        kids_leafspan(n2, cs, n, hw) == kids_leafspan(n1, cs, n, hw),
        forall|i: int, p: PosU8|
            0 <= i < n && cs[i] != EMPTY_PTR && hw >= 2 ==> #[trigger] node_get(
                n2,
                l2,
                cs[i],
                (hw / 2) as u8,
                p,
            ) == node_get(n1, l1, cs[i], (hw / 2) as u8, p),
    decreases hw, 1int, n,
{
    if n > 0 {
        assert(kids_span(n1, cs, n, hw) == kids_span(n1, cs, n - 1, hw).union(
            kid_span(n1, cs[n - 1], hw),
        ));
        assert(kids_leafspan(n1, cs, n, hw) == kids_leafspan(n1, cs, n - 1, hw).union(
            kid_leafspan(n1, cs[n - 1], hw),
        ));
        lemma_agree_mono(n1, n2, kids_span(n1, cs, n, hw), kids_span(n1, cs, n - 1, hw));
        lemma_agree_mono(l1, l2, kids_leafspan(n1, cs, n, hw), kids_leafspan(n1, cs, n - 1, hw));
        lemma_kids_frame(n1, l1, n2, l2, cs, n - 1, hw);
        let c = cs[n - 1];
        if c != EMPTY_PTR && hw >= 2 {
            assert(kid_span(n1, c, hw) == node_span(n1, c, (hw / 2) as u8));
            lemma_agree_mono(n1, n2, kids_span(n1, cs, n, hw), node_span(n1, c, (hw / 2) as u8));
            lemma_agree_mono(
                l1,
                l2,
                kids_leafspan(n1, cs, n, hw),
                node_leafspan(n1, c, (hw / 2) as u8),
            );
            lemma_node_frame(n1, l1, n2, l2, c, (hw / 2) as u8);
        }
        if c != EMPTY_PTR && hw <= 1 {
            assert(kid_leafspan(n1, c, hw).contains(c));
            assert(kids_leafspan(n1, cs, n, hw).contains(c));
        }
        assert(kid_span(n2, c, hw) == kid_span(n1, c, hw));
        assert(kid_leafspan(n2, c, hw) == kid_leafspan(n1, c, hw));
        assert(kids_span(n2, cs, n, hw) == kids_span(n2, cs, n - 1, hw).union(
            kid_span(n2, c, hw),
        ));
        assert(kids_leafspan(n2, cs, n, hw) == kids_leafspan(n2, cs, n - 1, hw).union(
            kid_leafspan(n2, c, hw),
        ));
        assert(kids_span(n2, cs, n, hw) =~= kids_span(n1, cs, n, hw));
        assert(kids_leafspan(n2, cs, n, hw) =~= kids_leafspan(n1, cs, n, hw));
    }
}

/// A uniform subtree stores its one value at every position of its volume.
pub proof fn lemma_uni_get<V>(
    nodes: Map<usize, Node>,
    leafs: Map<usize, V>,
    ptr: usize,
    hw: u8,
    v: V,
    q: PosU8,
)
    requires
        hw_ok(hw),
        node_wf(nodes, leafs, ptr, hw),
        node_uni(nodes, leafs, ptr, hw, v),
        fits(q, 2 * (hw as int)),
    ensures
        node_get(nodes, leafs, ptr, hw, q) == Some(v),
    decreases hw, 1int,
{
    match nodes[ptr] {
        Node::Full(l) => {}
        Node::Mixed(cs) => {
            lemma_cs_uni_get(nodes, leafs, cs@, hw, v, q);
        }
    }
}

/// A `Mixed` node whose octants are all populated and uniform stores that
/// value everywhere.
pub proof fn lemma_cs_uni_get<V>(
    nodes: Map<usize, Node>,
    leafs: Map<usize, V>,
    cs: Seq<usize>,
    hw: u8,
    v: V,
    q: PosU8,
)
    requires
        hw_ok(hw),
        mixed_wf(nodes, leafs, cs, hw),
        cs_uni(nodes, leafs, cs, hw, v),
        fits(q, 2 * (hw as int)),
    ensures
        mixed_get(nodes, leafs, cs, hw, q) == Some(v),
    decreases hw, 0int,
{
    let i = octant(q, hw);
    assert(cs[i] != EMPTY_PTR && kid_uni(nodes, leafs, cs[i], hw, v));
    assert(kid_wf(nodes, leafs, cs[i], hw));
    if hw >= 2 {
        lemma_uni_get(nodes, leafs, cs[i], (hw / 2) as u8, v, local_pos(q, hw));
    }
}

/// Uniformity of a subtree is unchanged by any change outside the handles it
/// owns.
pub proof fn lemma_uni_frame<V>(
    n1: Map<usize, Node>,
    l1: Map<usize, V>,
    n2: Map<usize, Node>,
    l2: Map<usize, V>,
    ptr: usize,
    hw: u8,
    v: V,
)
    requires
        node_wf(n1, l1, ptr, hw),
        agree(n1, n2, node_span(n1, ptr, hw)),
        agree(l1, l2, node_leafspan(n1, ptr, hw)),
    ensures
        node_uni(n2, l2, ptr, hw, v) == node_uni(n1, l1, ptr, hw, v),
    decreases hw, 1int,
{
    assert(node_span(n1, ptr, hw).contains(ptr));
    match n1[ptr] {
        Node::Full(l) => {
            assert(node_leafspan(n1, ptr, hw).contains(l));
        }
        Node::Mixed(cs) => {
            assert(kids_span(n1, cs@, 8, hw).subset_of(node_span(n1, ptr, hw)));
            lemma_agree_mono(n1, n2, node_span(n1, ptr, hw), kids_span(n1, cs@, 8, hw));
            assert(kids_leafspan(n1, cs@, 8, hw).subset_of(node_leafspan(n1, ptr, hw)));
            lemma_agree_mono(l1, l2, node_leafspan(n1, ptr, hw), kids_leafspan(n1, cs@, 8, hw));
            lemma_cs_uni_frame(n1, l1, n2, l2, cs@, hw, v);
        }
    }
}

/// Octant-level version of [`lemma_uni_frame`].
pub proof fn lemma_cs_uni_frame<V>(
    n1: Map<usize, Node>,
    l1: Map<usize, V>,
    n2: Map<usize, Node>,
    l2: Map<usize, V>,
    cs: Seq<usize>,
    hw: u8,
    v: V,
)
    requires
        cs.len() == 8,
        forall|i: int| 0 <= i < 8 ==> kid_wf(n1, l1, #[trigger] cs[i], hw),
        agree(n1, n2, kids_span(n1, cs, 8, hw)),
        agree(l1, l2, kids_leafspan(n1, cs, 8, hw)),
    ensures
        cs_uni(n2, l2, cs, hw, v) == cs_uni(n1, l1, cs, hw, v),
    decreases hw, 0int,
{
    assert forall|i: int| 0 <= i < 8 && cs[i] != EMPTY_PTR implies kid_uni(n2, l2, #[trigger] cs[i], hw, v)
        == kid_uni(n1, l1, cs[i], hw, v) by {
        let c = cs[i];
        assert(kid_wf(n1, l1, c, hw));
        lemma_kid_in_kids(n1, cs, 8, hw, i);
        if hw <= 1 {
            assert(kid_leafspan(n1, c, hw).contains(c));
            assert(kids_leafspan(n1, cs, 8, hw).contains(c));
        } else {
            lemma_agree_mono(n1, n2, kids_span(n1, cs, 8, hw), node_span(n1, c, (hw / 2) as u8));
            lemma_agree_mono(
                l1,
                l2,
                kids_leafspan(n1, cs, 8, hw),
                node_leafspan(n1, c, (hw / 2) as u8),
            );
            lemma_uni_frame(n1, l1, n2, l2, c, (hw / 2) as u8, v);
        }
    }
    assert(cs_uni(n2, l2, cs, hw, v) == cs_uni(n1, l1, cs, hw, v)) by {
        if cs_uni(n1, l1, cs, hw, v) {
            assert forall|i: int| 0 <= i < 8 implies (#[trigger] cs[i]) != EMPTY_PTR && kid_uni(
                n2,
                l2,
                cs[i],
                hw,
                v,
            ) by {}
        }
        if cs_uni(n2, l2, cs, hw, v) {
            assert forall|i: int| 0 <= i < 8 implies (#[trigger] cs[i]) != EMPTY_PTR && kid_uni(
                n1,
                l1,
                cs[i],
                hw,
                v,
            ) by {}
        }
    }
}

/// Tidiness of a subtree is unchanged by any change outside the handles it
/// owns.
pub proof fn lemma_tidy_frame<V>(
    n1: Map<usize, Node>,
    l1: Map<usize, V>,
    n2: Map<usize, Node>,
    l2: Map<usize, V>,
    ptr: usize,
    hw: u8,
)
    requires
        node_wf(n1, l1, ptr, hw),
        node_tidy(n1, l1, ptr, hw),
        agree(n1, n2, node_span(n1, ptr, hw)),
        agree(l1, l2, node_leafspan(n1, ptr, hw)),
    ensures
        node_tidy(n2, l2, ptr, hw),
    decreases hw, 1int,
{
    assert(node_span(n1, ptr, hw).contains(ptr));
    match n1[ptr] {
        Node::Full(l) => {}
        Node::Mixed(cs) => {
            assert(kids_span(n1, cs@, 8, hw).subset_of(node_span(n1, ptr, hw)));
            lemma_agree_mono(n1, n2, node_span(n1, ptr, hw), kids_span(n1, cs@, 8, hw));
            assert(kids_leafspan(n1, cs@, 8, hw).subset_of(node_leafspan(n1, ptr, hw)));
            lemma_agree_mono(l1, l2, node_leafspan(n1, ptr, hw), kids_leafspan(n1, cs@, 8, hw));
            assert forall|v: V| !cs_uni(n2, l2, cs@, hw, v) by {
                lemma_cs_uni_frame(n1, l1, n2, l2, cs@, hw, v);
            }
            assert forall|i: int| 0 <= i < 8 implies kid_tidy(n2, l2, #[trigger] cs@[i], hw) by {
                let c = cs@[i];
                assert(kid_wf(n1, l1, c, hw));
                assert(kid_tidy(n1, l1, c, hw));
                if c != EMPTY_PTR && hw >= 2 {
                    lemma_kid_in_kids(n1, cs@, 8, hw, i);
                    lemma_agree_mono(
                        n1,
                        n2,
                        kids_span(n1, cs@, 8, hw),
                        node_span(n1, c, (hw / 2) as u8),
                    );
                    lemma_agree_mono(
                        l1,
                        l2,
                        kids_leafspan(n1, cs@, 8, hw),
                        node_leafspan(n1, c, (hw / 2) as u8),
                    );
                    lemma_tidy_frame(n1, l1, n2, l2, c, (hw / 2) as u8);
                }
            }
        }
    }
}

/// A subtree that is not uniform in `v` stores something else than `v`
/// somewhere in its volume (possibly nothing).
pub proof fn lemma_not_uni_witness<V>(
    nodes: Map<usize, Node>,
    leafs: Map<usize, V>,
    ptr: usize,
    hw: u8,
    v: V,
)
    requires
        node_wf(nodes, leafs, ptr, hw),
        hw_ok(hw),
        !node_uni(nodes, leafs, ptr, hw, v),
    ensures
        exists|q: PosU8|
            fits(q, 2 * (hw as int)) && #[trigger] node_get(nodes, leafs, ptr, hw, q) != Some(v),
    decreases hw,
{
    let zero = PosU8 { x: 0, y: 0, z: 0 };
    match nodes[ptr] {
        Node::Full(l) => {
            assert(fits(zero, 2 * (hw as int)) && node_get(nodes, leafs, ptr, hw, zero) != Some(
                v,
            ));
        }
        Node::Mixed(cs) => {
            let i = choose|i: int|
                0 <= i < 8 && !((#[trigger] cs@[i]) != EMPTY_PTR && kid_uni(
                    nodes,
                    leafs,
                    cs@[i],
                    hw,
                    v,
                ));
            assert(0 <= i < 8);
            let c = cs@[i];
            assert(kid_wf(nodes, leafs, c, hw));
            if c == EMPTY_PTR {
                let q = compose(i, zero, hw);
                lemma_compose(i, zero, hw);
                assert(mixed_get(nodes, leafs, cs@, hw, q) == None::<V>);
                assert(fits(q, 2 * (hw as int)) && node_get(nodes, leafs, ptr, hw, q) != Some(v));
            } else if hw <= 1 {
                let q = compose(i, zero, hw);
                lemma_compose(i, zero, hw);
                assert(mixed_get(nodes, leafs, cs@, hw, q) == Some(leafs[c]));
                assert(fits(q, 2 * (hw as int)) && node_get(nodes, leafs, ptr, hw, q) != Some(v));
            } else {
                lemma_not_uni_witness(nodes, leafs, c, (hw / 2) as u8, v);
                let q2 = choose|q2: PosU8|
                    fits(q2, 2 * ((hw / 2) as int)) && #[trigger] node_get(
                        nodes,
                        leafs,
                        c,
                        (hw / 2) as u8,
                        q2,
                    ) != Some(v);
                let q = compose(i, q2, hw);
                lemma_compose(i, q2, hw);
                assert(mixed_get(nodes, leafs, cs@, hw, q) == node_get(
                    nodes,
                    leafs,
                    c,
                    (hw / 2) as u8,
                    q2,
                ));
                assert(fits(q, 2 * (hw as int)) && node_get(nodes, leafs, ptr, hw, q) != Some(v));
            }
        }
    }
}

/// When the would-become-full predicate rejects an insertion, some position
/// of the node's volume other than the insertion position does not store the
/// inserted value.
pub proof fn lemma_not_wfill_witness<V>(
    nodes: Map<usize, Node>,
    leafs: Map<usize, V>,
    cs: Seq<usize>,
    i0: int,
    val: V,
    pp: PosU8,
    hw: u8,
)
    requires
        mixed_wf(nodes, leafs, cs, hw),
        forall|i: int| 0 <= i < 8 ==> kid_tidy(nodes, leafs, #[trigger] cs[i], hw),
        hw_ok(hw),
        0 <= i0 < 8,
        fits(pp, hw as int),
        !would_fill(nodes, leafs, cs, i0, val, pp, hw),
    ensures
        exists|q: PosU8|
            fits(q, 2 * (hw as int)) && !(octant(q, hw) == i0 && local_pos(q, hw) == pp)
                && #[trigger] mixed_get(nodes, leafs, cs, hw, q) != Some(val),
    decreases hw,
{
    let zero = PosU8 { x: 0, y: 0, z: 0 };
    let hw2 = (hw / 2) as u8;
    if hw <= 1 {
        let j = choose|j: int|
            0 <= j < 8 && j != i0 && !((#[trigger] cs[j]) != EMPTY_PTR && leafs[cs[j]] == val);
        assert(0 <= j < 8 && j != i0);
        let q = compose(j, zero, hw);
        lemma_compose(j, zero, hw);
        assert(kid_wf(nodes, leafs, cs[j], hw));
        assert(fits(q, 2 * (hw as int)) && !(octant(q, hw) == i0 && local_pos(q, hw) == pp)
            && mixed_get(nodes, leafs, cs, hw, q) != Some(val));
    } else if !(forall|j: int|
        0 <= j < 8 && j != i0 ==> (#[trigger] cs[j]) != EMPTY_PTR && (nodes[cs[j]] matches Node::Full(l)
            && leafs[l] == val)) {
        // a sibling octant is unset, still divided, or holds another value
        let j = choose|j: int|
            0 <= j < 8 && j != i0 && !((#[trigger] cs[j]) != EMPTY_PTR && (
            nodes[cs[j]] matches Node::Full(l) && leafs[l] == val));
        assert(0 <= j < 8 && j != i0);
        let c = cs[j];
        assert(kid_wf(nodes, leafs, c, hw));
        assert(kid_tidy(nodes, leafs, c, hw));
        if c == EMPTY_PTR {
            let q = compose(j, zero, hw);
            lemma_compose(j, zero, hw);
            assert(fits(q, 2 * (hw as int)) && !(octant(q, hw) == i0 && local_pos(q, hw) == pp)
                && mixed_get(nodes, leafs, cs, hw, q) != Some(val));
        } else {
            match nodes[c] {
                Node::Full(l) => {
                    let q = compose(j, zero, hw);
                    lemma_compose(j, zero, hw);
                    assert(mixed_get(nodes, leafs, cs, hw, q) == Some(leafs[l]));
                    assert(fits(q, 2 * (hw as int)) && !(octant(q, hw) == i0 && local_pos(q, hw)
                        == pp) && mixed_get(nodes, leafs, cs, hw, q) != Some(val));
                }
                Node::Mixed(cs2) => {
                    assert(node_tidy(nodes, leafs, c, hw2));
                    assert(!cs_uni(nodes, leafs, cs2@, hw2, val));
                    assert(!node_uni(nodes, leafs, c, hw2, val));
                    lemma_not_uni_witness(nodes, leafs, c, hw2, val);
                    let q2 = choose|q2: PosU8|
                        fits(q2, 2 * (hw2 as int)) && #[trigger] node_get(
                            nodes,
                            leafs,
                            c,
                            hw2,
                            q2,
                        ) != Some(val);
                    let q = compose(j, q2, hw);
                    lemma_compose(j, q2, hw);
                    assert(mixed_get(nodes, leafs, cs, hw, q) == node_get(
                        nodes,
                        leafs,
                        c,
                        hw2,
                        q2,
                    ));
                    assert(fits(q, 2 * (hw as int)) && !(octant(q, hw) == i0 && local_pos(q, hw)
                        == pp) && mixed_get(nodes, leafs, cs, hw, q) != Some(val));
                }
            }
        }
    } else {
        // the siblings qualify, so the insertion octant itself is what fails
        let c = cs[i0];
        assert(kid_wf(nodes, leafs, c, hw));
        assert(kid_tidy(nodes, leafs, c, hw));
        let pp2 = PosU8 {
            x: if pp.x == 0 {
                1
            } else {
                0
            },
            y: pp.y,
            z: pp.z,
        };
        assert(fits(pp2, hw as int));
        assert(pp2 != pp);
        if c == EMPTY_PTR {
            let q = compose(i0, pp2, hw);
            lemma_compose(i0, pp2, hw);
            assert(fits(q, 2 * (hw as int)) && !(octant(q, hw) == i0 && local_pos(q, hw) == pp)
                && mixed_get(nodes, leafs, cs, hw, q) != Some(val));
        } else {
            match nodes[c] {
                Node::Full(l) => {
                    assert(leafs[l] != val);
                    let q = compose(i0, pp2, hw);
                    lemma_compose(i0, pp2, hw);
                    assert(mixed_get(nodes, leafs, cs, hw, q) == Some(leafs[l]));
                    assert(fits(q, 2 * (hw as int)) && !(octant(q, hw) == i0 && local_pos(q, hw)
                        == pp) && mixed_get(nodes, leafs, cs, hw, q) != Some(val));
                }
                Node::Mixed(cs2) => {
                    assert(!would_fill(nodes, leafs, cs2@, octant(pp, hw2), val, local_pos(pp, hw2), hw2));
                    lemma_not_wfill_witness(
                        nodes,
                        leafs,
                        cs2@,
                        octant(pp, hw2),
                        val,
                        local_pos(pp, hw2),
                        hw2,
                    );
                    let q2 = choose|q2: PosU8|
                        fits(q2, 2 * (hw2 as int)) && !(octant(q2, hw2) == octant(pp, hw2)
                            && local_pos(q2, hw2) == local_pos(pp, hw2)) && #[trigger] mixed_get(
                            nodes,
                            leafs,
                            cs2@,
                            hw2,
                            q2,
                        ) != Some(val);
                    let q = compose(i0, q2, hw);
                    lemma_compose(i0, q2, hw);
                    assert(q2 != pp);
                    assert(mixed_get(nodes, leafs, cs, hw, q) == node_get(
                        nodes,
                        leafs,
                        c,
                        hw2,
                        q2,
                    ));
                    assert(fits(q, 2 * (hw as int)) && !(octant(q, hw) == i0 && local_pos(q, hw)
                        == pp) && mixed_get(nodes, leafs, cs, hw, q) != Some(val));
                }
            }
        }
    }
}

/// Completeness of the would-become-full predicate on an already matching
/// position: when it holds and the insertion position already stores the
/// value, the node is uniform as it stands.
pub proof fn lemma_wfill_uniform_already<V>(
    nodes: Map<usize, Node>,
    leafs: Map<usize, V>,
    cs: Seq<usize>,
    i0: int,
    val: V,
    pp: PosU8,
    hw: u8,
    pos: PosU8,
)
    requires
        mixed_wf(nodes, leafs, cs, hw),
        hw_ok(hw),
        0 <= i0 < 8,
        fits(pos, 2 * (hw as int)),
        octant(pos, hw) == i0,
        local_pos(pos, hw) == pp,
        would_fill(nodes, leafs, cs, i0, val, pp, hw),
        mixed_get(nodes, leafs, cs, hw, pos) == Some(val),
    ensures
        cs_uni(nodes, leafs, cs, hw, val),
    decreases hw,
{
    let hw2 = (hw / 2) as u8;
    assert forall|i: int| 0 <= i < 8 implies (#[trigger] cs[i]) != EMPTY_PTR && kid_uni(
        nodes,
        leafs,
        cs[i],
        hw,
        val,
    ) by {
        if i != i0 {
        } else {
            let c = cs[i0];
            assert(c != EMPTY_PTR);
            if hw >= 2 {
                match nodes[c] {
                    Node::Full(l) => {}
                    Node::Mixed(cs2) => {
                        assert(kid_wf(nodes, leafs, c, hw));
                        assert(mixed_get(nodes, leafs, cs2@, hw2, pp) == node_get(
                            nodes,
                            leafs,
                            c,
                            hw2,
                            pp,
                        ));
                        assert(fits(pp, 2 * (hw2 as int)));
                        lemma_wfill_uniform_already(
                            nodes,
                            leafs,
                            cs2@,
                            octant(pp, hw2),
                            val,
                            local_pos(pp, hw2),
                            hw2,
                            pp,
                        );
                    }
                }
            }
        }
    }
}

/// The octants other than `idx` of a well-formed, tidy `Mixed` node are
/// untouched by a change confined to the handles in `excl_n`/`excl_l` and to
/// handles that were not live: their shape, ownership, tidiness and every
/// lookup carry over to the new state.
pub proof fn lemma_siblings_frame<V>(
    n1: Map<usize, Node>,
    l1: Map<usize, V>,
    n2: Map<usize, Node>,
    l2: Map<usize, V>,
    cs: Seq<usize>,
    idx: int,
    hw: u8,
    excl_n: Set<usize>,
    excl_l: Set<usize>,
)
    requires
        mixed_wf(n1, l1, cs, hw),
        forall|i: int| 0 <= i < 8 ==> kid_tidy(n1, l1, #[trigger] cs[i], hw),
        0 <= idx < 8,
        forall|j: int|
            #![trigger cs[j]]
            0 <= j < 8 && j != idx ==> kid_span(n1, cs[j], hw).disjoint(excl_n) && kid_leafspan(
                n1,
                cs[j],
                hw,
            ).disjoint(excl_l),
        forall|k: usize|
            #![trigger n1.dom().contains(k)]
            n1.dom().contains(k) && !excl_n.contains(k) ==> n2.dom().contains(k) && n2[k] == n1[k],
        forall|k: usize|
            #![trigger l1.dom().contains(k)]
            l1.dom().contains(k) && !excl_l.contains(k) ==> l2.dom().contains(k) && l2[k] == l1[k],
    ensures
        forall|j: int|
            0 <= j < 8 && j != idx ==> kid_wf(n2, l2, #[trigger] cs[j], hw) && kid_tidy(
                n2,
                l2,
                cs[j],
                hw,
            ) && kid_span(n2, cs[j], hw) == kid_span(n1, cs[j], hw) && kid_leafspan(n2, cs[j], hw)
                == kid_leafspan(n1, cs[j], hw),
        forall|j: int, q2: PosU8|
            0 <= j < 8 && j != idx && cs[j] != EMPTY_PTR && hw >= 2 ==> #[trigger] node_get(
                n2,
                l2,
                cs[j],
                (hw / 2) as u8,
                q2,
            ) == node_get(n1, l1, cs[j], (hw / 2) as u8, q2),
        forall|j: int|
            0 <= j < 8 && j != idx && cs[j] != EMPTY_PTR && hw <= 1 ==> l2.dom().contains(
                #[trigger] cs[j],
            ) && l2[cs[j]] == l1[cs[j]],
{
    let hw2 = (hw / 2) as u8;
    assert forall|j: int| 0 <= j < 8 && j != idx implies kid_wf(n2, l2, #[trigger] cs[j], hw)
        && kid_tidy(n2, l2, cs[j], hw) && kid_span(n2, cs[j], hw) == kid_span(n1, cs[j], hw)
        && kid_leafspan(n2, cs[j], hw) == kid_leafspan(n1, cs[j], hw) && (forall|q2: PosU8|
        cs[j] != EMPTY_PTR && hw >= 2 ==> #[trigger] node_get(n2, l2, cs[j], hw2, q2) == node_get(
            n1,
            l1,
            cs[j],
            hw2,
            q2,
        )) && (cs[j] != EMPTY_PTR && hw <= 1 ==> l2.dom().contains(cs[j]) && l2[cs[j]]
        == l1[cs[j]]) by {
        let c = cs[j];
        assert(kid_wf(n1, l1, c, hw));
        assert(kid_tidy(n1, l1, c, hw));
        assert(kid_span(n1, cs[j], hw).disjoint(excl_n) && kid_leafspan(n1, cs[j], hw).disjoint(
            excl_l,
        ));
        if c != EMPTY_PTR {
            if hw <= 1 {
                assert(kid_leafspan(n1, c, hw).contains(c));
                assert(!excl_l.contains(c));
                assert(l1.dom().contains(c));
                assert(l2.dom().contains(c) && l2[c] == l1[c]);
            } else {
                lemma_span_in_dom(n1, l1, c, hw2);
                assert forall|k: usize| #[trigger] node_span(n1, c, hw2).contains(
                    k,
                ) implies n2.dom().contains(k) && n2[k] == n1[k] by {
                    assert(kid_span(n1, c, hw).contains(k));
                    assert(n1.dom().contains(k));
                    assert(!excl_n.contains(k));
                }
                assert forall|k: usize| #[trigger] node_leafspan(n1, c, hw2).contains(
                    k,
                ) implies l2.dom().contains(k) && l2[k] == l1[k] by {
                    assert(kid_leafspan(n1, c, hw).contains(k));
                    assert(l1.dom().contains(k));
                    assert(!excl_l.contains(k));
                }
                lemma_node_frame(n1, l1, n2, l2, c, hw2);
                lemma_tidy_frame(n1, l1, n2, l2, c, hw2);
            }
        }
    }
}

/// A well-formed `Mixed` node's octants own pairwise disjoint handles still
/// after one octant's subtree is replaced, provided the untouched octants
/// kept their spans and the replacement owns only what the old octant owned
/// or handles that were not live.
pub proof fn lemma_siblings_disjoint<V>(
    n1: Map<usize, Node>,
    l1: Map<usize, V>,
    n2: Map<usize, Node>,
    cs1: Seq<usize>,
    cs2: Seq<usize>,
    idx: int,
    hw: u8,
)
    requires
        mixed_wf(n1, l1, cs1, hw),
        0 <= idx < 8,
        forall|j: int| #![trigger cs2[j]] 0 <= j < 8 && j != idx ==> cs2[j] == cs1[j],
        forall|j: int|
            #![trigger cs1[j]]
            0 <= j < 8 && j != idx ==> kid_span(n2, cs1[j], hw) == kid_span(n1, cs1[j], hw)
                && kid_leafspan(n2, cs1[j], hw) == kid_leafspan(n1, cs1[j], hw),
        forall|k: usize|
            #[trigger] kid_span(n2, cs2[idx], hw).contains(k) ==> kid_span(
                n1,
                cs1[idx],
                hw,
            ).contains(k) || !n1.dom().contains(k),
        forall|k: usize|
            #[trigger] kid_leafspan(n2, cs2[idx], hw).contains(k) ==> kid_leafspan(
                n1,
                cs1[idx],
                hw,
            ).contains(k) || !l1.dom().contains(k),
    ensures
        forall|j1: int, j2: int|
            0 <= j1 < 8 && 0 <= j2 < 8 && j1 != j2 ==> kid_span(n2, cs2[j1], hw).disjoint(
                kid_span(n2, cs2[j2], hw),
            ) && kid_leafspan(n2, cs2[j1], hw).disjoint(kid_leafspan(n2, cs2[j2], hw)),
{
    assert forall|j1: int, j2: int|
        0 <= j1 < 8 && 0 <= j2 < 8 && j1 != j2 implies kid_span(n2, cs2[j1], hw).disjoint(
        kid_span(n2, cs2[j2], hw),
    ) && kid_leafspan(n2, cs2[j1], hw).disjoint(kid_leafspan(n2, cs2[j2], hw)) by {
        if j1 != idx && j2 != idx {
            assert(kid_span(n1, cs1[j1], hw).disjoint(kid_span(n1, cs1[j2], hw)));
            assert(kid_leafspan(n1, cs1[j1], hw).disjoint(kid_leafspan(n1, cs1[j2], hw)));
        } else {
            let js = if j1 == idx {
                j2
            } else {
                j1
            };
            let c = cs1[js];
            assert(cs2[js] == c);
            assert(kid_wf(n1, l1, c, hw));
            assert(kid_span(n1, c, hw).disjoint(kid_span(n1, cs1[idx], hw)));
            assert(kid_leafspan(n1, c, hw).disjoint(kid_leafspan(n1, cs1[idx], hw)));
            if c != EMPTY_PTR && hw >= 2 {
                lemma_span_in_dom(n1, l1, c, (hw / 2) as u8);
            }
            assert forall|k: usize| #[trigger] kid_span(n2, cs2[idx], hw).contains(
                k,
            ) implies !kid_span(n2, c, hw).contains(k) by {
                assert(kid_span(n2, c, hw) == kid_span(n1, c, hw));
            }
            assert forall|k: usize| #[trigger] kid_span(n2, c, hw).contains(k) implies !kid_span(
                n2,
                cs2[idx],
                hw,
            ).contains(k) by {
                if kid_span(n2, cs2[idx], hw).contains(k) {
                    assert(false);
                }
            }
            assert forall|k: usize| #[trigger] kid_leafspan(n2, cs2[idx], hw).contains(
                k,
            ) implies !kid_leafspan(n2, c, hw).contains(k) by {
                assert(kid_leafspan(n2, c, hw) == kid_leafspan(n1, c, hw));
            }
            assert forall|k: usize| #[trigger] kid_leafspan(n2, c, hw).contains(
                k,
            ) implies !kid_leafspan(n2, cs2[idx], hw).contains(k) by {
                if kid_leafspan(n2, cs2[idx], hw).contains(k) {
                    assert(false);
                }
            }
        }
    }
}

/// Soundness of the would-become-full predicate: when it holds, every
/// position of the node's volume other than the insertion position already
/// stores the value being inserted.
pub proof fn lemma_would_fill_uniform<V>(
    nodes: Map<usize, Node>,
    leafs: Map<usize, V>,
    cs: Seq<usize>,
    i0: int,
    val: V,
    pp: PosU8,
    hw: u8,
)
    requires
        hw_ok(hw),
        mixed_wf(nodes, leafs, cs, hw),
        0 <= i0 < 8,
        fits(pp, hw as int),
        would_fill(nodes, leafs, cs, i0, val, pp, hw),
    ensures
        forall|q: PosU8|
            fits(q, 2 * (hw as int)) && !(octant(q, hw) == i0 && local_pos(q, hw) == pp)
                ==> mixed_get(nodes, leafs, cs, hw, q) == Some(val),
    decreases hw,
{
    assert forall|q: PosU8|
        fits(q, 2 * (hw as int)) && !(octant(q, hw) == i0 && local_pos(q, hw)
            == pp) implies mixed_get(nodes, leafs, cs, hw, q) == Some(val) by {
        let j = octant(q, hw);
        let c = cs[j];
        if hw <= 1 {
            assert(j != i0);
            assert(c != EMPTY_PTR && leafs[c] == val);
        } else if j != i0 {
            assert(c != EMPTY_PTR && (nodes[c] matches Node::Full(l) && leafs[l] == val));
        } else {
            let hw2 = (hw / 2) as u8;
            let q2 = local_pos(q, hw);
            assert(q2 != pp);
            match nodes[c] {
                Node::Full(l) => {}
                Node::Mixed(cs2) => {
                    assert(kid_wf(nodes, leafs, c, hw));
                    lemma_would_fill_uniform(
                        nodes,
                        leafs,
                        cs2@,
                        octant(pp, hw2),
                        val,
                        local_pos(pp, hw2),
                        hw2,
                    );
                    if octant(q2, hw2) == octant(pp, hw2) && local_pos(q2, hw2) == local_pos(
                        pp,
                        hw2,
                    ) {
                        lemma_decomp_inj(q2, pp, hw2);
                    }
                }
            }
        }
    }
}

/// Removing a finite subset removes exactly its members from the count.
pub proof fn lemma_len_remove_subset(a: Set<usize>, b: Set<usize>)
    requires
        a.finite(),
        b.finite(),
        b.subset_of(a),
    ensures
        a.difference(b).len() == a.len() - b.len(),
    decreases b.len(),
{
    if b.len() == 0 {
        b.lemma_len0_is_empty();
        assert(a.difference(b) =~= a);
    } else {
        let x = b.choose();
        assert(b.contains(x));
        assert(b.remove(x).subset_of(a.remove(x)));
        lemma_len_remove_subset(a.remove(x), b.remove(x));
        assert(a.remove(x).difference(b.remove(x)) =~= a.difference(b));
    }
}

/// By how many slots an insertion changes the leaf arena: none for an
/// idempotent insert or an in-place edit, one fresh leaf down an unset path,
/// a split's leaves less the one freed for a divergent `Full` node, and one
/// leaf in place of all the octants' leaves for a collapse.
pub open spec fn insert_leaf_delta<V>(
    nodes: Map<usize, Node>,
    leafs: Map<usize, V>,
    ptr: usize,
    hw: u8,
    pos: PosU8,
    val: V,
) -> int
    decreases hw,
{
    match nodes[ptr] {
        Node::Full(l) => if leafs[l] == val {
            0int
        } else {
            split_leaf_count(hw) - 1
        },
        Node::Mixed(cs) => {
            let i = octant(pos, hw);
            let p2 = local_pos(pos, hw);
            if would_fill(nodes, leafs, cs@, i, val, p2, hw) {
                1 - kids_leafspan(nodes, cs@, 8, hw).len()
            } else if cs@[i] == EMPTY_PTR {
                1int
            } else if hw <= 1 {
                0int
            } else {
                insert_leaf_delta(nodes, leafs, cs@[i], (hw / 2) as u8, p2, val)
            }
        },
    }
}

/// Three spaces of indentation per nesting level.
pub open spec fn ind_of(n: nat) -> Seq<char>
    decreases n,
{
    if n == 0 {
        Seq::<char>::empty()
    } else {
        ind_of((n - 1) as nat) + "   "@
    }
}

/// The indentation level of a node's children: one deeper, with growth
/// stopped far beyond any reachable depth.
pub open spec fn kid_ind(indent: nat) -> nat {
    if indent < 10000 {
        indent + 1
    } else {
        indent
    }
}

/// The diagnostic dump of the subtree rooted at `ptr`: a header line naming
/// the handle and half-width, then the node's contents, every further line
/// preceded by a newline and indented one level deeper. Leaf values appear
/// as `rend` renders their handle.
pub open spec fn dump_spec(
    nodes: Map<usize, Node>,
    rend: spec_fn(usize) -> Seq<char>,
    ptr: usize,
    hw: u8,
    prefix: Seq<char>,
    indent: nat,
) -> Seq<char>
    decreases hw, 1int, 0int,
{
    let head = ind_of(indent) + prefix + "Node "@ + dec_of(ptr) + " ("@ + dec_of(hw as usize)
        + "):"@;
    match nodes[ptr] {
        Node::Full(l) => head + "\n"@ + ind_of(kid_ind(indent)) + "All: "@ + rend(l),
        Node::Mixed(cs) => {
            let body = dump_kids(nodes, rend, cs@, hw, 8, kid_ind(indent));
            head + body.0 + (if body.2 {
                "\n"@ + ind_of(kid_ind(indent)) + body.1 + ": Empty"@
            } else {
                Seq::<char>::empty()
            })
        },
    }
}

/// The dump lines of a `Mixed` node's first `i` octants: the emitted body
/// (leaf lines and nested blocks), the comma-separated list of unset octant
/// indices, and whether any octant was unset.
pub open spec fn dump_kids(
    nodes: Map<usize, Node>,
    rend: spec_fn(usize) -> Seq<char>,
    cs: Seq<usize>,
    hw: u8,
    i: int,
    ki: nat,
) -> (Seq<char>, Seq<char>, bool)
    decreases hw, 0int, i,
{
    if i <= 0 {
        (Seq::<char>::empty(), Seq::<char>::empty(), false)
    } else {
        let prev = dump_kids(nodes, rend, cs, hw, i - 1, ki);
        let c = cs[i - 1];
        if c == EMPTY_PTR {
            (
                prev.0,
                prev.1 + (if prev.2 {
                    ", "@
                } else {
                    Seq::<char>::empty()
                }) + dec_of((i - 1) as usize),
                true,
            )
        } else if hw <= 1 {
            (
                prev.0 + "\n"@ + ind_of(ki) + dec_of((i - 1) as usize) + ": Leaf: "@ + rend(c),
                prev.1,
                prev.2,
            )
        } else {
            (
                prev.0 + "\n"@ + dump_spec(
                    nodes,
                    rend,
                    c,
                    (hw / 2) as u8,
                    dec_of((i - 1) as usize) + ": "@,
                    ki,
                ),
                prev.1,
                prev.2,
            )
        }
    }
}

/// The dump consults the rendering only at the leaf handles the subtree
/// owns: renderings that agree there dump identically.
pub proof fn lemma_dump_frame(
    nodes: Map<usize, Node>,
    r1: spec_fn(usize) -> Seq<char>,
    r2: spec_fn(usize) -> Seq<char>,
    ptr: usize,
    hw: u8,
    prefix: Seq<char>,
    indent: nat,
)
    requires
        forall|k: usize| node_leafspan(nodes, ptr, hw).contains(k) ==> #[trigger] r1(k) == r2(k),
    ensures
        dump_spec(nodes, r1, ptr, hw, prefix, indent) == dump_spec(nodes, r2, ptr, hw, prefix, indent),
    decreases hw, 1int, 0int,
{
    match nodes[ptr] {
        Node::Full(l) => {
            assert(node_leafspan(nodes, ptr, hw).contains(l));
        }
        Node::Mixed(cs) => {
            assert forall|k: usize| kids_leafspan(nodes, cs@, 8, hw).contains(k) implies #[trigger] r1(
                k,
            ) == r2(k) by {
                assert(node_leafspan(nodes, ptr, hw).contains(k));
            }
            lemma_dump_kids_frame(nodes, r1, r2, cs@, hw, 8, kid_ind(indent));
        }
    }
}

/// Octant-level version of [`lemma_dump_frame`].
pub proof fn lemma_dump_kids_frame(
    nodes: Map<usize, Node>,
    r1: spec_fn(usize) -> Seq<char>,
    r2: spec_fn(usize) -> Seq<char>,
    cs: Seq<usize>,
    hw: u8,
    i: int,
    ki: nat,
)
    requires
        0 <= i <= 8,
        forall|k: usize| kids_leafspan(nodes, cs, i, hw).contains(k) ==> #[trigger] r1(k) == r2(k),
    ensures
        dump_kids(nodes, r1, cs, hw, i, ki) == dump_kids(nodes, r2, cs, hw, i, ki),
    decreases hw, 0int, i,
{
    if i > 0 {
        assert(kids_leafspan(nodes, cs, i, hw) == kids_leafspan(nodes, cs, i - 1, hw).union(
            kid_leafspan(nodes, cs[i - 1], hw),
        ));
        assert forall|k: usize| kids_leafspan(nodes, cs, i - 1, hw).contains(k) implies #[trigger] r1(
            k,
        ) == r2(k) by {
            assert(kids_leafspan(nodes, cs, i, hw).contains(k));
        }
        lemma_dump_kids_frame(nodes, r1, r2, cs, hw, i - 1, ki);
        let c = cs[i - 1];
        if c != EMPTY_PTR {
            if hw <= 1 {
                assert(kid_leafspan(nodes, c, hw).contains(c));
                assert(kids_leafspan(nodes, cs, i, hw).contains(c));
                assert(r1(c) == r2(c));
            } else {
                assert forall|k: usize| node_leafspan(nodes, c, (hw / 2) as u8).contains(
                    k,
                ) implies #[trigger] r1(k) == r2(k) by {
                    assert(kid_leafspan(nodes, c, hw).contains(k));
                    assert(kids_leafspan(nodes, cs, i, hw).contains(k));
                }
                lemma_dump_frame(
                    nodes,
                    r1,
                    r2,
                    c,
                    (hw / 2) as u8,
                    dec_of((i - 1) as usize) + ": "@,
                    ki,
                );
            }
        }
    }
}

} // verus!
