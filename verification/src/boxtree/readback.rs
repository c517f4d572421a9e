//! What the words of a tree determine: two valid trees stored as the same words hold the
//! same voxels, so a tree read back from its bytes holds what was written.

use vstd::prelude::*;
use crate::spatial::{Cube, V3c, child_cube, cube_splittable, sectant_of};
use crate::boxtree::types::{Albedo, BoxTree, BrickData, NodeChildren, NodeContent, EMPTY_MARKER};
use crate::boxtree::{brick_valid, brick_voxel};
use crate::boxtree::bytecode::{
    brick_words, bricks_words, concat_words, content_words, children_words, cube_words, color_words,
    colors_parts, datas_words, node_words_of, node_tuples_parts, strategy_words, content_valid, children_valid,
    lemma_concat_words_split, lemma_concat_words_at, lemma_colors_len, words_at,
    strategy_parts, method_words, threshold_words, lemma_strategy_parts_len, STORED_MIP_LEVELS,
};
use crate::boxtree::types::{MIPMapStrategy, MIPResamplingMethods};

verus! {

/// The parts one after the other: the first part, then the others
proof fn lemma_concat_front(parts: Seq<Seq<u64>>)
    requires
        parts.len() > 0,
    ensures
        concat_words(parts) == parts[0] + concat_words(parts.drop_first()),
{
    lemma_concat_words_split(parts, 1);
    let first = parts.subrange(0, 1);
    assert(first.drop_last() =~= Seq::<Seq<u64>>::empty());
    assert(concat_words(first) == concat_words(first.drop_last()) + first.last());
    assert(concat_words(first) =~= parts[0]);
    assert(parts.subrange(1, parts.len() as int) =~= parts.drop_first());
}

/// Two runs of words that start with parts of the same length start with the same part
proof fn lemma_prefix_eq(a1: Seq<u64>, r1: Seq<u64>, a2: Seq<u64>, r2: Seq<u64>)
    requires
        a1.len() == a2.len(),
        a1 + r1 == a2 + r2,
    ensures
        a1 == a2,
        r1 == r2,
{
    assert(a1 =~= (a1 + r1).subrange(0, a1.len() as int));
    assert(a2 =~= (a2 + r2).subrange(0, a2.len() as int));
    assert(r1 =~= (a1 + r1).subrange(a1.len() as int, (a1 + r1).len() as int));
    assert(r2 =~= (a2 + r2).subrange(a2.len() as int, (a2 + r2).len() as int));
}

/// The words of a valid brick are told apart from what follows them
proof fn lemma_brick_prefix(b1: BrickData, r1: Seq<u64>, b2: BrickData, r2: Seq<u64>, dim: nat, nc1: nat, nd1: nat, nc2: nat, nd2: nat)
    requires
        brick_valid(b1, dim, nc1, nd1),
        brick_valid(b2, dim, nc2, nd2),
        brick_words(b1) + r1 == brick_words(b2) + r2,
    ensures
        brick_words(b1) == brick_words(b2),
        r1 == r2,
{
    let w = brick_words(b1) + r1;
    assert(w[0] == brick_words(b1)[0]);
    assert((brick_words(b2) + r2)[0] == brick_words(b2)[0]);
    assert(brick_words(b1).len() == brick_words(b2).len());
    lemma_prefix_eq(brick_words(b1), r1, brick_words(b2), r2);
}

/// Valid bricks one after the other are told apart brick by brick
proof fn lemma_bricks_prefix(
    b1: Seq<BrickData>, r1: Seq<u64>, b2: Seq<BrickData>, r2: Seq<u64>,
    dim: nat, nc1: nat, nd1: nat, nc2: nat, nd2: nat,
)
    requires
        b1.len() == b2.len(),
        forall|i: int| 0 <= i < b1.len() ==> brick_valid(#[trigger] b1[i], dim, nc1, nd1),
        forall|i: int| 0 <= i < b2.len() ==> brick_valid(#[trigger] b2[i], dim, nc2, nd2),
        concat_words(bricks_words(b1)) + r1 == concat_words(bricks_words(b2)) + r2,
    ensures
        forall|i: int| 0 <= i < b1.len() ==> brick_words(#[trigger] b1[i]) == brick_words(b2[i]),
        r1 == r2,
    decreases b1.len(),
{
    if b1.len() == 0 {
        assert(bricks_words(b1) =~= Seq::<Seq<u64>>::empty());
        assert(bricks_words(b2) =~= Seq::<Seq<u64>>::empty());
        assert(concat_words(bricks_words(b1)) =~= Seq::<u64>::empty());
        assert(concat_words(bricks_words(b2)) =~= Seq::<u64>::empty());
        assert(r1 =~= Seq::<u64>::empty() + r1);
        assert(r2 =~= Seq::<u64>::empty() + r2);
    } else {
        let p1 = bricks_words(b1);
        let p2 = bricks_words(b2);
        lemma_concat_front(p1);
        lemma_concat_front(p2);
        assert(p1.drop_first() =~= bricks_words(b1.drop_first()));
        assert(p2.drop_first() =~= bricks_words(b2.drop_first()));
        let t1 = concat_words(bricks_words(b1.drop_first())) + r1;
        let t2 = concat_words(bricks_words(b2.drop_first())) + r2;
        assert(brick_words(b1[0]) + t1 =~= concat_words(p1) + r1);
        assert(brick_words(b2[0]) + t2 =~= concat_words(p2) + r2);
        lemma_brick_prefix(b1[0], t1, b2[0], t2, dim, nc1, nd1, nc2, nd2);
        lemma_bricks_prefix(b1.drop_first(), r1, b2.drop_first(), r2, dim, nc1, nd1, nc2, nd2);
        assert forall|i: int| 0 <= i < b1.len() implies brick_words(#[trigger] b1[i]) == brick_words(b2[i]) by {
            if i > 0 {
                assert(b1[i] == b1.drop_first()[i - 1]);
                assert(b2[i] == b2.drop_first()[i - 1]);
            }
        }
    }
}

/// The contents of two nodes hold the same voxels: the same kind, and the same words for
/// each brick
pub open spec fn same_node_content(c1: NodeContent, c2: NodeContent) -> bool {
    match (c1, c2) {
        (NodeContent::Nothing, NodeContent::Nothing) => true,
        (NodeContent::Internal(a), NodeContent::Internal(b)) => a == b,
        (NodeContent::Leaf(x), NodeContent::Leaf(y)) => x@.len() == y@.len()
            && forall|i: int| 0 <= i < x@.len() ==> brick_words(#[trigger] x@[i]) == brick_words(y@[i]),
        (NodeContent::UniformLeaf(x), NodeContent::UniformLeaf(y)) => brick_words(x) == brick_words(y),
        _ => false,
    }
}

/// The content of a valid node is told apart from what follows it
proof fn lemma_content_prefix(c1: NodeContent, r1: Seq<u64>, c2: NodeContent, r2: Seq<u64>, dim: nat, nc1: nat, nd1: nat, nc2: nat, nd2: nat)
    requires
        content_valid(c1, dim, nc1, nd1),
        content_valid(c2, dim, nc2, nd2),
        content_words(c1) + r1 == content_words(c2) + r2,
    ensures
        same_node_content(c1, c2),
        r1 == r2,
{
    let w = content_words(c1) + r1;
    assert(w[0] == content_words(c1)[0]);
    assert((content_words(c2) + r2)[0] == content_words(c2)[0]);
    match (c1, c2) {
        (NodeContent::Leaf(x), NodeContent::Leaf(y)) => {
            let t1 = concat_words(bricks_words(x@)) + r1;
            let t2 = concat_words(bricks_words(y@)) + r2;
            assert(content_words(c1) + r1 =~= seq![2u64] + t1);
            assert(content_words(c2) + r2 =~= seq![2u64] + t2);
            lemma_prefix_eq(seq![2u64], t1, seq![2u64], t2);
            lemma_bricks_prefix(x@, r1, y@, r2, dim, nc1, nd1, nc2, nd2);
        },
        (NodeContent::UniformLeaf(x), NodeContent::UniformLeaf(y)) => {
            let t1 = brick_words(x) + r1;
            let t2 = brick_words(y) + r2;
            assert(content_words(c1) + r1 =~= seq![3u64] + t1);
            assert(content_words(c2) + r2 =~= seq![3u64] + t2);
            lemma_prefix_eq(seq![3u64], t1, seq![3u64], t2);
            lemma_brick_prefix(x, r1, y, r2, dim, nc1, nd1, nc2, nd2);
        },
        (NodeContent::Internal(a), NodeContent::Internal(b)) => {
            lemma_prefix_eq(content_words(c1), r1, content_words(c2), r2);
            assert(content_words(c1)[1] == a);
        },
        _ => {
            lemma_prefix_eq(content_words(c1), r1, content_words(c2), r2);
        },
    }
}

/// The connection of a valid node to its children is told apart from what follows it
proof fn lemma_children_prefix(c1: NodeChildren, r1: Seq<u64>, c2: NodeChildren, r2: Seq<u64>)
    requires
        children_valid(c1),
        children_valid(c2),
        children_words(c1) + r1 == children_words(c2) + r2,
    ensures
        children_words(c1) == children_words(c2),
        r1 == r2,
{
    let w = children_words(c1) + r1;
    assert(w[0] == children_words(c1)[0]);
    assert((children_words(c2) + r2)[0] == children_words(c2)[0]);
    assert(children_words(c1).len() == children_words(c2).len());
    lemma_prefix_eq(children_words(c1), r1, children_words(c2), r2);
}

/// The parts of two nodes hold the same voxels
pub open spec fn same_node(n1: (NodeContent, NodeChildren, BrickData, Cube), n2: (NodeContent, NodeChildren, BrickData, Cube)) -> bool {
    &&& same_node_content(n1.0, n2.0)
    &&& children_words(n1.1) == children_words(n2.1)
    &&& brick_words(n1.2) == brick_words(n2.2)
    &&& n1.3 == n2.3
}

/// A node is valid for the brick dimension and the palette sizes
pub open spec fn node_tuple_valid(n: (NodeContent, NodeChildren, BrickData, Cube), dim: nat, nc: nat, nd: nat) -> bool {
    &&& content_valid(n.0, dim, nc, nd)
    &&& children_valid(n.1)
    &&& brick_valid(n.2, dim, nc, nd)
}

/// Four runs of words, then the rest
proof fn lemma_assoc4(a: Seq<u64>, b: Seq<u64>, c: Seq<u64>, d: Seq<u64>, r: Seq<u64>)
    ensures
        a + b + c + d + r == a + (b + (c + (d + r))),
{
    assert(a + b + c + d + r =~= a + (b + (c + (d + r))));
}

/// The words of a valid node are told apart from what follows them
#[verifier::spinoff_prover]
proof fn lemma_node_prefix(
    n1: (NodeContent, NodeChildren, BrickData, Cube), r1: Seq<u64>,
    n2: (NodeContent, NodeChildren, BrickData, Cube), r2: Seq<u64>,
    dim: nat, nc1: nat, nd1: nat, nc2: nat, nd2: nat,
)
    requires
        node_tuple_valid(n1, dim, nc1, nd1),
        node_tuple_valid(n2, dim, nc2, nd2),
        node_words_of(n1.0, n1.1, n1.2, n1.3) + r1 == node_words_of(n2.0, n2.1, n2.2, n2.3) + r2,
    ensures
        same_node(n1, n2),
        r1 == r2,
{
    let d1 = cube_words(n1.3) + r1;
    let d2 = cube_words(n2.3) + r2;
    let b1 = brick_words(n1.2) + d1;
    let b2 = brick_words(n2.2) + d2;
    let a1 = children_words(n1.1) + b1;
    let a2 = children_words(n2.1) + b2;
    lemma_assoc4(content_words(n1.0), children_words(n1.1), brick_words(n1.2), cube_words(n1.3), r1);
    lemma_assoc4(content_words(n2.0), children_words(n2.1), brick_words(n2.2), cube_words(n2.3), r2);
    lemma_content_prefix(n1.0, a1, n2.0, a2, dim, nc1, nd1, nc2, nd2);
    lemma_children_prefix(n1.1, b1, n2.1, b2);
    lemma_brick_prefix(n1.2, d1, n2.2, d2, dim, nc1, nd1, nc2, nd2);
    lemma_prefix_eq(cube_words(n1.3), r1, cube_words(n2.3), r2);
    let c1 = cube_words(n1.3);
    let c2 = cube_words(n2.3);
    assert(c1[0] == c2[0] && c1[1] == c2[1] && c1[2] == c2[2] && c1[3] == c2[3]);
}

/// Valid nodes one after the other are told apart node by node
proof fn lemma_nodes_prefix(
    ns1: Seq<(NodeContent, NodeChildren, BrickData, Cube)>, r1: Seq<u64>,
    ns2: Seq<(NodeContent, NodeChildren, BrickData, Cube)>, r2: Seq<u64>,
    dim: nat, nc1: nat, nd1: nat, nc2: nat, nd2: nat,
)
    requires
        ns1.len() == ns2.len(),
        forall|i: int| 0 <= i < ns1.len() ==> node_tuple_valid(#[trigger] ns1[i], dim, nc1, nd1),
        forall|i: int| 0 <= i < ns2.len() ==> node_tuple_valid(#[trigger] ns2[i], dim, nc2, nd2),
        concat_words(node_tuples_parts(ns1)) + r1 == concat_words(node_tuples_parts(ns2)) + r2,
    ensures
        forall|i: int| 0 <= i < ns1.len() ==> same_node(#[trigger] ns1[i], ns2[i]),
        r1 == r2,
    decreases ns1.len(),
{
    if ns1.len() == 0 {
        assert(node_tuples_parts(ns1) =~= Seq::<Seq<u64>>::empty());
        assert(node_tuples_parts(ns2) =~= Seq::<Seq<u64>>::empty());
        assert(concat_words(node_tuples_parts(ns1)) =~= Seq::<u64>::empty());
        assert(concat_words(node_tuples_parts(ns2)) =~= Seq::<u64>::empty());
        assert(r1 =~= Seq::<u64>::empty() + r1);
        assert(r2 =~= Seq::<u64>::empty() + r2);
    } else {
        let p1 = node_tuples_parts(ns1);
        let p2 = node_tuples_parts(ns2);
        lemma_concat_front(p1);
        lemma_concat_front(p2);
        assert(p1.drop_first() =~= node_tuples_parts(ns1.drop_first()));
        assert(p2.drop_first() =~= node_tuples_parts(ns2.drop_first()));
        let t1 = concat_words(node_tuples_parts(ns1.drop_first())) + r1;
        let t2 = concat_words(node_tuples_parts(ns2.drop_first())) + r2;
        let n1 = ns1[0];
        let n2 = ns2[0];
        assert(node_words_of(n1.0, n1.1, n1.2, n1.3) + t1 =~= concat_words(p1) + r1);
        assert(node_words_of(n2.0, n2.1, n2.2, n2.3) + t2 =~= concat_words(p2) + r2);
        lemma_node_prefix(n1, t1, n2, t2, dim, nc1, nd1, nc2, nd2);
        assert forall|i: int| 0 <= i < ns1.drop_first().len() implies node_tuple_valid(#[trigger] ns1.drop_first()[i], dim, nc1, nd1) by {
            assert(ns1.drop_first()[i] == ns1[i + 1]);
        }
        assert forall|i: int| 0 <= i < ns2.drop_first().len() implies node_tuple_valid(#[trigger] ns2.drop_first()[i], dim, nc2, nd2) by {
            assert(ns2.drop_first()[i] == ns2[i + 1]);
        }
        lemma_nodes_prefix(ns1.drop_first(), r1, ns2.drop_first(), r2, dim, nc1, nd1, nc2, nd2);
        assert forall|i: int| 0 <= i < ns1.len() implies same_node(#[trigger] ns1[i], ns2[i]) by {
            if i > 0 {
                assert(ns1[i] == ns1.drop_first()[i - 1]);
                assert(ns2[i] == ns2.drop_first()[i - 1]);
            }
        }
    }
}

/// Bricks with the same words hold the same voxels
proof fn lemma_brick_words_voxel(b1: BrickData, b2: BrickData, cell: Cube, p: V3c<u32>, dim: nat)
    requires
        brick_words(b1) == brick_words(b2),
    ensures
        brick_voxel(b1, cell, p, dim) == brick_voxel(b2, cell, p, dim),
{
    let w = brick_words(b1);
    assert(w[0] == brick_words(b2)[0]);
    match (b1, b2) {
        (BrickData::Solid(x), BrickData::Solid(y)) => {
            assert(w[1] == x as u64);
            assert(brick_words(b2)[1] == y as u64);
        },
        (BrickData::Parted(x), BrickData::Parted(y)) => {
            assert(brick_words(b1).len() == 1 + x@.len());
            assert(brick_words(b2).len() == 1 + y@.len());
            assert(x@.len() == y@.len());
            assert forall|i: int| 0 <= i < x@.len() implies x@[i] == y@[i] by {
                assert(w[i + 1] == x@[i] as u64);
                assert(brick_words(b2)[i + 1] == y@[i] as u64);
            }
            assert(x@ =~= y@);
        },
        _ => {},
    }
}

impl BoxTree<u32> {
    /// Connections stored as the same words lead to the same children
    proof fn lemma_children_words_keys(t1: &BoxTree<u32>, t2: &BoxTree<u32>, k: int)
        requires
            children_words(t1.node_children@[k]) == children_words(t2.node_children@[k]),
        ensures
            forall|s: int| #[trigger] t1.child_key(k, s) == t2.child_key(k, s),
    {
        let ch1 = t1.node_children@[k];
        let ch2 = t2.node_children@[k];
        assert(children_words(ch1)[0] == children_words(ch2)[0]);
        match (ch1, ch2) {
            (NodeChildren::Children(v1), NodeChildren::Children(v2)) => {
                assert(children_words(ch1).len() == 1 + v1@.len());
                assert(children_words(ch2).len() == 1 + v2@.len());
                assert forall|i: int| 0 <= i < v1@.len() implies v1@[i] == v2@[i] by {
                    assert(children_words(ch1)[i + 1] == v1@[i] as u64);
                    assert(children_words(ch2)[i + 1] == v2@[i] as u64);
                }
                assert(v1@ =~= v2@);
            },
            _ => {},
        }
    }
}

impl BoxTree<u32> {
    /// The parts of the nodes of the tree
    pub closed spec fn node_tuples(&self) -> Seq<(NodeContent, NodeChildren, BrickData, Cube)> {
        Seq::new(self.nodes@.len(), |k: int| (self.nodes@[k], self.node_children@[k], self.node_mips@[k], self.node_bounds@[k]))
    }

    /// Nodes with the same parts hold the same voxels, node by node, in both trees
    proof fn lemma_same_nodes_voxel(&self, other: &BoxTree<u32>, key: int, bounds: Cube, p: V3c<u32>)
        requires
            self.wf(),
            other.wf(),
            self.brick_dim == other.brick_dim,
            self.nodes@.len() == other.nodes@.len(),
            forall|k: int| 0 <= k < self.nodes@.len() ==> same_node(#[trigger] self.node_tuples()[k], other.node_tuples()[k]),
        ensures
            self.node_voxel(key, bounds, p) == other.node_voxel(key, bounds, p),
        decreases bounds.size,
    {
        if 0 <= key < self.nodes@.len() && cube_splittable(bounds) {
            let s = sectant_of(bounds, p);
            assert(same_node(self.node_tuples()[key], other.node_tuples()[key]));
            let c1 = self.nodes@[key];
            let c2 = other.nodes@[key];
            let ch1 = self.node_children@[key];
            let ch2 = other.node_children@[key];
            assert(self.node_tuples()[key].0 == c1 && other.node_tuples()[key].0 == c2);
            assert(self.node_tuples()[key].1 == ch1 && other.node_tuples()[key].1 == ch2);
            assert(children_words(ch1)[0] == children_words(ch2)[0]);
            match (ch1, ch2) {
                (NodeChildren::Children(v1), NodeChildren::Children(v2)) => {
                    assert(children_words(ch1).len() == 1 + v1@.len());
                    assert(children_words(ch2).len() == 1 + v2@.len());
                    assert(v1@.len() == v2@.len());
                    assert forall|i: int| 0 <= i < v1@.len() implies v1@[i] == v2@[i] by {
                        assert(children_words(ch1)[i + 1] == v1@[i] as u64);
                        assert(children_words(ch2)[i + 1] == v2@[i] as u64);
                    }
                    assert(v1@ =~= v2@);
                },
                _ => {},
            }
            match (c1, c2) {
                (NodeContent::Internal(_), NodeContent::Internal(_)) => {
                    let c = self.child_key(key, s);
                    assert(c == other.child_key(key, s));
                    if 0 <= c < self.nodes@.len() {
                        assert(child_cube(bounds, s).size < bounds.size);
                        self.lemma_same_nodes_voxel(other, c, child_cube(bounds, s), p);
                    }
                },
                (NodeContent::Leaf(x), NodeContent::Leaf(y)) => {
                    if 0 <= s < x@.len() {
                        lemma_brick_words_voxel(x@[s], y@[s], child_cube(bounds, s), p, self.brick_dim as nat);
                    }
                },
                (NodeContent::UniformLeaf(x), NodeContent::UniformLeaf(y)) => {
                    lemma_brick_words_voxel(x, y, bounds, p, self.brick_dim as nat);
                },
                _ => {},
            }
        }
    }
}

/// Strategies stored as the same words agree on whether MIP maps are enabled, and on the
/// method and the threshold set for each stored level
proof fn lemma_strategy_words_injective(s1: MIPMapStrategy, s2: MIPMapStrategy)
    requires
        strategy_words(s1) == strategy_words(s2),
    ensures
        s1.spec_enabled() == s2.spec_enabled(),
        forall|l: usize| l < STORED_MIP_LEVELS ==> #[trigger] s1.method_entry(l) == s2.method_entry(l)
            && s1.threshold_entry(l) == s2.threshold_entry(l),
{
    let w1 = strategy_words(s1);
    let w2 = strategy_words(s2);
    assert(w1[0] == w2[0]);
    let p1 = strategy_parts(s1);
    let p2 = strategy_parts(s2);
    let c1 = concat_words(p1);
    let c2 = concat_words(p2);
    lemma_prefix_eq(seq![w1[0]], c1, seq![w2[0]], c2);
    assert forall|l: usize| l < STORED_MIP_LEVELS implies #[trigger] s1.method_entry(l) == s2.method_entry(l)
        && s1.threshold_entry(l) == s2.threshold_entry(l) by {
        let k = l as int;
        lemma_concat_words_at(p1, k);
        lemma_concat_words_at(p2, k);
        lemma_strategy_parts_len(s1, k);
        lemma_strategy_parts_len(s2, k);
        let a = p1[k];
        let b = p2[k];
        assert(a == b);
        let m1 = method_words(s1.method_entry(l));
        let m2 = method_words(s2.method_entry(l));
        let t1 = threshold_words(s1.threshold_entry(l));
        let t2 = threshold_words(s2.threshold_entry(l));
        assert(a == m1 + t1);
        assert(b == m2 + t2);
        lemma_prefix_eq(m1, t1, m2, t2);
        assert(m1[0] == m2[0] && m1[1] == m2[1]);
        assert(t1[0] == t2[0] && t1[1] == t2[1]);
        match (s1.method_entry(l), s2.method_entry(l)) {
            (Some(MIPResamplingMethods::Posterize(x)), Some(MIPResamplingMethods::Posterize(y))) => {
                assert(x as u64 == y as u64);
            },
            (Some(MIPResamplingMethods::PosterizeBD(x)), Some(MIPResamplingMethods::PosterizeBD(y))) => {
                assert(x as u64 == y as u64);
            },
            _ => {},
        }
    }
}

impl BoxTree<u32> {
    /// Two valid trees stored as the same words hold the same voxels, with the same size,
    /// brick dimension and simplification setting: a tree read back from the bytes of
    /// another holds what the other held.
    pub proof fn lemma_same_words_same_entries(t1: BoxTree<u32>, t2: BoxTree<u32>)
        requires
            t1.wf(),
            t2.wf(),
            t1.tree_words() == t2.tree_words(),
        ensures
            t1.same_entries(&t2),
            t1.colors() == t2.colors(),
            t1.datas() == t2.datas(),
            t1.strategy().spec_enabled() == t2.strategy().spec_enabled(),
            forall|l: usize| l < STORED_MIP_LEVELS ==> #[trigger] t1.strategy().method_entry(l) == t2.strategy().method_entry(l)
                && t1.strategy().threshold_entry(l) == t2.strategy().threshold_entry(l),
            t1.same_mips(&t2),
    {
        t1.lemma_layout();
        t2.lemma_layout();
        let w = t1.tree_words();
        let sw1 = strategy_words(t1.mip_map_strategy);
        let sw2 = strategy_words(t2.mip_map_strategy);
        lemma_strategy_parts_len(t1.mip_map_strategy, STORED_MIP_LEVELS as int);
        lemma_strategy_parts_len(t2.mip_map_strategy, STORED_MIP_LEVELS as int);
        assert(strategy_parts(t1.mip_map_strategy).subrange(0, STORED_MIP_LEVELS as int) =~= strategy_parts(t1.mip_map_strategy));
        assert(strategy_parts(t2.mip_map_strategy).subrange(0, STORED_MIP_LEVELS as int) =~= strategy_parts(t2.mip_map_strategy));
        assert(sw1.len() == 129 && sw2.len() == 129);
        assert(sw1 == w.subrange(6, 135) && sw2 == w.subrange(6, 135));
        lemma_strategy_words_injective(t1.mip_map_strategy, t2.mip_map_strategy);
        let nc = t1.voxel_color_palette@.len();
        let nd = t1.voxel_data_palette@.len();
        // the palettes
        let cs1 = t1.voxel_color_palette@;
        let cs2 = t2.voxel_color_palette@;
        let cw1 = concat_words(colors_parts(cs1));
        let cw2 = concat_words(colors_parts(cs2));
        assert((seq![nc as u64] + cw1)[0] == w[135]);
        assert((seq![cs2.len() as u64] + cw2)[0] == w[135]);
        assert(nc == cs2.len());
        lemma_colors_len(cs1, nc as int);
        lemma_colors_len(cs2, nc as int);
        assert(colors_parts(cs1).subrange(0, nc as int) =~= colors_parts(cs1));
        assert(colors_parts(cs2).subrange(0, nc as int) =~= colors_parts(cs2));
        lemma_prefix_eq(seq![nc as u64], cw1, seq![nc as u64], cw2);
        assert forall|k: int| 0 <= k < nc implies cs1[k] == cs2[k] by {
            lemma_concat_words_at(colors_parts(cs1), k);
            lemma_concat_words_at(colors_parts(cs2), k);
            lemma_colors_len(cs1, k);
            lemma_colors_len(cs2, k);
            let a = color_words(cs1[k]);
            let b = color_words(cs2[k]);
            assert(colors_parts(cs1)[k] == a);
            assert(colors_parts(cs2)[k] == b);
            assert(a[0] == b[0] && a[1] == b[1] && a[2] == b[2] && a[3] == b[3]);
        }
        assert(cs1 =~= cs2);
        let p2: int = (136 + 4 * nc) as int;
        let ds1 = t1.voxel_data_palette@;
        let ds2 = t2.voxel_data_palette@;
        assert((seq![nd as u64] + datas_words(ds1))[0] == w[p2]);
        assert((seq![ds2.len() as u64] + datas_words(ds2))[0] == w[p2]);
        assert(nd == ds2.len());
        lemma_prefix_eq(seq![nd as u64], datas_words(ds1), seq![nd as u64], datas_words(ds2));
        assert forall|k: int| 0 <= k < nd implies ds1[k] == ds2[k] by {
            assert(datas_words(ds1)[k] == ds1[k] as u64);
            assert(datas_words(ds2)[k] == ds2[k] as u64);
        }
        assert(ds1 =~= ds2);
        // the nodes
        let p3: int = p2 + 1 + nd;
        let n = t1.nodes@.len();
        assert(n == t2.nodes@.len());
        let ns1 = t1.node_tuples();
        let ns2 = t2.node_tuples();
        let ms1 = t1.lemma_node_tuples();
        let ms2 = t2.lemma_node_tuples();
        assert(ms1 =~= ns1);
        assert(ms2 =~= ns2);
        let c1 = concat_words(node_tuples_parts(ns1));
        let c2 = concat_words(node_tuples_parts(ns2));
        assert(w.subrange(p3 + 1, p3 + 1 + c1.len()) == c1);
        assert(w.subrange(p3 + 1, p3 + 1 + c2.len()) == c2);
        assert forall|i: int| 0 <= i < ns1.len() implies node_tuple_valid(#[trigger] ns1[i], t1.brick_dim as nat, nc, nd) by {
            assert(t1.node_wf(i));
        }
        assert forall|i: int| 0 <= i < ns2.len() implies node_tuple_valid(#[trigger] ns2[i], t2.brick_dim as nat,
            t2.voxel_color_palette@.len(), t2.voxel_data_palette@.len()) by {
            assert(t2.node_wf(i));
        }
        assert(w[4] == t1.brick_dim as u64 && w[4] == t2.brick_dim as u64);
        assert(concat_words(node_tuples_parts(ns1)) + Seq::<u64>::empty() =~= concat_words(node_tuples_parts(ns2)) + Seq::<u64>::empty());
        lemma_nodes_prefix(ns1, Seq::empty(), ns2, Seq::empty(), t1.brick_dim as nat, nc, nd,
            t2.voxel_color_palette@.len(), t2.voxel_data_palette@.len());
        // the voxels
        assert(w[3] == t1.boxtree_size as u64 && w[3] == t2.boxtree_size as u64);
        assert(w[5] == t2.tree_words()[5]);
        assert forall|p: V3c<u32>| #[trigger] t1.entry_at(p) == t2.entry_at(p) by {
            t1.lemma_same_nodes_voxel(&t2, 0, t1.root_cube(), p);
        }
        // the MIP maps
        assert(same_node(ns1[0], ns2[0]));
        Self::lemma_children_words_keys(&t1, &t2, 0);
        assert forall|k: int, f: int| 0 <= k < t1.nodes@.len() implies #[trigger] t1.mip_entry(k, f) == t2.mip_entry(k, f) by {
            assert(same_node(ns1[k], ns2[k]));
            BoxTree::lemma_mip_entry_from_words(&t1, &t2, k, f);
        }
        BoxTree::lemma_same_mips(&t1, &t2);
    }
}

} // verus!
