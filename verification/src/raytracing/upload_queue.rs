//! Choosing which nodes of a tree a view uploads first: the path from the root down to the
//! smallest node that covers the whole view.

use vstd::prelude::*;
use crate::boxtree::BoxTree;
use crate::boxtree::types::{NodeContent, EMPTY_MARKER};
use crate::raytracing::cache::{request_linked, requests_linked, NodeUploadRequest};
use crate::spatial::{child_cube, cube_contains, cube_fits, cube_splittable, lemma_sectant_of, sectant_of, Cube, V3c};

verus! {

/// The view is descended into below the node `key` covering `bounds`: the node has child
/// nodes, its children are larger than the view distance, and it holds the view's corners and
/// center
pub open spec fn view_descends<T>(tree: &BoxTree<T>, key: int, bounds: Cube, bl: V3c<u32>, tr: V3c<u32>, center: V3c<u32>, view_distance: u32) -> bool {
    &&& tree.node_is_internal(key)
    &&& bounds.size / 4 > view_distance
    &&& cube_splittable(bounds)
    &&& cube_contains(bounds, bl)
    &&& cube_contains(bounds, tr)
    &&& cube_contains(bounds, center)
}

/// The requests from `req`, whose node covers `bounds`, down to the smallest node that covers
/// the whole view: where the view descends below a node and the child holding the view's
/// center is a node of the tree, the path goes on with that child, requested below the node
/// at its sectant
pub open spec fn center_path_from<T>(tree: &BoxTree<T>, req: NodeUploadRequest, bounds: Cube, bl: V3c<u32>, tr: V3c<u32>, center: V3c<u32>, view_distance: u32) -> Seq<NodeUploadRequest>
    decreases bounds.size,
{
    let key = req.node_key as int;
    if view_descends(tree, key, bounds, bl, tr, center, view_distance) {
        let s = sectant_of(bounds, center);
        let ck = tree.child_key(key, s);
        if ck != EMPTY_MARKER as int && 0 <= ck < tree.node_count() {
            seq![req] + center_path_from(
                tree,
                NodeUploadRequest { node_key: ck as usize, parent_key: req.node_key, sectant: s as u8 },
                child_cube(bounds, s),
                bl,
                tr,
                center,
                view_distance,
            )
        } else {
            seq![req]
        }
    } else {
        seq![req]
    }
}

/// The last node on the path of `center_path_from` below which the path goes on, with the
/// cube it covers and its depth below `key` counted from `depth`; none where the path ends at
/// `key`
pub open spec fn center_parent_from<T>(tree: &BoxTree<T>, key: int, bounds: Cube, depth: int, bl: V3c<u32>, tr: V3c<u32>, center: V3c<u32>, view_distance: u32) -> Option<(int, Cube, int)>
    decreases bounds.size,
{
    if view_descends(tree, key, bounds, bl, tr, center, view_distance) {
        let s = sectant_of(bounds, center);
        let ck = tree.child_key(key, s);
        if ck != EMPTY_MARKER as int && 0 <= ck < tree.node_count() {
            match center_parent_from(tree, ck, child_cube(bounds, s), depth + 1, bl, tr, center, view_distance) {
                Some(p) => Some(p),
                None => Some((key, bounds, depth)),
            }
        } else {
            None
        }
    } else {
        None
    }
}

/// Where the path starts at a node given its own cube, its last parent is a node of the tree
/// given its own cube too
pub proof fn lemma_center_parent_cube<T>(tree: &BoxTree<T>, key: int, depth: int, bl: V3c<u32>, tr: V3c<u32>, center: V3c<u32>, view_distance: u32)
    requires
        tree.wf(),
        0 <= key < tree.node_count(),
    ensures
        center_parent_from(tree, key, tree.node_cube(key), depth, bl, tr, center, view_distance) matches Some((k, b, d))
            ==> 0 <= k < tree.node_count() && b == tree.node_cube(k),
    decreases tree.node_cube(key).size,
{
    let bounds = tree.node_cube(key);
    if view_descends(tree, key, bounds, bl, tr, center, view_distance) {
        let s = sectant_of(bounds, center);
        let ck = tree.child_key(key, s);
        tree.lemma_node_cubes(key, 0);
        crate::spatial::lemma_sectant_of(bounds, center);
        if ck != EMPTY_MARKER as int && 0 <= ck < tree.node_count() {
            tree.lemma_node_cubes(key, s);
            lemma_center_parent_cube(tree, ck, depth + 1, bl, tr, center, view_distance);
        }
    }
}

/// The path starts with the given request, and every request after it names a child node of
/// the tree below the request before it, at the sectant holding the view's center
pub proof fn lemma_center_path_linked<T>(tree: &BoxTree<T>, req: NodeUploadRequest, bounds: Cube, bl: V3c<u32>, tr: V3c<u32>, center: V3c<u32>, view_distance: u32)
    requires
        tree.wf(),
        cube_fits(bounds),
        req.node_key < tree.node_count(),
    ensures
        center_path_from(tree, req, bounds, bl, tr, center, view_distance).len() >= 1,
        center_path_from(tree, req, bounds, bl, tr, center, view_distance)[0] == req,
        ({
            let p = center_path_from(tree, req, bounds, bl, tr, center, view_distance);
            forall|j: int| 1 <= j < p.len() ==> request_linked(tree, #[trigger] p[j])
                && p[j].parent_key == p[j - 1].node_key
        }),
    decreases bounds.size,
{
    let key = req.node_key as int;
    if view_descends(tree, key, bounds, bl, tr, center, view_distance) {
        let s = sectant_of(bounds, center);
        let ck = tree.child_key(key, s);
        lemma_sectant_of(bounds, center);
        tree.lemma_wf_bounds();
        if ck != EMPTY_MARKER as int && 0 <= ck < tree.node_count() {
            let q = NodeUploadRequest { node_key: ck as usize, parent_key: req.node_key, sectant: s as u8 };
            lemma_center_path_linked(tree, q, child_cube(bounds, s), bl, tr, center, view_distance);
            let sub = center_path_from(tree, q, child_cube(bounds, s), bl, tr, center, view_distance);
            let p = center_path_from(tree, req, bounds, bl, tr, center, view_distance);
            assert(p == seq![req] + sub);
            assert((s as u8) as int == s);
            assert(q.node_key as int == ck);
            assert(request_linked(tree, q));
            assert(sub[0] == q);
            assert forall|j: int| 1 <= j < p.len() implies request_linked(tree, #[trigger] p[j])
                && p[j].parent_key == p[j - 1].node_key by {
                assert(p[j] == sub[j - 1]);
                if j >= 2 {
                    assert(p[j - 1] == sub[j - 2]);
                }
            }
        }
    }
}

/// The request of the root of a tree
pub open spec fn root_request() -> NodeUploadRequest {
    NodeUploadRequest { node_key: 0, parent_key: 0, sectant: 0 }
}

/// The nodes a view uploads first, from the root down to the smallest node that covers the
/// whole view, each requested below the one before. The view is given by its lower and upper
/// corners and its center, clamped into the tree and rounded down, and by its distance, rounded
/// down.
/// Also gives the last node on the path below which the path goes on, with the cube it covers
/// and its depth below the root; none where the path holds the root only.
pub fn center_node_path<T>(tree: &BoxTree<T>, view_bl: V3c<u32>, view_tr: V3c<u32>, view_center: V3c<u32>, view_distance: u32) -> (r: (Vec<NodeUploadRequest>, Option<(usize, Cube, usize)>))
    requires
        tree.wf(),
    ensures
        r.0@ == center_path_from(tree, root_request(), tree.root_cube(), view_bl, view_tr, view_center, view_distance),
        match center_parent_from(tree, 0, tree.root_cube(), 0, view_bl, view_tr, view_center, view_distance) {
            Some((k, b, d)) => r.1 matches Some((rk, rb, rd)) && rk == k && rb == b && rd == d,
            None => r.1 is None,
        },
{
    proof {
        tree.lemma_wf_lens();
    }
    let mut path: Vec<NodeUploadRequest> = Vec::new();
    let mut req = NodeUploadRequest { node_key: 0, parent_key: 0, sectant: 0 };
    let mut bounds = Cube::root_bounds(tree.get_size());
    let ghost whole = center_path_from(tree, root_request(), tree.root_cube(), view_bl, view_tr, view_center, view_distance);
    let ghost whole_parent = center_parent_from(tree, 0, tree.root_cube(), 0, view_bl, view_tr, view_center, view_distance);
    let mut last: Option<(usize, Cube, usize)> = None;
    let mut depth: usize = 0;
    proof {
        tree.lemma_wf_bounds();
    }
    loop
        invariant
            tree.wf(),
            tree.node_count() == tree.nodes@.len(),
            req.node_key < tree.node_count(),
            cube_fits(bounds),
            whole == center_path_from(tree, root_request(), tree.root_cube(), view_bl, view_tr, view_center, view_distance),
            path@ + center_path_from(tree, req, bounds, view_bl, view_tr, view_center, view_distance) == whole,
            whole_parent == center_parent_from(tree, 0, tree.root_cube(), 0, view_bl, view_tr, view_center, view_distance),
            depth + bounds.size <= u32::MAX,
            whole_parent == match center_parent_from(tree, req.node_key as int, bounds, depth as int, view_bl, view_tr, view_center, view_distance) {
                Some(p) => Some(p),
                None => match last {
                    Some((k, b, d)) => Some((k as int, b, d as int)),
                    None => None,
                },
            },
        decreases bounds.size,
    {
        let key = req.node_key;
        proof {
            tree.lemma_kinds_read_fields(key as int);
        }
        let internal = match &tree.nodes[key] {
            NodeContent::Internal(_) => true,
            _ => false,
        };
        let descends = internal && bounds.size / 4 > view_distance && bounds.size >= 4 && bounds.size % 4 == 0
            && bounds.contains(&view_bl) && bounds.contains(&view_tr) && bounds.contains(&view_center);
        if !descends {
            proof {
                assert(!view_descends(tree, key as int, bounds, view_bl, view_tr, view_center, view_distance));
                assert(center_path_from(tree, req, bounds, view_bl, view_tr, view_center, view_distance) == seq![req]);
                assert(path@.push(req) =~= path@ + seq![req]);
            }
            path.push(req);
            return (path, last);
        }
        let s = bounds.sectant_for(&view_center);
        let ck = tree.child(key, s);
        if ck == EMPTY_MARKER as usize {
            proof {
                assert(center_path_from(tree, req, bounds, view_bl, view_tr, view_center, view_distance) == seq![req]);
                assert(path@.push(req) =~= path@ + seq![req]);
            }
            path.push(req);
            return (path, last);
        }
        let next_bounds = bounds.child_bounds_for(s);
        let next = NodeUploadRequest { node_key: ck, parent_key: key, sectant: s };
        proof {
            assert(path@.push(req) + center_path_from(tree, next, next_bounds, view_bl, view_tr, view_center, view_distance)
                =~= path@ + center_path_from(tree, req, bounds, view_bl, view_tr, view_center, view_distance));
        }
        path.push(req);
        last = Some((key, bounds, depth));
        depth = depth + 1;
        req = next;
        bounds = next_bounds;
    }
}

} // verus!
