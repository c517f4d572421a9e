use voxelhex::boxtree::{Albedo, BoxTree, V3c, OOB_SECTANT};
use voxelhex::boxtree::render_data::BoxTreeMetaData;
use voxelhex::raytracing::upload_queue::center_node_path;
use voxelhex::raytracing::cache::{
    brick_owner_code, brick_owner_of_code, BoxTreeGPUDataHandler, BrickOwnedBy, BrickUploadRequest,
    NodeUploadRequest, NodeUploadStep, SlotStanding, UploadAction, WriteRange, WriteRanges,
};

const EMPTY: u32 = 0xFFFF_FFFF;

fn red() -> Albedo {
    0xFF0000FF.into()
}

fn root_request() -> NodeUploadRequest {
    NodeUploadRequest { node_key: 0, parent_key: 0, sectant: 0 }
}

#[test]
fn new_cache_holds_nothing() {
    let cache = BoxTreeGPUDataHandler::new(16, 8, false);
    assert_eq!(cache.render_data.node_children.len(), 16 * 64);
    assert!(cache.render_data.node_children.iter().all(|w| *w == EMPTY));
    assert_eq!(cache.render_data.node_mips, vec![EMPTY; 16]);
    assert_eq!(cache.render_data.node_ocbits, vec![0; 32]);
    assert_eq!(cache.render_data.node_metadata.len(), 2);
    assert_eq!(cache.meta_index_of(0), None);
    assert_eq!(cache.brick_owner_at(0), BrickOwnedBy::Unowned);
    assert!(!cache.is_seen(0));
}

#[test]
fn owner_codes_give_the_owner_back() {
    for owner in [
        BrickOwnedBy::Unowned,
        BrickOwnedBy::NodeAsChild(7, 3),
        BrickOwnedBy::NodeAsChild(0xFFFF_FFFE, 63),
        BrickOwnedBy::NodeAsMIP(9),
    ] {
        assert_eq!(brick_owner_of_code(brick_owner_code(owner)), owner);
    }
    assert_ne!(
        brick_owner_code(BrickOwnedBy::NodeAsChild(1, 0)),
        brick_owner_code(BrickOwnedBy::NodeAsMIP(1))
    );
}

#[test]
fn root_node_goes_to_index_zero() {
    let mut tree: BoxTree = BoxTree::new(8, 2).ok().unwrap();
    tree.insert(&V3c::new(0, 0, 0), &red()).unwrap();
    let mut cache = BoxTreeGPUDataHandler::new(4, 4, false);
    let (index, update) = cache.add_node(&tree, &root_request());
    assert_eq!(index, 0);
    assert!(!update.allocation_failed);
    assert!(update.brick_update.is_none());
    assert_eq!(cache.meta_index_of(0), Some(0));
    // the root of this tree is a leaf: the leaf bit of node 0 is set, the uniform bit is not
    assert_eq!(cache.render_data.node_metadata[0] & 0x0101, 0x0001);
    // the parted brick is not in the cache yet, the other bricks are empty
    assert!(cache.render_data.node_children[0..64].iter().all(|w| *w == EMPTY));
}

#[test]
fn leaf_brick_is_linked_to_its_slot() {
    let mut tree: BoxTree = BoxTree::new(8, 2).ok().unwrap();
    tree.insert(&V3c::new(0, 0, 0), &red()).unwrap();
    let mut cache = BoxTreeGPUDataHandler::new(4, 4, false);
    cache.add_node(&tree, &root_request());
    let update = cache.add_brick(&tree, 3, BrickUploadRequest { ownership: BrickOwnedBy::NodeAsChild(0, 0) });
    assert!(!update.allocation_failed);
    let brick = update.brick_update.expect("a parted brick is written");
    assert_eq!(brick.brick_index, 3);
    assert_eq!(brick.data.len(), 8);
    assert_eq!(update.modified_nodes.last(), Some(&0));
    assert_eq!(cache.brick_owner_at(3), BrickOwnedBy::NodeAsChild(0, 0));
    assert_eq!(cache.render_data.node_children[0], 3);
}

#[test]
fn taking_a_slot_over_cuts_the_previous_brick() {
    let mut tree: BoxTree = BoxTree::new(8, 2).ok().unwrap();
    tree.insert(&V3c::new(0, 0, 0), &red()).unwrap();
    tree.insert(&V3c::new(2, 0, 0), &red()).unwrap();
    let mut cache = BoxTreeGPUDataHandler::new(4, 4, false);
    cache.add_node(&tree, &root_request());
    cache.add_brick(&tree, 3, BrickUploadRequest { ownership: BrickOwnedBy::NodeAsChild(0, 0) });
    let update = cache.add_brick(&tree, 3, BrickUploadRequest { ownership: BrickOwnedBy::NodeAsChild(0, 1) });
    assert_eq!(update.brick_update.map(|b| b.brick_index), Some(3));
    assert_eq!(cache.render_data.node_children[0], EMPTY);
    assert_eq!(cache.render_data.node_children[1], 3);
    assert_eq!(cache.brick_owner_at(3), BrickOwnedBy::NodeAsChild(0, 1));
}

#[test]
fn empty_brick_changes_nothing() {
    let mut tree: BoxTree = BoxTree::new(8, 2).ok().unwrap();
    tree.insert(&V3c::new(0, 0, 0), &red()).unwrap();
    let mut cache = BoxTreeGPUDataHandler::new(4, 4, false);
    cache.add_node(&tree, &root_request());
    let update = cache.add_brick(&tree, 2, BrickUploadRequest { ownership: BrickOwnedBy::NodeAsChild(0, 5) });
    assert!(!update.allocation_failed);
    assert!(update.brick_update.is_none());
    assert!(update.modified_nodes.is_empty());
    assert_eq!(cache.brick_owner_at(2), BrickOwnedBy::Unowned);
    assert_eq!(cache.render_data.node_children[5], EMPTY);
}

#[test]
fn child_node_is_linked_below_its_parent() {
    let mut tree: BoxTree = BoxTree::new(32, 2).ok().unwrap();
    tree.insert(&V3c::new(0, 0, 0), &red()).unwrap();
    let mut cache = BoxTreeGPUDataHandler::new(4, 4, false);
    cache.see_node(0);
    cache.see_node(1);
    let (root_index, _) = cache.add_node(&tree, &root_request());
    assert_eq!(root_index, 0);
    // the root of this tree is internal: neither leaf bit is set, and only its first sectant
    // holds anything
    assert_eq!(cache.render_data.node_metadata[0] & 0x0101, 0);
    assert_eq!(cache.render_data.node_ocbits[0], 1);
    assert_eq!(cache.render_data.node_ocbits[1], 0);
    let (index, update) = cache.add_node(&tree, &NodeUploadRequest { node_key: 1, parent_key: 0, sectant: 0 });
    assert!(!update.allocation_failed);
    assert_eq!(index, 1);
    assert_eq!(cache.meta_index_of(1), Some(1));
    assert_eq!(cache.render_data.node_children[0], 1);
    assert!(update.modified_nodes.contains(&0));
}

#[test]
fn full_cache_refuses_a_node() {
    let mut tree: BoxTree = BoxTree::new(32, 2).ok().unwrap();
    tree.insert(&V3c::new(0, 0, 0), &red()).unwrap();
    let mut cache = BoxTreeGPUDataHandler::new(1, 4, false);
    cache.see_node(0);
    cache.add_node(&tree, &root_request());
    let children_before = cache.render_data.node_children.clone();
    let (index, update) = cache.add_node(&tree, &NodeUploadRequest { node_key: 1, parent_key: 0, sectant: 0 });
    assert!(update.allocation_failed);
    assert_eq!(index, 0);
    assert!(update.modified_nodes.is_empty());
    assert_eq!(cache.meta_index_of(1), None);
    assert_eq!(cache.meta_index_of(0), Some(0));
    assert_eq!(cache.render_data.node_children, children_before);
}

#[test]
fn node_without_room_takes_an_unseen_index_over() {
    let mut tree: BoxTree = BoxTree::new(32, 2).ok().unwrap();
    tree.insert(&V3c::new(0, 0, 0), &red()).unwrap();
    tree.insert(&V3c::new(31, 31, 31), &red()).unwrap();
    tree.insert(&V3c::new(8, 0, 0), &red()).unwrap();
    let mut cache = BoxTreeGPUDataHandler::new(3, 4, false);
    cache.see_node(0);
    cache.add_node(&tree, &root_request());
    let (first, _) = cache.add_node(&tree, &NodeUploadRequest { node_key: 1, parent_key: 0, sectant: 0 });
    let (second, _) = cache.add_node(&tree, &NodeUploadRequest { node_key: 2, parent_key: 0, sectant: 63 });
    assert_eq!((first, second), (1, 2));
    assert_eq!(cache.render_data.node_children[0], 1);
    // every index is taken; node 1 is not seen, so its index is overwritten
    let (third, update) = cache.add_node(&tree, &NodeUploadRequest { node_key: 3, parent_key: 0, sectant: 1 });
    assert!(!update.allocation_failed);
    assert_eq!(third, 1);
    assert_eq!(cache.meta_index_of(1), None);
    assert_eq!(cache.meta_index_of(3), Some(1));
    assert_eq!(cache.render_data.node_children[0], EMPTY);
    assert_eq!(cache.render_data.node_children[1], 1);
    assert_eq!(cache.render_data.node_children[63], 2);
}

#[test]
fn the_last_victim_is_not_taken_again() {
    let mut tree: BoxTree = BoxTree::new(32, 2).ok().unwrap();
    tree.insert(&V3c::new(0, 0, 0), &red()).unwrap();
    tree.insert(&V3c::new(31, 31, 31), &red()).unwrap();
    let mut cache = BoxTreeGPUDataHandler::new(2, 4, false);
    cache.see_node(0);
    cache.add_node(&tree, &root_request());
    cache.add_node(&tree, &NodeUploadRequest { node_key: 1, parent_key: 0, sectant: 0 });
    let (index, update) = cache.add_node(&tree, &NodeUploadRequest { node_key: 2, parent_key: 0, sectant: 63 });
    assert!(update.allocation_failed);
    assert_eq!(index, 0);
    assert_eq!(cache.meta_index_of(1), Some(1));
}

#[test]
fn recalculated_mips_of_an_empty_tree_stay_empty() {
    let mut tree: BoxTree = BoxTree::new(8, 2).ok().unwrap();
    tree.albedo_mip_map_resampling_strategy().recalculate_mips();
    tree.albedo_mip_map_resampling_strategy().switch_albedo_mip_maps(true);
    for x in 0..2 {
        for y in 0..2 {
            for z in 0..2 {
                assert!(tree
                    .albedo_mip_map_resampling_strategy()
                    .sample_root_mip(OOB_SECTANT, &V3c::new(x, y, z))
                    .albedo()
                    .is_none());
            }
        }
    }
}

#[test]
fn node_upload_passes_over_cached_nodes() {
    let mut tree: BoxTree = BoxTree::new(32, 2).ok().unwrap();
    tree.insert(&V3c::new(0, 0, 0), &red()).unwrap();
    tree.insert(&V3c::new(31, 31, 31), &red()).unwrap();
    let mut cache = BoxTreeGPUDataHandler::new(4, 4, false);
    cache.see_node(0);
    let queue = vec![
        root_request(),
        NodeUploadRequest { node_key: 1, parent_key: 0, sectant: 0 },
        NodeUploadRequest { node_key: 2, parent_key: 0, sectant: 63 },
    ];
    match cache.next_node_upload(&tree, &queue, 0) {
        (0, NodeUploadStep::UploadNode(q)) => assert_eq!(q.node_key, 0),
        _ => panic!("the root comes first"),
    }
    cache.add_node(&tree, &queue[0]);
    cache.add_node(&tree, &queue[1]);
    match cache.next_node_upload(&tree, &queue, 0) {
        (2, NodeUploadStep::UploadNode(q)) => assert_eq!(q.node_key, 2),
        _ => panic!("the cached nodes are passed over"),
    }
    cache.add_node(&tree, &queue[2]);
    assert!(matches!(cache.next_node_upload(&tree, &queue, 0), (3, NodeUploadStep::Done)));
}

#[test]
fn brick_upload_waits_for_its_node() {
    let mut tree: BoxTree = BoxTree::new(8, 2).ok().unwrap();
    tree.insert(&V3c::new(0, 0, 0), &red()).unwrap();
    tree.insert(&V3c::new(2, 0, 0), &red()).unwrap();
    let mut cache = BoxTreeGPUDataHandler::new(4, 4, false);
    let queue = vec![BrickOwnedBy::NodeAsChild(0, 0), BrickOwnedBy::NodeAsChild(0, 1)];
    assert_eq!(cache.next_brick_upload(&queue, 0), None);
    cache.add_node(&tree, &root_request());
    assert_eq!(cache.next_brick_upload(&queue, 0), None);
    cache.see_node(0);
    assert_eq!(cache.next_brick_upload(&queue, 0), Some(0));
    cache.add_brick(&tree, 0, BrickUploadRequest { ownership: queue[0] });
    assert_eq!(cache.next_brick_upload(&queue, 0), Some(1));
    assert_eq!(cache.next_brick_upload(&queue, 2), None);
}

#[test]
fn palette_range_covers_the_new_colors() {
    let mut cache = BoxTreeGPUDataHandler::new(4, 4, false);
    assert_eq!(cache.palette_upload_range(5), (0, 5));
    assert_eq!(cache.palette_upload_range(5), (5, 5));
    assert_eq!(cache.palette_upload_range(9), (5, 9));
}

#[test]
fn mip_feature_change_gives_the_new_properties() {
    let mut tree: BoxTree = BoxTree::new(8, 2).ok().unwrap();
    let mut cache = BoxTreeGPUDataHandler::new(4, 4, false);
    assert_eq!(cache.mip_feature_update(&tree), None);
    tree.albedo_mip_map_resampling_strategy().switch_albedo_mip_maps(true);
    assert_eq!(cache.mip_feature_update(&tree), Some(2 | (1 << 16)));
    assert!(cache.render_data.mips_enabled);
    assert_eq!(cache.mip_feature_update(&tree), None);
}

#[test]
fn unseen_parent_is_fine_while_its_index_is_not_taken() {
    let mut tree: BoxTree = BoxTree::new(32, 2).ok().unwrap();
    tree.insert(&V3c::new(0, 0, 0), &red()).unwrap();
    let mut cache = BoxTreeGPUDataHandler::new(4, 4, false);
    assert!(cache.can_add_node(&tree, &root_request()));
    cache.add_node(&tree, &root_request());
    let request = NodeUploadRequest { node_key: 1, parent_key: 0, sectant: 0 };
    assert!(cache.can_add_node(&tree, &request));
    let (index, update) = cache.add_node(&tree, &request);
    assert!(!update.allocation_failed);
    assert_eq!(index, 1);
    assert_eq!(cache.render_data.node_children[0], 1);
}

#[test]
fn node_cannot_take_the_index_of_its_own_parent() {
    let mut tree: BoxTree = BoxTree::new(32, 2).ok().unwrap();
    tree.insert(&V3c::new(0, 0, 0), &red()).unwrap();
    tree.insert(&V3c::new(31, 31, 31), &red()).unwrap();
    let mut cache = BoxTreeGPUDataHandler::new(2, 4, false);
    cache.add_node(&tree, &root_request());
    cache.add_node(&tree, &NodeUploadRequest { node_key: 1, parent_key: 0, sectant: 0 });
    // the next free index is 0, where the unseen parent sits
    assert!(!cache.can_add_node(&tree, &NodeUploadRequest { node_key: 2, parent_key: 0, sectant: 63 }));
    // a parent that is seen keeps its index
    cache.see_node(0);
    assert!(cache.can_add_node(&tree, &NodeUploadRequest { node_key: 2, parent_key: 0, sectant: 63 }));
}

#[test]
fn node_requests_outside_the_cache_are_refused() {
    let mut tree: BoxTree = BoxTree::new(32, 2).ok().unwrap();
    tree.insert(&V3c::new(0, 0, 0), &red()).unwrap();
    let cache = BoxTreeGPUDataHandler::new(4, 4, false);
    // the parent is not in the cache yet
    assert!(!cache.can_add_node(&tree, &NodeUploadRequest { node_key: 1, parent_key: 0, sectant: 0 }));
    // no such node in the tree
    assert!(!cache.can_add_node(&tree, &NodeUploadRequest { node_key: 9, parent_key: 0, sectant: 0 }));
}

#[test]
fn brick_requests_are_checked_before_writing() {
    let mut tree: BoxTree = BoxTree::new(8, 2).ok().unwrap();
    tree.insert(&V3c::new(0, 0, 0), &red()).unwrap();
    let mut cache = BoxTreeGPUDataHandler::new(4, 4, false);
    let request = BrickUploadRequest { ownership: BrickOwnedBy::NodeAsChild(0, 0) };
    // the owner is not in the cache yet
    assert!(!cache.can_add_brick(&tree, 0, &request));
    cache.add_node(&tree, &root_request());
    assert!(cache.can_add_brick(&tree, 0, &request));
    assert!(!cache.can_add_brick(&tree, 0, &BrickUploadRequest { ownership: BrickOwnedBy::Unowned }));
    assert!(cache.can_add_brick(&tree, 0, &BrickUploadRequest { ownership: BrickOwnedBy::NodeAsChild(0, 9) }));
    assert_eq!(cache.uploaded_color_count(), 0);
}

#[test]
fn write_ranges_cover_the_modified_nodes() {
    let mut ranges = WriteRanges::none();
    assert_eq!(ranges.metadata, WriteRange { start: usize::MAX, end: 0 });
    ranges.note_modified_nodes(&vec![9, 3]);
    assert_eq!(ranges.metadata, WriteRange { start: 0, end: 2 });
    assert_eq!(ranges.children, WriteRange { start: 192, end: 640 });
    assert_eq!(ranges.mips, WriteRange { start: 3, end: 10 });
    ranges.note_modified_nodes(&vec![20]);
    assert_eq!(ranges.metadata, WriteRange { start: 0, end: 3 });
    assert_eq!(ranges.mips, WriteRange { start: 3, end: 21 });
    assert_eq!(ranges.ocbits, WriteRange { start: usize::MAX, end: 0 });
    ranges.note_new_node(5);
    assert_eq!(ranges.ocbits, WriteRange { start: 10, end: 12 });
}

#[test]
fn frame_plan_writes_nodes_then_bricks() {
    let mut tree: BoxTree = BoxTree::new(32, 2).ok().unwrap();
    tree.insert(&V3c::new(0, 0, 0), &red()).unwrap();
    let mut cache = BoxTreeGPUDataHandler::new(4, 4, false);
    cache.see_node(0);
    cache.see_node(1);
    let nodes = vec![root_request(), NodeUploadRequest { node_key: 1, parent_key: 0, sectant: 0 }];
    let bricks = vec![BrickOwnedBy::NodeAsChild(1, 0)];
    let plan = cache.start_frame(nodes.len(), 0, 0);
    assert_eq!((plan.node_budget, plan.brick_budget), (2, 4));
    let (plan, action) = cache.plan_step(&tree, &nodes, &bricks, plan);
    assert!(matches!(action, UploadAction::WriteNode(q) if q.node_key == 0));
    cache.add_node(&tree, &nodes[0]);
    let (plan, action) = cache.plan_step(&tree, &nodes, &bricks, plan);
    assert!(matches!(action, UploadAction::WriteNode(q) if q.node_key == 1));
    cache.add_node(&tree, &nodes[1]);
    assert_eq!((plan.node_progress, plan.node_budget), (2, 0));
    let (plan, action) = cache.plan_step(&tree, &nodes, &bricks, plan);
    assert!(matches!(action, UploadAction::WriteBrick(0)));
    assert_eq!((plan.brick_progress, plan.brick_budget), (1, 3));
    let (_, action) = cache.plan_step(&tree, &nodes, &bricks, plan);
    assert!(matches!(action, UploadAction::Finished));
}

#[test]
fn robbed_index_lists_the_cut_parent_child_and_new_parent() {
    let mut tree: BoxTree = BoxTree::new(32, 2).ok().unwrap();
    tree.insert(&V3c::new(0, 0, 0), &red()).unwrap();
    tree.insert(&V3c::new(31, 31, 31), &red()).unwrap();
    tree.insert(&V3c::new(8, 0, 0), &red()).unwrap();
    let mut cache = BoxTreeGPUDataHandler::new(3, 4, false);
    cache.see_node(0);
    cache.add_node(&tree, &root_request());
    cache.add_node(&tree, &NodeUploadRequest { node_key: 1, parent_key: 0, sectant: 0 });
    cache.add_node(&tree, &NodeUploadRequest { node_key: 2, parent_key: 0, sectant: 63 });
    let (index, update) = cache.add_node(&tree, &NodeUploadRequest { node_key: 3, parent_key: 0, sectant: 1 });
    assert_eq!(index, 1);
    // the root loses its child at sectant 0, index 1 is rewritten, and the root gains sectant 1
    assert_eq!(update.modified_nodes, vec![0, 1, 0]);
    assert_eq!(cache.render_data.node_children[0], EMPTY);
    assert_eq!(cache.render_data.node_children[1], 1);
    assert_eq!(cache.render_data.node_children[63], 2);
}

#[test]
fn slot_standing_follows_the_owner() {
    let mut tree: BoxTree = BoxTree::new(8, 2).ok().unwrap();
    tree.insert(&V3c::new(0, 0, 0), &red()).unwrap();
    let mut cache = BoxTreeGPUDataHandler::new(4, 4, false);
    assert_eq!(cache.brick_slot_standing(3), SlotStanding::Free);
    cache.add_node(&tree, &root_request());
    cache.add_brick(&tree, 3, BrickUploadRequest { ownership: BrickOwnedBy::NodeAsChild(0, 0) });
    assert_eq!(cache.brick_slot_standing(3), SlotStanding::LeafBrick);
    assert_eq!(cache.brick_slot_standing(2), SlotStanding::Free);
}

#[test]
fn slot_taken_from_another_leaf_keeps_other_entries() {
    let mut tree: BoxTree = BoxTree::new(8, 2).ok().unwrap();
    tree.insert(&V3c::new(0, 0, 0), &red()).unwrap();
    tree.insert(&V3c::new(2, 0, 0), &red()).unwrap();
    tree.insert(&V3c::new(4, 0, 0), &red()).unwrap();
    let mut cache = BoxTreeGPUDataHandler::new(4, 4, false);
    cache.add_node(&tree, &root_request());
    cache.add_brick(&tree, 3, BrickUploadRequest { ownership: BrickOwnedBy::NodeAsChild(0, 0) });
    cache.add_brick(&tree, 1, BrickUploadRequest { ownership: BrickOwnedBy::NodeAsChild(0, 1) });
    let update = cache.add_brick(&tree, 3, BrickUploadRequest { ownership: BrickOwnedBy::NodeAsChild(0, 2) });
    assert_eq!(update.modified_nodes, vec![0, 0]);
    assert_eq!(cache.render_data.node_children[0], EMPTY);
    assert_eq!(cache.render_data.node_children[1], 1);
    assert_eq!(cache.render_data.node_children[2], 3);
    assert_eq!(cache.brick_owner_at(1), BrickOwnedBy::NodeAsChild(0, 1));
    assert_eq!(cache.brick_owner_at(3), BrickOwnedBy::NodeAsChild(0, 2));
}

#[test]
fn tree_descriptor_holds_size_and_properties() {
    let mut tree: BoxTree = BoxTree::new(64, 4).ok().unwrap();
    let meta = BoxTreeMetaData::of_tree(&tree);
    assert_eq!(meta.boxtree_size, 64);
    assert_eq!(meta.tree_properties, 4);
    tree.albedo_mip_map_resampling_strategy().switch_albedo_mip_maps(true);
    assert_eq!(BoxTreeMetaData::of_tree(&tree).tree_properties, 4 | 0x1_0000);
}

#[test]
fn view_path_descends_to_the_smallest_covering_node() {
    let mut tree: BoxTree = BoxTree::new(32, 2).ok().unwrap();
    tree.insert(&V3c::new(0, 0, 0), &red()).unwrap();
    let (path, parent) = center_node_path(&tree, V3c::new(0, 0, 0), V3c::new(3, 3, 3), V3c::new(1, 1, 1), 3);
    assert_eq!(path.len(), 2);
    assert_eq!(parent.map(|(k, b, d)| (k, b.size, d)), Some((0, 32, 0)));
    assert_eq!((path[0].node_key, path[0].parent_key, path[0].sectant), (0, 0, 0));
    assert_eq!((path[1].node_key, path[1].parent_key, path[1].sectant), (1, 0, 0));
    // children no larger than the view distance are not descended into
    let (short, none) = center_node_path(&tree, V3c::new(0, 0, 0), V3c::new(8, 8, 8), V3c::new(4, 4, 4), 8);
    assert_eq!(short.len(), 1);
    assert!(none.is_none());
    // a view reaching the far edge of the tree is covered by the root only
    let (edge, _) = center_node_path(&tree, V3c::new(29, 29, 29), V3c::new(32, 32, 32), V3c::new(30, 30, 30), 3);
    assert_eq!(edge.len(), 1);
    // no node holds the view's center: the path stops at the root
    let (empty, _) = center_node_path(&tree, V3c::new(16, 16, 16), V3c::new(19, 19, 19), V3c::new(17, 17, 17), 3);
    assert_eq!(empty.len(), 1);
}

#[test]
fn rebuilt_queues_hold_the_path_and_the_bricks_in_view() {
    let mut tree: BoxTree = BoxTree::new(32, 2).ok().unwrap();
    tree.insert(&V3c::new(0, 0, 0), &red()).unwrap();
    tree.insert(&V3c::new(2, 0, 0), &red()).unwrap();
    let mut cache = BoxTreeGPUDataHandler::new(4, 4, false);
    let levels = vec![
        (V3c::new(0, 0, 0), 0),
        (V3c::new(0, 0, 0), 3),
        (V3c::new(0, 0, 0), 12),
    ];
    let (nodes, bricks) = cache.rebuild(
        &tree,
        V3c::new(0, 0, 0),
        V3c::new(3, 3, 3),
        V3c::new(1, 1, 1),
        3,
        &levels,
        2,
        1,
    );
    // the path: root, then node 1; the walk below the root queues node 1 again, then its bricks
    let keys: Vec<usize> = nodes.iter().map(|r| r.node_key).collect();
    assert_eq!(keys, vec![0, 1, 1]);
    assert_eq!((nodes[2].parent_key, nodes[2].sectant), (0, 0));
    let owners: Vec<BrickOwnedBy> = bricks.iter().map(|(o, _)| *o).collect();
    assert_eq!(owners, vec![BrickOwnedBy::NodeAsChild(1, 0), BrickOwnedBy::NodeAsChild(1, 1)]);
    assert_eq!((bricks[1].1.x, bricks[1].1.y, bricks[1].1.z), (2, 0, 0));
    assert!(cache.is_seen(0) && cache.is_seen(1));
    assert!(!cache.is_seen(2));
}
