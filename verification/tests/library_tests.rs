use voxelhex::boxtree::resample::{box_filter, isqrt_small, point_filter, posterize, resample, round_sqrt_small};
use voxelhex::boxtree::{pix_visual, Albedo, BoxTree, MIPMapStrategy, MIPResamplingMethods, OctreeError, V3c};
use voxelhex::raytracing::{boxtree_properties, inject_node_properties};
use voxelhex::spatial::{flat_projection, matrix_index_for, Cube};

fn rgba(r: u8, g: u8, b: u8, a: u8) -> Albedo {
    Albedo::from(0u32).with_red(r).with_green(g).with_blue(b).with_alpha(a)
}

#[test]
fn construction_errors_name_the_bad_parameter() {
    assert_eq!(BoxTree::<u32>::new(0, 1).err(), Some(OctreeError::InvalidBrickDimension(1)));
    assert_eq!(BoxTree::<u32>::new(16, 3).err(), Some(OctreeError::InvalidBrickDimension(3)));
    assert_eq!(BoxTree::<u32>::new(4, 8).err(), Some(OctreeError::InvalidSize(4)));
    assert_eq!(BoxTree::<u32>::new(12, 2).err(), Some(OctreeError::InvalidSize(12)));
    assert_eq!(
        BoxTree::<u32>::new(2, 2).err(),
        Some(OctreeError::InvalidStructure(
            "Octree size must be larger, than BOX_NODE_DIMENSION * brick dimension".to_string()
        ))
    );
    assert!(BoxTree::<u32>::new(8, 2).is_ok());
    assert!(BoxTree::<u32>::new(4, 1).is_ok());
}

#[test]
fn new_tree_is_empty() {
    let tree: BoxTree = BoxTree::new(32, 2).ok().unwrap();
    assert_eq!(tree.get_size(), 32);
    assert!(tree.get(&V3c::new(0, 0, 0)).is_none());
    assert!(tree.get(&V3c::new(31, 31, 31)).is_none());
    assert!(tree.get(&V3c::new(32, 0, 0)).is_none());
}

#[test]
fn insert_then_get_reads_back_the_color() {
    let mut tree: BoxTree = BoxTree::new(32, 2).ok().unwrap();
    let c = rgba(10, 20, 30, 255);
    let d = rgba(1, 2, 3, 4);
    tree.insert(&V3c::new(5, 6, 7), &c).unwrap();
    tree.insert(&V3c::new(31, 0, 17), &d).unwrap();
    assert_eq!(tree.get(&V3c::new(5, 6, 7)).albedo(), Some(&c));
    assert_eq!(tree.get(&V3c::new(31, 0, 17)).albedo(), Some(&d));
    assert!(tree.get(&V3c::new(5, 6, 7)).data().is_none());
    assert!(tree.get(&V3c::new(5, 6, 6)).is_none());
    tree.insert(&V3c::new(5, 6, 7), &d).unwrap();
    assert_eq!(tree.get(&V3c::new(5, 6, 7)).albedo(), Some(&d));
}

#[test]
fn transparent_insert_clears_the_voxel() {
    let mut tree: BoxTree = BoxTree::new(8, 2).ok().unwrap();
    tree.insert(&V3c::new(1, 1, 1), &rgba(9, 9, 9, 255)).unwrap();
    tree.insert(&V3c::new(1, 1, 1), &rgba(9, 9, 9, 0)).unwrap();
    assert!(tree.get(&V3c::new(1, 1, 1)).is_none());
}

#[test]
fn insert_outside_the_tree_is_refused() {
    let mut tree: BoxTree = BoxTree::new(8, 2).ok().unwrap();
    assert_eq!(
        tree.insert(&V3c::new(8, 0, 0), &rgba(1, 1, 1, 255)),
        Err(OctreeError::InvalidPosition { x: 8, y: 0, z: 0 })
    );
    assert!(tree.get(&V3c::new(7, 0, 0)).is_none());
}

#[test]
fn strategy_settings_read_back() {
    let s = MIPMapStrategy::default();
    assert!(!s.is_enabled());
    assert_eq!(s.get_method_at(1), MIPResamplingMethods::Posterize(50));
    assert_eq!(s.get_method_at(9), MIPResamplingMethods::BoxFilter);
    assert_eq!(s.get_new_color_similarity_at(2), 100);
    assert_eq!(s.get_new_color_similarity_at(1), 0);
    let s = s
        .set_enabled(true)
        .set_method_at(3, MIPResamplingMethods::Posterize(5000))
        .set_color_similarity_thr_at(7, 2000)
        .set_method(vec![(5, MIPResamplingMethods::PointFilter), (5, MIPResamplingMethods::PointFilterBD)])
        .set_color_similarity_thr(vec![(6, 12)]);
    assert!(s.is_enabled());
    assert_eq!(s.get_method_at(3), MIPResamplingMethods::Posterize(1000));
    assert_eq!(s.get_new_color_similarity_at(7), 1000);
    assert_eq!(s.get_method_at(5), MIPResamplingMethods::PointFilterBD);
    assert_eq!(s.get_new_color_similarity_at(6), 12);
}

#[test]
fn square_roots_of_small_numbers() {
    assert_eq!(isqrt_small(0), 0);
    assert_eq!(isqrt_small(10), 3);
    assert_eq!(isqrt_small(65025), 255);
    assert_eq!(round_sqrt_small(12), 3);
    assert_eq!(round_sqrt_small(13), 4);
    assert_eq!(round_sqrt_small(32512), 180);
}

#[test]
fn box_filter_gives_the_gamma_corrected_mean() {
    let red = rgba(255, 0, 0, 255);
    let green = rgba(0, 255, 0, 255);
    assert_eq!(box_filter(&vec![Some(red), Some(green)]), Some(rgba(180, 180, 0, 255)));
    assert_eq!(box_filter(&vec![None, Some(red), None]), Some(red));
    assert_eq!(box_filter(&vec![None, None]), None);
    assert_eq!(box_filter(&vec![]), None);
}

#[test]
fn point_filter_gives_the_most_frequent_color() {
    let red = rgba(255, 0, 0, 255);
    let green = rgba(0, 255, 0, 255);
    assert_eq!(point_filter(&vec![Some(red), Some(green), None, Some(green)]), Some(green));
    assert_eq!(point_filter(&vec![None]), None);
}

#[test]
fn posterize_groups_close_colors() {
    let red = rgba(255, 0, 0, 255);
    let near = rgba(250, 0, 0, 255);
    let blue = rgba(0, 0, 255, 255);
    assert_eq!(posterize(&vec![Some(red), Some(red), Some(blue)], 50), Some(red));
    assert_eq!(posterize(&vec![Some(near), Some(red), Some(blue)], 50), Some(rgba(253, 0, 0, 255)));
    assert_eq!(posterize(&vec![Some(blue), Some(near), Some(red)], 0), Some(blue));
    assert_eq!(posterize(&vec![None], 50), None);
    assert_eq!(resample(MIPResamplingMethods::BoxFilter, &vec![Some(red), Some(blue)]), Some(rgba(180, 0, 180, 255)));
}

#[test]
fn renderer_properties_word() {
    let mut tree: BoxTree = BoxTree::new(8, 2).ok().unwrap();
    assert_eq!(boxtree_properties(&tree), 2);
    tree.albedo_mip_map_resampling_strategy().switch_albedo_mip_maps(true);
    assert_eq!(boxtree_properties(&tree), 2 | (1 << 16));
}

#[test]
fn node_type_bits_are_written_in_place() {
    let mut tree: BoxTree = BoxTree::new(8, 2).ok().unwrap();
    let mut meta = vec![0xFFFF_FFFFu32, 7];
    inject_node_properties(&mut meta, 3, &tree, 0);
    assert_eq!(meta, vec![0xFFFF_FFFF & !(1 << 3) & !(1 << 11), 7]);
    tree.insert(&V3c::new(0, 0, 0), &rgba(1, 2, 3, 255)).unwrap();
    let mut meta = vec![0u32, 0];
    inject_node_properties(&mut meta, 9, &tree, 0);
    assert_eq!(meta, vec![0, 1 << 1]);
}

#[test]
fn cube_helpers() {
    let root = Cube::root_bounds(8);
    assert!(root.contains(&V3c::new(7, 0, 3)));
    assert!(!root.contains(&V3c::new(8, 0, 3)));
    assert_eq!(root.sectant_for(&V3c::new(7, 7, 7)), 63);
    assert_eq!(root.sectant_for(&V3c::new(2, 0, 4)), 1 + 32);
    let child = root.child_bounds_for(63);
    assert_eq!(child.min_position, V3c::new(6, 6, 6));
    assert_eq!(child.size, 2);
    assert_eq!(flat_projection(1, 2, 3, 4), 1 + 8 + 48);
    assert_eq!(matrix_index_for(&root, &V3c::new(7, 3, 0), 2), V3c::new(1, 0, 0));
    assert_eq!(pix_visual(3), (3 << 16) | 0xFFFF);
}

#[test]
fn albedo_helpers() {
    let c = Albedo::from(0x11223344);
    assert_eq!((c.r, c.g, c.b, c.a), (0x11, 0x22, 0x33, 0x44));
    assert_eq!(c, rgba(0x11, 0x22, 0x33, 0x44));
    assert!(!c.is_transparent());
    assert!(c.with_alpha(0).is_transparent());
    assert_eq!(rgba(0, 0, 0, 0).distance_sq_from(&rgba(3, 4, 0, 0)), 25);
    assert_eq!(rgba(255, 255, 255, 255).distance_sq_from(&rgba(0, 0, 0, 0)), 4 * 255 * 255);
}

#[test]
fn mips_switched_on_later_cover_the_root_children() {
    let red = rgba(255, 0, 0, 255);
    let mut tree: BoxTree = BoxTree::new(32, 2).ok().unwrap();
    tree.insert(&V3c::new(0, 0, 0), &red).unwrap();
    tree.insert(&V3c::new(1, 0, 0), &red).unwrap();
    tree.albedo_mip_map_resampling_strategy().switch_albedo_mip_maps(true);
    let mut strategy = tree.albedo_mip_map_resampling_strategy();
    assert_eq!(strategy.sample_root_mip(0, &V3c::new(0, 0, 0)).albedo(), Some(&red));
    assert!(strategy.sample_root_mip(0, &V3c::new(1, 0, 0)).albedo().is_none());
    assert!(strategy.sample_root_mip(1, &V3c::new(0, 0, 0)).albedo().is_none());
    assert_eq!(strategy.sample_root_mip(64, &V3c::new(0, 0, 0)).albedo(), Some(&red));
    strategy.recalculate_mips();
    assert_eq!(strategy.sample_root_mip(0, &V3c::new(0, 0, 0)).albedo(), Some(&red));
}

#[test]
fn inserting_with_mips_on_updates_the_cells_on_the_path() {
    let red = rgba(255, 0, 0, 255);
    let blue = rgba(0, 0, 255, 255);
    let mut tree: BoxTree = BoxTree::new(32, 2).ok().unwrap();
    tree.albedo_mip_map_resampling_strategy().switch_albedo_mip_maps(true);
    tree.insert(&V3c::new(9, 0, 0), &blue).unwrap();
    let strategy = tree.albedo_mip_map_resampling_strategy();
    assert_eq!(strategy.sample_root_mip(1, &V3c::new(0, 0, 0)).albedo(), Some(&blue));
    assert!(strategy.sample_root_mip(0, &V3c::new(0, 0, 0)).albedo().is_none());
    tree.insert(&V3c::new(0, 0, 0), &red).unwrap();
    let strategy = tree.albedo_mip_map_resampling_strategy();
    assert_eq!(strategy.sample_root_mip(0, &V3c::new(0, 0, 0)).albedo(), Some(&red));
    assert_eq!(strategy.sample_root_mip(1, &V3c::new(0, 0, 0)).albedo(), Some(&blue));
}

#[test]
fn single_colored_region_resamples_to_its_color() {
    let red = rgba(255, 0, 0, 255);
    let odd = rgba(7, 200, 13, 99);
    for method in [
        MIPResamplingMethods::BoxFilter,
        MIPResamplingMethods::PointFilter,
        MIPResamplingMethods::PointFilterBD,
        MIPResamplingMethods::Posterize(0),
        MIPResamplingMethods::Posterize(100),
        MIPResamplingMethods::PosterizeBD(1000),
    ] {
        assert_eq!(resample(method, &vec![None, Some(red), Some(red), None]), Some(red));
        assert_eq!(resample(method, &vec![Some(odd); 5]), Some(odd));
    }
}

#[test]
fn size_stays_over_inserts_and_strategy_changes() {
    let mut tree: BoxTree = BoxTree::new(32, 2).ok().unwrap();
    assert_eq!(tree.get_size(), 32);
    tree.insert(&V3c::new(1, 2, 3), &Albedo::from(0xFF0000FF)).unwrap();
    assert_eq!(tree.get_size(), 32);
    tree.albedo_mip_map_resampling_strategy().set_method_at(1, MIPResamplingMethods::PointFilter);
    assert_eq!(tree.get_size(), 32);
    tree.albedo_mip_map_resampling_strategy().switch_albedo_mip_maps(true);
    assert_eq!(tree.get_size(), 32);
    tree.insert(&V3c::new(31, 31, 31), &Albedo::from(0x00FF00FF)).unwrap();
    tree.albedo_mip_map_resampling_strategy().reset();
    assert_eq!(tree.get_size(), 32);
}
