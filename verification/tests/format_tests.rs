use voxelhex::boxtree::{Albedo, BoxTree, MIPResamplingMethods, V3c};
use voxelhex::{parse_version, version, Version};

fn sample_tree() -> BoxTree {
    let mut tree: BoxTree = BoxTree::new(8, 2).ok().unwrap();
    tree.insert(&V3c::new(0, 0, 0), &Albedo::from(0xFF0000FF)).unwrap();
    tree.insert(&V3c::new(1, 0, 0), &Albedo::from(0x00FF00FF)).unwrap();
    tree.insert(&V3c::new(7, 7, 7), &Albedo::from(0x0000FFFF)).unwrap();
    tree.insert(&V3c::new(3, 5, 2), &Albedo::from(0xFF0000FF)).unwrap();
    tree
}

fn all_positions(size: u32) -> Vec<V3c<u32>> {
    let mut v = Vec::new();
    for x in 0..size {
        for y in 0..size {
            for z in 0..size {
                v.push(V3c::new(x, y, z));
            }
        }
    }
    v
}

#[test]
fn library_version_is_0_1_0() {
    let v = version();
    assert_eq!(v.major(), 0);
    assert_eq!(v.minor(), 1);
    assert_eq!(v.patch(), 0);
}

#[test]
fn version_text_is_read_by_parts() {
    let v = parse_version("1.22.333").unwrap();
    assert_eq!((v.major(), v.minor(), v.patch()), (1, 22, 333));
    let v = parse_version("0.1.0").unwrap();
    assert_eq!(v, Version::new(0, 1, 0));
    let v = parse_version("1.2.3.4").unwrap();
    assert_eq!(v, Version::new(1, 2, 3));
    let v = parse_version("+7.08.9").unwrap();
    assert_eq!(v, Version::new(7, 8, 9));
}

#[test]
fn malformed_version_text_is_refused() {
    assert!(parse_version("").is_none());
    assert!(parse_version("1.2").is_none());
    assert!(parse_version("a.b.c").is_none());
    assert!(parse_version("1..3").is_none());
    assert!(parse_version("4294967296.0.0").is_none());
}

#[test]
fn compatibility_accepts_earlier_patches_only() {
    let lib = Version::new(0, 1, 2);
    assert!(lib.compatible(&Version::new(0, 1, 0)));
    assert!(lib.compatible(&Version::new(0, 1, 2)));
    assert!(!lib.compatible(&Version::new(0, 1, 3)));
    assert!(!lib.compatible(&Version::new(0, 2, 0)));
    assert!(!lib.compatible(&Version::new(1, 1, 0)));
    assert!(!Version::new(0, 1, 0).compatible(&lib));
}

#[test]
fn bytes_are_a_bencoded_list_starting_with_the_version() {
    let tree = sample_tree();
    let bytes = tree.to_bytes();
    assert_eq!(bytes[0], b'l');
    assert_eq!(*bytes.last().unwrap(), b'e');
    assert!(bytes.starts_with(b"li0ei1ei0ei8ei2ei1e"));
}

#[test]
fn tree_read_back_holds_the_same_voxels() {
    let tree = sample_tree();
    let bytes = tree.to_bytes();
    let back = BoxTree::from_bytes(bytes.clone()).expect("valid bytes");
    assert_eq!(back.get_size(), 8);
    for p in all_positions(8) {
        assert_eq!(tree.get(&p).albedo(), back.get(&p).albedo());
    }
    assert_eq!(back.get(&V3c::new(7, 7, 7)).albedo(), Some(&Albedo::from(0x0000FFFF)));
    assert_eq!(back.get(&V3c::new(6, 7, 7)).albedo(), None);
    assert_eq!(back.to_bytes(), bytes);
}

#[test]
fn empty_tree_reads_back() {
    let tree: BoxTree = BoxTree::new(32, 2).ok().unwrap();
    let back = BoxTree::from_bytes(tree.to_bytes()).expect("valid bytes");
    assert_eq!(back.get_size(), 32);
    assert!(back.get(&V3c::new(0, 0, 0)).is_none());
    assert_eq!(back.to_bytes(), tree.to_bytes());
}

#[test]
fn strategy_reads_back() {
    let mut tree: BoxTree = BoxTree::new(8, 2).ok().unwrap();
    tree.albedo_mip_map_resampling_strategy()
        .switch_albedo_mip_maps(true)
        .set_method_at(1, MIPResamplingMethods::PointFilter)
        .set_color_similarity_thr_at(3, 70);
    let back = BoxTree::from_bytes(tree.to_bytes()).expect("valid bytes");
    let mut back = back;
    let s = back.albedo_mip_map_resampling_strategy();
    assert_eq!(s.get_method_at(1), MIPResamplingMethods::PointFilter);
    assert_eq!(s.get_method_at(2), MIPResamplingMethods::BoxFilter);
    assert_eq!(s.get_new_color_similarity_at(3), 70);
    assert_eq!(s.get_new_color_similarity_at(5), 0);
}

#[test]
fn trailing_bytes_are_not_read() {
    let tree = sample_tree();
    let mut bytes = tree.to_bytes();
    bytes.extend_from_slice(b"i42e");
    let back = BoxTree::from_bytes(bytes).expect("valid bytes");
    assert_eq!(back.get(&V3c::new(0, 0, 0)).albedo(), Some(&Albedo::from(0xFF0000FF)));
}

#[test]
fn invalid_bytes_give_no_tree() {
    assert!(BoxTree::from_bytes(Vec::new()).is_none());
    assert!(BoxTree::from_bytes(b"le".to_vec()).is_none());
    assert!(BoxTree::from_bytes(b"hello".to_vec()).is_none());
    let bytes = sample_tree().to_bytes();
    let truncated = bytes[..bytes.len() - 1].to_vec();
    assert!(BoxTree::from_bytes(truncated).is_none());
}

#[test]
fn tree_of_another_version_is_refused() {
    let bytes = sample_tree().to_bytes();
    let mut other = b"li0ei2ei0e".to_vec();
    other.extend_from_slice(&bytes[b"li0ei1ei0e".len()..]);
    assert!(BoxTree::from_bytes(other.clone()).is_none());
    let v = BoxTree::parse_version(&other).unwrap();
    assert_eq!((v.major(), v.minor(), v.patch()), (0, 2, 0));
}

#[test]
fn version_is_read_from_the_bytes() {
    let v = BoxTree::parse_version(&sample_tree().to_bytes()).unwrap();
    assert_eq!(v, version());
    assert!(BoxTree::parse_version(&b"li1ei2ee".to_vec()).is_none());
    assert!(BoxTree::parse_version(&b"xyz".to_vec()).is_none());
}

#[test]
fn mip_maps_read_back() {
    let mut tree: BoxTree = BoxTree::new(32, 2).ok().unwrap();
    tree.albedo_mip_map_resampling_strategy().switch_albedo_mip_maps(true);
    tree.insert(&V3c::new(0, 0, 0), &Albedo::from(0xFF0000FF)).unwrap();
    tree.insert(&V3c::new(9, 1, 0), &Albedo::from(0x00FF00FF)).unwrap();
    let mut back = BoxTree::from_bytes(tree.to_bytes()).expect("valid bytes");
    for sectant in [0u8, 1, 2, 64] {
        for x in 0..2 {
            for y in 0..2 {
                for z in 0..2 {
                    let p = V3c::new(x, y, z);
                    let a = tree.albedo_mip_map_resampling_strategy().sample_root_mip(sectant, &p).albedo().copied();
                    let b = back.albedo_mip_map_resampling_strategy().sample_root_mip(sectant, &p).albedo().copied();
                    assert_eq!(a, b);
                }
            }
        }
    }
    assert_eq!(
        back.albedo_mip_map_resampling_strategy().sample_root_mip(1, &V3c::new(0, 0, 0)).albedo(),
        Some(&Albedo::from(0x00FF00FF))
    );
}

#[test]
fn tree_with_large_bricks_reads_back() {
    let tree: BoxTree = BoxTree::new(8192, 2048).ok().unwrap();
    let bytes = tree.to_bytes();
    let back = BoxTree::from_bytes(bytes).expect("an empty tree with large bricks reads back");
    assert_eq!(back.get_size(), 8192);
    assert!(back.get(&V3c::new(100, 200, 300)).albedo().is_none());
}
