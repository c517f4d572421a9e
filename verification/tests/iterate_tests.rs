use voxelhex::boxtree::iterate::{execute_for_relevant_sectants, SectantUpdate};
use voxelhex::boxtree::BOX_NODE_DIMENSION;
use voxelhex::spatial::{Cube, V3c};

fn last_cell(u: &SectantUpdate) -> V3c<u32> {
    V3c::new(
        u.position_in_target.x + u.update_size_in_target.x - 1,
        u.position_in_target.y + u.update_size_in_target.y - 1,
        u.position_in_target.z + u.update_size_in_target.z - 1,
    )
}

#[test]
fn test_sectant_execution_aligned_single_within() {
    let confines = Cube::root_bounds(400);
    let update_size = 20;
    let (updates, _) = execute_for_relevant_sectants(&confines, &V3c::unit(0), update_size);
    for u in updates.iter() {
        assert!(confines.contains(&last_cell(u)));
        assert_eq!(u.target_child_sectant, 0);
        assert_eq!(u.target_bounds.min_position, V3c::unit(0));
        assert_eq!(u.update_size_in_target.x, update_size);
        assert_eq!(u.update_size_in_target.y, update_size);
        assert_eq!(u.update_size_in_target.z, update_size);
        assert_eq!(u.target_bounds.size, confines.size / BOX_NODE_DIMENSION as u32);
    }

    let execute_position = V3c::new(100, 0, 0);
    let (updates, _) = execute_for_relevant_sectants(&confines, &execute_position, update_size);
    for u in updates.iter() {
        assert!(confines.contains(&last_cell(u)));
        assert_eq!(u.target_child_sectant, 1);
        assert_eq!(u.target_bounds.min_position, execute_position);
        assert_eq!(u.update_size_in_target.x, update_size);
        assert_eq!(u.update_size_in_target.y, update_size);
        assert_eq!(u.update_size_in_target.z, update_size);
        assert_eq!(u.target_bounds.size, confines.size / BOX_NODE_DIMENSION as u32);
    }
}

#[test]
fn test_sectant_execution_aligned_single_bounds_smaller_position() {
    let confines = Cube {
        min_position: V3c::unit(400),
        size: 400,
    };
    let update_size = 20;
    let (updates, _) = execute_for_relevant_sectants(&confines, &V3c::unit(0), update_size);
    for u in updates.iter() {
        assert!(confines.contains(&last_cell(u)));
        assert_eq!(u.target_child_sectant, 0);
        assert_eq!(u.target_bounds.min_position, V3c::unit(400));
        assert_eq!(u.update_size_in_target.x, update_size);
        assert_eq!(u.update_size_in_target.y, update_size);
        assert_eq!(u.update_size_in_target.z, update_size);
        assert_eq!(u.target_bounds.size, confines.size / BOX_NODE_DIMENSION as u32);
    }

    let execute_position = V3c::new(100, 500, 0);
    let (updates, _) = execute_for_relevant_sectants(&confines, &execute_position, update_size);
    for u in updates.iter() {
        assert!(confines.contains(&last_cell(u)));
        assert_eq!(
            u.target_bounds.min_position,
            V3c::new(
                confines.min_position.x,
                confines.min_position.y + 100,
                confines.min_position.z
            )
        );
        assert_eq!(u.update_size_in_target.x, update_size);
        assert_eq!(u.update_size_in_target.y, update_size);
        assert_eq!(u.update_size_in_target.z, update_size);
        assert_eq!(u.target_bounds.size, confines.size / BOX_NODE_DIMENSION as u32);
    }
}

#[test]
fn test_sectant_execution_single_target_with_smaller_position_aligned() {
    let confines = Cube {
        min_position: V3c::unit(400),
        size: 400,
    };
    let update_size = 450;
    let execute_position = V3c::unit(0);
    let (updates, _) = execute_for_relevant_sectants(&confines, &execute_position, update_size);
    for u in updates.iter() {
        assert!(confines.contains(&last_cell(u)));
        assert_eq!(u.target_child_sectant, 0);
        assert_eq!(u.target_bounds.min_position, confines.min_position);
        assert_eq!(u.target_bounds.size, confines.size / BOX_NODE_DIMENSION as u32);
        assert_eq!(u.update_size_in_target.x, update_size - confines.min_position.x);
        assert_eq!(u.update_size_in_target.y, update_size - confines.min_position.y);
        assert_eq!(u.update_size_in_target.z, update_size - confines.min_position.z);
    }
}

#[test]
fn test_sectant_execution_single_target_with_smaller_position_unaligned() {
    let confines = Cube {
        min_position: V3c::unit(400),
        size: 400,
    };
    let update_size = 450;
    let y_offset_for_unalignment = 100;
    let execute_position = V3c::new(0, y_offset_for_unalignment, 0);
    let (updates, _) = execute_for_relevant_sectants(&confines, &execute_position, update_size);
    for u in updates.iter() {
        assert!(confines.contains(&last_cell(u)));
        assert!(u.target_child_sectant == 0 || u.target_child_sectant == 4);
        assert_eq!(u.target_bounds.size, confines.size / BOX_NODE_DIMENSION as u32);
        assert_eq!(u.update_size_in_target.x, update_size - confines.min_position.x);
        assert!(
            (u.update_size_in_target.y == u.target_bounds.size)
                || u.update_size_in_target.y
                    == ((update_size - confines.min_position.y + y_offset_for_unalignment)
                        % u.target_bounds.size)
        );
        assert_eq!(u.update_size_in_target.z, update_size - confines.min_position.z);
    }
}

#[test]
fn test_sectant_execution_single_target_with_larger_position() {
    let confines = Cube {
        min_position: V3c::unit(400),
        size: 400,
    };
    let update_size = 100;
    let execute_position = V3c::new(0, 1000, 0);
    let (updates, _) = execute_for_relevant_sectants(&confines, &execute_position, update_size);
    for _u in updates.iter() {
        assert!(false);
    }
}

#[test]
fn test_sectant_execution_single_target_out_of_bounds() {
    let confines = Cube::root_bounds(400);
    let update_size = 500;
    let execute_position = V3c::new(300, 300, 300);
    let (updates, _) = execute_for_relevant_sectants(&confines, &execute_position, update_size);
    for u in updates.iter() {
        assert!(confines.contains(&last_cell(u)));
        assert_eq!(u.target_child_sectant, 63);
        assert_eq!(u.target_bounds.min_position, execute_position);
        assert_eq!(u.target_bounds.size, confines.size / BOX_NODE_DIMENSION as u32);
        assert_eq!(u.update_size_in_target.x, u.target_bounds.size);
        assert_eq!(u.update_size_in_target.y, u.target_bounds.size);
        assert_eq!(u.update_size_in_target.z, u.target_bounds.size);
    }
}

#[test]
fn test_sectant_execution_aligned_target_within() {
    let confines = Cube::root_bounds(400);
    let update_size = 400;
    let execute_position = V3c::new(100, 0, 0);
    let mut visited_sectants: Vec<u8> = vec![];
    let (updates, _) = execute_for_relevant_sectants(&confines, &execute_position, update_size);
    for u in updates.iter() {
        assert!(confines.contains(&last_cell(u)));
        assert!(!visited_sectants.contains(&u.target_child_sectant));
        visited_sectants.push(u.target_child_sectant);
        if 1 == u.target_child_sectant {
            assert_eq!(u.target_bounds.min_position, execute_position);
        }
        assert_eq!(u.target_bounds.size, confines.size / BOX_NODE_DIMENSION as u32);
        assert_eq!(u.update_size_in_target.x, u.target_bounds.size);
        assert_eq!(u.update_size_in_target.y, u.target_bounds.size);
        assert_eq!(u.update_size_in_target.z, u.target_bounds.size);
    }
    assert_eq!(
        visited_sectants.len(),
        (BOX_NODE_DIMENSION - 1) * BOX_NODE_DIMENSION * BOX_NODE_DIMENSION
    );
}

#[test]
fn test_sectant_execution_aligned_target_out_of_bounds_smaller_position_larger_size() {
    let confines = Cube {
        min_position: V3c::unit(400),
        size: 400,
    };
    let update_size = 1000;
    let execute_position = V3c::new(500, 0, 0);
    let mut visited_sectants: Vec<u8> = vec![];
    let (updates, _) = execute_for_relevant_sectants(&confines, &execute_position, update_size);
    for u in updates.iter() {
        assert!(confines.contains(&last_cell(u)));
        visited_sectants.push(u.target_child_sectant);
        assert_eq!(u.target_bounds.size, confines.size / BOX_NODE_DIMENSION as u32);
        assert_eq!(u.update_size_in_target.x, u.target_bounds.size);
        assert_eq!(u.update_size_in_target.y, u.target_bounds.size);
        assert_eq!(u.update_size_in_target.z, u.target_bounds.size);
    }
    assert_eq!(
        visited_sectants.len(),
        (BOX_NODE_DIMENSION - 1) * BOX_NODE_DIMENSION * BOX_NODE_DIMENSION,
        "visited sectant mismatch! \n visited sectants: {:?}",
        visited_sectants
    );
}

#[test]
fn test_sectant_execution_aligned_target_out_of_bounds() {
    let confines = Cube::root_bounds(400);
    let update_size = 500;
    let execute_position = V3c::new(100, 0, 0);
    let mut visited_sectants: Vec<u8> = vec![];
    let (updates, _) = execute_for_relevant_sectants(&confines, &execute_position, update_size);
    for u in updates.iter() {
        assert!(confines.contains(&last_cell(u)));
        visited_sectants.push(u.target_child_sectant);
        if 1 == u.target_child_sectant {
            assert_eq!(u.target_bounds.min_position, execute_position);
        }
        assert_eq!(u.target_bounds.size, confines.size / BOX_NODE_DIMENSION as u32);
        assert_eq!(u.update_size_in_target.x, u.target_bounds.size);
        assert_eq!(u.update_size_in_target.y, u.target_bounds.size);
        assert_eq!(u.update_size_in_target.z, u.target_bounds.size);
    }
    assert_eq!(
        visited_sectants.len(),
        (BOX_NODE_DIMENSION - 1) * BOX_NODE_DIMENSION * BOX_NODE_DIMENSION
    );
}

#[test]
fn test_sectant_execution_unaligned_target_within() {
    let confines = Cube::root_bounds(400);
    let update_size = 210;
    let execute_position = V3c::new(100, 0, 0);
    let mut visited_sectants: Vec<u8> = vec![];
    let (updates, _) = execute_for_relevant_sectants(&confines, &execute_position, update_size);
    for u in updates.iter() {
        assert!(confines.contains(&last_cell(u)));
        visited_sectants.push(u.target_child_sectant);
        if 1 == u.target_child_sectant {
            assert_eq!(u.target_bounds.min_position, execute_position);
        }
        assert_eq!(u.target_bounds.size, confines.size / BOX_NODE_DIMENSION as u32);
        assert!(
            u.update_size_in_target.x == u.target_bounds.size
                || u.update_size_in_target.x == (update_size % u.target_bounds.size)
        );
        assert!(
            u.update_size_in_target.y == u.target_bounds.size
                || u.update_size_in_target.y == (update_size % u.target_bounds.size)
        );
        assert!(
            u.update_size_in_target.z == u.target_bounds.size
                || u.update_size_in_target.z == (update_size % u.target_bounds.size)
        );
    }
    assert_eq!(visited_sectants.len(), (BOX_NODE_DIMENSION - 1).pow(3));
}

#[test]
fn test_sectant_execution_unaligned_target_out_of_bounds() {
    let confines = Cube::root_bounds(400);
    let update_size = 510;
    let execute_position = V3c::new(100, 0, 0);
    let mut visited_sectants: Vec<u8> = vec![];
    let (updates, _) = execute_for_relevant_sectants(&confines, &execute_position, update_size);
    for u in updates.iter() {
        assert!(confines.contains(&last_cell(u)));
        visited_sectants.push(u.target_child_sectant);
        if 1 == u.target_child_sectant {
            assert_eq!(u.target_bounds.min_position, execute_position);
        }
        assert_eq!(u.target_bounds.size, confines.size / BOX_NODE_DIMENSION as u32);
        assert_eq!(u.update_size_in_target.x, u.target_bounds.size);
        assert_eq!(u.update_size_in_target.y, u.target_bounds.size);
        assert_eq!(u.update_size_in_target.z, u.target_bounds.size);
    }
    assert_eq!(
        visited_sectants.len(),
        (BOX_NODE_DIMENSION - 1) * BOX_NODE_DIMENSION * BOX_NODE_DIMENSION
    );
}

#[test]
fn iterate_reports_extent_from_clipped_start() {
    let confines = Cube {
        min_position: V3c::unit(400),
        size: 400,
    };
    let (_, extent) = execute_for_relevant_sectants(&confines, &V3c::unit(0), 450);
    assert_eq!(extent, V3c::new(50, 50, 50));
    let (updates, extent) = execute_for_relevant_sectants(&confines, &V3c::unit(0), 100);
    assert!(updates.is_empty());
    assert_eq!(extent, V3c::new(0, 0, 0));
    let (updates, extent) = execute_for_relevant_sectants(&confines, &V3c::new(0, 1000, 0), 100);
    assert!(updates.is_empty());
    assert_eq!(extent, V3c::new(0, 0, 0));
}
