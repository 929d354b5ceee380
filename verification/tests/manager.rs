use voxel_chunks::block::Block;
use voxel_chunks::chunk::{Chunk, ChunkPosition};
use voxel_chunks::manager::{ChunkManager, MAX_REBUILD_FRAME};
use voxel_chunks::vector::Vector3;

fn sorted(mut positions: Vec<ChunkPosition>) -> Vec<(i32, i32, i32)> {
    let mut keys: Vec<(i32, i32, i32)> = positions.drain(..).map(|p| (p.x, p.y, p.z)).collect();
    keys.sort();
    keys
}

#[test]
fn new_manager_registers_chunks_by_position() {
    let manager = ChunkManager::new(vec![
        Chunk::new(1, Vector3::new(0, 0, 0)),
        Chunk::new(2, Vector3::new(0, 1, 0)),
    ]);
    assert_eq!(manager.get_chunk(&Vector3::new(0, 0, 0)).unwrap().id, 1);
    assert_eq!(manager.get_chunk(&Vector3::new(0, 1, 0)).unwrap().id, 2);
    assert!(manager.get_chunk(&Vector3::new(1, 0, 0)).is_none());
    assert!(manager.waiting().is_empty());
    assert!(manager.visible_meshes().is_empty());
}

#[test]
fn new_manager_keeps_the_first_of_two_chunks_at_one_position() {
    let manager = ChunkManager::new(vec![
        Chunk::new(1, Vector3::new(3, 3, 3)),
        Chunk::new(2, Vector3::new(3, 3, 3)),
    ]);
    assert_eq!(manager.get_chunk(&Vector3::new(3, 3, 3)).unwrap().id, 1);
}

#[test]
fn add_chunk_does_not_overwrite() {
    let mut manager = ChunkManager::new(Vec::new());
    manager.add_chunk(Chunk::new(1, Vector3::new(0, 1, 0)));
    manager.add_chunk(Chunk::full(2, Vector3::new(0, 1, 0)));
    let chunk = manager.get_chunk(&Vector3::new(0, 1, 0)).unwrap();
    assert_eq!(chunk.id, 1);
    assert!(!chunk.block_active(Vector3::new(0, 0, 0)));
}

#[test]
fn positions_that_differ_in_one_coordinate_are_distinct() {
    let mut manager = ChunkManager::new(Vec::new());
    manager.add_chunk(Chunk::new(1, Vector3::new(1, 0, 0)));
    manager.add_chunk(Chunk::new(2, Vector3::new(0, 1, 0)));
    manager.add_chunk(Chunk::new(3, Vector3::new(0, 0, 1)));
    manager.add_chunk(Chunk::new(4, Vector3::new(-1, 0, 0)));
    manager.add_chunk(Chunk::new(5, Vector3::new(0, -1, 0)));
    manager.add_chunk(Chunk::new(6, Vector3::new(0, 0, -1)));
    manager.add_chunk(Chunk::new(7, Vector3::new(i32::MAX, i32::MIN, i32::MAX)));
    manager.add_chunk(Chunk::new(8, Vector3::new(i32::MIN, i32::MAX, i32::MIN)));
    assert_eq!(manager.get_chunk(&Vector3::new(1, 0, 0)).unwrap().id, 1);
    assert_eq!(manager.get_chunk(&Vector3::new(0, 1, 0)).unwrap().id, 2);
    assert_eq!(manager.get_chunk(&Vector3::new(0, 0, 1)).unwrap().id, 3);
    assert_eq!(manager.get_chunk(&Vector3::new(-1, 0, 0)).unwrap().id, 4);
    assert_eq!(manager.get_chunk(&Vector3::new(0, -1, 0)).unwrap().id, 5);
    assert_eq!(manager.get_chunk(&Vector3::new(0, 0, -1)).unwrap().id, 6);
    assert_eq!(
        manager.get_chunk(&Vector3::new(i32::MAX, i32::MIN, i32::MAX)).unwrap().id,
        7
    );
    assert_eq!(
        manager.get_chunk(&Vector3::new(i32::MIN, i32::MAX, i32::MIN)).unwrap().id,
        8
    );
    assert!(manager.get_chunk(&Vector3::new(0, 0, 0)).is_none());
}

#[test]
fn get_chunk_mut_changes_the_stored_chunk() {
    let mut manager = ChunkManager::default(2);
    manager
        .get_chunk_mut(&Vector3::new(0, 0, 0))
        .unwrap()
        .remove_block(Vector3::new(8, 15, 8));
    let chunk = manager.get_chunk(&Vector3::new(0, 0, 0)).unwrap();
    assert!(!chunk.block_active(Vector3::new(8, 15, 8)));
    assert!(chunk.block_active(Vector3::new(8, 14, 8)));
    assert!(manager.get_chunk_mut(&Vector3::new(9, 9, 9)).is_none());
    let other = manager.get_chunk(&Vector3::new(1, 0, 0)).unwrap();
    assert!(other.block_active(Vector3::new(8, 15, 8)));
}

#[test]
fn default_world_is_a_square_of_full_chunks() {
    let manager = ChunkManager::default(4);
    for x in -3..4 {
        for y in -1..2 {
            for z in -3..4 {
                let chunk = manager.get_chunk(&Vector3::new(x, y, z));
                let inside = y == 0 && -2 <= x && x <= 2 && -2 <= z && z <= 2;
                assert_eq!(chunk.is_some(), inside);
                if let Some(chunk) = chunk {
                    assert_eq!(chunk.id, 0);
                    assert_eq!(chunk.position, Vector3::new(x, y, z));
                    assert!(!chunk.is_active);
                    assert!(chunk.mesh.is_none());
                    assert!(chunk.block_active(Vector3::new(0, 0, 0)));
                    assert!(chunk.block_active(Vector3::new(15, 15, 15)));
                }
            }
        }
    }
    assert!(manager.waiting().is_empty());
    assert!(!manager.is_visible(Vector3::new(0, 0, 0)));
}

#[test]
fn default_world_rounds_half_the_width_towards_zero() {
    let odd = ChunkManager::default(5);
    assert!(odd.get_chunk(&Vector3::new(2, 0, -2)).is_some());
    assert!(odd.get_chunk(&Vector3::new(3, 0, 0)).is_none());
    let zero = ChunkManager::default(0);
    assert!(zero.get_chunk(&Vector3::new(0, 0, 0)).is_some());
    assert!(zero.get_chunk(&Vector3::new(1, 0, 0)).is_none());
    let minus_one = ChunkManager::default(-1);
    assert!(minus_one.get_chunk(&Vector3::new(0, 0, 0)).is_some());
    let minus_two = ChunkManager::default(-2);
    assert!(minus_two.get_chunk(&Vector3::new(0, 0, 0)).is_none());
    assert!(minus_two.get_chunk(&Vector3::new(1, 0, 1)).is_none());
    assert!(minus_two.get_chunk(&Vector3::new(-1, 0, -1)).is_none());
}

#[test]
fn first_move_brings_the_window_into_view() {
    let mut manager = ChunkManager::default(8);
    manager.move_to(Vector3::new(0, 0, 0));
    for x in -4..5 {
        for z in -4..5 {
            let visible = -2 <= x && x <= 2 && -2 <= z && z <= 2;
            assert_eq!(manager.is_visible(Vector3::new(x, 0, z)), visible);
        }
    }
    assert!(!manager.is_visible(Vector3::new(0, 1, 0)));
    let waiting = sorted(manager.waiting());
    assert_eq!(waiting.len(), 25);
    assert_eq!(waiting[0], (-2, 0, -2));
    assert_eq!(waiting[24], (2, 0, 2));
}

#[test]
fn window_reaches_the_render_distance_up_and_down_and_stops_at_the_ground() {
    let mut chunks = Vec::new();
    for y in -1..8 {
        chunks.push(Chunk::full(0, Vector3::new(0, y, 0)));
    }
    let mut manager = ChunkManager::new(chunks);
    manager.move_to(Vector3::new(0, 3, 0));
    // From y = 3 - 2 up to y = 3 + 2.
    let visible: Vec<i32> = (-1..8).filter(|&y| manager.is_visible(Vector3::new(0, y, 0))).collect();
    assert_eq!(visible, vec![1, 2, 3, 4, 5]);
    manager.move_to(Vector3::new(0, 1, 0));
    // Never below the ground level.
    let visible: Vec<i32> = (-1..8).filter(|&y| manager.is_visible(Vector3::new(0, y, 0))).collect();
    assert_eq!(visible, vec![0, 1, 2, 3]);
    manager.move_to(Vector3::new(0, -2, 0));
    let visible: Vec<i32> = (-1..8).filter(|&y| manager.is_visible(Vector3::new(0, y, 0))).collect();
    assert_eq!(visible, vec![0]);
    manager.move_to(Vector3::new(0, -3, 0));
    let visible: Vec<i32> = (-1..8).filter(|&y| manager.is_visible(Vector3::new(0, y, 0))).collect();
    assert_eq!(visible, Vec::<i32>::new());
}

#[test]
fn observer_below_the_ground_sees_the_ground_within_reach() {
    let mut manager = ChunkManager::default(20);
    // Centre (0, -2, 0): the ground level is two chunks up.
    let rebuilt = manager.update(Vector3::new(0, -32, 0));
    assert_eq!(rebuilt.len(), 2);
    for x in -3..4 {
        for z in -3..4 {
            let visible = -2 <= x && x <= 2 && -2 <= z && z <= 2;
            assert_eq!(manager.is_visible(Vector3::new(x, 0, z)), visible);
        }
    }
    assert_eq!(manager.waiting().len(), 23);
    // One chunk further down, the ground is out of reach.
    let mut manager = ChunkManager::default(20);
    let rebuilt = manager.update(Vector3::new(0, -48, 0));
    assert!(rebuilt.is_empty());
    assert!(!manager.is_visible(Vector3::new(0, 0, 0)));
}

#[test]
fn a_chunk_at_the_top_of_the_window_is_seen_and_meshed() {
    let mut manager = ChunkManager::new(vec![Chunk::full(0, Vector3::new(4, 7, -4))]);
    manager.move_to(Vector3::new(4, 5, -4));
    assert!(manager.is_visible(Vector3::new(4, 7, -4)));
    assert_eq!(sorted(manager.waiting()), vec![(4, 7, -4)]);
    manager.move_to(Vector3::new(4, 4, -4));
    assert!(!manager.is_visible(Vector3::new(4, 7, -4)));
    manager.move_to(Vector3::new(4, 9, -4));
    assert!(manager.is_visible(Vector3::new(4, 7, -4)));
    manager.move_to(Vector3::new(4, 10, -4));
    assert!(!manager.is_visible(Vector3::new(4, 7, -4)));
}

#[test]
fn moving_replaces_the_visible_set() {
    let mut manager = ChunkManager::default(20);
    manager.move_to(Vector3::new(0, 0, 0));
    assert!(manager.is_visible(Vector3::new(-2, 0, 0)));
    manager.move_to(Vector3::new(5, 0, 0));
    assert!(!manager.is_visible(Vector3::new(-2, 0, 0)));
    assert!(!manager.is_visible(Vector3::new(2, 0, 0)));
    assert!(manager.is_visible(Vector3::new(3, 0, 0)));
    assert!(manager.is_visible(Vector3::new(7, 0, 2)));
    assert!(!manager.is_visible(Vector3::new(8, 0, 0)));
    // Positions that were waiting keep waiting.
    assert_eq!(manager.waiting().len(), 50);
}

#[test]
fn staying_in_the_same_chunk_changes_nothing() {
    let mut manager = ChunkManager::default(8);
    manager.move_to(Vector3::new(1, 0, 1));
    while !manager.rebuild_chunks().is_empty() {}
    assert!(manager.waiting().is_empty());
    manager.get_chunk_mut(&Vector3::new(1, 0, 1)).unwrap().mesh = None;
    manager.move_to(Vector3::new(1, 0, 1));
    // No boundary was crossed: the unmeshed chunk is not found again.
    assert!(manager.waiting().is_empty());
    manager.move_to(Vector3::new(1, 0, 2));
    // Now it is, together with the row of chunks that has come into view.
    assert_eq!(
        sorted(manager.waiting()),
        vec![(-1, 0, 4), (0, 0, 4), (1, 0, 1), (1, 0, 4), (2, 0, 4), (3, 0, 4)]
    );
}

#[test]
fn chunks_that_have_a_mesh_are_not_made_to_wait() {
    let mut manager = ChunkManager::default(2);
    manager.get_chunk_mut(&Vector3::new(0, 0, 0)).unwrap().greedy_mesh();
    manager.move_to(Vector3::new(0, 0, 0));
    let waiting = sorted(manager.waiting());
    assert_eq!(waiting.len(), 8);
    assert!(!waiting.contains(&(0, 0, 0)));
    assert!(manager.is_visible(Vector3::new(0, 0, 0)));
}

#[test]
fn rebuild_is_capped_per_call() {
    let mut manager = ChunkManager::default(8);
    manager.move_to(Vector3::new(0, 0, 0));
    assert_eq!(MAX_REBUILD_FRAME, 2);
    let mut left = 25;
    while left > 0 {
        let rebuilt = manager.rebuild_chunks();
        let expected = if left >= 2 { 2 } else { left };
        assert_eq!(rebuilt.len(), expected);
        for position in &rebuilt {
            let chunk = manager.get_chunk(position).unwrap();
            assert!(chunk.is_active);
            assert_eq!(chunk.mesh.as_ref().unwrap().num_elements, 36);
        }
        left -= expected;
        assert_eq!(manager.waiting().len(), left);
    }
    assert!(manager.rebuild_chunks().is_empty());
    assert!(manager.waiting().is_empty());
}

#[test]
fn rebuild_drains_a_large_queue() {
    let mut manager = ChunkManager::default(20);
    for x in -10..11 {
        for z in -10..11 {
            manager.request_rebuild(Vector3::new(x, 0, z));
        }
    }
    assert_eq!(manager.waiting().len(), 441);
    let mut calls = 0;
    while !manager.waiting().is_empty() {
        let before = manager.waiting().len();
        let rebuilt = manager.rebuild_chunks();
        assert!(rebuilt.len() <= 2);
        assert!(manager.waiting().len() < before);
        calls += 1;
    }
    assert_eq!(calls, 221);
}

#[test]
fn rebuild_leaves_other_chunks_unmeshed() {
    let mut manager = ChunkManager::default(2);
    manager.move_to(Vector3::new(0, 0, 0));
    let rebuilt = sorted(manager.rebuild_chunks());
    assert_eq!(rebuilt.len(), 2);
    assert_ne!(rebuilt[0], rebuilt[1]);
    for x in -1..2 {
        for z in -1..2 {
            let chunk = manager.get_chunk(&Vector3::new(x, 0, z)).unwrap();
            let done = rebuilt.contains(&(x, 0, z));
            assert_eq!(chunk.is_active, done);
            assert_eq!(chunk.mesh.is_some(), done);
        }
    }
}

#[test]
fn waiting_positions_without_a_chunk_count_against_the_cap() {
    let mut manager = ChunkManager::new(vec![Chunk::full(0, Vector3::new(0, 0, 0))]);
    manager.request_rebuild(Vector3::new(5, 5, 5));
    manager.request_rebuild(Vector3::new(6, 6, 6));
    manager.request_rebuild(Vector3::new(7, 7, 7));
    manager.request_rebuild(Vector3::new(0, 0, 0));
    let mut rebuilt = manager.rebuild_chunks();
    // Two positions leave the queue, with or without a chunk.
    assert_eq!(manager.waiting().len(), 2);
    assert!(rebuilt.len() <= 1);
    rebuilt.extend(manager.rebuild_chunks());
    assert!(manager.waiting().is_empty());
    assert_eq!(sorted(rebuilt), vec![(0, 0, 0)]);
    assert!(manager.rebuild_chunks().is_empty());
}

#[test]
fn no_more_than_the_cap_leaves_a_queue_without_chunks() {
    let mut manager = ChunkManager::new(Vec::new());
    manager.request_rebuild(Vector3::new(1, 0, 0));
    manager.request_rebuild(Vector3::new(2, 0, 0));
    manager.request_rebuild(Vector3::new(3, 0, 0));
    assert!(manager.rebuild_chunks().is_empty());
    assert_eq!(manager.waiting().len(), 1);
    assert!(manager.rebuild_chunks().is_empty());
    assert!(manager.waiting().is_empty());
}

#[test]
fn a_chunk_without_faces_is_handled_and_stops_waiting() {
    let mut manager = ChunkManager::new(vec![Chunk::new(0, Vector3::new(0, 0, 0))]);
    manager.move_to(Vector3::new(0, 0, 0));
    assert_eq!(manager.waiting().len(), 1);
    let rebuilt = manager.rebuild_chunks();
    assert_eq!(sorted(rebuilt), vec![(0, 0, 0)]);
    let chunk = manager.get_chunk(&Vector3::new(0, 0, 0)).unwrap();
    assert!(chunk.is_active);
    assert!(chunk.mesh.is_none());
    assert!(manager.waiting().is_empty());
    assert!(manager.visible_meshes().is_empty());
    assert!(manager.is_visible(Vector3::new(0, 0, 0)));
    // It waits again only once the observer crosses into another chunk.
    manager.move_to(Vector3::new(0, 0, 0));
    assert!(manager.waiting().is_empty());
    manager.move_to(Vector3::new(1, 0, 0));
    assert_eq!(manager.waiting().len(), 1);
}

#[test]
fn update_moves_then_rebuilds() {
    let mut manager = ChunkManager::default(20);
    // The position of the camera at start, in whole blocks.
    let rebuilt = manager.update(Vector3::new(-13, 16, -12));
    // Centre (-1, 1, -1): the window holds y = 0 to 3, and chunks exist at y = 0.
    assert_eq!(rebuilt.len(), 2);
    assert_eq!(manager.waiting().len(), 23);
    for x in -3..2 {
        for z in -3..2 {
            assert!(manager.is_visible(Vector3::new(x, 0, z)));
        }
    }
    assert!(!manager.is_visible(Vector3::new(2, 0, 0)));
    assert!(!manager.is_visible(Vector3::new(-4, 0, 0)));
    // The same position again: no new window, two more chunks.
    let rebuilt = manager.update(Vector3::new(-13, 16, -12));
    assert_eq!(rebuilt.len(), 2);
    assert_eq!(manager.waiting().len(), 21);
    // A step inside the same chunk changes nothing either.
    let rebuilt = manager.update(Vector3::new(-9, 17, -23));
    assert_eq!(rebuilt.len(), 2);
    assert_eq!(manager.waiting().len(), 19);
}

#[test]
fn update_high_above_the_ground_sees_nothing() {
    let mut manager = ChunkManager::default(4);
    let rebuilt = manager.update(Vector3::new(0, 48, 0));
    // Centre (0, 3, 0): the window holds y = 1 to 5.
    assert!(rebuilt.is_empty());
    assert!(manager.waiting().is_empty());
    assert!(!manager.is_visible(Vector3::new(0, 0, 0)));
}

#[test]
fn visible_meshes_lists_meshed_chunks_in_view() {
    let mut manager = ChunkManager::default(8);
    manager.add_chunk(Chunk::new(0, Vector3::new(0, 1, 0)));
    let rebuilt = manager.update(Vector3::new(0, 16, 0));
    assert_eq!(rebuilt.len(), 2);
    let visible = manager.visible_meshes();
    // The empty chunk has no mesh, whether or not it was among the two.
    let meshed = rebuilt.iter().filter(|position| position.y == 0).count();
    assert_eq!(visible.len(), meshed);
    for (position, count) in &visible {
        assert!(manager.is_visible(*position));
        let chunk = manager.get_chunk(position).unwrap();
        assert_eq!(chunk.mesh.as_ref().unwrap().num_elements, *count);
    }
    while !manager.update(Vector3::new(0, 16, 0)).is_empty() {}
    let visible = manager.visible_meshes();
    // 25 full chunks on the ground; the empty chunk above has no mesh.
    assert_eq!(visible.len(), 25);
    assert!(visible.iter().all(|(position, count)| position.y == 0 && *count == 36));
    let mut positions: Vec<ChunkPosition> = visible.iter().map(|(position, _)| *position).collect();
    positions.dedup();
    assert_eq!(sorted(positions).len(), 25);
    // Chunks out of view are not listed, meshed or not.
    manager.get_chunk_mut(&Vector3::new(4, 0, 4)).unwrap().greedy_mesh();
    assert_eq!(manager.visible_meshes().len(), 25);
}

#[test]
fn world_edits_show_after_a_requested_rebuild() {
    let mut manager = ChunkManager::default(0);
    let mut block_chunk = Chunk::new(0, Vector3::new(0, 1, 0));
    block_chunk.insert_block(Block::new(0), Vector3::new(7, 3, 7));
    manager.add_chunk(block_chunk);
    while !manager.update(Vector3::new(0, 16, 0)).is_empty() {}
    assert_eq!(
        manager.get_chunk(&Vector3::new(0, 1, 0)).unwrap().mesh.as_ref().unwrap().num_elements,
        36
    );
    manager
        .get_chunk_mut(&Vector3::new(0, 1, 0))
        .unwrap()
        .insert_block(Block::new(0), Vector3::new(0, 0, 0));
    manager.request_rebuild(Vector3::new(0, 1, 0));
    let rebuilt = manager.update(Vector3::new(0, 16, 0));
    assert_eq!(sorted(rebuilt), vec![(0, 1, 0)]);
    assert_eq!(
        manager.get_chunk(&Vector3::new(0, 1, 0)).unwrap().mesh.as_ref().unwrap().num_elements,
        72
    );
}
