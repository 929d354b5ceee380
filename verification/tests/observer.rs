use voxel_chunks::observer::{horizontal_chunk, observer_chunk, vertical_chunk};
use voxel_chunks::vector::Vector3;

#[test]
fn horizontal_coordinate_switches_half_a_chunk_early() {
    assert_eq!(horizontal_chunk(0), 0);
    assert_eq!(horizontal_chunk(7), 0);
    assert_eq!(horizontal_chunk(8), 1);
    assert_eq!(horizontal_chunk(23), 1);
    assert_eq!(horizontal_chunk(24), 2);
    assert_eq!(horizontal_chunk(-1), 0);
    assert_eq!(horizontal_chunk(-7), 0);
    assert_eq!(horizontal_chunk(-8), -1);
    assert_eq!(horizontal_chunk(-23), -1);
    assert_eq!(horizontal_chunk(-24), -2);
}

#[test]
fn vertical_coordinate_switches_at_chunk_edges() {
    assert_eq!(vertical_chunk(0), 0);
    assert_eq!(vertical_chunk(15), 0);
    assert_eq!(vertical_chunk(16), 1);
    assert_eq!(vertical_chunk(31), 1);
    assert_eq!(vertical_chunk(32), 2);
    assert_eq!(vertical_chunk(-1), 0);
    assert_eq!(vertical_chunk(-15), 0);
    assert_eq!(vertical_chunk(-16), -1);
    assert_eq!(vertical_chunk(-31), -1);
    assert_eq!(vertical_chunk(-32), -2);
}

#[test]
fn coordinates_at_the_ends_of_the_range() {
    assert_eq!(horizontal_chunk(i32::MAX), 134217728);
    assert_eq!(horizontal_chunk(i32::MIN), -134217728);
    assert_eq!(vertical_chunk(i32::MAX), 134217727);
    assert_eq!(vertical_chunk(i32::MIN), -134217728);
}

#[test]
fn observer_chunk_is_stable_under_repetition() {
    let position = Vector3::new(-13, 16, -12);
    let first = observer_chunk(position);
    let second = observer_chunk(position);
    assert_eq!(first, Vector3::new(-1, 1, -1));
    assert_eq!(first, second);
}

#[test]
fn observer_chunk_changes_only_across_a_boundary() {
    let chunk = observer_chunk(Vector3::new(8, 16, 8));
    assert_eq!(chunk, Vector3::new(1, 1, 1));
    for x in 8..24 {
        for y in 16..32 {
            assert_eq!(observer_chunk(Vector3::new(x, y, 8)), chunk);
        }
    }
    assert_eq!(observer_chunk(Vector3::new(7, 16, 8)), Vector3::new(0, 1, 1));
    assert_eq!(observer_chunk(Vector3::new(24, 16, 8)), Vector3::new(2, 1, 1));
    assert_eq!(observer_chunk(Vector3::new(8, 15, 8)), Vector3::new(1, 0, 1));
    assert_eq!(observer_chunk(Vector3::new(8, 32, 8)), Vector3::new(1, 2, 1));
    assert_eq!(observer_chunk(Vector3::new(8, 16, 7)), Vector3::new(1, 1, 0));
    assert_eq!(observer_chunk(Vector3::new(8, 16, 24)), Vector3::new(1, 1, 2));
}
