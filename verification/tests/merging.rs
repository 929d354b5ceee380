use voxel_chunks::greedy::{merge_mask, Rect, MASK_SIZE};

fn mask_of(cells: &[(usize, usize)]) -> [bool; MASK_SIZE] {
    let mut mask = [false; MASK_SIZE];
    for &(row, col) in cells {
        mask[row * 16 + col] = true;
    }
    mask
}

fn covered(rects: &[Rect]) -> [u32; MASK_SIZE] {
    let mut count = [0u32; MASK_SIZE];
    for rect in rects {
        for row in rect.j..rect.j + rect.h {
            for col in rect.i..rect.i + rect.w {
                count[row * 16 + col] += 1;
            }
        }
    }
    count
}

#[test]
fn empty_mask_gives_no_rectangle() {
    assert!(merge_mask([false; MASK_SIZE]).is_empty());
}

#[test]
fn full_mask_gives_one_rectangle() {
    let rects = merge_mask([true; MASK_SIZE]);
    assert_eq!(rects, vec![Rect { i: 0, j: 0, w: 16, h: 16 }]);
}

#[test]
fn single_cell_gives_unit_rectangle() {
    let rects = merge_mask(mask_of(&[(5, 9)]));
    assert_eq!(rects, vec![Rect { i: 9, j: 5, w: 1, h: 1 }]);
}

#[test]
fn last_cell_gives_unit_rectangle() {
    let rects = merge_mask(mask_of(&[(15, 15)]));
    assert_eq!(rects, vec![Rect { i: 15, j: 15, w: 1, h: 1 }]);
}

#[test]
fn a_run_does_not_wrap_into_the_next_row() {
    let rects = merge_mask(mask_of(&[(2, 14), (2, 15), (3, 0), (3, 1)]));
    assert_eq!(
        rects,
        vec![Rect { i: 14, j: 2, w: 2, h: 1 }, Rect { i: 0, j: 3, w: 2, h: 1 }]
    );
}

#[test]
fn width_is_grown_before_height() {
    // An L: a row of three over a column of one.
    let rects = merge_mask(mask_of(&[(0, 0), (0, 1), (0, 2), (1, 0)]));
    assert_eq!(
        rects,
        vec![Rect { i: 0, j: 0, w: 3, h: 1 }, Rect { i: 0, j: 1, w: 1, h: 1 }]
    );
}

#[test]
fn height_needs_the_whole_width() {
    // Two rows of three, then a row of two: the third row starts a new rectangle.
    let rects = merge_mask(mask_of(&[
        (4, 4),
        (4, 5),
        (4, 6),
        (5, 4),
        (5, 5),
        (5, 6),
        (6, 4),
        (6, 5),
    ]));
    assert_eq!(
        rects,
        vec![Rect { i: 4, j: 4, w: 3, h: 2 }, Rect { i: 4, j: 6, w: 2, h: 1 }]
    );
}

#[test]
fn consumed_cells_are_not_merged_again() {
    // A plus sign.
    let rects = merge_mask(mask_of(&[(0, 1), (1, 0), (1, 1), (1, 2), (2, 1)]));
    assert_eq!(
        rects,
        vec![
            Rect { i: 1, j: 0, w: 1, h: 3 },
            Rect { i: 0, j: 1, w: 1, h: 1 },
            Rect { i: 2, j: 1, w: 1, h: 1 },
        ]
    );
}

#[test]
fn checkerboard_gives_one_rectangle_per_set_cell() {
    let mut mask = [false; MASK_SIZE];
    for row in 0..16 {
        for col in 0..16 {
            mask[row * 16 + col] = (row + col) % 2 == 0;
        }
    }
    let rects = merge_mask(mask);
    assert_eq!(rects.len(), 128);
    assert!(rects.iter().all(|rect| rect.w == 1 && rect.h == 1));
}

#[test]
fn rectangles_cover_each_set_cell_once_and_no_other() {
    let mut mask = [false; MASK_SIZE];
    let mut state: u32 = 12345;
    for cell in mask.iter_mut() {
        state = state.wrapping_mul(1664525).wrapping_add(1013904223);
        *cell = (state >> 16) % 3 != 0;
    }
    let rects = merge_mask(mask);
    let count = covered(&rects);
    for n in 0..MASK_SIZE {
        assert_eq!(count[n], if mask[n] { 1 } else { 0 });
    }
    for rect in &rects {
        assert!(rect.w >= 1 && rect.h >= 1);
        assert!(rect.i + rect.w <= 16 && rect.j + rect.h <= 16);
    }
}

#[test]
fn rectangles_come_in_scan_order() {
    let rects = merge_mask(mask_of(&[(9, 3), (0, 7), (9, 1), (4, 4)]));
    assert_eq!(
        rects,
        vec![
            Rect { i: 7, j: 0, w: 1, h: 1 },
            Rect { i: 4, j: 4, w: 1, h: 1 },
            Rect { i: 1, j: 9, w: 1, h: 1 },
            Rect { i: 3, j: 9, w: 1, h: 1 },
        ]
    );
}
