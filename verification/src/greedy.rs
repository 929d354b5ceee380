//! Greedy merging of a face mask into rectangles.
//!
//! A mask has one cell for each position of a `CHUNK_SIZE` by `CHUNK_SIZE`
//! plane, stored row by row. The merge scans the cells in storage order and
//! turns every set cell it meets into the widest, then tallest, rectangle of
//! set cells that starts there.

use vstd::prelude::*;
use crate::chunk::CHUNK_SIZE;

verus! {

/// Number of cells in a mask.
pub const MASK_SIZE: usize = CHUNK_SIZE * CHUNK_SIZE;

/// A rectangle of mask cells: the columns `i .. i + w` of the rows
/// `j .. j + h`.
#[derive(Clone, Copy, Debug, PartialEq, Eq)]
pub struct Rect {
    pub i: usize,
    pub j: usize,
    pub w: usize,
    pub h: usize,
}

impl Rect {
    /// Whether the cell in row `row` and column `col` lies in the rectangle.
    pub open spec fn covers(&self, row: int, col: int) -> bool {
        self.j <= row < self.j + self.h && self.i <= col < self.i + self.w
    }

    /// Whether the rectangle is not empty and lies inside the mask.
    pub open spec fn in_mask(&self) -> bool {
        &&& 1 <= self.w
        &&& 1 <= self.h
        &&& self.i + self.w <= CHUNK_SIZE
        &&& self.j + self.h <= CHUNK_SIZE
    }
}

/// Whether the cell in row `row` and column `col` is set. Cells outside the
/// mask are not.
pub open spec fn cell(mask: Seq<bool>, row: int, col: int) -> bool {
    0 <= row < CHUNK_SIZE && 0 <= col < CHUNK_SIZE && mask[row * CHUNK_SIZE + col]
}

/// Length of the run of set cells that starts at column `col` of row `row`.
pub open spec fn run_width(mask: Seq<bool>, row: int, col: int) -> nat
    decreases CHUNK_SIZE - col,
{
    if cell(mask, row, col) {
        1 + run_width(mask, row, col + 1)
    } else {
        0
    }
}

/// Whether the `w` cells from column `col` on are all set in row `row`.
pub open spec fn row_set(mask: Seq<bool>, row: int, col: int, w: int) -> bool {
    forall|k: int| 0 <= k < w ==> cell(mask, row, #[trigger] (col + k))
}

/// Number of rows, from `row` on, in which the `w` cells from column `col`
/// on are all set.
pub open spec fn run_height(mask: Seq<bool>, row: int, col: int, w: int) -> nat
    decreases CHUNK_SIZE - row,
{
    if 0 <= row < CHUNK_SIZE && row_set(mask, row, col, w) {
        1 + run_height(mask, row + 1, col, w)
    } else {
        0
    }
}

/// The rectangle that the merge cuts out at a set cell: as wide as the run
/// of set cells allows, then as tall as rows of that width allow.
pub open spec fn rect_at(mask: Seq<bool>, row: int, col: int) -> Rect {
    let w = run_width(mask, row, col);
    Rect {
        i: col as usize,
        j: row as usize,
        w: w as usize,
        h: run_height(mask, row, col, w as int) as usize,
    }
}

/// The mask with the cells of `rect` unset.
pub open spec fn clear_rect(mask: Seq<bool>, rect: Rect) -> Seq<bool> {
    Seq::new(
        mask.len(),
        |n: int| mask[n] && !rect.covers(n / (CHUNK_SIZE as int), n % (CHUNK_SIZE as int)),
    )
}

/// The rectangles that the merge produces from the cell in row `row` and
/// column `col` on, in the order in which it produces them.
pub open spec fn merged_from(mask: Seq<bool>, row: int, col: int) -> Seq<Rect>
    decreases CHUNK_SIZE - row, CHUNK_SIZE - col,
{
    if row < 0 || row >= CHUNK_SIZE || col < 0 {
        Seq::empty()
    } else if col >= CHUNK_SIZE {
        merged_from(mask, row + 1, 0)
    } else if !cell(mask, row, col) {
        merged_from(mask, row, col + 1)
    } else {
        let rect = rect_at(mask, row, col);
        proof {
            lemma_run_width(mask, row, col);
        }
        seq![rect] + merged_from(clear_rect(mask, rect), row, col + run_width(mask, row, col))
    }
}

/// The rectangles that the merge produces for a whole mask.
pub open spec fn merged_rects(mask: Seq<bool>) -> Seq<Rect> {
    merged_from(mask, 0, 0)
}

/// A run of set cells ends inside the row, holds set cells only, and stops
/// at the row's end or before an unset cell.
pub proof fn lemma_run_width(mask: Seq<bool>, row: int, col: int)
    requires
        0 <= col <= CHUNK_SIZE,
    ensures
        run_width(mask, row, col) <= CHUNK_SIZE - col,
        row_set(mask, row, col, run_width(mask, row, col) as int),
        !cell(mask, row, col + run_width(mask, row, col)),
    decreases CHUNK_SIZE - col,
{
    if cell(mask, row, col) {
        lemma_run_width(mask, row, col + 1);
        let w = run_width(mask, row, col);
        assert forall|k: int| 0 <= k < w implies cell(mask, row, #[trigger] (col + k)) by {
            if k > 0 {
                assert(cell(mask, row, (col + 1) + (k - 1)));
            }
        }
    }
}

/// A stack of set rows ends inside the mask, holds set rows only, and stops
/// at the mask's end or before a row that is not set all along.
pub proof fn lemma_run_height(mask: Seq<bool>, row: int, col: int, w: int)
    requires
        0 <= row <= CHUNK_SIZE,
    ensures
        run_height(mask, row, col, w) <= CHUNK_SIZE - row,
        forall|l: int|
            0 <= l < run_height(mask, row, col, w) ==> row_set(mask, #[trigger] (row + l), col, w),
        row + run_height(mask, row, col, w) == CHUNK_SIZE || !row_set(
            mask,
            row + run_height(mask, row, col, w),
            col,
            w,
        ),
    decreases CHUNK_SIZE - row,
{
    if 0 <= row < CHUNK_SIZE && row_set(mask, row, col, w) {
        lemma_run_height(mask, row + 1, col, w);
        let h = run_height(mask, row, col, w);
        assert forall|l: int| 0 <= l < h implies row_set(mask, #[trigger] (row + l), col, w) by {
            if l > 0 {
                assert(row_set(mask, (row + 1) + (l - 1), col, w));
            }
        }
    }
}

/// The rectangle cut out at a set cell lies inside the mask, starts at that
/// cell, and holds set cells only.
pub proof fn lemma_rect_at(mask: Seq<bool>, row: int, col: int)
    requires
        cell(mask, row, col),
    ensures
        rect_at(mask, row, col).in_mask(),
        rect_at(mask, row, col).i == col,
        rect_at(mask, row, col).j == row,
        rect_at(mask, row, col).w == run_width(mask, row, col),
        rect_at(mask, row, col).h == run_height(mask, row, col, run_width(mask, row, col) as int),
        forall|r: int, c: int| #[trigger]
            rect_at(mask, row, col).covers(r, c) ==> cell(mask, r, c),
{
    let w = run_width(mask, row, col);
    let h = run_height(mask, row, col, w as int);
    lemma_run_width(mask, row, col);
    lemma_run_height(mask, row, col, w as int);
    let rect = rect_at(mask, row, col);
    assert forall|r: int, c: int| #[trigger] rect.covers(r, c) implies cell(mask, r, c) by {
        assert(row_set(mask, row + (r - row), col, w as int));
        assert(cell(mask, r, col + (c - col)));
    }
}

/// Whether `rects` cut the set cells of `mask` into rectangles: each lies in
/// the mask and holds set cells only, no two share a cell, and every set cell
/// lies in one of them.
pub open spec fn partitions(rects: Seq<Rect>, mask: Seq<bool>) -> bool {
    &&& forall|k: int| 0 <= k < rects.len() ==> #[trigger] rects[k].in_mask()
    &&& forall|k: int, r: int, c: int|
        0 <= k < rects.len() && #[trigger] rects[k].covers(r, c) ==> cell(mask, r, c)
    &&& forall|k1: int, k2: int, r: int, c: int|
        0 <= k1 < k2 < rects.len() ==> !(#[trigger] rects[k1].covers(r, c)
            && #[trigger] rects[k2].covers(r, c))
    &&& forall|r: int, c: int| #[trigger]
        cell(mask, r, c) ==> exists|k: int| 0 <= k < rects.len() && #[trigger] rects[k].covers(r, c)
}

/// Whether no set cell comes before the cell in row `row`, column `col` in
/// scan order.
pub open spec fn unset_before(mask: Seq<bool>, row: int, col: int) -> bool {
    forall|r: int, c: int| #[trigger] cell(mask, r, c) ==> r > row || (r == row && c >= col)
}

/// A cell is set after clearing a rectangle exactly if it was set before and
/// lies outside the rectangle.
pub proof fn lemma_clear_rect(mask: Seq<bool>, rect: Rect)
    requires
        mask.len() == MASK_SIZE,
    ensures
        clear_rect(mask, rect).len() == MASK_SIZE,
        forall|r: int, c: int| #[trigger]
            cell(clear_rect(mask, rect), r, c) <==> cell(mask, r, c) && !rect.covers(r, c),
{
    let cleared = clear_rect(mask, rect);
    assert forall|r: int, c: int| #[trigger]
        cell(cleared, r, c) <==> cell(mask, r, c) && !rect.covers(r, c) by {
        if 0 <= r < CHUNK_SIZE && 0 <= c < CHUNK_SIZE {
            let n = r * CHUNK_SIZE + c;
            assert(n / 16 == r && n % 16 == c);
        }
    }
}

/// From any point of the scan on, the merge cuts the set cells that are left
/// into rectangles.
pub proof fn lemma_merged_from_partitions(mask: Seq<bool>, row: int, col: int)
    requires
        mask.len() == MASK_SIZE,
        0 <= row,
        0 <= col <= CHUNK_SIZE,
        unset_before(mask, row, col),
    ensures
        partitions(merged_from(mask, row, col), mask),
    decreases CHUNK_SIZE - row, CHUNK_SIZE - col,
{
    let rects = merged_from(mask, row, col);
    if row >= CHUNK_SIZE {
    } else if col >= CHUNK_SIZE {
        lemma_merged_from_partitions(mask, row + 1, 0);
    } else if !cell(mask, row, col) {
        lemma_merged_from_partitions(mask, row, col + 1);
    } else {
        let rect = rect_at(mask, row, col);
        let w = run_width(mask, row, col);
        let cleared = clear_rect(mask, rect);
        let rest = merged_from(cleared, row, col + w);
        lemma_rect_at(mask, row, col);
        lemma_clear_rect(mask, rect);
        assert(unset_before(cleared, row, col + w)) by {
            assert forall|r: int, c: int| #[trigger] cell(cleared, r, c) implies r > row || (r
                == row && c >= col + w) by {
                assert(cell(mask, r, c));
                assert(!rect.covers(r, c));
            }
        }
        lemma_merged_from_partitions(cleared, row, col + w);
        assert(rects == seq![rect] + rest);
        assert forall|k: int| 0 <= k < rects.len() implies #[trigger] rects[k].in_mask() by {
            if k > 0 {
                assert(rects[k] == rest[k - 1]);
            }
        }
        assert forall|k: int, r: int, c: int|
            0 <= k < rects.len() && #[trigger] rects[k].covers(r, c) implies cell(mask, r, c) by {
            if k > 0 {
                assert(rects[k] == rest[k - 1]);
                assert(rest[k - 1].covers(r, c));
                assert(cell(cleared, r, c));
            }
        }
        assert forall|k1: int, k2: int, r: int, c: int| 0 <= k1 < k2 < rects.len() implies !(
        #[trigger] rects[k1].covers(r, c) && #[trigger] rects[k2].covers(r, c)) by {
            assert(rects[k2] == rest[k2 - 1]);
            if rects[k2].covers(r, c) {
                assert(rest[k2 - 1].covers(r, c));
                assert(cell(cleared, r, c));
                if k1 > 0 {
                    assert(rects[k1] == rest[k1 - 1]);
                }
            }
        }
        assert forall|r: int, c: int| #[trigger] cell(mask, r, c) implies exists|k: int|
            0 <= k < rects.len() && #[trigger] rects[k].covers(r, c) by {
            if rect.covers(r, c) {
                assert(rects[0].covers(r, c));
            } else {
                assert(cell(cleared, r, c));
                let k = choose|k: int| 0 <= k < rest.len() && #[trigger] rest[k].covers(r, c);
                assert(rects[k + 1] == rest[k]);
                assert(rects[k + 1].covers(r, c));
            }
        }
    }
}

/// The merge cuts the set cells of a mask into rectangles: every set cell
/// lies in exactly one of them, and no cell that is not set lies in any.
pub proof fn lemma_merged_rects_partition(mask: Seq<bool>)
    requires
        mask.len() == MASK_SIZE,
    ensures
        partitions(merged_rects(mask), mask),
{
    lemma_merged_from_partitions(mask, 0, 0);
}

/// The merge produces at most one rectangle for each cell that it has yet to
/// scan.
pub proof fn lemma_merged_from_len(mask: Seq<bool>, row: int, col: int)
    requires
        0 <= row <= CHUNK_SIZE,
        0 <= col <= CHUNK_SIZE,
    ensures
        merged_from(mask, row, col).len() <= (CHUNK_SIZE - row) * CHUNK_SIZE - col + (if row
            == CHUNK_SIZE {
            col
        } else {
            0
        }),
    decreases CHUNK_SIZE - row, CHUNK_SIZE - col,
{
    if row >= CHUNK_SIZE {
    } else if col >= CHUNK_SIZE {
        lemma_merged_from_len(mask, row + 1, 0);
    } else if !cell(mask, row, col) {
        lemma_merged_from_len(mask, row, col + 1);
    } else {
        let rect = rect_at(mask, row, col);
        lemma_run_width(mask, row, col);
        lemma_merged_from_len(clear_rect(mask, rect), row, col + run_width(mask, row, col));
    }
}

/// A run is as long as the stretch of set cells that ends before an unset
/// cell.
pub proof fn lemma_run_width_is(mask: Seq<bool>, row: int, col: int, w: int)
    requires
        0 <= w,
        row_set(mask, row, col, w),
        !cell(mask, row, col + w),
    ensures
        run_width(mask, row, col) == w,
    decreases w,
{
    if w > 0 {
        assert(cell(mask, row, col + 0));
        assert forall|k: int| 0 <= k < w - 1 implies cell(mask, row, #[trigger] (col + 1 + k)) by {
            assert(cell(mask, row, col + (k + 1)));
        }
        lemma_run_width_is(mask, row, col + 1, w - 1);
    }
}

/// A stack of rows is as tall as the stretch of set rows that ends at the
/// end of the mask or before a row that is not set all along.
pub proof fn lemma_run_height_is(mask: Seq<bool>, row: int, col: int, w: int, h: int)
    requires
        0 <= h,
        0 <= row,
        row + h <= CHUNK_SIZE,
        forall|l: int| 0 <= l < h ==> row_set(mask, #[trigger] (row + l), col, w),
        row + h == CHUNK_SIZE || !row_set(mask, row + h, col, w),
    ensures
        run_height(mask, row, col, w) == h,
    decreases h,
{
    if h > 0 {
        assert(row_set(mask, row + 0, col, w));
        assert forall|l: int| 0 <= l < h - 1 implies row_set(
            mask,
            #[trigger] (row + 1 + l),
            col,
            w,
        ) by {
            assert(row_set(mask, row + (l + 1), col, w));
        }
        lemma_run_height_is(mask, row + 1, col, w, h - 1);
    }
}

/// The merge passes over unset cells: as long as no set cell comes before
/// the cell in row `to_row`, column `to_col`, a merge from an earlier cell on
/// produces what a merge from that cell on does.
pub proof fn lemma_merge_skips_unset(mask: Seq<bool>, row: int, col: int, to_row: int, to_col: int)
    requires
        0 <= row,
        0 <= col <= CHUNK_SIZE,
        0 <= to_col < CHUNK_SIZE,
        to_row < CHUNK_SIZE,
        row < to_row || (row == to_row && col <= to_col),
        unset_before(mask, to_row, to_col),
    ensures
        merged_from(mask, row, col) == merged_from(mask, to_row, to_col),
    decreases to_row - row, CHUNK_SIZE - col,
{
    if row == to_row && col == to_col {
    } else if col >= CHUNK_SIZE {
        lemma_merge_skips_unset(mask, row + 1, 0, to_row, to_col);
    } else {
        assert(!cell(mask, row, col));
        lemma_merge_skips_unset(mask, row, col + 1, to_row, to_col);
    }
}

/// A mask without set cells merges into nothing.
pub proof fn lemma_merge_of_nothing(mask: Seq<bool>, row: int, col: int)
    requires
        0 <= col <= CHUNK_SIZE,
        forall|r: int, c: int| !cell(mask, r, c),
    ensures
        merged_from(mask, row, col) == Seq::<Rect>::empty(),
    decreases CHUNK_SIZE - row, CHUNK_SIZE - col,
{
    if row < 0 || row >= CHUNK_SIZE {
    } else if col >= CHUNK_SIZE {
        lemma_merge_of_nothing(mask, row + 1, 0);
    } else {
        lemma_merge_of_nothing(mask, row, col + 1);
    }
}

/// A mask whose set cells fill a rectangle merges into that one rectangle.
pub proof fn lemma_merge_of_rect(mask: Seq<bool>, rect: Rect)
    requires
        mask.len() == MASK_SIZE,
        rect.in_mask(),
        forall|r: int, c: int| #[trigger] cell(mask, r, c) <==> rect.covers(r, c),
    ensures
        merged_rects(mask) == seq![rect],
{
    let row = rect.j as int;
    let col = rect.i as int;
    let w = rect.w as int;
    let h = rect.h as int;
    assert(rect.covers(row, col));
    lemma_merge_skips_unset(mask, 0, 0, row, col);
    assert(row_set(mask, row, col, w)) by {
        assert forall|k: int| 0 <= k < w implies cell(mask, row, #[trigger] (col + k)) by {
            assert(rect.covers(row, col + k));
        }
    }
    assert(!rect.covers(row, col + w));
    lemma_run_width_is(mask, row, col, w);
    assert forall|l: int| 0 <= l < h implies row_set(mask, #[trigger] (row + l), col, w) by {
        assert forall|k: int| 0 <= k < w implies cell(mask, row + l, #[trigger] (col + k)) by {
            assert(rect.covers(row + l, col + k));
        }
    }
    if row + h < CHUNK_SIZE {
        assert(!rect.covers(row + h, col + 0));
        assert(!cell(mask, row + h, col + 0));
    }
    lemma_run_height_is(mask, row, col, w, h);
    assert(rect_at(mask, row, col) == rect);
    let cleared = clear_rect(mask, rect);
    lemma_clear_rect(mask, rect);
    lemma_merge_of_nothing(cleared, row, col + w);
    assert(seq![rect] + Seq::<Rect>::empty() =~= seq![rect]);
}

/// Measures the run of set cells that starts at the set cell in row `j`,
/// column `i`.
fn grow_width(mask: &[bool; MASK_SIZE], j: usize, i: usize) -> (w: usize)
    requires
        cell(mask@, j as int, i as int),
    ensures
        w == run_width(mask@, j as int, i as int),
{
    let n = j * CHUNK_SIZE + i;
    let mut w: usize = 1;
    while i + w < CHUNK_SIZE && mask[n + w]
        invariant
            j < CHUNK_SIZE,
            n == j * CHUNK_SIZE + i,
            1 <= w <= CHUNK_SIZE - i,
            run_width(mask@, j as int, i as int) == w + run_width(mask@, j as int, i + w),
        decreases CHUNK_SIZE - w,
    {
        w += 1;
    }
    w
}

/// Whether the `w` cells from column `i` on are all set in row `j`.
fn row_is_set(mask: &[bool; MASK_SIZE], j: usize, i: usize, w: usize) -> (all: bool)
    requires
        j < CHUNK_SIZE,
        i + w <= CHUNK_SIZE,
    ensures
        all == row_set(mask@, j as int, i as int, w as int),
{
    let n = j * CHUNK_SIZE + i;
    let mut k: usize = 0;
    while k < w
        invariant
            j < CHUNK_SIZE,
            i + w <= CHUNK_SIZE,
            n == j * CHUNK_SIZE + i,
            k <= w,
            row_set(mask@, j as int, i as int, k as int),
        decreases w - k,
    {
        if !mask[n + k] {
            assert(!cell(mask@, j as int, i + k));
            return false;
        }
        k += 1;
    }
    true
}

/// Counts the rows, from row `j` on, in which the `w` cells from column `i`
/// on are all set. Row `j` itself is known to be.
fn grow_height(mask: &[bool; MASK_SIZE], j: usize, i: usize, w: usize) -> (h: usize)
    requires
        j < CHUNK_SIZE,
        i + w <= CHUNK_SIZE,
        row_set(mask@, j as int, i as int, w as int),
    ensures
        h == run_height(mask@, j as int, i as int, w as int),
{
    let mut h: usize = 1;
    while j + h < CHUNK_SIZE && row_is_set(mask, j + h, i, w)
        invariant
            i + w <= CHUNK_SIZE,
            1 <= h <= CHUNK_SIZE - j,
            run_height(mask@, j as int, i as int, w as int) == h + run_height(
                mask@,
                j + h,
                i as int,
                w as int,
            ),
        decreases CHUNK_SIZE - h,
    {
        h += 1;
    }
    h
}

/// Unsets the cells of `rect`.
fn clear(mask: &mut [bool; MASK_SIZE], rect: Rect)
    requires
        rect.in_mask(),
    ensures
        final(mask)@ == clear_rect(old(mask)@, rect),
{
    let n = rect.j * CHUNK_SIZE + rect.i;
    for l in 0..rect.h
        invariant
            rect.in_mask(),
            n == rect.j * CHUNK_SIZE + rect.i,
            forall|m: int|
                0 <= m < MASK_SIZE ==> mask@[m] == (old(mask)@[m] && !(rect.covers(m / 16, m % 16)
                    && m / 16 < rect.j + l)),
    {
        for k in 0..rect.w
            invariant
                rect.in_mask(),
                l < rect.h,
                n == rect.j * CHUNK_SIZE + rect.i,
                forall|m: int|
                    0 <= m < MASK_SIZE ==> mask@[m] == (old(mask)@[m] && !(rect.covers(
                        m / 16,
                        m % 16,
                    ) && (m / 16 < rect.j + l || (m / 16 == rect.j + l && m % 16 < rect.i + k)))),
        {
            mask[n + k + l * CHUNK_SIZE] = false;
        }
    }
    assert(mask@ =~= clear_rect(old(mask)@, rect));
}

/// Merges the set cells of `mask` into rectangles.
pub fn merge_mask(mask: [bool; MASK_SIZE]) -> (rects: Vec<Rect>)
    ensures
        rects@ == merged_rects(mask@),
{
    let mut mask = mask;
    let ghost initial = mask@;
    let mut rects: Vec<Rect> = Vec::new();
    for j in 0..CHUNK_SIZE
        invariant
            rects@ + merged_from(mask@, j as int, 0) == merged_rects(initial),
    {
        let mut i: usize = 0;
        while i < CHUNK_SIZE
            invariant
                j < CHUNK_SIZE,
                i <= CHUNK_SIZE,
                rects@ + merged_from(mask@, j as int, i as int) == merged_rects(initial),
            decreases CHUNK_SIZE - i,
        {
            let n = j * CHUNK_SIZE + i;
            if mask[n] {
                proof {
                    lemma_rect_at(mask@, j as int, i as int);
                    lemma_run_width(mask@, j as int, i as int);
                }
                let w = grow_width(&mask, j, i);
                let h = grow_height(&mask, j, i, w);
                let rect = Rect { i, j, w, h };
                assert(rect == rect_at(mask@, j as int, i as int));
                let ghost rest = merged_from(clear_rect(mask@, rect), j as int, i + w);
                assert(rects@.push(rect) + rest =~= rects@ + (seq![rect] + rest));
                rects.push(rect);
                clear(&mut mask, rect);
                i += w;
            } else {
                i += 1;
            }
        }
    }
    assert(rects@ + Seq::<Rect>::empty() =~= rects@);
    rects
}

} // verus!
