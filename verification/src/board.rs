use vstd::prelude::*;
use crate::shape::{cells_view, in_box, lemma_turned_in_box, shape_cells, Shape};

verus! {

/// Width of the playfield in cells.
pub const W: usize = 10;

/// Height of the playfield in cells.
pub const H: usize = 20;

/// One row of the playfield, left to right.
pub type Row = [Option<Shape>; W];

/// The playfield, top row first; `Some(s)` is a locked cell of shape `s`.
pub type Board = [Row; H];

/// A row with no locked cell.
pub open spec fn empty_row() -> Row {
    [None; W]
}

/// Whether every cell of a row is locked.
pub open spec fn row_full(r: Row) -> bool {
    forall|x: int| 0 <= x < W ==> (#[trigger] r[x]) is Some
}

/// Whether no cell of a row is locked.
pub open spec fn row_empty(r: Row) -> bool {
    forall|x: int| 0 <= x < W ==> (#[trigger] r[x]) is None
}

/// Whether every cell of the board is free.
pub open spec fn board_empty(b: Board) -> bool {
    forall|y: int| 0 <= y < H ==> row_empty(#[trigger] b[y])
}

/// Whether a piece cell may stand at (x, y): inside the side walls, above the floor,
/// and either above the field (y < 0 counts as free) or on a free cell.
pub open spec fn cell_free(b: Board, x: int, y: int) -> bool {
    &&& 0 <= x < W
    &&& y < H
    &&& (y < 0 || b[y][x] is None)
}

/// Whether shape `s` in rotation `rot` with its box at (px, py) fits on the board.
pub open spec fn spec_fits(b: Board, s: Shape, rot: u8, px: int, py: int) -> bool {
    forall|i: int|
        0 <= i < 4 ==> cell_free(b, px + (#[trigger] shape_cells(s, rot)[i]).0, py + shape_cells(s, rot)[i].1)
}

/// The first cell's coordinates stay within `i8` (the fit test adds them in `i8`).
pub open spec fn fits_defined(s: Shape, rot: u8, px: int, py: int) -> bool {
    &&& px + shape_cells(s, rot)[0].0 <= i8::MAX
    &&& py + shape_cells(s, rot)[0].1 <= i8::MAX
}

/// The rows that are not full, in their order (a front-recursive filter).
pub open spec fn keep_unfilled(rows: Seq<Row>) -> Seq<Row>
    decreases rows.len(),
{
    if rows.len() == 0 {
        Seq::empty()
    } else if row_full(rows[0]) {
        keep_unfilled(rows.drop_first())
    } else {
        seq![rows[0]] + keep_unfilled(rows.drop_first())
    }
}

/// The indices (counted from `base`) of the full rows, ascending.
pub open spec fn full_indices(rows: Seq<Row>, base: int) -> Seq<int>
    decreases rows.len(),
{
    if rows.len() == 0 {
        Seq::empty()
    } else if row_full(rows[0]) {
        seq![base] + full_indices(rows.drop_first(), base + 1)
    } else {
        full_indices(rows.drop_first(), base + 1)
    }
}

/// The full rows of a board, top to bottom.
pub open spec fn full_rows(b: Board) -> Seq<int> {
    full_indices(b@, 0)
}

/// The board after removing its full rows: the remaining rows keep their order and
/// settle at the bottom, and empty rows fill the top.
pub open spec fn collapsed(b: Board) -> Seq<Row> {
    let kept = keep_unfilled(b@);
    Seq::new((H - kept.len()) as nat, |i: int| empty_row()) + kept
}

/// A filter never lengthens its input; together the kept rows and the full rows
/// account for every row exactly once.
pub proof fn lemma_keep_and_full_partition(rows: Seq<Row>, base: int)
    ensures
        keep_unfilled(rows).len() + full_indices(rows, base).len() == rows.len(),
    decreases rows.len(),
{
    if rows.len() > 0 {
        lemma_keep_and_full_partition(rows.drop_first(), base + 1);
    }
}

/// Appending a row appends its index to the full-row list exactly when it is full.
pub proof fn lemma_full_indices_push(rows: Seq<Row>, base: int, r: Row)
    ensures
        full_indices(rows.push(r), base) == full_indices(rows, base) + (if row_full(r) {
            seq![base + rows.len()]
        } else {
            Seq::<int>::empty()
        }),
    decreases rows.len(),
{
    if rows.len() == 0 {
        assert(rows.push(r).drop_first() =~= Seq::<Row>::empty());
        assert(full_indices(Seq::<Row>::empty(), base + 1) =~= Seq::<int>::empty());
        if row_full(r) {
            assert(full_indices(rows.push(r), base) =~= seq![base]);
        }
        assert(full_indices(rows.push(r), base) =~= full_indices(rows, base) + (if row_full(r) {
            seq![base + rows.len()]
        } else {
            Seq::<int>::empty()
        }));
    } else {
        assert(rows.push(r).drop_first() =~= rows.drop_first().push(r));
        lemma_full_indices_push(rows.drop_first(), base + 1, r);
        assert(full_indices(rows.push(r), base) =~= full_indices(rows, base) + (if row_full(r) {
            seq![base + rows.len()]
        } else {
            Seq::<int>::empty()
        }));
    }
}

/// Every listed full row is indeed full and lies in range, and the list ascends strictly.
pub proof fn lemma_full_indices_facts(rows: Seq<Row>, base: int)
    ensures
        forall|k: int|
            0 <= k < full_indices(rows, base).len() ==> base <= #[trigger] full_indices(rows, base)[k]
                < base + rows.len() && row_full(rows[full_indices(rows, base)[k] - base]),
        forall|k: int, j: int|
            0 <= k < j < full_indices(rows, base).len() ==> full_indices(rows, base)[k]
                < full_indices(rows, base)[j],
        forall|y: int|
            base <= y < base + rows.len() && row_full(#[trigger] rows[y - base])
                ==> full_indices(rows, base).contains(y),
    decreases rows.len(),
{
    if rows.len() > 0 {
        let t = rows.drop_first();
        lemma_full_indices_facts(t, base + 1);
        let f = full_indices(rows, base);
        let ft = full_indices(t, base + 1);
        assert forall|y: int|
            base <= y < base + rows.len() && row_full(#[trigger] rows[y - base]) implies f.contains(
            y,
        ) by {
            if y == base {
                assert(f[0] == base);
            } else {
                assert(rows[y - base] == t[y - (base + 1)]);
                assert(ft.contains(y));
                let k = choose|k: int| 0 <= k < ft.len() && ft[k] == y;
                if row_full(rows[0]) {
                    assert(f[k + 1] == y);
                } else {
                    assert(f[k] == y);
                }
            }
        }
        assert forall|k: int| 0 <= k < f.len() implies base <= #[trigger] f[k] < base + rows.len()
            && row_full(rows[f[k] - base]) by {
            if row_full(rows[0]) {
                if k > 0 {
                    assert(f[k] == ft[k - 1]);
                    assert(rows[f[k] - base] == t[ft[k - 1] - (base + 1)]);
                }
            } else {
                assert(f[k] == ft[k]);
                assert(rows[f[k] - base] == t[ft[k] - (base + 1)]);
            }
        }
    }
}

/// A sequence of rows none of which is full has no full-row index.
pub proof fn lemma_no_full_rows(rows: Seq<Row>, base: int)
    requires
        forall|i: int| 0 <= i < rows.len() ==> !row_full(#[trigger] rows[i]),
    ensures
        full_indices(rows, base).len() == 0,
    decreases rows.len(),
{
    if rows.len() > 0 {
        assert(!row_full(rows[0]));
        assert forall|i: int| 0 <= i < rows.drop_first().len() implies !row_full(
            #[trigger] rows.drop_first()[i],
        ) by {
            assert(rows.drop_first()[i] == rows[i + 1]);
        }
        lemma_no_full_rows(rows.drop_first(), base + 1);
    }
}

/// No kept row is full.
pub proof fn lemma_kept_rows_unfilled(rows: Seq<Row>)
    ensures
        forall|i: int| 0 <= i < keep_unfilled(rows).len() ==> !row_full(#[trigger] keep_unfilled(rows)[i]),
    decreases rows.len(),
{
    if rows.len() > 0 {
        lemma_kept_rows_unfilled(rows.drop_first());
        let t = keep_unfilled(rows.drop_first());
        if !row_full(rows[0]) {
            assert forall|i: int| 0 <= i < keep_unfilled(rows).len() implies !row_full(
                #[trigger] keep_unfilled(rows)[i],
            ) by {
                if i > 0 {
                    assert(keep_unfilled(rows)[i] == t[i - 1]);
                }
            }
        }
    }
}

/// After removing the full rows, none is left.
pub proof fn lemma_collapsed_has_no_full_row(b: Board)
    ensures
        collapsed(b).len() == H,
        full_indices(collapsed(b), 0).len() == 0,
{
    let kept = keep_unfilled(b@);
    lemma_keep_and_full_partition(b@, 0);
    lemma_kept_rows_unfilled(b@);
    let c = collapsed(b);
    assert forall|i: int| 0 <= i < c.len() implies !row_full(#[trigger] c[i]) by {
        if i < H - kept.len() {
            assert(c[i] == empty_row());
            assert(empty_row()[0] is None);
        } else {
            assert(c[i] == kept[i - (H - kept.len())]);
        }
    }
    lemma_no_full_rows(c, 0);
}

/// Where no row is full, every row is kept.
pub proof fn lemma_keep_all_unfilled(rows: Seq<Row>)
    requires
        full_indices(rows, 0).len() == 0,
    ensures
        keep_unfilled(rows) == rows,
{
    lemma_full_indices_facts(rows, 0);
    assert forall|i: int| 0 <= i < rows.len() implies !row_full(#[trigger] rows[i]) by {
        if row_full(rows[i]) {
            assert(rows[i - 0] == rows[i]);
            assert(full_indices(rows, 0).contains(i));
        }
    }
    lemma_keep_when_none_full(rows);
}

/// Where no row is full, every row is kept (stated row by row).
pub proof fn lemma_keep_when_none_full(rows: Seq<Row>)
    requires
        forall|i: int| 0 <= i < rows.len() ==> !row_full(#[trigger] rows[i]),
    ensures
        keep_unfilled(rows) == rows,
    decreases rows.len(),
{
    if rows.len() > 0 {
        let t = rows.drop_first();
        assert forall|i: int| 0 <= i < t.len() implies !row_full(#[trigger] t[i]) by {
            assert(t[i] == rows[i + 1]);
        }
        lemma_keep_when_none_full(t);
        assert(!row_full(rows[0]));
        assert(keep_unfilled(rows) =~= rows);
    }
}

/// Whether every cell of a row is locked.
pub fn is_row_full(r: &Row) -> (full: bool)
    ensures
        full == row_full(*r),
{
    let mut x: usize = 0;
    while x < W
        invariant
            x <= W,
            forall|j: int| 0 <= j < x ==> (#[trigger] r[j]) is Some,
        decreases W - x,
    {
        if r[x].is_none() {
            return false;
        }
        x = x + 1;
    }
    true
}

/// Whether every cell of the piece's pose is inside the walls, above the floor and not
/// on a locked cell; cells above the field (y < 0) count as free.
pub fn fits(b: &Board, shape: Shape, rot: u8, px: i8, py: i8) -> (ok: bool)
    requires
        fits_defined(shape, rot, px as int, py as int),
    ensures
        ok == spec_fits(*b, shape, rot, px as int, py as int),
{
    let cs = shape.cells(rot);
    proof {
        lemma_turned_in_box(shape, (rot % 4) as nat);
    }
    let ghost sc = shape_cells(shape, rot);
    let mut i: usize = 0;
    while i < 4
        invariant
            i <= 4,
            cells_view(cs) == sc,
            sc == shape_cells(shape, rot),
            in_box(shape, sc),
            fits_defined(shape, rot, px as int, py as int),
            forall|j: int| 0 <= j < i ==> cell_free(*b, px + (#[trigger] sc[j]).0, py + sc[j].1),
        decreases 4 - i,
    {
        assert(sc[i as int] == (cs[i as int].0 as int, cs[i as int].1 as int));
        if i > 0 {
            assert(cell_free(*b, px + sc[0].0, py + sc[0].1));
        }
        let x: i8 = px + cs[i].0;
        let y: i8 = py + cs[i].1;
        if x < 0 || x >= W as i8 || y >= H as i8 {
            return false;
        }
        if y >= 0 && b[y as usize][x as usize].is_some() {
            return false;
        }
        i = i + 1;
    }
    true
}

} // verus!
