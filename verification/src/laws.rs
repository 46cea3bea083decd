//! Properties of the game that span several operations.
use vstd::prelude::*;
use crate::board::{collapsed, full_rows, keep_unfilled, lemma_collapsed_has_no_full_row, lemma_keep_and_full_partition, spec_fits, Board, H};
use crate::game::{
    cleared_count, piece_placed, rotated, LINE_SCORE,
    can_shift, drop_row, drops, falls, ghost_row, holds, piece_fits, refilled, settles,
    shifts, turns, upcoming, Game, Piece,
};
use crate::input::{is_quit, key_effect, Key, Modifiers, Outcome};
use crate::shape::{shape_cells, Shape};
use crate::view::{first_tint, lit, quadrant, Tint};

verus! {

/// While the line-clear animation plays, shifting, turning, hard-dropping, gravity and
/// holding all leave the piece, the board and the score as they were.
pub proof fn law_clearing_freezes_piece(a: Game, b: Game, dx: int, dy: int, dr: u8)
    requires
        a.clearing is Some,
        shifts(a, b, dx, dy) || turns(a, b, dr) || drops(a, b) || falls(a, b) || holds(a, b),
    ensures
        b.piece == a.piece,
        b.board == a.board,
        b.score == a.score,
        b.clearing == a.clearing,
{
}

/// A piece can be held only once: a second hold right after the first changes nothing.
pub proof fn law_hold_once_per_piece(a: Game, b: Game, c: Game)
    requires
        holds(a, b),
        holds(b, c),
    ensures
        c == b,
{
}

/// The ghost row is where a fitting piece lands: every row from the piece down to it
/// fits, and the row below it does not.
pub proof fn law_ghost_is_landing(b: Board, p: Piece)
    requires
        piece_fits(b, p),
    ensures
        p.y <= ghost_row(b, p),
        forall|y: int| p.y <= y <= ghost_row(b, p) ==> spec_fits(b, p.shape, p.rot, p.x as int, y),
        !spec_fits(b, p.shape, p.rot, p.x as int, ghost_row(b, p) + 1),
{
    lemma_landing_from(b, p, p.y as int);
}

proof fn lemma_landing_from(b: Board, p: Piece, y: int)
    requires
        spec_fits(b, p.shape, p.rot, p.x as int, y),
    ensures
        y <= drop_row(b, p, y),
        forall|z: int| y <= z <= drop_row(b, p, y) ==> spec_fits(b, p.shape, p.rot, p.x as int, z),
        !spec_fits(b, p.shape, p.rot, p.x as int, drop_row(b, p, y) + 1),
    decreases H - y,
{
    crate::game::lemma_turned_in_box_of(p);
    if y < H && spec_fits(b, p.shape, p.rot, p.x as int, y + 1) {
        lemma_landing_from(b, p, y + 1);
    } else if y >= H {
        crate::game::lemma_fits_above_floor(b, p, y);
    }
}

/// Finishing a clear removes exactly the full rows: the other rows keep their order at
/// the bottom, empty rows fill the top, no full row is left, and the line count grows by
/// the number of rows removed.
pub proof fn law_finish_clear_removes_full_rows(a: Game, b: Game)
    requires
        a.inv(),
        a.clearing is Some,
        settles(a, b),
    ensures
        b.board@ == collapsed(a.board),
        b.board@.subrange(H - keep_unfilled(a.board@).len(), H as int) == keep_unfilled(a.board@),
        full_rows(b.board).len() == 0,
        b.lines == a.lines + (H - keep_unfilled(a.board@).len()),
{
    lemma_keep_and_full_partition(a.board@, 0);
    lemma_collapsed_has_no_full_row(a.board);
    assert(a.clearing->0.rows@.map_values(|r: u8| r as int).len() == a.clearing->0.rows@.len());
    assert(b.board@.subrange(H - keep_unfilled(a.board@).len(), H as int) =~= keep_unfilled(a.board@));
}

/// After a clear finishes (or a lock settles), the newly dealt piece stands where it fits
/// unless the game is over: the piece is legal while the game goes on.
pub proof fn law_settled_piece_is_legal(a: Game, b: Game)
    requires
        settles(a, b),
    ensures
        !b.over ==> piece_fits(b.board, b.piece),
        b.clearing is None,
{
}

/// Collapsing a board leaves nothing to collapse: a second clear finds no full row and
/// changes nothing.
pub proof fn law_clear_lines_idempotent(b: Board, b2: Board)
    requires
        b2@ == collapsed(b),
    ensures
        full_rows(b2).len() == 0,
        collapsed(b2) == b2@,
{
    lemma_collapsed_has_no_full_row(b);
    lemma_keep_and_full_partition(b2@, 0);
    crate::board::lemma_keep_all_unfilled(b2@);
    assert(collapsed(b2) =~= b2@);
}

/// Refilling never reorders or drops the shapes already queued: the old queue stays the
/// front of the new one.
pub proof fn law_refill_keeps_queue(q: Seq<Shape>, bag: Seq<Shape>, q2: Seq<Shape>, bag2: Seq<Shape>)
    requires
        refilled(q, bag, q2, bag2),
    ensures
        q2.len() >= 5,
        q2.len() >= q.len(),
        q2.subrange(0, q.len() as int) == q,
{
    let u = upcoming(q, bag);
    let u2 = upcoming(q2, bag2);
    assert forall|i: int| 0 <= i < q.len() implies q2[i] == q[i] by {
        assert(u2[i] == q2[i]);
        assert(u[i] == q[i]);
        if u2 == u {
        } else {
            let p = choose|p: Seq<Shape>| #[trigger] crate::game::is_bag(p) && u2 == u + p;
            assert(u2[i] == (u + p)[i]);
        }
    }
    assert(q2.subrange(0, q.len() as int) =~= q);
}

/// No key but restart lowers the score.
pub proof fn law_score_never_decreases(code: Key, mods: Modifiers, a: Game, b: Game, out: Outcome)
    requires
        key_effect(code, mods, a, b, out),
        code != Key::Char('r'),
    ensures
        b.score >= a.score,
{
    crate::game::lemma_drop_row(a.board, a.piece, a.piece.y as int);
}

/// Clearing n rows at once scores the table 0, 100, 300, 500, 800 times the level: a
/// single 100, a double 300, a triple 500, four rows 800 (per level), and the floating
/// text shows those points.
pub proof fn law_line_points(a: Game, b: Game)
    requires
        a.inv(),
        settles(a, b),
    ensures
        b.score == a.score + LINE_SCORE[cleared_count(a)] * a.level,
        cleared_count(a) == 0 ==> b.score == a.score,
        cleared_count(a) == 1 ==> b.score == a.score + 100 * a.level,
        cleared_count(a) == 2 ==> b.score == a.score + 300 * a.level,
        cleared_count(a) == 3 ==> b.score == a.score + 500 * a.level,
        cleared_count(a) == 4 ==> b.score == a.score + 800 * a.level,
        b.lines == a.lines + cleared_count(a),
        cleared_count(a) > 0 ==> b.popups@.last().text@ == seq!['+'] + crate::ext::decimal(
            (LINE_SCORE[cleared_count(a)] * a.level) as nat,
        ),
{
    assert(LINE_SCORE[0] == 0 && LINE_SCORE[1] == 100 && LINE_SCORE[2] == 300 && LINE_SCORE[3]
        == 500 && LINE_SCORE[4] == 800);
    if a.clearing is Some {
        assert(a.clearing->0.rows@.map_values(|r: u8| r as int).len() == a.clearing->0.rows@.len());
    }
}

/// The piece turned to rotation `nr` with its box moved by (dx, dy).
pub open spec fn turned_pose(p: Piece, nr: u8, dx: int, dy: int) -> Piece {
    Piece { shape: p.shape, rot: nr, x: (p.x + dx) as i8, y: (p.y + dy) as i8 }
}

/// A rotation turns the piece to `(rot + dr) % 4` and tries, in order: in place, one
/// column left, one right, two left, two right, and one row up; it takes the first pose
/// that fits, and keeps the piece if none does. So a turn never moves the piece down,
/// moves it at most two columns, rises at most one row (and only without a sideways move),
/// and ends in a pose that fits whenever it changed anything.
pub proof fn law_rotation_kicks(b: Board, p: Piece, dr: u8)
    requires
        piece_placed(p),
        p.rot + dr <= u8::MAX,
    ensures
        ({
            let nr = ((p.rot + dr) % 4) as u8;
            let r = rotated(b, p, dr);
            &&& r == p || (r.shape == p.shape && r.rot == nr && piece_fits(b, r))
            &&& r.y <= p.y
            &&& p.y - 1 <= r.y
            &&& -2 <= r.x - p.x <= 2
            &&& r.y < p.y ==> r.x == p.x
            &&& piece_fits(b, turned_pose(p, nr, 0, 0)) ==> r == turned_pose(p, nr, 0, 0)
            &&& !piece_fits(b, turned_pose(p, nr, 0, 0)) && piece_fits(b, turned_pose(p, nr, -1, 0))
                ==> r == turned_pose(p, nr, -1, 0)
            &&& !piece_fits(b, turned_pose(p, nr, 0, 0)) && !piece_fits(b, turned_pose(p, nr, -1, 0))
                && piece_fits(b, turned_pose(p, nr, 1, 0)) ==> r == turned_pose(p, nr, 1, 0)
            &&& !piece_fits(b, turned_pose(p, nr, 0, 0)) && !piece_fits(b, turned_pose(p, nr, -1, 0))
                && !piece_fits(b, turned_pose(p, nr, 1, 0)) && piece_fits(b, turned_pose(p, nr, -2, 0))
                ==> r == turned_pose(p, nr, -2, 0)
            &&& !piece_fits(b, turned_pose(p, nr, 0, 0)) && !piece_fits(b, turned_pose(p, nr, -1, 0))
                && !piece_fits(b, turned_pose(p, nr, 1, 0)) && !piece_fits(b, turned_pose(p, nr, -2, 0))
                && piece_fits(b, turned_pose(p, nr, 2, 0)) ==> r == turned_pose(p, nr, 2, 0)
            &&& !piece_fits(b, turned_pose(p, nr, 0, 0)) && !piece_fits(b, turned_pose(p, nr, -1, 0))
                && !piece_fits(b, turned_pose(p, nr, 1, 0)) && !piece_fits(b, turned_pose(p, nr, -2, 0))
                && !piece_fits(b, turned_pose(p, nr, 2, 0)) && piece_fits(b, turned_pose(p, nr, 0, -1))
                ==> r == turned_pose(p, nr, 0, -1)
            &&& !piece_fits(b, turned_pose(p, nr, 0, 0)) && !piece_fits(b, turned_pose(p, nr, -1, 0))
                && !piece_fits(b, turned_pose(p, nr, 1, 0)) && !piece_fits(b, turned_pose(p, nr, -2, 0))
                && !piece_fits(b, turned_pose(p, nr, 2, 0)) && !piece_fits(b, turned_pose(p, nr, 0, -1))
                ==> r == p
        }),
{
    crate::game::lemma_placed_bounds(p);
    reveal_with_fuel(crate::game::first_kick, 7);
}

/// Whether cell `c` is one of the four cells `cs`.
pub open spec fn has_cell(cs: Seq<(int, int)>, c: (int, int)) -> bool {
    cs[0] == c || cs[1] == c || cs[2] == c || cs[3] == c
}

/// Whether two cells share an edge.
pub open spec fn adjacent(c: (int, int), d: (int, int)) -> bool {
    (c.0 == d.0 && (c.1 - d.1 == 1 || d.1 - c.1 == 1)) || (c.1 == d.1 && (c.0 - d.0 == 1 || d.0
        - c.0 == 1))
}

/// How many of the six pairs of the four cells share an edge.
pub open spec fn edges(cs: Seq<(int, int)>) -> int {
    (if adjacent(cs[0], cs[1]) { 1int } else { 0 }) + (if adjacent(cs[0], cs[2]) { 1int } else { 0 })
        + (if adjacent(cs[0], cs[3]) { 1int } else { 0 }) + (if adjacent(cs[1], cs[2]) { 1int } else { 0 })
        + (if adjacent(cs[1], cs[3]) { 1int } else { 0 }) + (if adjacent(cs[2], cs[3]) { 1int } else { 0 })
}

/// Whether cell `c` shares an edge with one of the cells `cs`.
pub open spec fn touches_another(cs: Seq<(int, int)>, c: (int, int)) -> bool {
    adjacent(c, cs[0]) || adjacent(c, cs[1]) || adjacent(c, cs[2]) || adjacent(c, cs[3])
}

/// Four distinct cells joined edge to edge: every cell touches another and at least three
/// pairs touch (two separate dominoes have only two).
pub open spec fn is_tetromino(cs: Seq<(int, int)>) -> bool {
    &&& cs.len() == 4
    &&& cs[0] != cs[1] && cs[0] != cs[2] && cs[0] != cs[3]
    &&& cs[1] != cs[2] && cs[1] != cs[3] && cs[2] != cs[3]
    &&& forall|i: int| 0 <= i < 4 ==> #[trigger] touches_another(cs, cs[i])
    &&& edges(cs) >= 3
}

/// In its spawn orientation each shape is the standard tetromino it is named after:
/// I a row of four; O a square; T a row of three with a cell above its middle; S and Z
/// the two skews; J and L a row of three with a cell above its left or right end.
pub proof fn law_spawn_cells(s: Shape)
    ensures
        shape_cells(s, 0) == (match s {
            Shape::I => seq![(0int, 1int), (1, 1), (2, 1), (3, 1)],
            Shape::O => seq![(0int, 0int), (1, 0), (0, 1), (1, 1)],
            Shape::T => seq![(1int, 0int), (0, 1), (1, 1), (2, 1)],
            Shape::S => seq![(1int, 0int), (2, 0), (0, 1), (1, 1)],
            Shape::Z => seq![(0int, 0int), (1, 0), (1, 1), (2, 1)],
            Shape::J => seq![(0int, 0int), (0, 1), (1, 1), (2, 1)],
            Shape::L => seq![(2int, 0int), (0, 1), (1, 1), (2, 1)],
        }),
{
}

/// Every rotation state of every shape is a tetromino: four distinct cells joined edge to
/// edge.
pub proof fn law_cells_form_a_tetromino(s: Shape, rot: u8)
    ensures
        is_tetromino(shape_cells(s, rot)),
{
    lemma_turned_tetromino(s, (rot % 4) as nat);
}

/// A quarter turn keeps cells distinct and keeps which pairs share an edge.
proof fn lemma_turned_tetromino(s: Shape, r: nat)
    ensures
        is_tetromino(crate::shape::turned(s, r)),
    decreases r,
{
    let cs = crate::shape::turned(s, r);
    if r == 0 {
        assert(is_tetromino(cs));
    } else {
        let p = crate::shape::turned(s, (r - 1) as nat);
        lemma_turned_tetromino(s, (r - 1) as nat);
        let n = crate::shape::spec_size(s);
        assert(forall|c: (int, int), d: (int, int)|
            adjacent(crate::shape::turn(n, c), crate::shape::turn(n, d)) == adjacent(c, d));
        assert(touches_another(p, p[0]) && touches_another(p, p[1]) && touches_another(p, p[2])
            && touches_another(p, p[3]));
        assert(touches_another(cs, cs[0]) && touches_another(cs, cs[1]) && touches_another(cs, cs[2])
            && touches_another(cs, cs[3]));
    }
}

/// No two shapes look alike: in the spawn orientation the cells of different shapes are
/// different sets (some cell of one is not a cell of the other).
pub proof fn law_shapes_differ(s1: Shape, s2: Shape)
    requires
        s1 != s2,
    ensures
        !(has_cell(shape_cells(s2, 0), shape_cells(s1, 0)[0]) && has_cell(shape_cells(s2, 0), shape_cells(s1, 0)[1])
            && has_cell(shape_cells(s2, 0), shape_cells(s1, 0)[2]) && has_cell(shape_cells(s2, 0), shape_cells(s1, 0)[3])),
{
}

/// The quadrants a block character lights, as its Unicode name gives them: top-left,
/// top-right, bottom-left, bottom-right.
pub open spec fn glyph_lights(c: char) -> (bool, bool, bool, bool) {
    if c == '\u{2588}' {
        (true, true, true, true)  // FULL BLOCK
    } else if c == '\u{2580}' {
        (true, true, false, false)  // UPPER HALF BLOCK
    } else if c == '\u{2584}' {
        (false, false, true, true)  // LOWER HALF BLOCK
    } else if c == '\u{258c}' {
        (true, false, true, false)  // LEFT HALF BLOCK
    } else if c == '\u{2590}' {
        (false, true, false, true)  // RIGHT HALF BLOCK
    } else if c == '\u{2596}' {
        (false, false, true, false)  // QUADRANT LOWER LEFT
    } else if c == '\u{2597}' {
        (false, false, false, true)  // QUADRANT LOWER RIGHT
    } else if c == '\u{2598}' {
        (true, false, false, false)  // QUADRANT UPPER LEFT
    } else if c == '\u{2599}' {
        (true, false, true, true)  // QUADRANT UPPER LEFT AND LOWER LEFT AND LOWER RIGHT
    } else if c == '\u{259a}' {
        (true, false, false, true)  // QUADRANT UPPER LEFT AND LOWER RIGHT
    } else if c == '\u{259b}' {
        (true, true, true, false)  // QUADRANT UPPER LEFT AND UPPER RIGHT AND LOWER LEFT
    } else if c == '\u{259c}' {
        (true, true, false, true)  // QUADRANT UPPER LEFT AND UPPER RIGHT AND LOWER RIGHT
    } else if c == '\u{259d}' {
        (false, true, false, false)  // QUADRANT UPPER RIGHT
    } else if c == '\u{259e}' {
        (false, true, true, false)  // QUADRANT UPPER RIGHT AND LOWER LEFT
    } else if c == '\u{259f}' {
        (false, true, true, true)  // QUADRANT UPPER RIGHT AND LOWER LEFT AND LOWER RIGHT
    } else {
        (false, false, false, false)
    }
}

/// The character a tile is drawn with lights exactly the quadrants whose pixels show the
/// foreground colour (the first coloured pixel); the others show the background.
pub proof fn law_tile_glyph_lights_foreground(
    tl: Option<Tint>,
    tr: Option<Tint>,
    bl: Option<Tint>,
    br: Option<Tint>,
)
    ensures
        ({
            let fg = first_tint(tl, tr, bl, br);
            glyph_lights(quadrant(lit(tl, fg), lit(tr, fg), lit(bl, fg), lit(br, fg))) == (
                lit(tl, fg),
                lit(tr, fg),
                lit(bl, fg),
                lit(br, fg),
            )
        }),
{
}

/// While the game is paused or over, every key but quit, space and r does nothing: the
/// outcome is `Nop` and the game is unchanged.
pub proof fn law_keys_dead_while_paused_or_over(
    code: Key,
    mods: Modifiers,
    a: Game,
    b: Game,
    out: Outcome,
)
    requires
        key_effect(code, mods, a, b, out),
        a.paused || a.over,
        !is_quit(code, mods),
        code != Key::Char(' '),
        code != Key::Char('r'),
    ensures
        out == Outcome::Nop,
        b == a,
{
}

} // verus!
