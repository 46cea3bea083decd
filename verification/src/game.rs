use vstd::prelude::*;
use std::collections::VecDeque;
use std::time::Instant;
pub use crate::board::fits;
pub use crate::board::{Board, H, W};
pub use crate::shape::{Shape, ALL};
use crate::board::{
    cell_free, collapsed, empty_row, fits_defined, full_indices, full_rows, is_row_full,
    keep_unfilled, lemma_collapsed_has_no_full_row, lemma_full_indices_facts,
    lemma_full_indices_push, lemma_keep_and_full_partition, row_full, spec_fits, Row,
};
use crate::ext::{
    decimal, decimal_text, duration_since, elapsed, instant_now, shuffle_shapes, whole_millis,
};
use vstd::string::StringExecFns;
use crate::shape::{cells_view, in_box, lemma_turned_in_box, shape_cells};

verus! {

/// The falling piece: its shape, rotation state and the top-left corner of its box.
#[derive(Clone, Copy, Debug)]
pub struct Piece {
    pub shape: Shape,
    pub rot: u8,
    pub x: i8,
    pub y: i8,
}

/// A line-clear animation in progress: the full rows (ascending) and when it began.
pub struct Clearing {
    pub rows: Vec<u8>,
    pub started: Instant,
}

/// A hard-drop trail: for each piece column (x, start row, landing row), in cells.
pub struct Trail {
    pub cols: Vec<(i8, i16, i16)>,
    pub shape: Shape,
    pub born: Instant,
}

/// A floating score text. `half_x` is twice the column of its centre (centres fall on
/// half cells); `y` is its row.
pub struct Popup {
    pub text: String,
    pub half_x: i16,
    pub y: i16,
    pub born: Instant,
}

/// The whole state of one game.
pub struct Game {
    pub board: Board,
    pub piece: Piece,
    pub queue: VecDeque<Shape>,
    pub hold: Option<Shape>,
    pub score: u32,
    pub lines: u32,
    pub level: u32,
    /// A new game starts paused (the READY state); space starts and pauses.
    pub paused: bool,
    pub over: bool,
    /// While a clear animation runs the piece is the one just locked and every move is ignored.
    pub clearing: Option<Clearing>,
    /// When the game began (phase of the breathing animation).
    pub born: Instant,
    /// Lock flash: the cells of the piece just locked, and when.
    pub flash: Option<(Vec<(u8, u8)>, Instant)>,
    /// Hard-drop trail.
    pub trail: Option<Trail>,
    /// Screen shake: when it began and its strength.
    pub shake: Option<(Instant, u8)>,
    /// Floating score texts.
    pub popups: Vec<Popup>,
    /// The undealt rest of the current 7-bag; it is dealt from its end.
    pub bag: Vec<Shape>,
    /// Whether the piece in play may still be held.
    pub can_hold: bool,
}

/// One shape of each kind, in the order of `ALL`.
pub open spec fn all_shapes() -> Seq<Shape> {
    seq![Shape::I, Shape::O, Shape::T, Shape::S, Shape::Z, Shape::J, Shape::L]
}

/// A sequence holding each of the seven shapes exactly once.
pub open spec fn is_bag(p: Seq<Shape>) -> bool {
    p.to_multiset() == all_shapes().to_multiset()
}

/// The order in which shapes will be dealt: the queue, then the bag from its end.
pub open spec fn upcoming(queue: Seq<Shape>, bag: Seq<Shape>) -> Seq<Shape> {
    queue + bag.reverse()
}

/// The refill rule: the queue is topped up to five shapes, the deal order is kept, and
/// at most one fresh bag (a permutation of the seven shapes) is appended to it.
pub open spec fn refilled(q: Seq<Shape>, bag: Seq<Shape>, q2: Seq<Shape>, bag2: Seq<Shape>) -> bool {
    &&& q2.len() == (if q.len() < 5 { 5 } else { q.len() })
    &&& {
        ||| upcoming(q2, bag2) == upcoming(q, bag)
        ||| exists|p: Seq<Shape>| #[trigger] is_bag(p) && upcoming(q2, bag2) == upcoming(q, bag) + p
    }
}

/// Cell `i` of piece `p` on the board.
pub open spec fn piece_cell(p: Piece, i: int) -> (int, int) {
    (p.x + shape_cells(p.shape, p.rot)[i].0, p.y + shape_cells(p.shape, p.rot)[i].1)
}

/// Whether the piece fits where it stands.
pub open spec fn piece_fits(b: Board, p: Piece) -> bool {
    spec_fits(b, p.shape, p.rot, p.x as int, p.y as int)
}

/// The placement every piece keeps: a normal rotation state, every cell between the side
/// walls and above the floor, and its box at most four rows above the field.
pub open spec fn piece_placed(p: Piece) -> bool {
    &&& p.rot < 4
    &&& p.y >= -4
    &&& forall|i: int|
        0 <= i < 4 ==> 0 <= #[trigger] piece_cell(p, i).0 < W && piece_cell(p, i).1 < H
}

/// Where a new piece of shape `s` appears.
pub open spec fn spawn_piece(s: Shape) -> Piece {
    Piece { shape: s, rot: 0, x: if s == Shape::O { 4 } else { 3 }, y: 0 }
}

/// The piece shifted by (dx, dy).
pub open spec fn shifted(p: Piece, dx: int, dy: int) -> Piece {
    Piece { shape: p.shape, rot: p.rot, x: (p.x + dx) as i8, y: (p.y + dy) as i8 }
}

/// The offsets a rotation tries, in order: in place, one left, one right, two left,
/// two right, one up.
pub open spec fn kick(k: int) -> (int, int) {
    if k == 0 {
        (0, 0)
    } else if k == 1 {
        (-1, 0)
    } else if k == 2 {
        (1, 0)
    } else if k == 3 {
        (-2, 0)
    } else if k == 4 {
        (2, 0)
    } else {
        (0, -1)
    }
}

/// The piece turned to rotation `nr` and moved by kick `k`.
pub open spec fn kicked(p: Piece, nr: u8, k: int) -> Piece {
    Piece { shape: p.shape, rot: nr, x: (p.x + kick(k).0) as i8, y: (p.y + kick(k).1) as i8 }
}

/// The first kick, from `j` on, at which the turned piece fits; 6 when none does.
pub open spec fn first_kick(b: Board, p: Piece, nr: u8, j: int) -> int
    decreases 6 - j,
{
    if j >= 6 {
        6
    } else if piece_fits(b, kicked(p, nr, j)) {
        j
    } else {
        first_kick(b, p, nr, j + 1)
    }
}

/// The rotation state after turning `dr` quarter turns.
pub open spec fn target_rot(p: Piece, dr: u8) -> u8 {
    ((p.rot + dr) % 4) as u8
}

/// The piece after a rotation attempt: turned with the first kick that fits, or unchanged.
pub open spec fn rotated(b: Board, p: Piece, dr: u8) -> Piece {
    let k = first_kick(b, p, target_rot(p, dr), 0);
    if k < 6 {
        kicked(p, target_rot(p, dr), k)
    } else {
        p
    }
}

/// The row the piece's box reaches when it falls straight down from row `y`.
pub open spec fn drop_row(b: Board, p: Piece, y: int) -> int
    decreases H - y,
{
    if y < H && spec_fits(b, p.shape, p.rot, p.x as int, y + 1) {
        drop_row(b, p, y + 1)
    } else {
        y
    }
}

/// The landing row of the piece (where its ghost is drawn).
pub open spec fn ghost_row(b: Board, p: Piece) -> int {
    drop_row(b, p, p.y as int)
}

/// Bounds implied by a placed piece.
pub proof fn lemma_placed_bounds(p: Piece)
    requires
        piece_placed(p),
    ensures
        -3 <= p.x <= 9,
        -4 <= p.y <= 19,
        in_box(p.shape, shape_cells(p.shape, p.rot)),
{
    lemma_turned_in_box(p.shape, (p.rot % 4) as nat);
    assert(0 <= piece_cell(p, 0).0 < W && piece_cell(p, 0).1 < H);
}

/// A pose that fits is placed between the walls and above the floor.
pub proof fn lemma_fits_in_field(b: Board, p: Piece)
    requires
        piece_fits(b, p),
    ensures
        forall|i: int| 0 <= i < 4 ==> 0 <= #[trigger] piece_cell(p, i).0 < W && piece_cell(p, i).1 < H,
{
    assert forall|i: int| 0 <= i < 4 implies 0 <= #[trigger] piece_cell(p, i).0 < W && piece_cell(p, i).1 < H by {
        assert(cell_free(b, piece_cell(p, i).0, piece_cell(p, i).1));
    }
}

/// Points for clearing `n` rows at once, before the level factor.
pub const LINE_SCORE: [u32; 5] = [0, 100, 300, 500, 800];

/// How long a floating score text lives, in milliseconds.
pub const POPUP_MS: u128 = 700;

/// How long the line-clear animation plays, in milliseconds.
pub const CLEAR_ANIM_MS: u128 = 200;

/// How long the lock flash lasts, in milliseconds.
pub const LOCK_FLASH_MS: u128 = 130;

/// How long the hard-drop trail lasts, in milliseconds.
pub const TRAIL_MS: u128 = 170;

/// How long the screen shakes, in milliseconds.
pub const SHAKE_MS: u128 = 140;

/// Points for clearing `n` rows at once, before the level factor.
pub open spec fn line_score(n: int) -> int {
    if n <= 0 {
        0
    } else if n == 1 {
        100
    } else if n == 2 {
        300
    } else if n == 3 {
        500
    } else {
        800
    }
}

/// `a` is `b` with some elements left out, the rest in their order.
pub open spec fn subseq_of<A>(a: Seq<A>, b: Seq<A>) -> bool
    decreases b.len(),
{
    if a.len() == 0 {
        true
    } else if b.len() == 0 {
        false
    } else if a.last() == b.last() {
        subseq_of(a.drop_last(), b.drop_last())
    } else {
        subseq_of(a, b.drop_last())
    }
}

/// Appending to the larger sequence keeps a subsequence one.
pub proof fn lemma_subseq_extend<A>(a: Seq<A>, b: Seq<A>, x: A)
    requires
        subseq_of(a, b),
    ensures
        subseq_of(a, b.push(x)),
    decreases b.len(), 1int,
{
    assert(b.push(x).drop_last() =~= b);
    if a.len() > 0 && a.last() == x {
        lemma_subseq_drop_last(a, b);
    }
}

/// Dropping the last element keeps a subsequence one.
pub proof fn lemma_subseq_drop_last<A>(a: Seq<A>, b: Seq<A>)
    requires
        subseq_of(a, b),
        a.len() > 0,
    ensures
        subseq_of(a.drop_last(), b),
    decreases b.len(), 0int,
{
    let bl = b.drop_last();
    assert(bl.push(b.last()) =~= b);
    if a.last() == b.last() {
        lemma_subseq_extend(a.drop_last(), bl, b.last());
    } else {
        lemma_subseq_drop_last(a, bl);
        lemma_subseq_extend(a.drop_last(), bl, b.last());
    }
}

/// Dropping the first element keeps a subsequence one.
pub proof fn lemma_subseq_drop_first<A>(a: Seq<A>, b: Seq<A>)
    requires
        subseq_of(a, b),
        a.len() > 0,
    ensures
        subseq_of(a.drop_first(), b),
    decreases b.len(),
{
    let bl = b.drop_last();
    assert(bl.push(b.last()) =~= b);
    if a.last() == b.last() {
        if a.len() > 1 {
            lemma_subseq_drop_first(a.drop_last(), bl);
            assert(a.drop_last().drop_first() =~= a.drop_first().drop_last());
        }
    } else {
        lemma_subseq_drop_first(a, bl);
        lemma_subseq_extend(a.drop_first(), bl, b.last());
    }
}

/// A subsequence is no longer than the sequence.
pub proof fn lemma_subseq_len<A>(a: Seq<A>, b: Seq<A>)
    requires
        subseq_of(a, b),
    ensures
        a.len() <= b.len(),
    decreases b.len(),
{
    if a.len() > 0 {
        if a.last() == b.last() {
            lemma_subseq_len(a.drop_last(), b.drop_last());
        } else {
            lemma_subseq_len(a, b.drop_last());
        }
    }
}

/// Keeping a new last element on both sides keeps a subsequence one.
pub proof fn lemma_subseq_push_both<A>(a: Seq<A>, b: Seq<A>, x: A)
    requires
        subseq_of(a, b),
    ensures
        subseq_of(a.push(x), b.push(x)),
{
    assert(a.push(x).drop_last() =~= a);
    assert(b.push(x).drop_last() =~= b);
}

/// The floating texts of `ps` whose ages (in milliseconds, one per text) are under
/// `POPUP_MS`, in their order.
pub open spec fn young_popups(ps: Seq<Popup>, ages: Seq<u128>) -> Seq<Popup>
    decreases ps.len(),
{
    if ps.len() == 0 {
        Seq::empty()
    } else {
        let rest = young_popups(ps.drop_last(), ages.drop_last());
        if ages.last() < POPUP_MS {
            rest.push(ps.last())
        } else {
            rest
        }
    }
}

/// `new` is what remains of `old` when the texts reach some ages: those younger than
/// `POPUP_MS`, in their order.
pub open spec fn aged_out(old: Seq<Popup>, new: Seq<Popup>) -> bool {
    exists|ages: Seq<u128>| ages.len() == old.len() && new == #[trigger] young_popups(old, ages)
}

/// The texts kept when a new one comes: the young ones, less the oldest if six remain.
pub open spec fn make_room(young: Seq<Popup>) -> Seq<Popup> {
    if young.len() >= 6 {
        young.drop_first()
    } else {
        young
    }
}

/// `rest` is what `old` keeps when a new text is added: some ages drop the stale texts,
/// then the oldest goes if six remain.
pub open spec fn room_made(old: Seq<Popup>, rest: Seq<Popup>) -> bool {
    exists|ages: Seq<u128>|
        ages.len() == old.len() && rest == make_room(#[trigger] young_popups(old, ages))
}

/// The young texts are a subsequence of all the texts.
pub proof fn lemma_young_subseq(ps: Seq<Popup>, ages: Seq<u128>)
    requires
        ages.len() == ps.len(),
    ensures
        subseq_of(young_popups(ps, ages), ps),
    decreases ps.len(),
{
    if ps.len() > 0 {
        lemma_young_subseq(ps.drop_last(), ages.drop_last());
        let rest = young_popups(ps.drop_last(), ages.drop_last());
        assert(ps.drop_last().push(ps.last()) =~= ps);
        if ages.last() < POPUP_MS {
            lemma_subseq_push_both(rest, ps.drop_last(), ps.last());
        } else {
            lemma_subseq_extend(rest, ps.drop_last(), ps.last());
        }
    }
}

/// Whether some cell among the first `n` of piece `p` is (x, y).
pub open spec fn covers_first(p: Piece, n: int, x: int, y: int) -> bool {
    exists|j: int| 0 <= j < n && #[trigger] piece_cell(p, j) == (x, y)
}

/// Whether a cell of piece `p` is (x, y).
pub open spec fn covers(p: Piece, x: int, y: int) -> bool {
    covers_first(p, 4, x, y)
}

/// `b1` is `b0` with the cells of `p` inside the field set to its shape.
pub open spec fn stamps(b0: Board, b1: Board, p: Piece) -> bool {
    forall|y: int, x: int|
        0 <= y < H && 0 <= x < W ==> #[trigger] b1[y][x] == (if covers(p, x, y) {
            Some(p.shape)
        } else {
            b0[y][x]
        })
}

/// The cells among the first `n` of `p` that are not above the field, as (x, y) bytes.
pub open spec fn visible_cells(p: Piece, n: nat) -> Seq<(u8, u8)>
    decreases n,
{
    if n == 0 {
        Seq::empty()
    } else {
        let c = piece_cell(p, n - 1);
        visible_cells(p, (n - 1) as nat) + (if c.1 >= 0 {
            seq![(c.0 as u8, c.1 as u8)]
        } else {
            Seq::empty()
        })
    }
}

/// How many rows the running clear animation removes.
pub open spec fn cleared_count(g: Game) -> int {
    match g.clearing {
        Some(c) => c.rows@.len() as int,
        None => 0,
    }
}

/// A floating text reading `+points` centred at half-column `half_x` on row `y`.
pub open spec fn popup_says(p: Popup, points: int, half_x: int, y: int) -> bool {
    &&& p.text@ == seq!['+'] + decimal(points as nat)
    &&& p.half_x == half_x
    &&& p.y == y
}

/// The deal rule when a new piece comes from the queue: the queue is refilled first, then
/// its head becomes the piece.
pub open spec fn dealt_next(a: Game, b: Game) -> bool {
    &&& refilled(a.queue@, a.bag@, seq![b.piece.shape] + b.queue@, b.bag@)
    &&& b.piece == spawn_piece(b.piece.shape)
}

/// The effect of finishing a clear (or settling a lock without one): full rows removed
/// (and with them the lock flash, whose cells were in them), points and lines counted,
/// the level recomputed, hold allowed again, and the next piece dealt; the game is over
/// if it does not fit.
pub open spec fn settles(a: Game, b: Game) -> bool {
    let n = cleared_count(a);
    &&& (if n > 0 { b.board@ == collapsed(a.board) } else { b.board == a.board })
    &&& b.score == a.score + line_score(n) * a.level
    &&& b.lines == a.lines + n
    &&& b.level == b.lines / 10 + 1
    &&& b.clearing is None
    &&& b.flash == (if n > 0 { None } else { a.flash })
    &&& b.can_hold
    &&& b.hold == a.hold
    &&& b.paused == a.paused
    &&& b.born == a.born
    &&& b.trail == a.trail
    &&& (if n >= 2 {
        b.shake matches Some(s) && s.1 == n
    } else {
        b.shake == a.shake
    })
    &&& (if n > 0 {
        &&& b.popups@.len() > 0
        &&& popup_says(b.popups@.last(), line_score(n) * a.level, W as int, b.popups@.last().y as int)
        &&& room_made(a.popups@, b.popups@.drop_last())
        &&& subseq_of(b.popups@.drop_last(), a.popups@)
        &&& a.popups@.len() <= 6 ==> b.popups@.len() <= 6
        &&& a.clearing->0.rows@.contains(b.popups@.last().y as u8)
        &&& forall|k: int| 0 <= k < n ==> b.popups@.last().y <= #[trigger] a.clearing->0.rows@[k]
    } else {
        b.popups@ == a.popups@
    })
    &&& dealt_next(a, b)
    &&& b.over == (a.over || !piece_fits(b.board, b.piece))
}

/// The effect of locking piece `p` into `a`'s board after adding `bonus` points: the
/// piece's cells are written and flash white; if rows became full the clear animation
/// starts over exactly those rows, else the lock settles at once and the next piece is
/// dealt.
pub open spec fn locks(a: Game, p: Piece, bonus: int, b: Game) -> bool {
    &&& stamps(a.board, b.board, p)
    &&& b.hold == a.hold
    &&& b.paused == a.paused
    &&& b.born == a.born
    &&& b.score == a.score + bonus
    &&& b.lines == a.lines
    &&& b.level == a.lines / 10 + 1
    &&& b.flash matches Some(f) && f.0@ == visible_cells(p, 4)
    &&& if full_rows(b.board).len() > 0 {
        &&& b.clearing matches Some(c) && c.rows@.map_values(|r: u8| r as int) == full_rows(b.board)
        &&& b.piece == p
        &&& b.over == a.over
        &&& b.queue@ == a.queue@
        &&& b.bag@ == a.bag@
        &&& b.can_hold == a.can_hold
    } else {
        &&& b.clearing is None
        &&& b.can_hold
        &&& dealt_next(a, b)
        &&& b.over == (a.over || !piece_fits(b.board, b.piece))
    }
}

/// Whether a shift by (dx, dy) takes place from state `a`: no clear animation plays and
/// the shifted piece fits.
pub open spec fn can_shift(a: Game, dx: int, dy: int) -> bool {
    a.clearing is None && piece_fits(a.board, shifted(a.piece, dx, dy))
}

/// `b` is `a` after trying to shift the piece by (dx, dy): shifted if it fits and no clear
/// animation plays, else unchanged.
pub open spec fn shifts(a: Game, b: Game, dx: int, dy: int) -> bool {
    &&& b.piece == (if can_shift(a, dx, dy) { shifted(a.piece, dx, dy) } else { a.piece })
    &&& b.over == a.over
    &&& b.same_but_piece(a)
}

/// `b` is `a` after trying to turn the piece `dr` quarter turns.
pub open spec fn turns(a: Game, b: Game, dr: u8) -> bool {
    &&& b.piece == (if a.clearing is None { rotated(a.board, a.piece, dr) } else { a.piece })
    &&& b.over == a.over
    &&& b.same_but_piece(a)
}

/// `b` is `a` after a hard drop: nothing happens during a clear animation; otherwise the
/// piece locks on its landing row after scoring two points per row fallen, with a trail
/// (two rows or more), a shake (four rows or more) and a floating text of the points.
pub open spec fn drops(a: Game, b: Game) -> bool {
    if a.clearing is Some {
        b == a
    } else {
        let p = a.piece;
        let gy = ghost_row(a.board, p);
        let dist = drop_distance(a);
        &&& locks(a, landed(p, gy), 2 * dist, b)
        &&& if dist >= 2 {
            b.trail matches Some(t) && t.shape == p.shape && t.cols@ == trail_cols(p, gy)
        } else {
            b.trail == a.trail
        }
        &&& if dist >= 4 {
            b.shake matches Some(sh) && sh.1 == 1
        } else {
            b.shake == a.shake
        }
        &&& if dist > 0 {
            &&& b.popups@.len() > 0
            &&& popup_says(b.popups@.last(), 2 * dist, centre_half_x(p), gy)
            &&& room_made(a.popups@, b.popups@.drop_last())
            &&& subseq_of(b.popups@.drop_last(), a.popups@)
            &&& a.popups@.len() <= 6 ==> b.popups@.len() <= 6
        } else {
            b.popups@ == a.popups@
        }
    }
}

/// `b` is `a` after a gravity step: nothing happens during a clear animation; the piece
/// moves down a row if it fits there, else it locks where it stands.
pub open spec fn falls(a: Game, b: Game) -> bool {
    if a.clearing is Some {
        b == a
    } else if can_shift(a, 0, 1) {
        shifts(a, b, 0, 1)
    } else {
        &&& locks(a, a.piece, 0, b)
        &&& b.trail == a.trail
        &&& b.shake == a.shake
        &&& b.popups@ == a.popups@
    }
}

/// `b` is `a` after a hold: ignored once used for this piece, after game over or during a
/// clear animation; otherwise the piece's shape is held and the previously held shape
/// (or, with none, the next dealt one) spawns.
pub open spec fn holds(a: Game, b: Game) -> bool {
    if !a.can_hold || a.over || a.clearing is Some {
        b == a
    } else {
        &&& b.hold == Some(a.piece.shape)
        &&& !b.can_hold
        &&& match a.hold {
            Some(h) => {
                &&& b.piece == spawn_piece(h)
                &&& b.queue@ == a.queue@
                &&& b.bag@ == a.bag@
            },
            None => dealt_next(a, b),
        }
        &&& b.over == !piece_fits(a.board, b.piece)
        &&& b.board == a.board
        &&& b.score == a.score
        &&& b.lines == a.lines
        &&& b.level == a.level
        &&& b.paused == a.paused
        &&& b.clearing == a.clearing
        &&& b.born == a.born
        &&& b.flash == a.flash
        &&& b.trail == a.trail
        &&& b.shake == a.shake
        &&& b.popups@ == a.popups@
    }
}

/// A strictly ascending sequence inside a window of four integers has at most four items.
pub proof fn lemma_ascending_window(s: Seq<int>, lo: int)
    requires
        forall|k: int, j: int| 0 <= k < j < s.len() ==> s[k] < s[j],
        forall|k: int| 0 <= k < s.len() ==> lo <= #[trigger] s[k] <= lo + 3,
    ensures
        s.len() <= 4,
{
    if s.len() > 4 {
        assert(s[0] < s[1]);
        assert(s[1] < s[2]);
        assert(s[2] < s[3]);
        assert(s[3] < s[4]);
        assert(lo <= s[0]);
        assert(s[4] <= lo + 3);
    }
}

/// The piece moved down to row `gy`.
pub open spec fn landed(p: Piece, gy: int) -> Piece {
    Piece { shape: p.shape, rot: p.rot, x: p.x, y: gy as i8 }
}

/// How many rows a hard drop moves the piece.
pub open spec fn drop_distance(g: Game) -> int {
    ghost_row(g.board, g.piece) - g.piece.y
}

/// The smaller of two integers.
pub open spec fn min2(a: int, b: int) -> int {
    if a <= b { a } else { b }
}

/// The larger of two integers.
pub open spec fn max2(a: int, b: int) -> int {
    if a >= b { a } else { b }
}

/// The leftmost column of a rotation state, relative to its box.
pub open spec fn min_col(cs: Seq<(int, int)>) -> int {
    min2(min2(cs[0].0, cs[1].0), min2(cs[2].0, cs[3].0))
}

/// The rightmost column of a rotation state, relative to its box.
pub open spec fn max_col(cs: Seq<(int, int)>) -> int {
    max2(max2(cs[0].0, cs[1].0), max2(cs[2].0, cs[3].0))
}

/// The trail stripe of cell `i` when piece `p` drops to row `gy`: its column, the row it
/// starts from (not above the field) and the row it lands on.
pub open spec fn trail_col(p: Piece, gy: int, i: int) -> (i8, i16, i16) {
    let c = shape_cells(p.shape, p.rot)[i];
    ((p.x + c.0) as i8, max2(p.y + c.1, 0) as i16, (gy + c.1) as i16)
}

/// The four trail stripes of a drop to row `gy`.
pub open spec fn trail_cols(p: Piece, gy: int) -> Seq<(i8, i16, i16)> {
    seq![trail_col(p, gy, 0), trail_col(p, gy, 1), trail_col(p, gy, 2), trail_col(p, gy, 3)]
}

/// Twice the column of the centre of piece `p`'s cells.
pub open spec fn centre_half_x(p: Piece) -> int {
    2 * p.x + min_col(shape_cells(p.shape, p.rot)) + max_col(shape_cells(p.shape, p.rot)) + 1
}

/// The state of a new game: an empty board, nothing scored, level one, paused, and the
/// first piece plus the upcoming shapes forming one 7-bag.
pub open spec fn fresh_game(g: Game) -> bool {
    &&& crate::board::board_empty(g.board)
    &&& g.hold is None
    &&& g.score == 0
    &&& g.lines == 0
    &&& g.level == 1
    &&& g.paused
    &&& !g.over
    &&& g.clearing is None
    &&& g.flash is None
    &&& g.trail is None
    &&& g.shake is None
    &&& g.popups@.len() == 0
    &&& g.can_hold
    &&& g.piece == spawn_piece(g.piece.shape)
    &&& g.queue@.len() == 4
    &&& is_bag(seq![g.piece.shape] + upcoming(g.queue@, g.bag@))
}

/// Falling from row `y` ends no higher than `y`, and below it only where the piece fits.
pub proof fn lemma_drop_row(b: Board, p: Piece, y: int)
    ensures
        drop_row(b, p, y) >= y,
        drop_row(b, p, y) > y ==> spec_fits(b, p.shape, p.rot, p.x as int, drop_row(b, p, y)),
    decreases H - y,
{
    if y < H && spec_fits(b, p.shape, p.rot, p.x as int, y + 1) {
        lemma_drop_row(b, p, y + 1);
    }
}

/// The cells of any piece lie in its rotation box.
pub proof fn lemma_turned_in_box_of(p: Piece)
    ensures
        in_box(p.shape, shape_cells(p.shape, p.rot)),
{
    lemma_turned_in_box(p.shape, (p.rot % 4) as nat);
}

/// A piece whose box starts on or below the floor does not fit.
pub proof fn lemma_fits_above_floor(b: Board, p: Piece, y: int)
    requires
        y >= H,
    ensures
        !spec_fits(b, p.shape, p.rot, p.x as int, y),
{
    lemma_turned_in_box_of(p);
    assert(!cell_free(b, p.x + shape_cells(p.shape, p.rot)[0].0, y + shape_cells(p.shape, p.rot)[0].1));
}

/// On an empty board a placed piece fits.
pub proof fn lemma_fits_empty(b: Board, p: Piece)
    requires
        crate::board::board_empty(b),
        piece_placed(p),
    ensures
        piece_fits(b, p),
{
    assert forall|i: int| 0 <= i < 4 implies cell_free(
        b,
        p.x + (#[trigger] shape_cells(p.shape, p.rot)[i]).0,
        p.y + shape_cells(p.shape, p.rot)[i].1,
    ) by {
        let c = piece_cell(p, i);
        assert(0 <= piece_cell(p, i).0 < W && piece_cell(p, i).1 < H);
        if c.1 >= 0 {
            assert(crate::board::row_empty(b[c.1]));
        }
    }
}

/// A freshly spawned piece is placed.
pub proof fn lemma_spawn_placed(s: Shape)
    ensures
        piece_placed(spawn_piece(s)),
{
    lemma_turned_in_box(s, 0);
    let p = spawn_piece(s);
    assert forall|i: int| 0 <= i < 4 implies 0 <= #[trigger] piece_cell(p, i).0 < W && piece_cell(
        p,
        i,
    ).1 < H by {
        assert(0 <= shape_cells(s, 0)[i].0 < 4);
    }
}

/// Locking a piece into a board without full rows leaves at most four full rows, all on
/// rows the piece covers.
pub proof fn lemma_lock_fills_few_rows(b0: Board, b1: Board, p: Piece)
    requires
        full_rows(b0).len() == 0,
        stamps(b0, b1, p),
        piece_placed(p),
    ensures
        full_rows(b1).len() <= 4,
{
    lemma_full_indices_facts(b0@, 0);
    lemma_full_indices_facts(b1@, 0);
    lemma_placed_bounds(p);
    let f = full_rows(b1);
    assert forall|k: int| 0 <= k < f.len() implies p.y <= #[trigger] f[k] <= p.y + 3 by {
        let r = f[k];
        assert(row_full(b1@[r]));
        if !(exists|x: int| 0 <= x < W && covers(p, x, r)) {
            assert forall|x: int| 0 <= x < W implies (#[trigger] b0[r][x]) is Some by {
                assert(b1[r][x] is Some);
            }
            assert(row_full(b0@[r]));
            assert(full_indices(b0@, 0).contains(r));
        } else {
            let x = choose|x: int| 0 <= x < W && covers(p, x, r);
            let j = choose|j: int| 0 <= j < 4 && #[trigger] piece_cell(p, j) == (x, r);
            assert(0 <= shape_cells(p.shape, p.rot)[j].1 < 4);
        }
    }
    lemma_ascending_window(f, p.y as int);
}

/// The floating text for `points`: a plus sign and the points in decimal.
fn plus_text(points: u32) -> (s: String)
    ensures
        s@ == seq!['+'] + decimal(points as nat),
{
    let digits = decimal_text(points);
    let mut s = String::from_str("+");
    proof {
        reveal_strlit("+");
    }
    s.append(digits.as_str());
    s
}

/// The hard-drop trail of piece `p` landing on row `gy`: one stripe per cell.
fn trail_for(p: Piece, gy: i8) -> (cols: Vec<(i8, i16, i16)>)
    requires
        piece_placed(p),
        p.y <= gy < H,
    ensures
        cols@ == trail_cols(p, gy as int),
{
    proof {
        lemma_placed_bounds(p);
    }
    let cs = p.shape.cells(p.rot);
    let mut cols: Vec<(i8, i16, i16)> = Vec::new();
    let mut i: usize = 0;
    while i < 4
        invariant
            i <= 4,
            -3 <= p.x <= 9,
            -4 <= p.y <= gy < H,
            in_box(p.shape, shape_cells(p.shape, p.rot)),
            cells_view(cs) == shape_cells(p.shape, p.rot),
            cols@ == trail_cols(p, gy as int).take(i as int),
        decreases 4 - i,
    {
        let cy: i8 = p.y + cs[i].1;
        let top: i16 = if cy > 0 { cy as i16 } else { 0 };
        cols.push((p.x + cs[i].0, top, (gy + cs[i].1) as i16));
        proof {
            assert(cols@ =~= trail_cols(p, gy as int).take(i + 1));
        }
        i = i + 1;
    }
    proof {
        assert(trail_cols(p, gy as int).take(4) =~= trail_cols(p, gy as int));
    }
    cols
}

/// The leftmost and rightmost columns of four cells.
fn column_span(cs: [(i8, i8); 4]) -> (span: (i8, i8))
    ensures
        span.0 == min_col(cells_view(cs)),
        span.1 == max_col(cells_view(cs)),
{
    let m01: i8 = if cs[0].0 <= cs[1].0 { cs[0].0 } else { cs[1].0 };
    let m23: i8 = if cs[2].0 <= cs[3].0 { cs[2].0 } else { cs[3].0 };
    let x01: i8 = if cs[0].0 >= cs[1].0 { cs[0].0 } else { cs[1].0 };
    let x23: i8 = if cs[2].0 >= cs[3].0 { cs[2].0 } else { cs[3].0 };
    (if m01 <= m23 { m01 } else { m23 }, if x01 >= x23 { x01 } else { x23 })
}

impl Game {
    /// The full rows on the board agree with the clear animation: none when idle, exactly
    /// the listed ones (one to four) while it runs.
    pub open spec fn clearing_consistent(&self) -> bool {
        match self.clearing {
            None => full_rows(self.board).len() == 0,
            Some(c) => {
                &&& c.rows@.map_values(|r: u8| r as int) == full_rows(self.board)
                &&& 1 <= c.rows@.len() <= 4
            },
        }
    }

    /// The invariant every operation keeps, and so the one every reachable state has:
    /// the piece placed between the walls, above the floor and at most four rows above
    /// the field, in one of its four rotations; full rows exactly while the clear
    /// animation runs (one to four of them); and the level following the lines. The
    /// operations that read the board or the piece require it; states built by writing
    /// the public fields directly may fall outside it.
    pub open spec fn inv(&self) -> bool {
        &&& piece_placed(self.piece)
        &&& self.clearing_consistent()
        &&& self.level == self.lines / 10 + 1
    }

    /// While the game runs and no animation plays, the piece stands where it fits.
    pub open spec fn legal(&self) -> bool {
        !self.over && self.clearing is None ==> piece_fits(self.board, self.piece)
    }

    /// Well-formedness: the invariant and a legal piece.
    pub open spec fn wf(&self) -> bool {
        self.inv() && self.legal()
    }

    /// Everything but the piece and the game-over flag equals `a`.
    pub open spec fn same_but_piece(self, a: Game) -> bool {
        &&& self.board == a.board
        &&& self.queue@ == a.queue@
        &&& self.hold == a.hold
        &&& self.score == a.score
        &&& self.lines == a.lines
        &&& self.level == a.level
        &&& self.paused == a.paused
        &&& self.clearing == a.clearing
        &&& self.born == a.born
        &&& self.flash == a.flash
        &&& self.trail == a.trail
        &&& self.shake == a.shake
        &&& self.popups@ == a.popups@
        &&& self.bag@ == a.bag@
        &&& self.can_hold == a.can_hold
    }

    /// Whether the line-clear animation is playing (there is no falling piece meanwhile).
    pub fn is_clearing(&self) -> (c: bool)
        ensures
            c == self.clearing is Some,
    {
        self.clearing.is_some()
    }

    /// Puts a new piece of `shape` at the spawn point; the game is over if it does not fit.
    pub fn spawn(&mut self, shape: Shape)
        ensures
            final(self).piece == spawn_piece(shape),
            final(self).over == (old(self).over || !piece_fits(old(self).board, spawn_piece(shape))),
            final(self).same_but_piece(*old(self)),
    {
        let x: i8 = if shape == Shape::O { 4 } else { 3 };
        proof {
            lemma_turned_in_box(shape, 0);
        }
        self.piece = Piece { shape, rot: 0, x, y: 0 };
        if !fits(&self.board, shape, 0, x, 0) {
            self.over = true;
        }
    }

    /// Moves the piece by (dx, dy) if it fits there and no clear animation plays; tells
    /// whether it moved.
    pub fn try_move(&mut self, dx: i8, dy: i8) -> (moved: bool)
        requires
            old(self).clearing is None ==> {
                &&& i8::MIN <= old(self).piece.x + dx <= i8::MAX
                &&& i8::MIN <= old(self).piece.y + dy <= i8::MAX
                &&& fits_defined(
                    old(self).piece.shape,
                    old(self).piece.rot,
                    old(self).piece.x + dx,
                    old(self).piece.y + dy,
                )
            },
        ensures
            moved == can_shift(*old(self), dx as int, dy as int),
            shifts(*old(self), *final(self), dx as int, dy as int),
            old(self).wf() && old(self).piece.y + dy >= -4 ==> final(self).wf(),
    {
        if self.is_clearing() {
            return false;
        }
        let p = self.piece;
        if fits(&self.board, p.shape, p.rot, p.x + dx, p.y + dy) {
            self.piece.x = p.x + dx;
            self.piece.y = p.y + dy;
            proof {
                lemma_fits_in_field(self.board, self.piece);
            }
            true
        } else {
            false
        }
    }

    /// Turns the piece `dr` quarter turns with simple wall kicks: tries in place, one left,
    /// one right, two left, two right and one up, and takes the first that fits; does
    /// nothing if none fits or a clear animation plays.
    pub fn rotate(&mut self, dr: u8)
        requires
            old(self).clearing is None ==> piece_placed(old(self).piece) && old(self).piece.rot
                + dr <= u8::MAX,
        ensures
            turns(*old(self), *final(self), dr),
            old(self).wf() ==> final(self).wf(),
    {
        if self.is_clearing() {
            return;
        }
        let p = self.piece;
        proof {
            lemma_placed_bounds(p);
        }
        let nr: u8 = (p.rot + dr) % 4;
        proof {
            lemma_turned_in_box(p.shape, (nr % 4) as nat);
        }
        let kicks: [(i8, i8); 6] = [(0, 0), (-1, 0), (1, 0), (-2, 0), (2, 0), (0, -1)];
        let mut k: usize = 0;
        while k < 6
            invariant
                k <= 6,
                p == old(self).piece,
                *self == *old(self),
                old(self).clearing is None,
                nr == target_rot(p, dr),
                -3 <= p.x <= 9,
                -4 <= p.y <= 19,
                in_box(p.shape, shape_cells(p.shape, nr)),
                forall|j: int| 0 <= j < 6 ==> (#[trigger] kicks[j]).0 == kick(j).0 && kicks[j].1 == kick(j).1,
                first_kick(self.board, p, nr, 0) == first_kick(self.board, p, nr, k as int),
            decreases 6 - k,
        {
            let (dx, dy) = kicks[k];
            assert(dx == kick(k as int).0 && dy == kick(k as int).1);
            assert(0 <= shape_cells(p.shape, nr)[0].0 < 4 && 0 <= shape_cells(p.shape, nr)[0].1 < 4);
            if fits(&self.board, p.shape, nr, p.x + dx, p.y + dy) {
                self.piece.rot = nr;
                self.piece.x = p.x + dx;
                self.piece.y = p.y + dy;
                proof {
                    assert(self.piece == kicked(p, nr, k as int));
                    assert(piece_fits(self.board, kicked(p, nr, k as int)));
                    assert(first_kick(self.board, p, nr, k as int) == k);

                    lemma_fits_in_field(self.board, self.piece);
                    if k == 5 && old(self).wf() {
                        // Moving up only happens when the turn fails in place, which
                        // needs a cell on a locked square or the floor: the box stays
                        // at most four rows above the field.
                        assert(!piece_fits(self.board, kicked(p, nr, 0)));
                        let q = kicked(p, nr, 0);
                        let i = choose|i: int|
                            0 <= i < 4 && !crate::board::cell_free(
                                self.board,
                                q.x + (#[trigger] shape_cells(q.shape, q.rot)[i]).0,
                                q.y + shape_cells(q.shape, q.rot)[i].1,
                            );
                        assert(crate::board::cell_free(
                            self.board,
                            self.piece.x + shape_cells(q.shape, q.rot)[i].0,
                            self.piece.y + shape_cells(q.shape, q.rot)[i].1,
                        ));
                    }
                }
                return;
            }
            k = k + 1;
        }
    }

    /// The row the piece's box would land on if dropped straight down.
    pub fn ghost_y(&self) -> (gy: i8)
        requires
            piece_placed(self.piece),
        ensures
            gy == ghost_row(self.board, self.piece),
            self.piece.y <= gy < H,
    {
        let p = self.piece;
        proof {
            lemma_placed_bounds(p);
        }
        let mut y: i8 = p.y;
        while fits(&self.board, p.shape, p.rot, p.x, y + 1)
            invariant
                p == self.piece,
                -3 <= p.x <= 9,
                p.y <= y < H,
                in_box(p.shape, shape_cells(p.shape, p.rot)),
                drop_row(self.board, p, y as int) == ghost_row(self.board, p),
            decreases H - y,
        {
            proof {
                assert(crate::board::cell_free(
                    self.board,
                    p.x + shape_cells(p.shape, p.rot)[0].0,
                    y + 1 + shape_cells(p.shape, p.rot)[0].1,
                ));
            }
            y = y + 1;
        }
        y
    }

    /// Tops the next-queue up to five shapes from a 7-bag, shuffling a fresh bag of all
    /// seven shapes whenever the current one runs out.
    fn refill(&mut self)
        ensures
            refilled(old(self).queue@, old(self).bag@, final(self).queue@, final(self).bag@),
            final(self).board == old(self).board,
            final(self).piece == old(self).piece,
            final(self).hold == old(self).hold,
            final(self).score == old(self).score,
            final(self).lines == old(self).lines,
            final(self).level == old(self).level,
            final(self).paused == old(self).paused,
            final(self).over == old(self).over,
            final(self).clearing == old(self).clearing,
            final(self).born == old(self).born,
            final(self).flash == old(self).flash,
            final(self).trail == old(self).trail,
            final(self).shake == old(self).shake,
            final(self).popups@ == old(self).popups@,
            final(self).can_hold == old(self).can_hold,
    {
        let ghost q0 = self.queue@;
        let ghost b0 = self.bag@;
        let ghost mut fresh: Seq<Shape> = Seq::empty();
        let ghost mut added = false;
        while self.queue.len() < 5
            invariant
                q0 == old(self).queue@,
                b0 == old(self).bag@,
                self.queue@.len() == (if q0.len() < 5 { if self.queue@.len() < 5 { self.queue@.len() } else { 5 } } else { q0.len() }),
                q0.len() <= self.queue@.len(),
                q0.len() >= 5 ==> self.queue@.len() == q0.len(),
                added ==> is_bag(fresh) && self.queue@.len() + self.bag@.len() >= 7,
                upcoming(self.queue@, self.bag@) == upcoming(q0, b0) + (if added { fresh } else { Seq::empty() }),
                self.board == old(self).board,
                self.piece == old(self).piece,
                self.hold == old(self).hold,
                self.score == old(self).score,
                self.lines == old(self).lines,
                self.level == old(self).level,
                self.paused == old(self).paused,
                self.over == old(self).over,
                self.clearing == old(self).clearing,
                self.born == old(self).born,
                self.flash == old(self).flash,
                self.trail == old(self).trail,
                self.shake == old(self).shake,
                self.popups@ == old(self).popups@,
                self.can_hold == old(self).can_hold,
            decreases 5 - self.queue@.len(),
        {
            if self.bag.len() == 0 {
                let mut b: Vec<Shape> = vec![Shape::I, Shape::O, Shape::T, Shape::S, Shape::Z, Shape::J, Shape::L];
                assert(b@ =~= all_shapes());
                shuffle_shapes(&mut b);
                proof {
                    b@.lemma_reverse_to_multiset();
                    assert(is_bag(b@.reverse()));
                    assert(!added);
                    assert(self.bag@ =~= Seq::<Shape>::empty());
                    assert(upcoming(self.queue@, b@) =~= upcoming(self.queue@, self.bag@) + b@.reverse());
                    fresh = b@.reverse();
                    added = true;
                }
                self.bag = b;
            }
            let ghost before = self.bag@;
            let s = self.bag.pop().unwrap();
            self.queue.push_back(s);
            proof {
                assert(before.reverse() =~= seq![s] + self.bag@.reverse());
                assert(upcoming(self.queue@, self.bag@) =~= upcoming(self.queue@.drop_last(), before));
            }
        }
        proof {
            if added {
                assert(is_bag(fresh) && upcoming(self.queue@, self.bag@) == upcoming(q0, b0) + fresh);
            } else {
                assert(upcoming(q0, b0) + Seq::<Shape>::empty() =~= upcoming(q0, b0));
            }
        }
    }

    /// Removes the full rows bottom-up: the other rows move down keeping their order and
    /// empty rows fill the top. Returns how many rows went.
    fn clear_lines(&mut self) -> (cleared: u32)
        ensures
            final(self).board@ == collapsed(old(self).board),
            cleared == full_rows(old(self).board).len(),
            full_rows(final(self).board).len() == 0,
            collapsed(final(self).board) == final(self).board@,
            *final(self) == (Game { board: final(self).board, ..*old(self) }),
    {
        let ghost b0 = self.board;
        let mut next: Board = [[None; W]; H];
        let mut write: usize = H;
        let mut cleared: u32 = 0;
        let mut row: usize = H;
        proof {
            assert(b0@.subrange(H as int, H as int) =~= Seq::<Row>::empty());
            assert(next@.subrange(H as int, H as int) =~= Seq::<Row>::empty());
        }
        while row > 0
            invariant
                row <= H,
                *self == *old(self),
                b0 == self.board,
                write == H - keep_unfilled(b0@.subrange(row as int, H as int)).len(),
                keep_unfilled(b0@.subrange(row as int, H as int)).len() <= H - row,
                next@.subrange(write as int, H as int) == keep_unfilled(
                    b0@.subrange(row as int, H as int),
                ),
                forall|i: int| 0 <= i < write ==> #[trigger] next[i] == empty_row(),
                cleared + keep_unfilled(b0@.subrange(row as int, H as int)).len() == H - row,
            decreases row,
        {
            row = row - 1;
            let ghost cur = b0@.subrange(row as int, H as int);
            let ghost tail = b0@.subrange(row + 1, H as int);
            proof {
                assert(cur.drop_first() =~= tail);
                assert(cur[0] == b0[row as int]);
                lemma_keep_and_full_partition(tail, 0);
            }
            if is_row_full(&self.board[row]) {
                cleared = cleared + 1;
            } else {
                let ghost before = next@;
                write = write - 1;
                next[write] = self.board[row];
                proof {
                    assert(next@.subrange(write as int, H as int) =~= seq![b0[row as int]]
                        + before.subrange(write + 1, H as int));
                }
            }
        }
        proof {
            assert(b0@.subrange(0, H as int) =~= b0@);
            lemma_keep_and_full_partition(b0@, 0);
            assert(next@ =~= collapsed(b0));
            lemma_collapsed_has_no_full_row(b0);
            crate::board::lemma_keep_all_unfilled(next@);
            lemma_keep_and_full_partition(next@, 0);
            assert(collapsed(next) =~= next@);
        }
        self.board = next;
        cleared
    }

    /// The age of each floating text at moment `now`, in whole milliseconds.
    fn popup_ages(&self, now: &Instant) -> (ages: Vec<u128>)
        ensures
            ages@.len() == self.popups@.len(),
    {
        let mut ages: Vec<u128> = Vec::new();
        let mut i: usize = 0;
        while i < self.popups.len()
            invariant
                i <= self.popups@.len(),
                ages@.len() == i,
            decreases self.popups@.len() - i,
        {
            ages.push(whole_millis(&duration_since(now, &self.popups[i].born)));
            i = i + 1;
        }
        ages
    }

    /// Keeps the floating texts whose age (given per text, in milliseconds) is under
    /// `POPUP_MS`, in their order.
    pub fn retain_young_popups(&mut self, ages: &Vec<u128>)
        requires
            ages@.len() == old(self).popups@.len(),
        ensures
            final(self).popups@ == young_popups(old(self).popups@, ages@),
            *final(self) == (Game { popups: final(self).popups, ..*old(self) }),
    {
        let mut rest: Vec<Popup> = Vec::new();
        std::mem::swap(&mut rest, &mut self.popups);
        let ghost orig = rest@;
        let n: usize = ages.len();
        let mut i: usize = 0;
        proof {
            assert(orig.take(0) =~= Seq::<Popup>::empty());
            assert(ages@.take(0) =~= Seq::<u128>::empty());
            assert(orig.skip(0) =~= orig);
        }
        while rest.len() > 0
            invariant
                orig.len() == ages@.len(),
                n == ages@.len(),
                i + rest@.len() == orig.len(),
                rest@ == orig.skip(i as int),
                self.popups@ == young_popups(orig.take(i as int), ages@.take(i as int)),
                *self == (Game { popups: self.popups, ..*old(self) }),
                orig == old(self).popups@,
            decreases rest@.len(),
        {
            let p = rest.remove(0);
            proof {
                assert(p == orig[i as int]);
                assert(orig.take(i + 1).drop_last() =~= orig.take(i as int));
                assert(ages@.take(i + 1).drop_last() =~= ages@.take(i as int));
                assert(rest@ =~= orig.skip(i + 1));
            }
            if ages[i] < POPUP_MS {
                self.popups.push(p);
            }
            i = i + 1;
        }
        proof {
            assert(orig.take(orig.len() as int) =~= orig);
            assert(ages@.take(orig.len() as int) =~= ages@);
        }
    }

    /// Drops the floating texts that have lived `POPUP_MS` or longer at moment `now`.
    fn drop_stale_popups(&mut self, now: &Instant)
        ensures
            aged_out(old(self).popups@, final(self).popups@),
            subseq_of(final(self).popups@, old(self).popups@),
            *final(self) == (Game { popups: final(self).popups, ..*old(self) }),
    {
        let ages = self.popup_ages(now);
        proof {
            lemma_young_subseq(self.popups@, ages@);
        }
        self.retain_young_popups(&ages);
        assert(aged_out(old(self).popups@, self.popups@));
    }

    /// Adds a floating text, after dropping the stale ones and, if six remain, the oldest.
    fn add_popup(&mut self, text: String, half_x: i16, y: i16)
        ensures
            final(self).popups@.len() > 0,
            final(self).popups@.last().text == text,
            final(self).popups@.last().half_x == half_x,
            final(self).popups@.last().y == y,
            room_made(old(self).popups@, final(self).popups@.drop_last()),
            subseq_of(final(self).popups@.drop_last(), old(self).popups@),
            old(self).popups@.len() <= 6 ==> final(self).popups@.len() <= 6,
            *final(self) == (Game { popups: final(self).popups, ..*old(self) }),
    {
        let now = instant_now();
        self.drop_stale_popups(&now);
        let ghost ages = choose|ages: Seq<u128>|
            ages.len() == old(self).popups@.len() && self.popups@ == #[trigger] young_popups(
                old(self).popups@,
                ages,
            );
        proof {
            if self.popups@.len() > old(self).popups@.len() {
                lemma_subseq_len(self.popups@, old(self).popups@);
            }
        }
        if self.popups.len() >= 6 {
            let ghost before = self.popups@;
            self.popups.remove(0);
            proof {
                assert(self.popups@ =~= before.drop_first());
                lemma_subseq_drop_first(before, old(self).popups@);
            }
        }
        let ghost kept = self.popups@;
        self.popups.push(Popup { text, half_x, y, born: now });
        proof {
            assert(self.popups@.drop_last() =~= kept);
            assert(kept == make_room(young_popups(old(self).popups@, ages)));
        }
    }

    /// Writes the piece into the board, flashes its cells, and either starts the clear
    /// animation over the rows it filled or, when none filled, settles at once.
    fn lock(&mut self)
        requires
            old(self).inv(),
            old(self).clearing is None,
        ensures
            locks(*old(self), old(self).piece, 0, *final(self)),
            final(self).wf(),
            final(self).trail == old(self).trail,
            final(self).shake == old(self).shake,
            final(self).popups@ == old(self).popups@,
    {
        let p = self.piece;
        let cs = p.shape.cells(p.rot);
        proof {
            lemma_placed_bounds(p);
        }
        let ghost b0 = self.board;
        let mut i: usize = 0;
        while i < 4
            invariant
                i <= 4,
                p == old(self).piece,
                piece_placed(p),
                in_box(p.shape, shape_cells(p.shape, p.rot)),
                cells_view(cs) == shape_cells(p.shape, p.rot),
                b0 == old(self).board,
                *self == (Game { board: self.board, ..*old(self) }),
                forall|y: int, x: int|
                    0 <= y < H && 0 <= x < W ==> #[trigger] self.board[y][x] == (if covers_first(
                        p,
                        i as int,
                        x,
                        y,
                    ) {
                        Some(p.shape)
                    } else {
                        b0[y][x]
                    }),
            decreases 4 - i,
        {
            assert(0 <= piece_cell(p, i as int).0 < W && piece_cell(p, i as int).1 < H);
            let x: i8 = p.x + cs[i].0;
            let y: i8 = p.y + cs[i].1;
            let ghost bb = self.board;
            if y >= 0 && y < H as i8 {
                self.board[y as usize][x as usize] = Some(p.shape);
            }
            proof {
                assert forall|yy: int, xx: int| 0 <= yy < H && 0 <= xx < W implies #[trigger] self.board[yy][xx]
                    == (if covers_first(p, i + 1, xx, yy) {
                    Some(p.shape)
                } else {
                    b0[yy][xx]
                }) by {
                    if piece_cell(p, i as int) == (xx, yy) {
                        assert(covers_first(p, i + 1, xx, yy));
                    } else {
                        assert(self.board[yy][xx] == bb[yy][xx]);
                        if covers_first(p, i + 1, xx, yy) {
                            let j = choose|j: int| 0 <= j < i + 1 && #[trigger] piece_cell(p, j) == (xx, yy);
                            assert(covers_first(p, i as int, xx, yy));
                        }
                    }
                }
            }
            i = i + 1;
        }
        assert(stamps(b0, self.board, p));
        let mut cells: Vec<(u8, u8)> = Vec::new();
        let mut k: usize = 0;
        while k < 4
            invariant
                k <= 4,
                p == old(self).piece,
                piece_placed(p),
                cells_view(cs) == shape_cells(p.shape, p.rot),
                in_box(p.shape, shape_cells(p.shape, p.rot)),
                cells@ == visible_cells(p, k as nat),
            decreases 4 - k,
        {
            assert(0 <= piece_cell(p, k as int).0 < W && piece_cell(p, k as int).1 < H);
            let x: i8 = p.x + cs[k].0;
            let y: i8 = p.y + cs[k].1;
            if y >= 0 {
                cells.push((x as u8, y as u8));
            }
            proof {
                assert(cells@ =~= visible_cells(p, (k + 1) as nat));
            }
            k = k + 1;
        }
        self.flash = Some((cells, instant_now()));
        let mut full: Vec<u8> = Vec::new();
        let mut row: usize = 0;
        proof {
            assert(self.board@.subrange(0, 0) =~= Seq::<Row>::empty());
            assert(full@.map_values(|r: u8| r as int) =~= Seq::<int>::empty());
        }
        while row < H
            invariant
                row <= H,
                full@.map_values(|r: u8| r as int) == full_indices(self.board@.subrange(0, row as int), 0),
            decreases H - row,
        {
            let ghost pre = self.board@.subrange(0, row as int);
            proof {
                assert(self.board@.subrange(0, row + 1) =~= pre.push(self.board@[row as int]));
                lemma_full_indices_push(pre, 0, self.board@[row as int]);
            }
            if is_row_full(&self.board[row]) {
                let ghost fv = full@;
                full.push(row as u8);
                proof {
                    assert(full@.map_values(|r: u8| r as int) =~= fv.map_values(|r: u8| r as int).push(row as int));
                }
            }
            row = row + 1;
        }
        proof {
            assert(self.board@.subrange(0, H as int) =~= self.board@);
            lemma_lock_fills_few_rows(b0, self.board, p);
        }
        if full.len() == 0 {
            self.finish_clear();
        } else {
            self.clearing = Some(Clearing { rows: full, started: instant_now() });
            proof {
                assert(full@.map_values(|r: u8| r as int).len() == full@.len());
            }
        }
    }

    /// Ends the clear animation (or settles a lock that filled no row): removes the full
    /// rows, scores them, recomputes the level, allows holding again and deals the next
    /// piece.
    pub fn finish_clear(&mut self)
        requires
            old(self).inv(),
            old(self).score + line_score(cleared_count(*old(self))) * old(self).level <= u32::MAX,
            old(self).lines + cleared_count(*old(self)) <= u32::MAX,
        ensures
            settles(*old(self), *final(self)),
            final(self).wf(),
    {
        let ghost g0 = *self;
        let taken = self.clearing.take();
        let cleared: u32 = match &taken {
            Some(c) => c.rows.len() as u32,
            None => 0,
        };
        assert(cleared == cleared_count(g0));
        assert(LINE_SCORE[0] == 0 && LINE_SCORE[1] == 100 && LINE_SCORE[2] == 300 && LINE_SCORE[3]
            == 500 && LINE_SCORE[4] == 800);
        let points: u32 = LINE_SCORE[cleared as usize] * self.level;
        if let Some(c) = &taken {
            if cleared > 0 {
                // The landed cells lie in the rows about to go: their flash is moot.
                self.flash = None;
                let mut y_top: u8 = c.rows[0];
                let mut k: usize = 1;
                while k < c.rows.len()
                    invariant
                        1 <= k <= c.rows@.len(),
                        c.rows@.contains(y_top),
                        forall|j: int| 0 <= j < k ==> y_top <= #[trigger] c.rows@[j],
                    decreases c.rows@.len() - k,
                {
                    if c.rows[k] < y_top {
                        y_top = c.rows[k];
                    }
                    k = k + 1;
                }
                let text = plus_text(points);
                self.add_popup(text, W as i16, y_top as i16);
                if cleared >= 2 {
                    self.shake = Some((instant_now(), cleared as u8));
                }
                self.clear_lines();
            }
        }
        self.score = self.score + points;
        self.lines = self.lines + cleared;
        self.level = self.lines / 10 + 1;
        self.can_hold = true;
        self.refill();
        let ghost refilled_queue = self.queue@;
        let next = self.queue.pop_front().unwrap();
        proof {
            assert(seq![next] + self.queue@ =~= refilled_queue);
            lemma_spawn_placed(next);
            if cleared > 0 {
                lemma_collapsed_has_no_full_row(g0.board);
            }
        }
        self.spawn(next);
    }

    /// Drops the piece straight to its landing row, scores two points per row fallen,
    /// leaves a trail (two rows or more), shakes the screen (four rows or more), shows
    /// the points, and locks the piece. Does nothing while a clear animation plays.
    pub fn hard_drop(&mut self)
        requires
            old(self).clearing is None ==> old(self).inv() && old(self).score + 2 * drop_distance(
                *old(self),
            ) <= u32::MAX,
        ensures
            drops(*old(self), *final(self)),
            old(self).clearing is None || old(self).wf() ==> final(self).wf(),
    {
        if self.is_clearing() {
            return;
        }
        let p = self.piece;
        proof {
            lemma_placed_bounds(p);
        }
        let gy = self.ghost_y();
        proof {
            lemma_drop_row(self.board, p, p.y as int);
        }
        let dist: i8 = if gy - p.y > 0 { gy - p.y } else { 0 };
        self.score = self.score + 2 * (dist as u32);
        let now = instant_now();
        if dist >= 2 {
            let cols = trail_for(p, gy);
            self.trail = Some(Trail { cols, shape: p.shape, born: now });
        }
        if dist >= 4 {
            self.shake = Some((now, 1));
        }
        let (minx, maxx) = column_span(p.shape.cells(p.rot));
        if dist > 0 {
            let text = plus_text(2 * (dist as u32));
            self.add_popup(text, 2 * (p.x as i16) + (minx as i16) + (maxx as i16) + 1, gy as i16);
        }
        self.piece.y = gy;
        proof {
            if gy > p.y {
                lemma_fits_in_field(self.board, self.piece);
            }
        }
        self.lock();
    }

    /// Gravity: moves the piece down one row, or locks it when it cannot move. Does nothing
    /// while a clear animation plays.
    pub fn tick(&mut self)
        requires
            old(self).clearing is None ==> old(self).inv(),
        ensures
            falls(*old(self), *final(self)),
            old(self).wf() ==> final(self).wf(),
    {
        if self.is_clearing() {
            return;
        }
        proof {
            lemma_placed_bounds(self.piece);
            let c0 = shape_cells(self.piece.shape, self.piece.rot)[0];
            assert(0 <= c0.0 < 4 && 0 <= c0.1 < 4);
        }
        if !self.try_move(0, 1) {
            self.lock();
        }
    }

    /// Swaps the piece with the held one (or, with none held, holds it and deals the next),
    /// once per piece; does nothing after the game ends or while a clear animation plays.
    pub fn hold(&mut self)
        ensures
            holds(*old(self), *final(self)),
            old(self).wf() ==> final(self).wf(),
    {
        if !self.can_hold || self.over || self.is_clearing() {
            return;
        }
        self.can_hold = false;
        let cur = self.piece.shape;
        let next = match self.hold {
            Some(h) => {
                self.hold = Some(cur);
                h
            },
            None => {
                self.hold = Some(cur);
                self.refill();
                let ghost refilled_queue = self.queue@;
                let n = self.queue.pop_front().unwrap();
                proof {
                    assert(seq![n] + self.queue@ =~= refilled_queue);
                }
                n
            },
        };
        proof {
            lemma_spawn_placed(next);
        }
        self.spawn(next);
    }

    /// A new game: empty board, no score, level one, paused in the READY state, with the
    /// first piece dealt from a fresh 7-bag.
    pub fn new() -> (g: Self)
        ensures
            fresh_game(g),
            g.wf(),
    {
        let empty: Row = vstd::array::array_fill_for_copy_types::<Option<Shape>, W>(None);
        let board: Board = vstd::array::array_fill_for_copy_types::<Row, H>(empty);
        proof {
            assert(forall|x: int| 0 <= x < W ==> empty[x] is None);
            assert(forall|y: int| 0 <= y < H ==> board[y] == empty);
        }
        let mut g = Game {
            board,
            piece: Piece { shape: Shape::I, rot: 0, x: 3, y: 0 },
            queue: VecDeque::new(),
            hold: None,
            score: 0,
            lines: 0,
            level: 1,
            paused: true,
            over: false,
            clearing: None,
            born: instant_now(),
            flash: None,
            trail: None,
            shake: None,
            popups: Vec::new(),
            bag: Vec::new(),
            can_hold: true,
        };
        proof {
            assert forall|y: int| 0 <= y < H implies crate::board::row_empty(#[trigger] g.board[y]) by {
            }
            assert(upcoming(g.queue@, g.bag@) =~= Seq::<Shape>::empty());
        }
        g.refill();
        let ghost refilled_queue = g.queue@;
        let first = g.queue.pop_front().unwrap();
        proof {
            assert(seq![first] + g.queue@ =~= refilled_queue);
            assert(upcoming(refilled_queue, g.bag@) =~= seq![first] + upcoming(g.queue@, g.bag@));
            let e = Seq::<Shape>::empty();
            assert(upcoming(e, e) =~= e);
            let p = choose|p: Seq<Shape>| #[trigger] is_bag(p) && upcoming(refilled_queue, g.bag@) == upcoming(e, e) + p;
            assert(upcoming(e, e) + p =~= p);
            lemma_spawn_placed(first);
            lemma_fits_empty(g.board, spawn_piece(first));
            assert forall|i: int| 0 <= i < g.board@.len() implies !row_full(#[trigger] g.board@[i]) by {
                assert(crate::board::row_empty(g.board[i]));
                assert(g.board[i][0] is None);
            }
            crate::board::lemma_no_full_rows(g.board@, 0);
        }
        g.spawn(first);
        g
    }

    /// Expires the lock flash, the trail and the shake whose ages (in milliseconds at one
    /// moment) have reached their lifetimes. Nothing else changes.
    pub fn retire_effects(&mut self, flash_age: u128, trail_age: u128, shake_age: u128)
        ensures
            final(self).flash == (if old(self).flash is Some && flash_age >= LOCK_FLASH_MS {
                None
            } else {
                old(self).flash
            }),
            final(self).trail == (if old(self).trail is Some && trail_age >= TRAIL_MS {
                None
            } else {
                old(self).trail
            }),
            final(self).shake == (if old(self).shake is Some && shake_age >= SHAKE_MS {
                None
            } else {
                old(self).shake
            }),
            *final(self) == (Game {
                flash: final(self).flash,
                trail: final(self).trail,
                shake: final(self).shake,
                ..*old(self)
            }),
    {
        if self.flash.is_some() && flash_age >= LOCK_FLASH_MS {
            self.flash = None;
        }
        if self.trail.is_some() && trail_age >= TRAIL_MS {
            self.trail = None;
        }
        if self.shake.is_some() && shake_age >= SHAKE_MS {
            self.shake = None;
        }
    }

    /// Expires the effects whose time is up on the clock: the lock flash, the trail, the
    /// shake and the stale floating texts. Nothing else changes.
    pub fn tick_effects(&mut self)
        ensures
            final(self).flash == old(self).flash || final(self).flash is None,
            final(self).trail == old(self).trail || final(self).trail is None,
            final(self).shake == old(self).shake || final(self).shake is None,
            aged_out(old(self).popups@, final(self).popups@),
            subseq_of(final(self).popups@, old(self).popups@),
            *final(self) == (Game {
                flash: final(self).flash,
                trail: final(self).trail,
                shake: final(self).shake,
                popups: final(self).popups,
                ..*old(self)
            }),
    {
        let now = instant_now();
        let flash_age: u128 = match &self.flash {
            Some(f) => whole_millis(&duration_since(&now, &f.1)),
            None => 0,
        };
        let trail_age: u128 = match &self.trail {
            Some(t) => whole_millis(&duration_since(&now, &t.born)),
            None => 0,
        };
        let shake_age: u128 = match &self.shake {
            Some(sh) => whole_millis(&duration_since(&now, &sh.0)),
            None => 0,
        };
        self.retire_effects(flash_age, trail_age, shake_age);
        self.drop_stale_popups(&now);
    }

    /// One frame of the main loop, first part: when the game is not paused and the clear
    /// animation has played for `clear_age_ms` milliseconds, at least `CLEAR_ANIM_MS`,
    /// finishes it (the caller then restarts its gravity timer). Tells whether it did.
    pub fn settle_if_due(&mut self, clear_age_ms: u128) -> (settled: bool)
        requires
            !old(self).paused && old(self).clearing is Some && clear_age_ms >= CLEAR_ANIM_MS
                ==> {
                &&& old(self).inv()
                &&& old(self).score + line_score(cleared_count(*old(self))) * old(self).level
                    <= u32::MAX
                &&& old(self).lines + cleared_count(*old(self)) <= u32::MAX
            },
        ensures
            settled == (!old(self).paused && old(self).clearing is Some && clear_age_ms
                >= CLEAR_ANIM_MS),
            settled ==> settles(*old(self), *final(self)) && final(self).wf(),
            !settled ==> *final(self) == *old(self),
    {
        if !self.paused && self.clear_anim_done_after(clear_age_ms) {
            self.finish_clear();
            true
        } else {
            false
        }
    }

    /// One frame of the main loop, second part: gravity acts only while the game runs
    /// (not paused, not over, no clear animation) and `since_last_ms` milliseconds since
    /// the last drop have reached the level's interval `interval_ms`. Tells whether it did
    /// (the caller then restarts its gravity timer).
    pub fn gravity_if_due(&mut self, since_last_ms: u128, interval_ms: u128) -> (ticked: bool)
        requires
            old(self).clearing is None ==> old(self).inv(),
        ensures
            ticked == (!old(self).paused && !old(self).over && old(self).clearing is None
                && since_last_ms >= interval_ms),
            ticked ==> falls(*old(self), *final(self)),
            !ticked ==> *final(self) == *old(self),
            old(self).wf() ==> final(self).wf(),
    {
        if !self.paused && !self.over && !self.is_clearing() && since_last_ms >= interval_ms {
            self.tick();
            true
        } else {
            false
        }
    }

    /// Whether a clear animation of age `age_ms` (milliseconds) has played long enough.
    pub fn clear_anim_done_after(&self, age_ms: u128) -> (done: bool)
        ensures
            done == (self.clearing is Some && age_ms >= CLEAR_ANIM_MS),
    {
        self.clearing.is_some() && age_ms >= CLEAR_ANIM_MS
    }

    /// Whether the clear animation has played long enough on the clock for the main loop
    /// to finish it.
    pub fn clear_anim_done(&self) -> (done: bool)
        ensures
            done ==> self.clearing is Some,
    {
        let age: u128 = match &self.clearing {
            Some(c) => whole_millis(&elapsed(&c.started)),
            None => 0,
        };
        self.clear_anim_done_after(age)
    }
}

} // verus!

verus! {

impl Default for Game {
    /// Same as `Game::new`.
    fn default() -> (g: Self)
        ensures
            fresh_game(g),
            g.wf(),
    {
        Self::new()
    }
}

} // verus!
