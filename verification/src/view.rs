//! The drawing logic that needs no terminal: the palette, a pixel canvas, how four pixels
//! become one quadrant character, and the READY test.
use vstd::prelude::*;
use crate::board::{board_empty, Board, H, W};
use crate::game::{ghost_row, landed, lemma_placed_bounds, piece_cell, piece_placed, Game, Piece};
use crate::shape::{cells_view, shape_cells, Shape};

verus! {

/// Pixels per cell, across.
pub const CELL_W: usize = 4;

/// Pixels per cell, down.
pub const CELL_H: usize = 2;

/// A pixel colour of the canvas.
#[derive(Clone, Copy, PartialEq, Eq, Debug, Structural)]
pub enum Tint {
    Rgb(u8, u8, u8),
    DarkGray,
    White,
    /// The terminal's own colour.
    Reset,
}

/// The classic base colour of each shape.
pub open spec fn base_rgb(s: Shape) -> (u8, u8, u8) {
    match s {
        Shape::I => (70, 215, 255),
        Shape::O => (255, 199, 44),
        Shape::T => (186, 85, 255),
        Shape::S => (70, 230, 110),
        Shape::Z => (255, 75, 85),
        Shape::J => (75, 125, 255),
        Shape::L => (255, 145, 50),
    }
}

/// The classic base colour of a shape (RGB); lighter and darker shades derive from it.
pub fn base(s: Shape) -> (c: (u8, u8, u8))
    ensures
        c == base_rgb(s),
{
    match s {
        Shape::I => (70, 215, 255),
        Shape::O => (255, 199, 44),
        Shape::T => (186, 85, 255),
        Shape::S => (70, 230, 110),
        Shape::Z => (255, 75, 85),
        Shape::J => (75, 125, 255),
        Shape::L => (255, 145, 50),
    }
}

/// The RGB value of a tint; named tints count as mid grey.
pub fn rgb_of(c: Tint) -> (rgb: (u8, u8, u8))
    ensures
        rgb == (match c {
            Tint::Rgb(r, g, b) => (r, g, b),
            _ => (128u8, 128u8, 128u8),
        }),
{
    match c {
        Tint::Rgb(r, g, b) => (r, g, b),
        _ => (128, 128, 128),
    }
}

/// The first pixel that holds a colour, or the terminal's colour if none does.
pub open spec fn first_tint(a: Option<Tint>, b: Option<Tint>, c: Option<Tint>, d: Option<Tint>) -> Tint {
    match a {
        Some(t) => t,
        None => match b {
            Some(t) => t,
            None => match c {
                Some(t) => t,
                None => match d {
                    Some(t) => t,
                    None => Tint::Reset,
                },
            },
        },
    }
}

/// Whether a pixel shows colour `fg`.
pub open spec fn lit(p: Option<Tint>, fg: Tint) -> bool {
    p == Some(fg)
}

/// A transparent pixel shows the terminal's colour.
pub open spec fn or_reset(p: Option<Tint>) -> Tint {
    match p {
        Some(t) => t,
        None => Tint::Reset,
    }
}

/// The first pixel that does not show `fg`, or `fg` if all do.
pub open spec fn backdrop(a: Option<Tint>, b: Option<Tint>, c: Option<Tint>, d: Option<Tint>, fg: Tint) -> Tint {
    if !lit(a, fg) {
        or_reset(a)
    } else if !lit(b, fg) {
        or_reset(b)
    } else if !lit(c, fg) {
        or_reset(c)
    } else if !lit(d, fg) {
        or_reset(d)
    } else {
        fg
    }
}

/// The block character whose lit quadrants are top-left, top-right, bottom-left and
/// bottom-right as given.
pub open spec fn quadrant(tl: bool, tr: bool, bl: bool, br: bool) -> char {
    if tl && tr && bl && br {
        '\u{2588}'
    } else if tl && tr && !bl && !br {
        '\u{2580}'
    } else if !tl && !tr && bl && br {
        '\u{2584}'
    } else if tl && !tr && bl && !br {
        '\u{258c}'
    } else if !tl && tr && !bl && br {
        '\u{2590}'
    } else if tl && !tr && !bl && !br {
        '\u{2598}'
    } else if !tl && tr && !bl && !br {
        '\u{259d}'
    } else if !tl && !tr && bl && !br {
        '\u{2596}'
    } else if !tl && !tr && !bl && br {
        '\u{2597}'
    } else if tl && !tr && !bl && br {
        '\u{259a}'
    } else if !tl && tr && bl && !br {
        '\u{259e}'
    } else if tl && tr && !bl && br {
        '\u{259c}'
    } else if tl && tr && bl && !br {
        '\u{259b}'
    } else if tl && !tr && bl && br {
        '\u{2599}'
    } else if !tl && tr && bl && br {
        '\u{259f}'
    } else {
        ' '
    }
}

fn pick(p: Option<Tint>, fallback: Option<Tint>) -> (r: Option<Tint>)
    ensures
        r == (if p is Some { p } else { fallback }),
{
    match p {
        Some(t) => Some(t),
        None => fallback,
    }
}

fn shows(p: Option<Tint>, fg: Tint) -> (r: bool)
    ensures
        r == lit(p, fg),
{
    match p {
        Some(t) => t == fg,
        None => false,
    }
}

fn reset_if_clear(p: Option<Tint>) -> (r: Tint)
    ensures
        r == or_reset(p),
{
    match p {
        Some(t) => t,
        None => Tint::Reset,
    }
}

/// Turns a 2x2 block of pixels into one character: the first coloured pixel is the
/// foreground, the quadrants showing it are lit, and the first other pixel is the
/// background (a single colour gives a full block).
pub fn tile(tl: Option<Tint>, tr: Option<Tint>, bl: Option<Tint>, br: Option<Tint>) -> (r: (
    char,
    Tint,
    Tint,
))
    ensures
        r.1 == first_tint(tl, tr, bl, br),
        r.0 == quadrant(lit(tl, r.1), lit(tr, r.1), lit(bl, r.1), lit(br, r.1)),
        r.2 == backdrop(tl, tr, bl, br, r.1),
{
    let fg = reset_if_clear(pick(tl, pick(tr, pick(bl, br))));
    let a = shows(tl, fg);
    let b = shows(tr, fg);
    let c = shows(bl, fg);
    let d = shows(br, fg);
    let bg = if !a {
        reset_if_clear(tl)
    } else if !b {
        reset_if_clear(tr)
    } else if !c {
        reset_if_clear(bl)
    } else if !d {
        reset_if_clear(br)
    } else {
        fg
    };
    let sym = if a && b && c && d {
        '\u{2588}'
    } else if a && b && !c && !d {
        '\u{2580}'
    } else if !a && !b && c && d {
        '\u{2584}'
    } else if a && !b && c && !d {
        '\u{258c}'
    } else if !a && b && !c && d {
        '\u{2590}'
    } else if a && !b && !c && !d {
        '\u{2598}'
    } else if !a && b && !c && !d {
        '\u{259d}'
    } else if !a && !b && c && !d {
        '\u{2596}'
    } else if !a && !b && !c && d {
        '\u{2597}'
    } else if a && !b && !c && d {
        '\u{259a}'
    } else if !a && b && c && !d {
        '\u{259e}'
    } else if a && b && !c && d {
        '\u{259c}'
    } else if a && b && c && !d {
        '\u{259b}'
    } else if a && !b && c && d {
        '\u{2599}'
    } else if !a && b && c && d {
        '\u{259f}'
    } else {
        ' '
    };
    (sym, fg, bg)
}

/// Whether a game has not started yet: no points and an empty board (the READY state).
pub fn fresh(game: &Game) -> (f: bool)
    ensures
        f == (game.score == 0 && board_empty(game.board)),
{
    if game.score != 0 {
        return false;
    }
    let mut y: usize = 0;
    while y < crate::board::H
        invariant
            y <= crate::board::H,
            forall|j: int| 0 <= j < y ==> crate::board::row_empty(#[trigger] game.board[j]),
        decreases crate::board::H - y,
    {
        let mut x: usize = 0;
        while x < crate::board::W
            invariant
                y < crate::board::H,
                x <= crate::board::W,
                forall|i: int| 0 <= i < x ==> (#[trigger] game.board[y as int][i]) is None,
            decreases crate::board::W - x,
        {
            if game.board[y][x].is_some() {
                assert(!crate::board::row_empty(game.board[y as int]));
                return false;
            }
            x = x + 1;
        }
        y = y + 1;
    }
    true
}

/// A pixel canvas, row by row; `None` is transparent (the terminal shows through).
pub struct Canvas {
    pub w: usize,
    pub h: usize,
    pub px: Vec<Option<Tint>>,
}

/// Distinct in-range coordinates give distinct row-major indices.
pub proof fn lemma_index_injective(w: int, x: int, y: int, x2: int, y2: int)
    requires
        0 <= x < w,
        0 <= x2 < w,
        0 <= y,
        0 <= y2,
        y * w + x == y2 * w + x2,
    ensures
        x == x2 && y == y2,
{
    if y < y2 {
        assert(y * w + w <= y2 * w) by (nonlinear_arith)
            requires
                y < y2,
                0 <= w,
        ;
    } else if y2 < y {
        assert(y2 * w + w <= y * w) by (nonlinear_arith)
            requires
                y2 < y,
                0 <= w,
        ;
    }
}

/// An in-range pixel has an in-range index.
pub proof fn lemma_index_in_range(w: int, h: int, x: int, y: int)
    requires
        0 <= x < w,
        0 <= y < h,
    ensures
        0 <= y * w + x < w * h,
{
    assert(y * w + x < w * h) by (nonlinear_arith)
        requires
            0 <= x < w,
            0 <= y < h,
    ;
    assert(0 <= y * w) by (nonlinear_arith)
        requires
            0 <= y,
            0 <= w,
    ;
}

impl Canvas {
    /// The canvas holds one pixel per position.
    pub open spec fn wf(&self) -> bool {
        self.px@.len() == self.w * self.h
    }

    /// The pixel at (x, y) of a well-formed canvas.
    pub open spec fn pixel(&self, x: int, y: int) -> Option<Tint> {
        self.px@[y * self.w + x]
    }

    /// A transparent canvas of `w` by `h` pixels.
    pub fn new(w: usize, h: usize) -> (c: Self)
        requires
            w * h <= usize::MAX,
        ensures
            c.wf(),
            c.w == w,
            c.h == h,
            forall|i: int| 0 <= i < c.px@.len() ==> (#[trigger] c.px@[i]) is None,
    {
        let n: usize = w * h;
        let mut px: Vec<Option<Tint>> = Vec::new();
        let mut i: usize = 0;
        while i < n
            invariant
                i <= n,
                px@.len() == i,
                forall|j: int| 0 <= j < i ==> (#[trigger] px@[j]) is None,
            decreases n - i,
        {
            px.push(None);
            i = i + 1;
        }
        Canvas { w, h, px }
    }

    /// Sets the pixel at (x, y); positions outside the canvas are ignored.
    pub fn set(&mut self, x: usize, y: usize, c: Option<Tint>)
        requires
            old(self).wf(),
        ensures
            final(self).wf(),
            final(self).w == old(self).w,
            final(self).h == old(self).h,
            final(self).px@ == (if x < old(self).w && y < old(self).h {
                old(self).px@.update(y * old(self).w + x, c)
            } else {
                old(self).px@
            }),
    {
        if x < self.w && y < self.h {
            let len = self.px.len();
            proof {
                lemma_index_in_range(self.w as int, self.h as int, x as int, y as int);
                assert(0 <= y * self.w <= y * self.w + x < len);
            }
            let i: usize = y * self.w + x;
            self.px.set(i, c);
        }
    }

    /// The pixel at row-major index y * w + x, or transparent past the end.
    pub fn get(&self, x: usize, y: usize) -> (c: Option<Tint>)
        requires
            y * self.w + x <= usize::MAX,
        ensures
            c == (if y * self.w + x < self.px@.len() {
                self.px@[y * self.w + x]
            } else {
                None
            }),
    {
        let i: usize = y * self.w + x;
        if i < self.px.len() {
            self.px[i]
        } else {
            None
        }
    }
}

/// Whether pixel (x, y) is one of the dark dots of the ghost pattern of cell (cx, cy).
pub open spec fn ghost_dot(cx: int, cy: int, x: int, y: int) -> bool {
    &&& cx * (CELL_W as int) <= x < cx * (CELL_W as int) + CELL_W
    &&& cy * (CELL_H as int) <= y < cy * (CELL_H as int) + CELL_H
    &&& (x + y) % 2 == 0
}

/// Paints the ghost piece's 50% dot pattern over cell (cx, cy).
pub fn checker(cv: &mut Canvas, cx: usize, cy: usize)
    requires
        old(cv).wf(),
        (cx + 1) * CELL_W + (cy + 1) * CELL_H <= usize::MAX,
    ensures
        final(cv).wf(),
        final(cv).w == old(cv).w,
        final(cv).h == old(cv).h,
        forall|x: int, y: int|
            0 <= x < old(cv).w && 0 <= y < old(cv).h ==> #[trigger] final(cv).pixel(x, y) == (if ghost_dot(
                cx as int,
                cy as int,
                x,
                y,
            ) {
                Some(Tint::DarkGray)
            } else {
                old(cv).pixel(x, y)
            }),
{
    let mut dy: usize = 0;
    while dy < CELL_H
        invariant
            dy <= CELL_H,
            cv.wf(),
            cv.w == old(cv).w,
            cv.h == old(cv).h,
            (cx + 1) * CELL_W + (cy + 1) * CELL_H <= usize::MAX,
            forall|x: int, y: int|
                0 <= x < cv.w && 0 <= y < cv.h ==> #[trigger] cv.pixel(x, y) == (if ghost_dot(
                    cx as int,
                    cy as int,
                    x,
                    y,
                ) && y < cy * CELL_H + dy {
                    Some(Tint::DarkGray)
                } else {
                    old(cv).pixel(x, y)
                }),
        decreases CELL_H - dy,
    {
        let mut dx: usize = 0;
        while dx < CELL_W
            invariant
                dy < CELL_H,
                dx <= CELL_W,
                cv.wf(),
                cv.w == old(cv).w,
                cv.h == old(cv).h,
                (cx + 1) * CELL_W + (cy + 1) * CELL_H <= usize::MAX,
                forall|x: int, y: int|
                    0 <= x < cv.w && 0 <= y < cv.h ==> #[trigger] cv.pixel(x, y) == (if ghost_dot(
                        cx as int,
                        cy as int,
                        x,
                        y,
                    ) && (y < cy * CELL_H + dy || (y == cy * CELL_H + dy && x < cx * CELL_W + dx)) {
                        Some(Tint::DarkGray)
                    } else {
                        old(cv).pixel(x, y)
                    }),
            decreases CELL_W - dx,
        {
            let x: usize = cx * CELL_W + dx;
            let y: usize = cy * CELL_H + dy;
            let ghost before = *cv;
            if (x + y) % 2 == 0 {
                cv.set(x, y, Some(Tint::DarkGray));
            }
            proof {
                assert forall|xx: int, yy: int|
                    0 <= xx < cv.w && 0 <= yy < cv.h implies #[trigger] cv.pixel(xx, yy) == (if ghost_dot(
                        cx as int,
                        cy as int,
                        xx,
                        yy,
                    ) && (yy < cy * CELL_H + dy || (yy == cy * CELL_H + dy && xx < cx * CELL_W + dx
                        + 1)) {
                        Some(Tint::DarkGray)
                    } else {
                        old(cv).pixel(xx, yy)
                    }) by {
                    lemma_index_in_range(cv.w as int, cv.h as int, xx, yy);
                    assert(cv.pixel(xx, yy) == cv.px@[yy * cv.w + xx]);
                    if xx != x || yy != y {
                        if x < cv.w && y < cv.h && (x + y) % 2 == 0 {
                            lemma_index_in_range(cv.w as int, cv.h as int, x as int, y as int);
                            if yy * cv.w + xx == y * cv.w + x {
                                lemma_index_injective(cv.w as int, xx, yy, x as int, y as int);
                            }
                            assert(yy * cv.w + xx != y * cv.w + x);
                            assert(cv.px@ == before.px@.update(y * cv.w + x, Some(Tint::DarkGray)));
                            assert(cv.px@[yy * cv.w + xx] == before.px@[yy * cv.w + xx]);
                        } else {
                            assert(cv.px@ == before.px@);
                        }
                        assert(cv.pixel(xx, yy) == before.pixel(xx, yy));
                    }
                }
            }
            dx = dx + 1;
        }
        dy = dy + 1;
    }
}

/// The cells among the first `n` of piece `p` that lie inside the field, as squares.
pub open spec fn field_cells(p: Piece, n: nat) -> Seq<(usize, usize)>
    decreases n,
{
    if n == 0 {
        Seq::empty()
    } else {
        let c = piece_cell(p, n - 1);
        field_cells(p, (n - 1) as nat) + (if 0 <= c.1 < H {
            seq![(c.0 as usize, c.1 as usize)]
        } else {
            Seq::empty()
        })
    }
}

/// The cells among the first `n` of piece `p` that lie inside the field on free squares.
pub open spec fn free_field_cells(b: Board, p: Piece, n: nat) -> Seq<(usize, usize)>
    decreases n,
{
    if n == 0 {
        Seq::empty()
    } else {
        let c = piece_cell(p, n - 1);
        free_field_cells(b, p, (n - 1) as nat) + (if 0 <= c.1 < H && b[c.1][c.0] is None {
            seq![(c.0 as usize, c.1 as usize)]
        } else {
            Seq::empty()
        })
    }
}

/// The squares where the falling piece is drawn: first its ghost (the cells of its
/// landing pose on free squares of the field), then the piece itself (its cells inside
/// the field). There is no falling piece once the game is over or while the clear
/// animation plays, so both are then empty.
pub fn piece_layers(game: &Game) -> (layers: (Vec<(usize, usize)>, Vec<(usize, usize)>))
    requires
        piece_placed(game.piece),
    ensures
        game.over || game.clearing is Some ==> layers.0@.len() == 0 && layers.1@.len() == 0,
        !game.over && game.clearing is None ==> layers.0@ == free_field_cells(
            game.board,
            landed(game.piece, ghost_row(game.board, game.piece)),
            4,
        ) && layers.1@ == field_cells(game.piece, 4),
{
    let mut ghost: Vec<(usize, usize)> = Vec::new();
    let mut cells: Vec<(usize, usize)> = Vec::new();
    if game.over || game.is_clearing() {
        return (ghost, cells);
    }
    let p = game.piece;
    proof {
        lemma_placed_bounds(p);
    }
    let gy = game.ghost_y();
    let ghost lp = landed(p, gy as int);
    let cs = p.shape.cells(p.rot);
    let mut i: usize = 0;
    while i < 4
        invariant
            i <= 4,
            p == game.piece,
            piece_placed(p),
            p.y <= gy < H,
            lp == landed(p, gy as int),
            cells_view(cs) == shape_cells(p.shape, p.rot),
            crate::shape::in_box(p.shape, shape_cells(p.shape, p.rot)),
            ghost@ == free_field_cells(game.board, lp, i as nat),
            cells@ == field_cells(p, i as nat),
        decreases 4 - i,
    {
        assert(0 <= piece_cell(p, i as int).0 < W && piece_cell(p, i as int).1 < H);
        assert(piece_cell(lp, i as int) == (p.x + cs[i as int].0, gy + cs[i as int].1));
        let x: i8 = p.x + cs[i].0;
        let y: i8 = gy + cs[i].1;
        if y >= 0 && (y as usize) < H && game.board[y as usize][x as usize].is_none() {
            ghost.push((x as usize, y as usize));
        }
        let py: i8 = p.y + cs[i].1;
        if py >= 0 && (py as usize) < H {
            cells.push((x as usize, py as usize));
        }
        proof {
            assert(ghost@ =~= free_field_cells(game.board, lp, (i + 1) as nat));
            assert(cells@ =~= field_cells(p, (i + 1) as nat));
        }
        i = i + 1;
    }
    (ghost, cells)
}

} // verus!
