//! Key map: h/l move left/right, k turns (z turns back), j hard-drops, J soft-drops one
//! row, c holds, space starts/pauses, r restarts, q (or Esc, or Ctrl-C) quits.
use vstd::prelude::*;
use crate::game::{can_shift, drop_distance, drops, fresh_game, holds, shifts, turns, Game};

verus! {

/// What the main loop should do after a key.
#[derive(Clone, Copy, PartialEq, Eq, Debug, Structural)]
pub enum Outcome {
    Nop,
    /// A vertical move or a state change: the main loop restarts its gravity timer.
    Reset,
    Quit,
}

/// A key, as far as the game tells keys apart.
#[derive(Clone, Copy, PartialEq, Eq, Debug, Structural)]
pub enum Key {
    Char(char),
    Esc,
    Other,
}

/// The modifier keys held with a key.
#[derive(Clone, Copy, PartialEq, Eq, Debug, Structural)]
pub struct Modifiers {
    pub shift: bool,
    pub control: bool,
    pub alt: bool,
}

impl Modifiers {
    /// No modifier held.
    pub fn none() -> (m: Self)
        ensures
            !m.shift && !m.control && !m.alt,
    {
        Modifiers { shift: false, control: false, alt: false }
    }

    /// Shift held.
    pub fn shift() -> (m: Self)
        ensures
            m.shift && !m.control && !m.alt,
    {
        Modifiers { shift: true, control: false, alt: false }
    }

    /// Control held.
    pub fn control() -> (m: Self)
        ensures
            !m.shift && m.control && !m.alt,
    {
        Modifiers { shift: false, control: true, alt: false }
    }
}

/// The keys that quit: q, Esc, and Ctrl-C.
pub open spec fn is_quit(code: Key, mods: Modifiers) -> bool {
    code == Key::Char('q') || code == Key::Esc || (mods.control && code == Key::Char('c'))
}

/// The effect of key `code` with `mods` on game `a`, giving `b` and outcome `out`:
/// quitting changes nothing; space toggles pause unless the game is over; r starts a new
/// game; while paused or over nothing else acts; h/l shift, k/z turn, j hard-drops,
/// J soft-drops one row scoring a point if the piece moved, c holds.
pub open spec fn key_effect(code: Key, mods: Modifiers, a: Game, b: Game, out: Outcome) -> bool {
    if is_quit(code, mods) {
        out == Outcome::Quit && b == a
    } else if code == Key::Char(' ') {
        out == Outcome::Reset && b == (Game { paused: if a.over { a.paused } else { !a.paused }, ..a })
    } else if code == Key::Char('r') {
        out == Outcome::Reset && fresh_game(b)
    } else if a.paused || a.over {
        out == Outcome::Nop && b == a
    } else if code == Key::Char('h') {
        out == Outcome::Nop && shifts(a, b, -1, 0)
    } else if code == Key::Char('l') {
        out == Outcome::Nop && shifts(a, b, 1, 0)
    } else if code == Key::Char('k') {
        out == Outcome::Nop && turns(a, b, 1)
    } else if code == Key::Char('z') {
        out == Outcome::Nop && turns(a, b, 3)
    } else if code == Key::Char('j') {
        out == Outcome::Reset && drops(a, b)
    } else if code == Key::Char('J') {
        &&& out == Outcome::Reset
        &&& shifts(a, Game { score: a.score, ..b }, 0, 1)
        &&& b.score == a.score + (if can_shift(a, 0, 1) { 1int } else { 0 })
    } else if code == Key::Char('c') {
        out == Outcome::Reset && holds(a, b)
    } else {
        out == Outcome::Nop && b == a
    }
}

/// Applies one key press to the game and tells the main loop what to do next.
pub fn handle_key(game: &mut Game, code: Key, mods: Modifiers) -> (out: Outcome)
    requires
        old(game).wf(),
        code == Key::Char('j') && !old(game).paused && !old(game).over && old(game).clearing is None
            ==> old(game).score + 2 * drop_distance(*old(game)) <= u32::MAX,
        code == Key::Char('J') && !old(game).paused && !old(game).over && can_shift(*old(game), 0, 1)
            ==> old(game).score < u32::MAX,
    ensures
        key_effect(code, mods, *old(game), *final(game), out),
        final(game).wf(),
{
    let ctrl_c = mods.control && code == Key::Char('c');
    if code == Key::Char('q') || code == Key::Esc || ctrl_c {
        return Outcome::Quit;
    }
    if code == Key::Char(' ') {
        // Space does nothing once the game is over: only r restarts.
        if !game.over {
            game.paused = !game.paused;
        }
        return Outcome::Reset;
    }
    if code == Key::Char('r') {
        *game = Game::new();
        return Outcome::Reset;
    }
    if game.paused || game.over {
        return Outcome::Nop;
    }
    proof {
        crate::game::lemma_placed_bounds(game.piece);
        let c0 = crate::shape::shape_cells(game.piece.shape, game.piece.rot)[0];
        assert(0 <= c0.0 < 4 && 0 <= c0.1 < 4);
    }
    if code == Key::Char('h') {
        game.try_move(-1, 0);
        Outcome::Nop
    } else if code == Key::Char('l') {
        game.try_move(1, 0);
        Outcome::Nop
    } else if code == Key::Char('k') {
        game.rotate(1);
        Outcome::Nop
    } else if code == Key::Char('z') {
        game.rotate(3);
        Outcome::Nop
    } else if code == Key::Char('j') {
        game.hard_drop();
        Outcome::Reset
    } else if code == Key::Char('J') {
        if game.try_move(0, 1) {
            game.score = game.score + 1;
        }
        Outcome::Reset
    } else if code == Key::Char('c') {
        game.hold();
        Outcome::Reset
    } else {
        Outcome::Nop
    }
}

} // verus!
