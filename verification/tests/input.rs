use tetris_tui::game::Game;
use tetris_tui::input::{handle_key, Key, Modifiers, Outcome};

fn key(g: &mut Game, c: char) -> Outcome {
    handle_key(g, Key::Char(c), Modifiers::none())
}

fn space(g: &mut Game) -> Outcome {
    handle_key(g, Key::Char(' '), Modifiers::none())
}

/// A new game is READY (paused); space toggles start and pause.
#[test]
fn space_toggles_start_and_pause() {
    let mut g = Game::new();
    assert!(g.paused, "a new game is READY (paused)");
    space(&mut g);
    assert!(!g.paused);
    space(&mut g);
    assert!(g.paused);
}

/// While paused, moving, turning, soft and hard drop do nothing.
#[test]
fn movement_dead_while_paused() {
    let mut g = Game::new();
    space(&mut g); // start
    space(&mut g); // pause
    let (x, r, y, s) = (g.piece.x, g.piece.rot, g.piece.y, g.score);
    key(&mut g, 'h');
    key(&mut g, 'l');
    key(&mut g, 'k');
    key(&mut g, 'j');
    key(&mut g, 'J');
    assert_eq!((g.piece.x, g.piece.rot, g.piece.y, g.score), (x, r, y, s));
}

#[test]
fn hl_move_k_rotate() {
    let mut g = Game::new();
    space(&mut g);
    let x = g.piece.x;
    key(&mut g, 'h');
    assert_eq!(g.piece.x, x - 1);
    key(&mut g, 'l');
    assert_eq!(g.piece.x, x);

    let r = g.piece.rot;
    key(&mut g, 'k');
    assert_eq!(g.piece.rot, (r + 1) % 4);

    assert_eq!(key(&mut g, 'q'), Outcome::Quit);
}

/// Shift+J soft-drops one row and scores a point.
#[test]
fn shift_j_soft_drops_one_cell() {
    let mut g = Game::new();
    space(&mut g);
    let s = g.score;
    let out = handle_key(&mut g, Key::Char('J'), Modifiers::shift());
    assert_eq!(out, Outcome::Reset, "a soft drop restarts the gravity timer");
    assert_eq!(g.piece.y, 1);
    assert_eq!(g.piece.x, g.piece.x);
    assert_eq!(g.score, s + 1);
}

/// j hard-drops straight to the bottom, locks there and deals a new piece at once.
#[test]
fn j_hard_drops_to_bottom() {
    let mut g = Game::new();
    space(&mut g);
    let out = key(&mut g, 'j');
    assert_eq!(out, Outcome::Reset);
    assert!(g.board[19].iter().any(|c| c.is_some()));
    assert!(!g.over);
    assert_eq!(g.piece.y, 0, "a new piece is dealt after the lock");
    assert!(g.score > 0, "a hard drop scores by distance");
}

/// Once the game is over space no longer resumes; only r restarts.
#[test]
fn space_ignored_after_game_over() {
    let mut g = Game::new();
    space(&mut g);
    assert!(!g.paused);
    g.over = true;
    space(&mut g);
    assert!(!g.paused);
}

#[test]
fn r_restarts_to_ready() {
    let mut g = Game::new();
    space(&mut g);
    key(&mut g, 'J');
    assert!(g.score > 0);
    key(&mut g, 'r');
    assert_eq!(g.score, 0);
    assert!(g.paused, "a restart goes back to READY");
    assert!(g.board.iter().all(|row| row.iter().all(|c| c.is_none())));
}
