use tetris_tui::game::{fits, Game, Shape, W};

/// Regression: after locking, the stack must sit at the bottom. A clear_lines that
/// reversed the row order once flipped the whole board, locking pieces in the top row.
#[test]
fn hard_drop_stacks_at_bottom() {
    let mut g = Game::new();
    g.spawn(Shape::O);
    g.hard_drop();
    assert_eq!(g.board[19][4], Some(Shape::O));
    assert_eq!(g.board[18][5], Some(Shape::O));
    assert_eq!(g.board[0][4], None);
    assert_eq!(g.board[1][5], None);
    assert!(!g.over);
}

#[test]
fn sequential_drops_stack_without_game_over() {
    let mut g = Game::new();
    for _ in 0..4 {
        g.spawn(Shape::I);
        g.hard_drop();
    }
    assert!(!g.over);
    assert_eq!(g.board[19][3], Some(Shape::I));
    assert_eq!(g.board[16][6], Some(Shape::I));
    assert_eq!(g.board[15][3], None);
}

#[test]
fn line_clear_keeps_row_order() {
    let mut g = Game::new();
    for x in 0..W {
        if x != 3 && x != 4 && x != 5 {
            g.board[19][x] = Some(Shape::Z);
        }
    }
    g.board[18][0] = Some(Shape::J);
    g.spawn(Shape::T);
    g.hard_drop(); // the T's bottom three cells complete row 19
    assert!(g.is_clearing(), "a full row first starts the clear animation");
    g.finish_clear();
    assert_eq!(g.lines, 1);
    // 18 rows of hard drop at 2 points each, plus one line at 100 x level 1
    assert_eq!(g.score, 36 + 100);
    // the rows above move down one, in order (the flip bug would send J to row 1)
    assert_eq!(g.board[19][0], Some(Shape::J));
    assert_eq!(g.board[1][0], None);
    assert_eq!(g.board[0][0], None);
}

#[test]
fn spawn_into_blocked_top_ends_game() {
    let mut g = Game::new();
    for y in 0..2 {
        for x in 3..6 {
            g.board[y][x] = Some(Shape::Z);
        }
    }
    g.spawn(Shape::T);
    assert!(g.over);
}

#[test]
fn hold_swaps_once_per_piece() {
    let mut g = Game::new();
    g.spawn(Shape::I);
    let next = g.queue[0];
    g.hold();
    assert_eq!(g.hold, Some(Shape::I));
    assert_eq!(g.piece.shape, next);
    g.hold(); // only one hold before each lock
    assert_eq!(g.piece.shape, next);
    g.hard_drop();
    g.hold(); // allowed again after the lock
    assert_eq!(g.piece.shape, Shape::I);
}

#[test]
fn gravity_locks_when_landing() {
    let mut g = Game::new();
    g.spawn(Shape::O);
    while !g.over && g.board[18][4].is_none() {
        g.tick();
    }
    assert_eq!(g.board[19][4], Some(Shape::O));
    assert_eq!(g.board[18][4], Some(Shape::O));
}

/// Invariant: after any sequence of keys the current piece stands in a legal place (no
/// overlap, inside the field or hanging above it).
#[test]
fn current_piece_always_in_legal_state() {
    let mut g = Game::new();
    let keys: [fn(&mut Game); 6] = [
        |g| {
            g.try_move(-1, 0);
        },
        |g| {
            g.try_move(1, 0);
        },
        |g| g.rotate(1),
        |g| g.rotate(3),
        |g| {
            g.tick();
        },
        |g| g.hard_drop(),
    ];
    for i in 0..300 {
        if g.over {
            g = Game::new();
        }
        keys[i % keys.len()](&mut g);
        if g.is_clearing() {
            g.finish_clear(); // like the main loop: settle as soon as the animation ends
        }
        let p = g.piece;
        // when over the spawn spot may be taken (that is why it ended); otherwise legal
        if !g.over {
            assert!(fits(&g.board, p.shape, p.rot, p.x, p.y), "step {i}: {p:?}");
        }
    }
}

/// During the clear animation there is no falling piece: shifting, turning, hard drop
/// and gravity are all suspended.
#[test]
fn clearing_freezes_all_piece_ops() {
    let mut g = Game::new();
    for x in 0..W {
        if x != 4 && x != 5 {
            g.board[19][x] = Some(Shape::Z);
        }
    }
    g.spawn(Shape::O);
    g.hard_drop(); // the O completes row 19 and starts the animation
    assert!(g.is_clearing());
    let p = (g.piece.x, g.piece.rot, g.piece.y);
    assert!(!g.try_move(1, 0));
    g.rotate(1);
    g.hard_drop();
    g.tick();
    assert_eq!((g.piece.x, g.piece.rot, g.piece.y), p);
    assert!(g.board[19][4].is_some(), "rows are not collapsed during the animation");
    g.finish_clear();
    assert!(!g.is_clearing());
    assert_eq!(g.lines, 1);
    assert_eq!(g.board[19][4], Some(Shape::O), "what was above moves down one row");
}
