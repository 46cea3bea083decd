use std::time::{Duration, Instant};
use tetris_tui::board::{fits, H, W};
use tetris_tui::game::{Game, LINE_SCORE};
use tetris_tui::input::{handle_key, Key, Modifiers, Outcome};
use tetris_tui::shape::{Shape, ALL};

fn wait(ms: u64) {
    let t = Instant::now();
    while t.elapsed() < Duration::from_millis(ms) {}
}

fn deal_order(g: &Game) -> Vec<Shape> {
    let mut v: Vec<Shape> = g.queue.iter().copied().collect();
    v.extend(g.bag.iter().rev().copied());
    v
}

#[test]
fn new_game_deals_one_full_bag_first() {
    let g = Game::new();
    let mut first = vec![g.piece.shape];
    first.extend(deal_order(&g));
    assert_eq!(first.len(), 7);
    for s in ALL {
        assert_eq!(first.iter().filter(|&&t| t == s).count(), 1, "{s:?}");
    }
    assert_eq!(g.queue.len(), 4);
    assert_eq!((g.score, g.lines, g.level), (0, 0, 1));
    assert!(g.paused && !g.over && g.hold.is_none());
}

#[test]
fn later_bags_are_whole_permutations() {
    let mut g = Game::new();
    let mut dealt = vec![g.piece.shape];
    for _ in 0..27 {
        let before = deal_order(&g);
        g.board = [[None; W]; H];
        g.hard_drop();
        dealt.push(g.piece.shape);
        // the queue keeps its order: the new piece is the old head
        assert_eq!(g.piece.shape, before[0]);
        let after = deal_order(&g);
        assert_eq!(&after[..before.len() - 1], &before[1..]);
    }
    for bag in dealt.chunks(7) {
        for s in ALL {
            assert_eq!(bag.iter().filter(|&&t| t == s).count(), 1);
        }
    }
}

#[test]
fn shape_cells_turn_in_their_box() {
    assert_eq!(Shape::I.cells(1), [(2, 0), (2, 1), (2, 2), (2, 3)]);
    assert_eq!(Shape::T.cells(1), [(2, 1), (1, 0), (1, 1), (1, 2)]);
    let mut o3 = Shape::O.cells(3);
    let mut o0 = Shape::O.cells(0);
    o3.sort();
    o0.sort();
    assert_eq!(o3, o0, "the O covers the same square in every rotation");
    for s in ALL {
        for r in 0..8u8 {
            assert_eq!(s.cells(r), s.cells(r + 4));
            assert_eq!(s.cells(r), s.cells(r % 4));
        }
    }
}

#[test]
fn fits_edges() {
    let b = [[None; W]; H];
    assert!(fits(&b, Shape::O, 0, 0, 0));
    assert!(!fits(&b, Shape::O, 0, -1, 0), "left wall");
    assert!(!fits(&b, Shape::O, 0, 9, 0), "right wall");
    assert!(fits(&b, Shape::O, 0, 4, -2), "above the field counts as free");
    assert!(fits(&b, Shape::O, 0, 4, 18));
    assert!(!fits(&b, Shape::O, 0, 4, 19), "floor");
    let mut b2 = b;
    b2[19][4] = Some(Shape::Z);
    assert!(!fits(&b2, Shape::O, 0, 4, 18), "locked cell");
}

#[test]
fn ghost_row_on_empty_board() {
    let mut g = Game::new();
    g.spawn(Shape::O);
    assert_eq!(g.ghost_y(), 18);
    g.spawn(Shape::I);
    assert_eq!(g.ghost_y(), 18);
}

#[test]
fn hard_drop_scores_and_shows_points() {
    let mut g = Game::new();
    g.spawn(Shape::O);
    g.hard_drop();
    assert_eq!(g.score, 36);
    let p = g.popups.last().unwrap();
    assert_eq!(p.text, "+36");
    assert_eq!((p.half_x, p.y), (10, 18));
    let t = g.trail.as_ref().unwrap();
    assert_eq!(t.shape, Shape::O);
    assert_eq!(t.cols, vec![(4, 0, 18), (5, 0, 18), (4, 1, 19), (5, 1, 19)]);
    assert_eq!(g.shake.unwrap().1, 1);
    assert_eq!(
        g.flash.as_ref().unwrap().0,
        vec![(4, 18), (5, 18), (4, 19), (5, 19)],
        "every lock flashes its landed cells"
    );
    assert_eq!(g.piece.y, 0);
}

#[test]
fn short_hard_drop_has_no_trail_or_shake() {
    let mut g = Game::new();
    for y in 3..H {
        for x in 0..W {
            if x != 0 {
                g.board[y][x] = Some(Shape::Z);
            }
        }
    }
    g.spawn(Shape::O); // lands on row 1 after one row
    g.hard_drop();
    assert_eq!(g.score, 2);
    assert!(g.trail.is_none());
    assert!(g.shake.is_none());
    assert_eq!(g.popups.last().unwrap().text, "+2");
}

#[test]
fn tetris_scores_eight_hundred_times_level() {
    let mut g = Game::new();
    for y in 16..H {
        for x in 1..W {
            g.board[y][x] = Some(Shape::Z);
        }
    }
    g.spawn(Shape::I);
    g.rotate(1);
    assert_eq!(g.piece.rot, 1);
    for _ in 0..5 {
        assert!(g.try_move(-1, 0));
    }
    assert_eq!(g.piece.x, -2);
    g.hard_drop();
    assert!(g.is_clearing());
    assert_eq!(g.clearing.as_ref().unwrap().rows, vec![16, 17, 18, 19]);
    assert_eq!(g.flash.as_ref().unwrap().0, vec![(0, 16), (0, 17), (0, 18), (0, 19)]);
    g.finish_clear();
    assert!(g.flash.is_none(), "the flashed cells were cleared away");
    assert_eq!(g.score, 32 + LINE_SCORE[4]);
    assert_eq!(g.lines, 4);
    assert_eq!(g.level, 1);
    assert_eq!(g.shake.unwrap().1, 4);
    let p = g.popups.last().unwrap();
    assert_eq!((p.text.as_str(), p.half_x, p.y), ("+800", 10, 16));
    assert!(g.board.iter().all(|row| row.iter().all(|c| c.is_none())));
}

#[test]
fn level_follows_lines() {
    let mut g = Game::new();
    g.lines = 9;
    for x in 0..W {
        if x != 4 && x != 5 {
            g.board[19][x] = Some(Shape::Z);
        }
    }
    g.spawn(Shape::O);
    g.hard_drop();
    g.finish_clear();
    assert_eq!(g.lines, 10);
    assert_eq!(g.level, 2);
    assert_eq!(g.score, 36 + 100);
    // the next single line is worth twice as much
    g.board = [[None; W]; H];
    for x in 0..W {
        if x != 4 && x != 5 {
            g.board[19][x] = Some(Shape::Z);
        }
    }
    g.spawn(Shape::O);
    g.hard_drop();
    g.finish_clear();
    assert_eq!(g.score, 136 + 36 + 200);
    assert_eq!(g.popups.last().unwrap().text, "+200");
}

#[test]
fn hold_with_empty_slot_deals_next() {
    let mut g = Game::new();
    let cur = g.piece.shape;
    let q: Vec<Shape> = g.queue.iter().copied().collect();
    g.hold();
    assert_eq!(g.hold, Some(cur));
    assert_eq!(g.piece.shape, q[0]);
    assert_eq!(g.piece.y, 0);
    let after: Vec<Shape> = g.queue.iter().copied().collect();
    assert_eq!(&after[..3], &q[1..]);
    assert_eq!(after.len(), 4);
}

#[test]
fn hold_ignored_after_game_over() {
    let mut g = Game::new();
    g.over = true;
    let s = g.piece.shape;
    g.hold();
    assert_eq!(g.hold, None);
    assert_eq!(g.piece.shape, s);
}

#[test]
fn rotation_kicks_off_the_wall() {
    let mut g = Game::new();
    g.spawn(Shape::I);
    g.rotate(1); // vertical in column 5
    for _ in 0..5 {
        g.try_move(-1, 0);
    }
    assert_eq!(g.piece.x, -2);
    g.rotate(1); // horizontal would stick out left: kicked right by two
    assert_eq!(g.piece.rot, 2);
    assert_eq!(g.piece.x, 0);
    assert!(fits(&g.board, g.piece.shape, g.piece.rot, g.piece.x, g.piece.y));
}

#[test]
fn rotation_blocked_everywhere_changes_nothing() {
    let mut g = Game::new();
    for y in 0..H {
        for x in 0..W {
            if !(3..=6).contains(&x) || y > 1 {
                g.board[y][x] = Some(Shape::Z);
            }
        }
    }
    g.spawn(Shape::I); // row 1, columns 3..6
    let p = (g.piece.x, g.piece.y, g.piece.rot);
    g.rotate(1);
    assert_eq!((g.piece.x, g.piece.y, g.piece.rot), p);
}

#[test]
fn keys_quit_hold_and_turn_back() {
    let mut g = Game::new();
    assert_eq!(handle_key(&mut g, Key::Esc, Modifiers::none()), Outcome::Quit);
    assert_eq!(handle_key(&mut g, Key::Char('c'), Modifiers::control()), Outcome::Quit);
    assert_eq!(handle_key(&mut g, Key::Char(' '), Modifiers::none()), Outcome::Reset);
    assert_eq!(handle_key(&mut g, Key::Char('z'), Modifiers::none()), Outcome::Nop);
    assert_eq!(g.piece.rot, 3);
    let s = g.piece.shape;
    assert_eq!(handle_key(&mut g, Key::Char('c'), Modifiers::none()), Outcome::Reset);
    assert_eq!(g.hold, Some(s));
    assert_eq!(handle_key(&mut g, Key::Char('x'), Modifiers::none()), Outcome::Nop);
    assert_eq!(handle_key(&mut g, Key::Other, Modifiers::none()), Outcome::Nop);
}

#[test]
fn effects_expire_with_time() {
    let mut g = Game::new();
    for x in 0..W {
        if x != 4 && x != 5 {
            g.board[19][x] = Some(Shape::Z);
        }
    }
    g.spawn(Shape::O);
    g.hard_drop();
    assert!(g.is_clearing());
    assert!(!g.clear_anim_done());
    g.tick_effects();
    assert!(g.flash.is_some() && g.trail.is_some() && g.shake.is_some());
    assert_eq!(g.popups.len(), 1);
    wait(250);
    assert!(g.clear_anim_done());
    g.tick_effects();
    assert!(g.flash.is_none() && g.trail.is_none() && g.shake.is_none());
    assert_eq!(g.popups.len(), 1);
    wait(500);
    g.tick_effects();
    assert!(g.popups.is_empty());
}

#[test]
fn at_most_six_popups() {
    let mut g = Game::new();
    for _ in 0..10 {
        g.board = [[None; W]; H];
        g.spawn(Shape::O);
        g.hard_drop();
    }
    assert_eq!(g.popups.len(), 6);
}

#[test]
fn default_is_a_new_game() {
    let g = Game::default();
    assert!(g.paused && !g.over);
    assert_eq!(g.queue.len(), 4);
}

#[test]
fn bags_are_shuffled() {
    // With an unshuffled bag every game would start with the same shape.
    let firsts: Vec<Shape> = (0..60).map(|_| Game::new().piece.shape).collect();
    assert!(firsts.iter().any(|&s| s != firsts[0]));
}

#[test]
fn effects_retire_by_age() {
    let mut g = Game::new();
    g.spawn(Shape::O);
    g.hard_drop(); // trail, shake, flash and a popup
    assert!(g.trail.is_some() && g.shake.is_some());
    g.retire_effects(0, 169, 139);
    assert!(g.trail.is_some() && g.shake.is_some());
    g.retire_effects(0, 170, 140);
    assert!(g.trail.is_none() && g.shake.is_none());
    assert!(g.flash.is_some());
    g.retire_effects(130, 0, 0);
    assert!(g.flash.is_none());
    g.spawn(Shape::O);
    g.hard_drop();
    assert_eq!(g.popups.len(), 2);
    g.retain_young_popups(&vec![700, 699]);
    assert_eq!(g.popups.len(), 1);
    assert_eq!(g.popups[0].text, "+32", "the second drop, two rows shorter, is kept");
    assert!(!g.clear_anim_done_after(1000), "no animation runs");
}

#[test]
fn clear_anim_done_after_its_duration() {
    let mut g = Game::new();
    for x in 0..W {
        if x != 4 && x != 5 {
            g.board[19][x] = Some(Shape::Z);
        }
    }
    g.spawn(Shape::O);
    g.hard_drop();
    assert!(!g.clear_anim_done_after(199));
    assert!(g.clear_anim_done_after(200));
    g.retire_effects(129, 0, 0);
    assert!(g.flash.is_some());
    g.retire_effects(130, 0, 0);
    assert!(g.flash.is_none());
}

#[test]
fn gravity_only_while_running() {
    let mut g = Game::new(); // READY: paused
    assert!(!g.gravity_if_due(1000, 500), "no gravity while paused");
    assert_eq!(g.piece.y, 0);
    g.paused = false;
    assert!(!g.gravity_if_due(499, 500), "not yet due");
    assert!(g.gravity_if_due(500, 500));
    assert_eq!(g.piece.y, 1);
    g.over = true;
    assert!(!g.gravity_if_due(1000, 500), "no gravity after game over");
    assert_eq!(g.piece.y, 1);
}

#[test]
fn settle_only_when_animation_done_and_running() {
    let mut g = Game::new();
    g.paused = false;
    assert!(!g.settle_if_due(1000), "no animation runs");
    for x in 0..W {
        if x != 4 && x != 5 {
            g.board[19][x] = Some(Shape::Z);
        }
    }
    g.spawn(Shape::O);
    g.hard_drop();
    assert!(g.is_clearing());
    assert!(!g.gravity_if_due(1000, 500), "no gravity during the animation");
    assert!(!g.settle_if_due(199));
    g.paused = true;
    assert!(!g.settle_if_due(500), "the animation waits while paused");
    assert!(g.is_clearing());
    g.paused = false;
    assert!(g.settle_if_due(200));
    assert!(!g.is_clearing());
    assert_eq!(g.lines, 1);
}
