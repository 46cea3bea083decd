use tetris_tui::game::Game;
use tetris_tui::input::{handle_key, Key, Modifiers};
use tetris_tui::shape::Shape;
use tetris_tui::view::{base, checker, fresh, rgb_of, tile, Canvas, Tint};

#[test]
fn tile_picks_glyph_and_colours() {
    let a = Some(Tint::Rgb(1, 2, 3));
    let b = Some(Tint::White);
    assert_eq!(tile(a, a, a, a), ('\u{2588}', Tint::Rgb(1, 2, 3), Tint::Rgb(1, 2, 3)));
    assert_eq!(tile(a, a, b, b), ('\u{2580}', Tint::Rgb(1, 2, 3), Tint::White));
    assert_eq!(tile(None, None, b, b), ('\u{2584}', Tint::White, Tint::Reset));
    assert_eq!(tile(None, a, None, None), ('\u{259d}', Tint::Rgb(1, 2, 3), Tint::Reset));
    assert_eq!(tile(a, b, b, a), ('\u{259a}', Tint::Rgb(1, 2, 3), Tint::White));
    assert_eq!(tile(None, None, None, None), (' ', Tint::Reset, Tint::Reset));
}

#[test]
fn palette() {
    assert_eq!(base(Shape::I), (70, 215, 255));
    assert_eq!(base(Shape::L), (255, 145, 50));
    assert_eq!(rgb_of(Tint::Rgb(9, 8, 7)), (9, 8, 7));
    assert_eq!(rgb_of(Tint::DarkGray), (128, 128, 128));
}

#[test]
fn canvas_set_and_get() {
    let mut cv = Canvas::new(8, 4);
    assert_eq!(cv.px.len(), 32);
    cv.set(3, 2, Some(Tint::White));
    assert_eq!(cv.get(3, 2), Some(Tint::White));
    assert_eq!(cv.px[2 * 8 + 3], Some(Tint::White));
    cv.set(8, 0, Some(Tint::White)); // outside: ignored
    cv.set(0, 4, Some(Tint::White));
    assert_eq!(cv.px.iter().filter(|p| p.is_some()).count(), 1);
    assert_eq!(cv.get(0, 9), None);
}

#[test]
fn checker_dots_half_the_cell() {
    let mut cv = Canvas::new(8, 4);
    checker(&mut cv, 1, 1);
    for y in 0..4 {
        for x in 0..8 {
            let inside = (4..8).contains(&x) && (2..4).contains(&y);
            let want = if inside && (x + y) % 2 == 0 { Some(Tint::DarkGray) } else { None };
            assert_eq!(cv.get(x, y), want, "({x}, {y})");
        }
    }
}

#[test]
fn fresh_until_something_happens() {
    let mut g = Game::new();
    assert!(fresh(&g));
    handle_key(&mut g, Key::Char(' '), Modifiers::none());
    handle_key(&mut g, Key::Char('J'), Modifiers::none());
    assert!(!fresh(&g));
}

#[test]
fn piece_layers_show_ghost_and_piece() {
    let mut g = Game::new();
    g.spawn(Shape::O);
    let (ghost, cells) = tetris_tui::view::piece_layers(&g);
    assert_eq!(cells, vec![(4, 0), (5, 0), (4, 1), (5, 1)]);
    assert_eq!(ghost, vec![(4, 18), (5, 18), (4, 19), (5, 19)]);
    g.board[19][4] = Some(Shape::Z);
    g.board[17][5] = Some(Shape::Z);
    let (ghost, _) = tetris_tui::view::piece_layers(&g);
    assert_eq!(ghost, vec![(4, 15), (5, 15), (4, 16), (5, 16)]);
    g.over = true;
    let (ghost, cells) = tetris_tui::view::piece_layers(&g);
    assert!(ghost.is_empty() && cells.is_empty());
}

#[test]
fn piece_layers_skip_cells_above_the_field() {
    let mut g = Game::new();
    g.spawn(Shape::I);
    g.piece.y = -1; // the horizontal I lies on row 0
    let (_, cells) = tetris_tui::view::piece_layers(&g);
    assert_eq!(cells, vec![(3, 0), (4, 0), (5, 0), (6, 0)]);
    g.piece.y = -2; // now above the field
    let (_, cells) = tetris_tui::view::piece_layers(&g);
    assert!(cells.is_empty());
}
