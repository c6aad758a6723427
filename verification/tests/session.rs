use minesweeper::game::{Game, InputEvent, MouseButton};
use minesweeper::matrix::{BoardError, Cell, Matrix};

fn layout(rows: usize, cols: usize, mines: &[(usize, usize)]) -> Vec<bool> {
    let mut lay = vec![false; rows * cols];
    for &(r, c) in mines {
        lay[r * cols + c] = true;
    }
    lay
}

fn game(rows: usize, cols: usize, mines: &[(usize, usize)], scale: usize) -> Game {
    let m = Matrix::from_layout(rows, cols, &layout(rows, cols, mines)).unwrap();
    Game::with_board(m, scale).unwrap()
}

fn press(button: MouseButton, x: i32, y: i32) -> InputEvent {
    InputEvent::Press { button, x, y }
}

#[test]
fn new_session_starts_running_and_unfinished() {
    let g = Game::new(4, 5, 10, 3).unwrap();
    assert!(g.is_running());
    assert!(!g.is_finished());
    assert!(!g.has_won());
    assert_eq!(g.scale(), 10);
    assert_eq!(g.board().size(), (4, 5));
    assert_eq!(g.board().mine_count(), 3);
}

#[test]
fn session_rejects_zero_scale_and_bad_boards() {
    assert_eq!(
        Game::new(4, 5, 0, 3).map(|_| ()),
        Err(BoardError::InvalidConfiguration)
    );
    assert_eq!(
        Game::new(0, 5, 10, 0).map(|_| ()),
        Err(BoardError::InvalidConfiguration)
    );
    assert_eq!(
        Game::new(2, 2, 10, 4).map(|_| ()),
        Err(BoardError::InvalidConfiguration)
    );
}

#[test]
fn quit_event_stops_the_loop() {
    let mut g = game(3, 3, &[(1, 1)], 10);
    g.handle_event(InputEvent::Quit);
    assert!(!g.is_running());
}

#[test]
fn primary_press_maps_pixels_to_cells() {
    // Scale 10: pixel (25, 5) lies in column 2, row 0.
    let mut g = game(3, 3, &[(1, 1)], 10);
    g.handle_event(press(MouseButton::Primary, 25, 5));
    assert!(g.board().is_revealed(0, 2));
    assert!(!g.board().is_revealed(0, 0));
}

#[test]
fn press_outside_the_grid_is_discarded() {
    let mut g = game(3, 3, &[(1, 1)], 10);
    g.handle_event(press(MouseButton::Primary, 1000, 5));
    g.handle_event(press(MouseButton::Primary, 5, 300));
    g.handle_event(press(MouseButton::Primary, -3, 5));
    g.handle_event(press(MouseButton::Primary, 5, -1));
    assert_eq!(g.board().revealed_count(), 0);
    assert!(!g.is_finished());
}

#[test]
fn hitting_a_mine_loses_the_round() {
    let mut g = game(3, 3, &[(1, 1)], 10);
    g.handle_event(press(MouseButton::Primary, 15, 15));
    assert!(g.is_finished());
    assert!(!g.has_won());
}

#[test]
fn clearing_the_board_wins_the_round() {
    let mut g = game(4, 4, &[(3, 3)], 10);
    g.handle_event(press(MouseButton::Primary, 5, 5));
    assert!(g.is_finished());
    assert!(g.has_won());
    // Further presses change nothing once the round is won.
    g.handle_event(press(MouseButton::Primary, 35, 35));
    assert!(!g.board().is_revealed(3, 3));
    assert!(g.has_won());
}

#[test]
fn presses_after_the_round_ends_are_ignored() {
    let mut g = game(3, 3, &[(1, 1)], 10);
    g.handle_event(press(MouseButton::Primary, 15, 15));
    assert!(g.is_finished());
    g.handle_event(press(MouseButton::Primary, 5, 5));
    assert!(!g.board().is_revealed(0, 0));
    g.handle_event(press(MouseButton::Secondary, 5, 5));
    assert!(!g.board().is_flagged(0, 0));
}

#[test]
fn secondary_press_toggles_a_flag() {
    let mut g = game(3, 3, &[(1, 1)], 10);
    g.handle_event(press(MouseButton::Secondary, 5, 5));
    assert!(g.board().is_flagged(0, 0));
    assert!(!g.board().is_revealed(0, 0));
    g.handle_event(press(MouseButton::Secondary, 5, 5));
    assert!(!g.board().is_flagged(0, 0));
}

#[test]
fn restart_builds_a_fresh_board_with_same_configuration() {
    let mut g = game(3, 3, &[(1, 1)], 10);
    g.handle_event(press(MouseButton::Secondary, 5, 25));
    g.handle_event(press(MouseButton::Primary, 15, 15));
    assert!(g.is_finished());
    g.handle_event(InputEvent::Restart);
    assert!(!g.is_finished());
    assert!(!g.has_won());
    assert!(g.is_running());
    assert_eq!(g.board().size(), (3, 3));
    assert_eq!(g.board().mine_count(), 1);
    let mut mines = 0;
    for r in 0..3 {
        for c in 0..3 {
            assert!(!g.board().is_revealed(r, c));
            assert!(!g.board().is_flagged(r, c));
            if g.board().cell_at(r, c) == Cell::Mine {
                mines += 1;
            }
        }
    }
    assert_eq!(mines, 1);
}

#[test]
fn restart_works_mid_round() {
    let mut g = game(3, 3, &[(1, 1)], 10);
    g.handle_event(press(MouseButton::Primary, 5, 5));
    assert!(g.board().is_revealed(0, 0));
    g.handle_event(InputEvent::Restart);
    assert_eq!(g.board().revealed_count(), 0);
    assert!(!g.is_finished());
}
