use minesweeper::{Board, Command, Signal, State, SIZE};

fn board_with(size: usize, hazards: &[(usize, usize)]) -> Board {
    let mut draws = vec![vec![1usize; size]; size];
    for &(r, c) in hazards {
        draws[r][c] = 0;
    }
    Board::new(size).place_hazards(&draws, 1)
}

fn goto(b: &mut Board, r: usize, c: usize) {
    assert!(b.set_position(r, c));
}

#[test]
fn new_board_is_empty() {
    let b = Board::new(SIZE);
    assert_eq!(b.size(), 20);
    assert_eq!(b.position(), (0, 0));
    for r in 0..SIZE {
        for c in 0..SIZE {
            assert_eq!(b.cell(r, c), Some(State::Unrevealed));
            assert_eq!(b.is_hazard(r, c), Some(false));
        }
    }
}

#[test]
fn off_grid_queries_are_rejected() {
    let mut b = Board::new(4);
    assert_eq!(b.cell(4, 0), None);
    assert_eq!(b.cell(0, 4), None);
    assert_eq!(b.is_hazard(7, 7), None);
    assert!(!b.set_position(4, 1));
    assert_eq!(b.position(), (0, 0));
    assert!(b.set_position(3, 2));
    assert_eq!(b.position(), (3, 2));
}

#[test]
fn place_hazards_marks_draws_below_numerator() {
    let draws = vec![vec![0, 3, 1], vec![2, 5, 0], vec![4, 1, 2]];
    let b = Board::new(3).place_hazards(&draws, 2);
    let expected = [[true, false, true], [false, false, true], [false, true, false]];
    for r in 0..3 {
        for c in 0..3 {
            assert_eq!(b.is_hazard(r, c), Some(expected[r][c]));
        }
    }
}

#[test]
fn randomize_with_zero_density_places_nothing() {
    let b = Board::new(6).randomize(0, 7);
    for r in 0..6 {
        for c in 0..6 {
            assert_eq!(b.is_hazard(r, c), Some(false));
        }
    }
}

#[test]
fn randomize_with_full_density_fills_the_grid() {
    let b = Board::new(6).randomize(1, 1);
    for r in 0..6 {
        for c in 0..6 {
            assert_eq!(b.is_hazard(r, c), Some(true));
            assert_eq!(b.cell(r, c), Some(State::Unrevealed));
        }
    }
}

#[test]
fn neighbor_count_clips_at_corners_and_edges() {
    let all: Vec<(usize, usize)> = (0..4).flat_map(|r| (0..4).map(move |c| (r, c))).collect();
    let b = board_with(4, &all);
    assert_eq!(b.count_neighbors_at((0, 0)), 3);
    assert_eq!(b.count_neighbors_at((3, 3)), 3);
    assert_eq!(b.count_neighbors_at((0, 2)), 5);
    assert_eq!(b.count_neighbors_at((2, 0)), 5);
    assert_eq!(b.count_neighbors_at((1, 2)), 8);
}

#[test]
fn neighbor_count_ignores_the_cell_itself_and_far_cells() {
    let b = board_with(5, &[(2, 2), (0, 4), (4, 0)]);
    assert_eq!(b.count_neighbors_at((2, 2)), 0);
    assert_eq!(b.count_neighbors_at((1, 1)), 1);
    assert_eq!(b.count_neighbors_at((1, 3)), 2);
    assert_eq!(b.count_neighbors_at((3, 1)), 2);
    assert_eq!(b.count_neighbors_at((0, 0)), 0);
    assert_eq!(b.count_neighbors_at((4, 4)), 0);
}

#[test]
fn flood_order_visits_each_safe_cell_once() {
    let b = board_with(5, &[(2, 2)]);
    let order = b.flood_order((0, 0));
    assert_eq!(order[0], (0, 0));
    assert_eq!(order.len(), 24);
    assert!(order.len() <= 25);
    let mut seen = vec![vec![false; 5]; 5];
    for &(r, c) in &order {
        assert!(!seen[r][c]);
        seen[r][c] = true;
        assert_eq!(b.is_hazard(r, c), Some(false));
    }
}

#[test]
fn flood_around_single_hazard_wins() {
    let mut b = board_with(5, &[(2, 2)]);
    assert_eq!(b.player_action(Command::Reveal), Signal::Continue);
    for r in 0..5usize {
        for c in 0..5usize {
            let near = r.abs_diff(2) <= 1 && c.abs_diff(2) <= 1;
            let expected = if (r, c) == (2, 2) {
                State::Unrevealed
            } else if near {
                State::Revealed(1)
            } else {
                State::Revealed(0)
            };
            assert_eq!(b.cell(r, c), Some(expected));
        }
    }
    assert!(b.game_finished());
}

#[test]
fn flood_stops_at_numbered_border() {
    // A wall of hazards in column 2 splits the grid.
    let mut b = board_with(5, &[(0, 2), (1, 2), (2, 2), (3, 2), (4, 2)]);
    goto(&mut b, 2, 0);
    assert_eq!(b.evaluate_cell(), Signal::Continue);
    for r in 0..5 {
        assert_eq!(b.cell(r, 0), Some(State::Revealed(0)));
        let edge = if r == 0 || r == 4 { 2 } else { 3 };
        assert_eq!(b.cell(r, 1), Some(State::Revealed(edge)));
        for c in 2..5 {
            assert_eq!(b.cell(r, c), Some(State::Unrevealed));
        }
    }
    assert!(!b.game_finished());
}

#[test]
fn flood_leaves_flags_alone() {
    let mut b = board_with(5, &[(4, 4)]);
    goto(&mut b, 0, 3);
    b.player_action(Command::ToggleFlag);
    goto(&mut b, 0, 0);
    b.flood_empty();
    assert_eq!(b.cell(0, 3), Some(State::Flagged));
    assert_eq!(b.cell(0, 0), Some(State::Unrevealed));
    assert_eq!(b.cell(0, 1), Some(State::Revealed(0)));
    assert_eq!(b.cell(3, 3), Some(State::Revealed(1)));
    assert_eq!(b.cell(4, 4), Some(State::Unrevealed));
    assert!(!b.game_finished());
}

#[test]
fn flood_leaves_its_origin_to_the_caller() {
    let mut b = Board::new(SIZE);
    b.flood_empty();
    assert_eq!(b.position(), (0, 0));
    for r in 0..SIZE {
        for c in 0..SIZE {
            let expected = if (r, c) == (0, 0) { State::Unrevealed } else { State::Revealed(0) };
            assert_eq!(b.cell(r, c), Some(expected));
            assert_eq!(b.is_hazard(r, c), Some(false));
        }
    }
}

#[test]
fn numbered_cell_reveals_alone() {
    let mut b = board_with(4, &[(0, 1)]);
    assert_eq!(b.evaluate_cell(), Signal::Continue);
    assert_eq!(b.cell(0, 0), Some(State::Revealed(1)));
    assert_eq!(b.cell(1, 0), Some(State::Unrevealed));
    assert_eq!(b.cell(3, 3), Some(State::Unrevealed));
}

#[test]
fn revealing_the_only_hazard_loses() {
    let mut b = board_with(5, &[(2, 2)]);
    goto(&mut b, 2, 2);
    assert_eq!(b.player_action(Command::Reveal), Signal::Loss);
    assert_eq!(b.cell(2, 2), Some(State::Exploded));
    for r in 0..5 {
        for c in 0..5 {
            if (r, c) != (2, 2) {
                assert_eq!(b.cell(r, c), Some(State::Unrevealed));
            }
        }
    }
}

#[test]
fn last_safe_cell_wins_without_flood() {
    let hazards: Vec<(usize, usize)> =
        (0..4).flat_map(|r| (0..4).map(move |c| (r, c))).filter(|&p| p != (1, 2)).collect();
    let mut b = board_with(4, &hazards);
    assert!(!b.game_finished());
    goto(&mut b, 1, 2);
    assert_eq!(b.player_action(Command::Reveal), Signal::Continue);
    assert_eq!(b.cell(1, 2), Some(State::Revealed(8)));
    assert_eq!(b.cell(0, 0), Some(State::Unrevealed));
    assert!(b.game_finished());
}

#[test]
fn flagged_safe_cell_blocks_win() {
    let mut b = board_with(2, &[(0, 0), (0, 1), (1, 0)]);
    goto(&mut b, 1, 1);
    b.player_action(Command::ToggleFlag);
    assert_eq!(b.cell(1, 1), Some(State::Flagged));
    assert!(!b.game_finished());
    assert_eq!(b.player_action(Command::Reveal), Signal::Continue);
    assert_eq!(b.cell(1, 1), Some(State::Flagged));
    b.player_action(Command::ToggleFlag);
    b.player_action(Command::Reveal);
    assert_eq!(b.cell(1, 1), Some(State::Revealed(3)));
    assert!(b.game_finished());
}

#[test]
fn flag_toggle_is_its_own_inverse() {
    let mut b = board_with(3, &[(2, 2)]);
    goto(&mut b, 1, 1);
    assert_eq!(b.player_action(Command::ToggleFlag), Signal::Continue);
    assert_eq!(b.cell(1, 1), Some(State::Flagged));
    assert_eq!(b.player_action(Command::ToggleFlag), Signal::Continue);
    assert_eq!(b.cell(1, 1), Some(State::Unrevealed));
}

#[test]
fn flag_toggle_on_revealed_cell_is_noop() {
    let mut b = board_with(3, &[(2, 2)]);
    goto(&mut b, 1, 1);
    b.player_action(Command::Reveal);
    assert_eq!(b.cell(1, 1), Some(State::Revealed(1)));
    assert_eq!(b.player_action(Command::ToggleFlag), Signal::Continue);
    assert_eq!(b.cell(1, 1), Some(State::Revealed(1)));
}

#[test]
fn cursor_moves_clamp_at_edges() {
    let mut b = Board::new(5);
    assert_eq!(b.player_action(Command::MoveUp), Signal::Continue);
    assert_eq!(b.position(), (0, 0));
    assert_eq!(b.player_action(Command::MoveLeft), Signal::Continue);
    assert_eq!(b.position(), (0, 0));
    b.player_action(Command::MoveDown);
    b.player_action(Command::MoveRight);
    assert_eq!(b.position(), (1, 1));
    goto(&mut b, 4, 4);
    b.player_action(Command::MoveDown);
    assert_eq!(b.position(), (4, 4));
    b.player_action(Command::MoveRight);
    assert_eq!(b.position(), (4, 4));
    b.player_action(Command::MoveUp);
    b.player_action(Command::MoveLeft);
    assert_eq!(b.position(), (3, 3));
}

#[test]
fn quit_and_invalid_change_nothing() {
    let mut b = board_with(3, &[(0, 0)]);
    goto(&mut b, 1, 1);
    assert_eq!(b.player_action(Command::Quit), Signal::Terminate);
    assert_eq!(b.player_action(Command::Invalid), Signal::Invalid);
    assert_eq!(b.position(), (1, 1));
    for r in 0..3 {
        for c in 0..3 {
            assert_eq!(b.cell(r, c), Some(State::Unrevealed));
        }
    }
}
