use rustymines::Board;
use rustymines::Coordinate;
use rustymines::Error;
use rustymines::MoveResult;

fn mined_coordinates(board: &Board) -> Vec<(usize, usize)> {
    let mut mined = Vec::new();
    for (y, row) in board.fields().iter().enumerate() {
        for (x, field) in row.iter().enumerate() {
            if field.has_mine() {
                mined.push((x, y));
            }
        }
    }
    mined
}

fn dud_coordinates(board: &Board) -> Vec<(usize, usize)> {
    let mut duds = Vec::new();
    for (y, row) in board.fields().iter().enumerate() {
        for (x, field) in row.iter().enumerate() {
            if field.is_dud() {
                duds.push((x, y));
            }
        }
    }
    duds
}

#[test]
fn zero_width_is_rejected() {
    assert_eq!(Board::new(0, 5, 1, 0).unwrap_err(), Error::FieldTooNarrow);
}

#[test]
fn zero_height_is_rejected() {
    assert_eq!(Board::new(5, 0, 1, 0).unwrap_err(), Error::FieldTooFlat);
}

#[test]
fn oversized_grid_is_rejected() {
    assert_eq!(Board::new(usize::MAX, 2, 1, 0).unwrap_err(), Error::FieldTooLarge);
}

#[test]
fn as_many_mines_as_fields_is_rejected() {
    assert_eq!(Board::new(2, 2, 4, 0).unwrap_err(), Error::TooManyMines);
    assert_eq!(Board::new(1, 1, 1, 0).unwrap_err(), Error::TooManyMines);
}

#[test]
fn more_duds_than_mines_is_rejected() {
    assert_eq!(Board::new(3, 3, 2, 3).unwrap_err(), Error::TooManyDuds);
}

#[test]
fn width_is_validated_before_height_and_mines() {
    assert_eq!(Board::new(0, 0, 200, 201).unwrap_err(), Error::FieldTooNarrow);
    assert_eq!(Board::new(1, 0, 200, 201).unwrap_err(), Error::FieldTooFlat);
    assert_eq!(Board::new(2, 2, 200, 201).unwrap_err(), Error::TooManyMines);
}

#[test]
fn two_field_board_wins_on_first_visit() {
    // A 2x1 board with one mine: the first visit is safe, the mine
    // must land on the only other field, and with it the only
    // non-mine field is visited, so the very first visit wins.
    let mut board = Board::new(2, 1, 1, 0).unwrap();
    assert_eq!(board.visit(Coordinate::new(0, 0)), MoveResult::Won);
    assert!(!board.fields()[0][0].has_mine());
    assert!(board.fields()[0][1].has_mine());
    assert!(board.fields()[0][0].has_been_visited());
}

#[test]
fn first_visit_never_loses() {
    // Wherever the single mine of a 2x2 board may land, the first
    // visit is safe.
    for x in 0..2 {
        for y in 0..2 {
            let mut board = Board::new(2, 2, 1, 0).unwrap();
            let result = board.visit(Coordinate::new(x, y));
            assert!(result == MoveResult::Continue || result == MoveResult::Won);
        }
    }
}

#[test]
fn mine_count_is_exact() {
    let mut board = Board::new(3, 3, 8, 0).unwrap();
    assert_eq!(board.visit(Coordinate::new(1, 1)), MoveResult::Won);
    let mined = mined_coordinates(&board);
    assert_eq!(mined.len(), 8);
    assert!(!mined.contains(&(1, 1)));
}

#[test]
fn dud_count_is_exact() {
    let mut board = Board::new(3, 3, 8, 5).unwrap();
    assert_eq!(board.visit(Coordinate::new(1, 1)), MoveResult::Won);
    assert_eq!(mined_coordinates(&board).len(), 8);
    let duds = dud_coordinates(&board);
    assert_eq!(duds.len(), 5);
    for dud in duds {
        assert!(mined_coordinates(&board).contains(&dud));
    }
}

#[test]
fn adjacent_mine_counts_are_accurate() {
    let mut board = Board::new(3, 3, 8, 0).unwrap();
    board.visit(Coordinate::new(1, 1));
    // Every field but the center is mined, so the center counts all
    // eight neighbors.
    assert_eq!(board.fields()[1][1].adjacent_mines(), 8);
    // A corner sees three neighbors, two of which are mined (the
    // center is not).
    assert_eq!(board.fields()[0][0].adjacent_mines(), 2);
    // An edge sees five neighbors, four of which are mined.
    assert_eq!(board.fields()[0][1].adjacent_mines(), 4);
}

#[test]
fn visit_out_of_bounds_is_invalid() {
    let mut board = Board::new(2, 2, 1, 0).unwrap();
    assert_eq!(board.visit(Coordinate::new(2, 0)), MoveResult::InvalidPosition);
    assert_eq!(board.visit(Coordinate::new(0, 2)), MoveResult::InvalidPosition);
    // An invalid first move has no side effects: no mines are placed.
    assert_eq!(mined_coordinates(&board).len(), 0);
}

#[test]
fn flood_fill_reveals_mine_free_board() {
    let mut board = Board::new(4, 4, 0, 0).unwrap();
    assert_eq!(board.visit(Coordinate::new(0, 0)), MoveResult::Won);
    for row in board.fields() {
        for field in row {
            assert!(field.has_been_visited());
        }
    }
}

#[test]
fn flood_fill_stops_at_flags() {
    let mut board = Board::new(3, 3, 0, 0).unwrap();
    assert_eq!(board.toggle_flag(Coordinate::new(1, 1)), MoveResult::Continue);
    // The corner's neighborhood contains the flagged center, so the
    // reveal does not expand at all: only the visited corner itself is
    // uncovered, and the flagged field is never revealed.
    assert_eq!(board.visit(Coordinate::new(0, 0)), MoveResult::Continue);
    assert!(board.fields()[0][0].has_been_visited());
    assert!(!board.fields()[1][1].has_been_visited());
    assert!(!board.fields()[2][2].has_been_visited());
    assert!(board.fields()[1][1].is_flagged());
}

#[test]
fn visit_flagged_field_is_a_no_op() {
    let mut board = Board::new(2, 2, 1, 0).unwrap();
    assert_eq!(board.visit(Coordinate::new(0, 0)), MoveResult::Continue);
    assert_eq!(board.toggle_flag(Coordinate::new(1, 1)), MoveResult::Continue);
    let before: Vec<Vec<rustymines::Field>> = board.fields().clone();
    assert_eq!(board.visit(Coordinate::new(1, 1)), MoveResult::Continue);
    assert_eq!(*board.fields(), before);
    assert!(!board.fields()[1][1].has_been_visited());
}

#[test]
fn toggle_flag_round_trips_on_board() {
    let mut board = Board::new(2, 2, 1, 0).unwrap();
    assert_eq!(board.toggle_flag(Coordinate::new(0, 1)), MoveResult::Continue);
    assert!(board.fields()[1][0].is_flagged());
    assert_eq!(board.toggle_flag(Coordinate::new(0, 1)), MoveResult::Continue);
    assert!(!board.fields()[1][0].is_flagged());
}

#[test]
fn toggle_flag_out_of_bounds_is_invalid() {
    let mut board = Board::new(2, 2, 1, 0).unwrap();
    assert_eq!(board.toggle_flag(Coordinate::new(5, 5)), MoveResult::InvalidPosition);
}

#[test]
fn toggle_flag_on_visited_field_is_silently_refused() {
    let mut board = Board::new(2, 2, 1, 0).unwrap();
    assert_eq!(board.visit(Coordinate::new(0, 0)), MoveResult::Continue);
    assert_eq!(board.toggle_flag(Coordinate::new(0, 0)), MoveResult::Continue);
    assert!(!board.fields()[0][0].is_flagged());
}

#[test]
fn flags_are_counted() {
    let mut board = Board::new(3, 3, 1, 0).unwrap();
    assert_eq!(board.flags(), 0);
    board.toggle_flag(Coordinate::new(0, 0));
    board.toggle_flag(Coordinate::new(2, 2));
    assert_eq!(board.flags(), 2);
    board.toggle_flag(Coordinate::new(0, 0));
    assert_eq!(board.flags(), 1);
}

#[test]
fn revealing_all_fields_loses_on_a_live_mine() {
    let mut board = Board::new(2, 1, 1, 0).unwrap();
    assert_eq!(board.visit_non_flagged_fields(), MoveResult::Lost);
    assert_eq!(mined_coordinates(&board).len(), 1);
}

#[test]
fn revealing_all_fields_wins_when_the_mine_is_a_dud() {
    let mut board = Board::new(2, 1, 1, 1).unwrap();
    assert_eq!(board.visit_non_flagged_fields(), MoveResult::Won);
}

#[test]
fn revealing_all_fields_wins_without_mines() {
    let mut board = Board::new(3, 2, 0, 0).unwrap();
    assert_eq!(board.visit_non_flagged_fields(), MoveResult::Won);
}

#[test]
fn revealing_all_fields_skips_flags() {
    let mut board = Board::new(2, 1, 0, 0).unwrap();
    board.toggle_flag(Coordinate::new(1, 0));
    // The flagged field stays covered, so the mine-free board is not
    // cleared yet.
    assert_eq!(board.visit_non_flagged_fields(), MoveResult::Continue);
    assert!(!board.fields()[0][1].has_been_visited());
    assert!(board.fields()[0][0].has_been_visited());
}

#[test]
fn visiting_a_revealed_mine_after_win_reports_won() {
    // Visiting an already visited field re-checks the win condition.
    let mut board = Board::new(2, 1, 1, 0).unwrap();
    assert_eq!(board.visit(Coordinate::new(0, 0)), MoveResult::Won);
    assert_eq!(board.visit(Coordinate::new(0, 0)), MoveResult::Won);
}

#[test]
fn stepping_on_a_mine_loses() {
    let mut board = Board::new(2, 1, 1, 0).unwrap();
    assert_eq!(board.visit(Coordinate::new(0, 0)), MoveResult::Won);
    // The other field holds the mine; visiting it now loses.
    assert_eq!(board.visit(Coordinate::new(1, 0)), MoveResult::Lost);
}

#[test]
fn stepping_on_a_dud_does_not_lose() {
    let mut board = Board::new(2, 2, 1, 1).unwrap();
    assert_eq!(board.visit(Coordinate::new(0, 0)), MoveResult::Continue);
    let (x, y) = mined_coordinates(&board)[0];
    let result = board.visit(Coordinate::new(x, y));
    assert!(result == MoveResult::Continue || result == MoveResult::Won);
}
