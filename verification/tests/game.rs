use rustymines::Action;
use rustymines::Coordinate;
use rustymines::Error;
use rustymines::Game;
use rustymines::MoveResult;
use rustymines::State;
use rustymines::View;

#[test]
fn game_rejects_bad_parameters() {
    assert!(matches!(Game::new(0, 3, 1, 0), Err(Error::FieldTooNarrow)));
    assert!(matches!(Game::new(3, 0, 1, 0), Err(Error::FieldTooFlat)));
    assert!(matches!(Game::new(3, 3, 9, 0), Err(Error::TooManyMines)));
    assert!(matches!(Game::new(3, 3, 2, 3), Err(Error::TooManyDuds)));
}

#[test]
fn new_game_is_not_over() {
    let game = Game::new(3, 3, 2, 1).unwrap();
    assert!(!game.is_over());
    assert!(game.outcome().is_none());
    assert!(game.end().is_none());
    assert!(game.is_won().is_none());
    assert_eq!(game.mines(), 2);
    assert_eq!(game.duds(), 1);
    assert_eq!(game.flags(), 0);
}

#[test]
fn winning_visit_concludes_the_game() {
    let mut game = Game::new(2, 1, 1, 0).unwrap();
    let state = game.next_round(Action::Visit(Coordinate::new(0, 0)));
    assert!(matches!(state, Some(State::GameOver { won: true })));
    assert!(game.is_over());
    assert_eq!(game.is_won(), Some(true));
    assert!(game.outcome().unwrap().is_won());
    assert!(game.end().is_some());
    // A concluded game refuses further rounds.
    assert_eq!(game.next_round(Action::Visit(Coordinate::new(1, 0))), None);
}

#[test]
fn losing_visit_concludes_the_game() {
    let mut game = Game::new(2, 2, 1, 0).unwrap();
    let state = game.next_round(Action::Visit(Coordinate::new(0, 0)));
    assert!(matches!(state, Some(State::Continue)));
    // Visit the three remaining fields: one of them holds the mine.
    // Either it is stepped on and the game is lost, or the two safe
    // fields are cleared first and the game is won.
    let mut lost = false;
    for (x, y) in [(1, 0), (0, 1), (1, 1)] {
        if let Some(State::GameOver { won: false }) =
            game.next_round(Action::Visit(Coordinate::new(x, y)))
        {
            lost = true;
        }
    }
    assert!(game.is_over());
    assert_eq!(game.is_won(), Some(!lost));
}

#[test]
fn first_move_never_loses_the_game() {
    for x in 0..3 {
        for y in 0..3 {
            let mut game = Game::new(3, 3, 7, 2).unwrap();
            let state = game.next_round(Action::Visit(Coordinate::new(x, y)));
            assert!(!matches!(state, Some(State::GameOver { won: false })));
        }
    }
}

#[test]
fn toggle_flag_round_keeps_the_game_running() {
    let mut game = Game::new(2, 2, 1, 0).unwrap();
    let state = game.next_round(Action::ToggleFlag(Coordinate::new(1, 1)));
    assert!(matches!(state, Some(State::Continue)));
    assert_eq!(game.flags(), 1);
    assert!(!game.is_over());
}

#[test]
fn invalid_moves_are_reported() {
    let mut game = Game::new(2, 2, 1, 0).unwrap();
    assert!(matches!(
        game.next_round(Action::Visit(Coordinate::new(9, 9))),
        Some(State::InvalidMove)
    ));
    assert!(matches!(
        game.next_round(Action::ToggleFlag(Coordinate::new(9, 9))),
        Some(State::InvalidMove)
    ));
}

#[test]
fn revealing_everything_with_a_dud_wins() {
    let mut game = Game::new(2, 1, 1, 1).unwrap();
    let state = game.next_round(Action::VisitAllNonFlaggedFields);
    assert!(matches!(state, Some(State::GameOver { won: true })));
}

#[test]
fn duration_is_measured() {
    let game = Game::new(2, 2, 1, 0).unwrap();
    let _ = game.duration();
    let _ = game.start();
}

#[test]
fn rows_show_the_board() {
    let mut game = Game::new(2, 1, 1, 0).unwrap();
    let rows = game.rows();
    assert_eq!(rows.len(), 1);
    assert_eq!(rows[0].len(), 2);
    assert_eq!(rows[0][0], View::Covered);
    let state = game.next_round(Action::Visit(Coordinate::new(0, 0)));
    assert!(matches!(state, Some(State::GameOver { won: true })));
    let rows = game.rows();
    // The game is over: the visited field shows its tally, the mine
    // becomes visible.
    assert_eq!(rows[0][0], View::Clear(1));
    assert_eq!(rows[0][1], View::Mine);
}

#[test]
fn columns_transpose_rows() {
    let game = Game::new(3, 2, 1, 0).unwrap();
    let rows = game.rows();
    let columns = game.columns();
    assert_eq!(rows.len(), 2);
    assert_eq!(columns.len(), 3);
    for (y, row) in rows.iter().enumerate() {
        for (x, view) in row.iter().enumerate() {
            assert_eq!(columns[x][y], *view);
        }
    }
}

#[test]
fn iter_is_row_major() {
    let game = Game::new(3, 2, 1, 0).unwrap();
    let rows = game.rows();
    let flat = game.iter();
    assert_eq!(flat.len(), 6);
    for (y, row) in rows.iter().enumerate() {
        for (x, view) in row.iter().enumerate() {
            assert_eq!(flat[y * 3 + x], *view);
        }
    }
}

#[test]
fn move_results_map_to_states() {
    assert!(matches!(State::from(MoveResult::Continue), State::Continue));
    assert!(matches!(State::from(MoveResult::InvalidPosition), State::InvalidMove));
    assert!(matches!(State::from(MoveResult::Lost), State::GameOver { won: false }));
    assert!(matches!(State::from(MoveResult::Won), State::GameOver { won: true }));
}
