use rustymines::Field;
use rustymines::View;
use rustymines::VisitResult;

#[test]
fn new_field_is_covered() {
    let field = Field::new();
    assert!(!field.has_mine());
    assert!(!field.has_been_visited());
    assert!(!field.is_flagged());
    assert!(!field.is_dud());
    assert_eq!(field.adjacent_mines(), 0);
    assert!(field.is_safe());
}

#[test]
fn default_equals_new() {
    assert_eq!(Field::default(), Field::new());
}

#[test]
fn visit_clears_a_covered_field() {
    let mut field = Field::new();
    assert_eq!(field.visit(), VisitResult::Cleared);
    assert!(field.has_been_visited());
}

#[test]
fn visit_reports_already_visited() {
    let mut field = Field::new();
    assert_eq!(field.visit(), VisitResult::Cleared);
    assert_eq!(field.visit(), VisitResult::AlreadyVisited);
}

#[test]
fn visit_refuses_flagged_field_without_mutation() {
    let mut field = Field::new();
    field.set_mine();
    field.toggle_flag();
    let before = field;
    assert_eq!(field.visit(), VisitResult::Flagged);
    assert_eq!(field, before);
    assert!(!field.has_been_visited());
}

#[test]
fn visit_steps_on_mine() {
    let mut field = Field::new();
    field.set_mine();
    assert_eq!(field.visit(), VisitResult::SteppedOnMine);
    assert!(field.has_been_visited());
}

#[test]
fn visit_steps_on_dud() {
    let mut field = Field::new();
    field.set_mine();
    field.set_dud();
    assert_eq!(field.visit(), VisitResult::SteppedOnDud);
    assert!(field.has_been_visited());
}

#[test]
fn flag_precedes_already_visited() {
    // A flagged field reports the flag, even if it could also report
    // having been visited.
    let mut field = Field::new();
    field.toggle_flag();
    assert_eq!(field.visit(), VisitResult::Flagged);
}

#[test]
fn toggle_flag_round_trips() {
    let mut field = Field::new();
    let before = field;
    field.toggle_flag();
    assert!(field.is_flagged());
    assert!(!field.has_mine());
    assert!(!field.has_been_visited());
    assert!(!field.is_dud());
    field.toggle_flag();
    assert_eq!(field, before);
}

#[test]
fn toggle_flag_on_visited_field_is_refused() {
    let mut field = Field::new();
    assert_eq!(field.visit(), VisitResult::Cleared);
    let before = field;
    field.toggle_flag();
    assert_eq!(field, before);
    assert!(!field.is_flagged());
}

#[test]
fn set_adjacent_mines_keeps_other_facts() {
    let mut field = Field::new();
    field.set_mine();
    field.set_dud();
    field.set_adjacent_mines(7);
    assert_eq!(field.adjacent_mines(), 7);
    assert!(field.has_mine());
    assert!(field.is_dud());
    assert!(!field.has_been_visited());
    assert!(!field.is_flagged());
}

#[test]
fn flagged_mined_field_is_not_safe() {
    let mut field = Field::new();
    field.toggle_flag();
    assert!(!field.is_safe());
    field.toggle_flag();
    field.set_mine();
    assert!(!field.is_safe());
}

#[test]
fn view_while_playing() {
    let covered = Field::new();
    assert_eq!(covered.view(false), View::Covered);

    let mut flagged = Field::new();
    flagged.toggle_flag();
    assert_eq!(flagged.view(false), View::Flag);

    let mut cleared = Field::new();
    cleared.set_adjacent_mines(3);
    cleared.visit();
    assert_eq!(cleared.view(false), View::Clear(3));

    let mut stepped = Field::new();
    stepped.set_mine();
    stepped.visit();
    assert_eq!(stepped.view(false), View::SteppedOnMine);

    let mut dud = Field::new();
    dud.set_mine();
    dud.set_dud();
    dud.visit();
    assert_eq!(dud.view(false), View::SteppedOnDud);

    let mut hidden_mine = Field::new();
    hidden_mine.set_mine();
    assert_eq!(hidden_mine.view(false), View::Covered);
}

#[test]
fn view_once_game_is_over() {
    let mut hidden_mine = Field::new();
    hidden_mine.set_mine();
    assert_eq!(hidden_mine.view(true), View::Mine);

    let mut flagged_mine = Field::new();
    flagged_mine.set_mine();
    flagged_mine.toggle_flag();
    assert_eq!(flagged_mine.view(true), View::Flag);

    // A wrong flag degrades to the field's true content.
    let mut wrong_flag = Field::new();
    wrong_flag.toggle_flag();
    assert_eq!(wrong_flag.view(true), View::Clear(0));

    let covered = Field::new();
    assert_eq!(covered.view(true), View::Clear(0));
}

#[test]
fn view_as_char() {
    assert_eq!(View::Covered.as_char(), '\u{25a0}');
    assert_eq!(View::Flag.as_char(), '\u{2690}');
    assert_eq!(View::SteppedOnDud.as_char(), '~');
    assert_eq!(View::SteppedOnMine.as_char(), '\u{2620}');
    assert_eq!(View::Clear(0).as_char(), ' ');
    assert_eq!(View::Clear(5).as_char(), '5');
    assert_eq!(View::Clear(8).as_char(), '8');
    assert_eq!(View::Mine.as_char(), '*');
}

#[test]
fn field_as_char_matches_view() {
    let mut field = Field::new();
    field.set_adjacent_mines(2);
    field.visit();
    assert_eq!(field.as_char(false), '2');
    let mut mine = Field::new();
    mine.set_mine();
    assert_eq!(mine.as_char(false), '\u{25a0}');
    assert_eq!(mine.as_char(true), '*');
}
