use rustymines::grid::gen_fields;
use rustymines::grid::is_adjunct;
use rustymines::grid::is_neighbor;
use rustymines::grid::make_line;
use rustymines::grid::neighbors;
use rustymines::grid::same_field;
use rustymines::Coordinate;
use rustymines::Header;
use rustymines::SafeNeighbors;

#[test]
fn make_line_creates_covered_fields() {
    let line = make_line(4);
    assert_eq!(line.len(), 4);
    for field in &line {
        assert!(!field.has_mine());
        assert!(!field.has_been_visited());
        assert!(!field.is_flagged());
    }
}

#[test]
fn gen_fields_creates_rectangular_grid() {
    let fields = gen_fields(3, 2);
    assert_eq!(fields.len(), 2);
    for row in &fields {
        assert_eq!(row.len(), 3);
    }
}

#[test]
fn adjunct_offsets_are_zero_and_one() {
    assert!(is_adjunct(0));
    assert!(is_adjunct(1));
    assert!(!is_adjunct(2));
}

#[test]
fn same_field_means_both_distances_zero() {
    assert!(same_field(0, 0));
    assert!(!same_field(0, 1));
    assert!(!same_field(1, 0));
}

#[test]
fn neighbor_distances() {
    assert!(is_neighbor(1, 0));
    assert!(is_neighbor(0, 1));
    assert!(is_neighbor(1, 1));
    assert!(!is_neighbor(0, 0));
    assert!(!is_neighbor(2, 0));
    assert!(!is_neighbor(1, 2));
}

#[test]
fn neighborhood_is_clipped_at_the_edges() {
    assert_eq!(neighbors(3, 3, 1, 1).len(), 8);
    assert_eq!(neighbors(3, 3, 0, 0).len(), 3);
    assert_eq!(neighbors(3, 3, 1, 0).len(), 5);
    assert_eq!(neighbors(1, 1, 0, 0).len(), 0);
    let corner = neighbors(2, 2, 0, 0);
    assert!(corner.contains(&Coordinate::new(1, 0)));
    assert!(corner.contains(&Coordinate::new(0, 1)));
    assert!(corner.contains(&Coordinate::new(1, 1)));
}

#[test]
fn safe_neighbors_walks_a_mine_free_grid_once() {
    let fields = gen_fields(3, 3);
    let mut walk = SafeNeighbors::new(&fields, Coordinate::new(1, 1));
    let mut yielded = Vec::new();
    while let Some(coordinate) = walk.next(&fields) {
        assert!(!yielded.contains(&coordinate));
        yielded.push(coordinate);
    }
    assert_eq!(yielded.len(), 9);
}

#[test]
fn safe_neighbors_does_not_expand_past_mines() {
    let mut fields = gen_fields(3, 1);
    fields[0][1].set_mine();
    // The seed's neighborhood holds a mine, so nothing is expanded:
    // only the seed itself is yielded.
    let mut walk = SafeNeighbors::new(&fields, Coordinate::new(0, 0));
    let mut yielded = Vec::new();
    while let Some(coordinate) = walk.next(&fields) {
        yielded.push(coordinate);
    }
    assert_eq!(yielded, vec![Coordinate::new(0, 0)]);
}

#[test]
fn coordinate_components() {
    let coordinate = Coordinate::new(3, 5);
    assert_eq!(coordinate.x(), 3);
    assert_eq!(coordinate.y(), 5);
}

#[test]
fn header_remembers_its_width() {
    assert_eq!(Header::new(7).width(), 7);
}
