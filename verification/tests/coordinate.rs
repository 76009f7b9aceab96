use rustymines::Coordinate;
use rustymines::CoordinateParseError;

#[test]
fn parses_a_pair_of_decimals() {
    let coordinate = Coordinate::from_str_pair(("3", "7")).unwrap();
    assert_eq!(coordinate.x(), 3);
    assert_eq!(coordinate.y(), 7);
}

#[test]
fn parses_leading_zeros() {
    let coordinate = Coordinate::from_str_pair(("007", "0")).unwrap();
    assert_eq!(coordinate.x(), 7);
    assert_eq!(coordinate.y(), 0);
}

#[test]
fn rejects_an_empty_x() {
    assert_eq!(
        Coordinate::from_str_pair(("", "7")).unwrap_err(),
        CoordinateParseError::InvalidXValue
    );
}

#[test]
fn rejects_a_non_numeric_x() {
    assert_eq!(
        Coordinate::from_str_pair(("a3", "7")).unwrap_err(),
        CoordinateParseError::InvalidXValue
    );
}

#[test]
fn rejects_a_non_numeric_y() {
    assert_eq!(
        Coordinate::from_str_pair(("3", "7a")).unwrap_err(),
        CoordinateParseError::InvalidYValue
    );
}

#[test]
fn rejects_an_overflowing_numeral() {
    assert_eq!(
        Coordinate::from_str_pair(("999999999999999999999999999999", "7")).unwrap_err(),
        CoordinateParseError::InvalidXValue
    );
}

#[test]
fn x_is_reported_before_y() {
    assert_eq!(
        Coordinate::from_str_pair(("x", "y")).unwrap_err(),
        CoordinateParseError::InvalidXValue
    );
}
