use okft::span::{Position, Span};

#[test]
fn default_position_is_one_indexed() {
    assert_eq!(Position::default(), Position::new(1, 1));
}

#[test]
fn default_span_starts_and_ends_at_origin() {
    let span = Span::default();
    assert_eq!(span.start, Position::new(1, 1));
    assert_eq!(span.end, Position::new(1, 1));
}

#[test]
fn at_builds_a_zero_width_span() {
    let span = Span::at(Position::new(4, 7));
    assert_eq!(span.start, span.end);
    assert_eq!(span.start, Position::new(4, 7));
}

#[test]
fn new_keeps_both_endpoints() {
    let span = Span::new(Position::new(1, 2), Position::new(3, 4));
    assert_eq!(span.start, Position::new(1, 2));
    assert_eq!(span.end, Position::new(3, 4));
}

#[test]
fn offset_lines_shifts_lines_but_not_columns() {
    let span = Span::new(Position::new(1, 5), Position::new(2, 9)).offset_lines(3);
    assert_eq!(span.start, Position::new(4, 5));
    assert_eq!(span.end, Position::new(5, 9));
}

#[test]
fn positions_order_by_line_then_column() {
    assert!(Position::new(1, 9) < Position::new(2, 1));
    assert!(Position::new(2, 1) < Position::new(2, 2));
}

#[test]
fn is_before_agrees_with_the_derived_order() {
    let a = Position::new(1, 9);
    let b = Position::new(2, 1);
    assert!(a.is_before(&b));
    assert!(!b.is_before(&a));
    assert!(!a.is_before(&a));
}

#[test]
fn shifting_twice_is_shifting_once_by_the_sum() {
    let span = Span::new(Position::new(1, 5), Position::new(2, 9));
    assert_eq!(span.offset_lines(2).offset_lines(3), span.offset_lines(5));
}
