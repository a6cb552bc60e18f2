use balpan::tree_sitter_extended::{MembershipCheck, Point, Range};

fn range(start: (usize, usize), end: (usize, usize)) -> Range {
    Range {
        start_byte: 0,
        end_byte: 0,
        start_point: Point { row: start.0, column: start.1 },
        end_point: Point { row: end.0, column: end.1 },
    }
}

#[test]
fn test_out_of_membership() {
    let cursor = Point { row: 2, column: 10 };
    let function_scope = range((4, 2), (10, 2));

    assert!(cursor.is_before(function_scope));
    assert!(!cursor.is_member_of(function_scope));
}

#[test]
fn test_membership_with_inline_code() {
    let cursor = Point { row: 2, column: 10 };
    let inlined_scope = range((2, 5), (2, 30));

    assert!(cursor.is_member_of(inlined_scope));
}

#[test]
fn test_cursor_is_pointing_the_boundary_of_range() {
    let cursor_with_pointing_start = Point { row: 2, column: 2 };
    let cursor_with_pointing_end = Point { row: 30, column: 2 };
    let function_scope = range((2, 2), (30, 2));

    assert!(!cursor_with_pointing_start.is_before(function_scope));
    assert!(cursor_with_pointing_start.is_member_of(function_scope));
    assert!(cursor_with_pointing_end.is_member_of(function_scope));
    assert!(!cursor_with_pointing_end.is_after(function_scope));
}

#[test]
fn test_cursor_is_pointing_outside_of_boundary() {
    let left_of_start_point = Point { row: 2, column: 1 };
    let right_of_end_point = Point { row: 30, column: 3 };
    let function_scope = range((2, 2), (30, 2));

    assert!(left_of_start_point.is_before(function_scope));
    assert!(!left_of_start_point.is_member_of(function_scope));
    assert!(!right_of_end_point.is_member_of(function_scope));
    assert!(right_of_end_point.is_after(function_scope));
}

#[test]
fn cursor_after_a_range_on_a_later_row() {
    let cursor = Point { row: 11, column: 0 };
    let scope = range((4, 2), (10, 2));

    assert!(cursor.is_after(scope));
    assert!(!cursor.is_before(scope));
    assert!(!cursor.is_member_of(scope));
}
