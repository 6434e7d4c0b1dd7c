use arrayformat::planner::{to_be_printed, PrintableCell, PRINT_ELEMENTS_LIMIT};

fn indices(range: std::ops::Range<usize>) -> Vec<PrintableCell> {
    range.map(PrintableCell::ElementIndex).collect()
}

#[test]
fn limit_is_three() {
    assert_eq!(PRINT_ELEMENTS_LIMIT, 3);
}

#[test]
fn short_axes_are_planned_whole() {
    for length in 0..=2 * PRINT_ELEMENTS_LIMIT {
        let cells = to_be_printed(length, PRINT_ELEMENTS_LIMIT);
        assert_eq!(cells, indices(0..length));
        assert!(!cells.contains(&PrintableCell::Ellipsis));
    }
}

#[test]
fn long_axes_keep_both_ends() {
    for length in 2 * PRINT_ELEMENTS_LIMIT + 1..40 {
        let cells = to_be_printed(length, PRINT_ELEMENTS_LIMIT);
        let mut expected = indices(0..PRINT_ELEMENTS_LIMIT);
        expected.push(PrintableCell::Ellipsis);
        expected.extend(indices(length - PRINT_ELEMENTS_LIMIT..length));
        assert_eq!(cells, expected);
        assert_eq!(cells.len(), 2 * PRINT_ELEMENTS_LIMIT + 1);
        assert_eq!(cells.iter().filter(|c| **c == PrintableCell::Ellipsis).count(), 1);
    }
}

#[test]
fn plan_of_seven_positions() {
    assert_eq!(
        to_be_printed(7, 3),
        vec![
            PrintableCell::ElementIndex(0),
            PrintableCell::ElementIndex(1),
            PrintableCell::ElementIndex(2),
            PrintableCell::Ellipsis,
            PrintableCell::ElementIndex(4),
            PrintableCell::ElementIndex(5),
            PrintableCell::ElementIndex(6),
        ]
    );
}

#[test]
fn plan_of_an_empty_axis_is_empty() {
    assert_eq!(to_be_printed(0, 3), Vec::new());
    assert_eq!(to_be_printed(0, 0), Vec::new());
}

#[test]
fn plan_with_other_limits() {
    assert_eq!(to_be_printed(2, 1), indices(0..2));
    assert_eq!(
        to_be_printed(3, 1),
        vec![PrintableCell::ElementIndex(0), PrintableCell::Ellipsis, PrintableCell::ElementIndex(2)]
    );
    assert_eq!(to_be_printed(2, 0), vec![PrintableCell::Ellipsis]);
}

#[test]
fn plan_with_the_largest_limit() {
    assert_eq!(to_be_printed(5, usize::MAX), indices(0..5));
    assert_eq!(to_be_printed(5, usize::MAX / 2 + 1), indices(0..5));
}

#[test]
fn plan_of_the_longest_axis() {
    let cells = to_be_printed(usize::MAX, 2);
    assert_eq!(
        cells,
        vec![
            PrintableCell::ElementIndex(0),
            PrintableCell::ElementIndex(1),
            PrintableCell::Ellipsis,
            PrintableCell::ElementIndex(usize::MAX - 2),
            PrintableCell::ElementIndex(usize::MAX - 1),
        ]
    );
}
