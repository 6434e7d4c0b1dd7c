use arrayformat::element::FnFormatter;
use arrayformat::flavors::{fmt_display, Plain};
use arrayformat::planner::PRINT_ELEMENTS_LIMIT;
use arrayformat::render::{format_1d_array, format_array};
use arrayformat::sink::{BoundedBuffer, FormatError, Sink, TextBuffer};
use arrayformat::view::ArrayView;

fn strides_for(shape: &[usize]) -> Vec<isize> {
    let mut strides = vec![0isize; shape.len()];
    if shape.iter().all(|&n| n != 0) {
        let mut step = 1isize;
        for k in (0..shape.len()).rev() {
            strides[k] = step;
            step *= shape[k] as isize;
        }
    }
    strides
}

fn plain(data: &[i64], shape: &[usize]) -> String {
    let strides = strides_for(shape);
    let view = ArrayView::new(data, 0, shape, &strides).unwrap();
    let mut sink = TextBuffer::new();
    fmt_display(&view, &mut sink).unwrap();
    sink.as_str().to_string()
}

fn counting(n: usize) -> Vec<i64> {
    (1..=n as i64).collect()
}

#[test]
fn one_element() {
    assert_eq!(plain(&[1], &[1]), "[1]");
}

#[test]
fn two_elements() {
    assert_eq!(plain(&[1, 1], &[2]), "[1, 1]");
}

#[test]
fn eleven_elements() {
    assert_eq!(plain(&[1; 11], &[11]), "[1, 1, 1, ..., 1, 1, 1]");
}

#[test]
fn six_elements_are_shown_whole() {
    assert_eq!(plain(&counting(6), &[6]), "[1, 2, 3, 4, 5, 6]");
}

#[test]
fn seven_elements_are_cut() {
    assert_eq!(plain(&counting(7), &[7]), "[1, 2, 3, ..., 5, 6, 7]");
}

#[test]
fn two_by_nothing() {
    assert_eq!(plain(&[], &[2, 0]), "[[]]");
}

#[test]
fn three_by_nothing_by_four() {
    assert_eq!(plain(&[], &[3, 0, 4]), "[[[]]]");
}

#[test]
fn any_empty_axis_leaves_brackets_only() {
    assert_eq!(plain(&[], &[0]), "[]");
    assert_eq!(plain(&[], &[0, 5]), "[[]]");
    assert_eq!(plain(&[], &[5, 0]), "[[]]");
    assert_eq!(plain(&[], &[0, 0]), "[[]]");
    assert_eq!(plain(&[], &[2, 3, 0, 4]), "[[[[]]]]");
    assert_eq!(plain(&[], &[100, 100, 0]), "[[[]]]");
    assert_eq!(plain(&[], &[0, 7, 9, 11, 2]), "[[[[[]]]]]");
}

#[test]
fn no_axis_leaves_the_element_alone() {
    assert_eq!(plain(&[12], &[]), "12");
    assert_eq!(plain(&[-7], &[]), "-7");
    assert_eq!(plain(&[0], &[]), "0");
}

#[test]
fn three_rows_of_nine() {
    let row = "[1, 1, 1, ..., 1, 1, 1]";
    assert_eq!(plain(&[1; 27], &[3, 9]), format!("[{},\n {},\n {}]", row, row, row));
}

#[test]
fn two_by_three() {
    assert_eq!(plain(&counting(6), &[2, 3]), "[[1, 2, 3],\n [4, 5, 6]]");
}

#[test]
fn rows_are_cut_like_elements() {
    let data = counting(8 * 2);
    assert_eq!(
        plain(&data, &[8, 2]),
        "[[1, 2],\n [3, 4],\n [5, 6],\n ...,\n [11, 12],\n [13, 14],\n [15, 16]]"
    );
}

#[test]
fn separators_do_not_grow_with_depth() {
    assert_eq!(
        plain(&counting(8), &[2, 2, 2]),
        "[[[1, 2],\n [3, 4]],\n [[5, 6],\n [7, 8]]]"
    );
    assert_eq!(plain(&counting(2), &[1, 1, 1, 2]), "[[[[1, 2]]]]");
}

#[test]
fn every_axis_is_cut() {
    let data = counting(7 * 7 * 7);
    let block = |first: i64| {
        let row = |a: i64| format!("[{}, {}, {}, ..., {}, {}, {}]", a, a + 1, a + 2, a + 4, a + 5, a + 6);
        format!(
            "[{},\n {},\n {},\n ...,\n {},\n {},\n {}]",
            row(first),
            row(first + 7),
            row(first + 14),
            row(first + 28),
            row(first + 35),
            row(first + 42)
        )
    };
    let expected = format!(
        "[{},\n {},\n {},\n ...,\n {},\n {},\n {}]",
        block(1),
        block(50),
        block(99),
        block(197),
        block(246),
        block(295)
    );
    assert_eq!(plain(&data, &[7, 7, 7]), expected);
}

#[test]
fn rendering_twice_gives_the_same_text() {
    let data = counting(9 * 8);
    let first = plain(&data, &[9, 8]);
    let second = plain(&data, &[9, 8]);
    assert_eq!(first, second);
    let shape = [9usize, 8];
    let strides = [8isize, 1];
    let view = ArrayView::new(&data, 0, &shape, &strides).unwrap();
    let mut sink = TextBuffer::new();
    sink.write_str("before: ").unwrap();
    fmt_display(&view, &mut sink).unwrap();
    fmt_display(&view, &mut sink).unwrap();
    assert_eq!(sink.as_str(), format!("before: {}{}", first, first));
}

#[test]
fn the_limit_is_a_parameter_of_the_renderer() {
    let data = counting(5);
    let shape = [5usize];
    let strides = [1isize];
    let view = ArrayView::new(&data, 0, &shape, &strides).unwrap();
    let mut sink = TextBuffer::new();
    format_array(&view, &mut sink, &Plain, 1).unwrap();
    assert_eq!(sink.as_str(), "[1, ..., 5]");
    let mut sink = TextBuffer::new();
    format_array(&view, &mut sink, &Plain, 2).unwrap();
    assert_eq!(sink.as_str(), "[1, 2, ..., 4, 5]");
    let mut sink = TextBuffer::new();
    format_array(&view, &mut sink, &Plain, usize::MAX).unwrap();
    assert_eq!(sink.as_str(), "[1, 2, 3, 4, 5]");
    let mut sink = TextBuffer::new();
    format_array(&view, &mut sink, &Plain, 0).unwrap();
    assert_eq!(sink.as_str(), "[..., ]");
}

#[test]
fn one_axis_renderer_alone() {
    let data = counting(8);
    let shape = [8usize];
    let strides = [1isize];
    let view = ArrayView::new(&data, 0, &shape, &strides).unwrap();
    let mut sink = TextBuffer::new();
    format_1d_array(&view, &mut sink, &Plain, PRINT_ELEMENTS_LIMIT).unwrap();
    assert_eq!(sink.as_str(), "[1, 2, 3, ..., 6, 7, 8]");
    let empty: [i64; 0] = [];
    let shape = [0usize];
    let view = ArrayView::new(&empty, 0, &shape, &strides).unwrap();
    let mut sink = TextBuffer::new();
    format_1d_array(&view, &mut sink, &Plain, PRINT_ELEMENTS_LIMIT).unwrap();
    assert_eq!(sink.as_str(), "[]");
}

#[test]
fn a_failing_formatter_stops_the_rendering() {
    let data = counting(6);
    let shape = [2usize, 3];
    let strides = [3isize, 1];
    let view = ArrayView::new(&data, 0, &shape, &strides).unwrap();
    let format = FnFormatter::new(|e: &i64| -> Result<String, FormatError> {
        if *e == 5 {
            Err(FormatError)
        } else {
            Ok(format!("<{}>", e))
        }
    });
    let mut sink = TextBuffer::new();
    assert_eq!(format_array(&view, &mut sink, &format, PRINT_ELEMENTS_LIMIT), Err(FormatError));
    assert_eq!(sink.as_str(), "[[<1>, <2>, <3>],\n [<4>, ");
}

#[test]
fn omitted_elements_are_not_formatted() {
    let data = counting(9);
    let shape = [9usize];
    let strides = [1isize];
    let view = ArrayView::new(&data, 0, &shape, &strides).unwrap();
    let format = FnFormatter::new(|e: &i64| -> Result<String, FormatError> {
        if 4 <= *e && *e <= 6 {
            Err(FormatError)
        } else {
            Ok(format!("{}", e))
        }
    });
    let mut sink = TextBuffer::new();
    assert_eq!(format_array(&view, &mut sink, &format, PRINT_ELEMENTS_LIMIT), Ok(()));
    assert_eq!(sink.as_str(), "[1, 2, 3, ..., 7, 8, 9]");
}

#[test]
fn a_full_sink_stops_the_rendering() {
    let data = counting(6);
    let shape = [2usize, 3];
    let strides = [3isize, 1];
    let view = ArrayView::new(&data, 0, &shape, &strides).unwrap();
    let whole = "[[1, 2, 3],\n [4, 5, 6]]";
    for room in 0..whole.len() {
        let mut sink = BoundedBuffer::with_capacity(room);
        assert_eq!(fmt_display(&view, &mut sink), Err(FormatError));
        assert_eq!(sink.as_str(), &whole[..room]);
    }
    let mut sink = BoundedBuffer::with_capacity(whole.len());
    assert_eq!(fmt_display(&view, &mut sink), Ok(()));
    assert_eq!(sink.as_str(), whole);
    let mut sink = BoundedBuffer::with_capacity(whole.len() + 5);
    assert_eq!(fmt_display(&view, &mut sink), Ok(()));
    assert_eq!(sink.as_str(), whole);
}

#[test]
fn a_full_sink_stops_the_brackets() {
    let data: [i64; 0] = [];
    let shape = [3usize, 0, 4];
    let strides = [0isize, 0, 0];
    let view = ArrayView::new(&data, 0, &shape, &strides).unwrap();
    let mut sink = BoundedBuffer::with_capacity(4);
    assert_eq!(fmt_display(&view, &mut sink), Err(FormatError));
    assert_eq!(sink.as_str(), "[[[]");
}
