use arrayformat::element::{ElementFormatter, FnFormatter};
use arrayformat::flavors::{
    fmt_binary, fmt_debug, fmt_lower_exp, fmt_lower_hex, fmt_upper_exp, format_annotated, list_string,
    metadata_string, Annotated, Binary, LowerExp, LowerHex, Plain, RankKind, UpperExp,
};
use arrayformat::sink::{BoundedBuffer, FormatError, TextBuffer};
use arrayformat::view::ArrayView;

const SIGNED: [i64; 23] = [
    0,
    1,
    -1,
    9,
    10,
    -10,
    11,
    99,
    100,
    101,
    -120,
    1200,
    12345,
    1000000,
    1000001,
    -98765432100,
    255,
    256,
    -256,
    i64::MAX,
    i64::MIN,
    i64::MAX - 7,
    i64::MIN + 1,
];

#[test]
fn signed_elements_read_as_the_standard_formats() {
    for v in SIGNED {
        assert_eq!(Plain.format(&v).unwrap(), format!("{}", v));
        assert_eq!(Annotated.format(&v).unwrap(), format!("{:?}", v));
        assert_eq!(LowerExp.format(&v).unwrap(), format!("{:e}", v));
        assert_eq!(UpperExp.format(&v).unwrap(), format!("{:E}", v));
        assert_eq!(LowerHex.format(&v).unwrap(), format!("{:x}", v));
        assert_eq!(Binary.format(&v).unwrap(), format!("{:b}", v));
    }
}

#[test]
fn unsigned_elements_read_as_the_standard_formats() {
    for v in [0u64, 1, 7, 10, 16, 255, 1000, 1050, 4096, 65535, u64::MAX, u64::MAX - 15, 1 << 63] {
        assert_eq!(Plain.format(&v).unwrap(), format!("{}", v));
        assert_eq!(Annotated.format(&v).unwrap(), format!("{:?}", v));
        assert_eq!(LowerExp.format(&v).unwrap(), format!("{:e}", v));
        assert_eq!(UpperExp.format(&v).unwrap(), format!("{:E}", v));
        assert_eq!(LowerHex.format(&v).unwrap(), format!("{:x}", v));
        assert_eq!(Binary.format(&v).unwrap(), format!("{:b}", v));
    }
}

#[test]
fn narrow_elements_read_as_the_standard_formats() {
    for v in [0i32, 1, -1, 42, -42, 1000, -1000, i32::MAX, i32::MIN] {
        assert_eq!(Plain.format(&v).unwrap(), format!("{}", v));
        assert_eq!(LowerExp.format(&v).unwrap(), format!("{:e}", v));
        assert_eq!(UpperExp.format(&v).unwrap(), format!("{:E}", v));
        assert_eq!(LowerHex.format(&v).unwrap(), format!("{:x}", v));
        assert_eq!(Binary.format(&v).unwrap(), format!("{:b}", v));
    }
    for v in [0u32, 1, 42, 1000, u32::MAX] {
        assert_eq!(Plain.format(&v).unwrap(), format!("{}", v));
        assert_eq!(LowerExp.format(&v).unwrap(), format!("{:e}", v));
        assert_eq!(LowerHex.format(&v).unwrap(), format!("{:x}", v));
        assert_eq!(Binary.format(&v).unwrap(), format!("{:b}", v));
    }
}

#[test]
fn word_sized_elements_read_as_the_standard_formats() {
    for v in [0isize, 1, -1, 300, -300, isize::MAX, isize::MIN] {
        assert_eq!(Plain.format(&v).unwrap(), format!("{}", v));
        assert_eq!(LowerExp.format(&v).unwrap(), format!("{:e}", v));
        assert_eq!(LowerHex.format(&v).unwrap(), format!("{:x}", v));
        assert_eq!(Binary.format(&v).unwrap(), format!("{:b}", v));
    }
    for v in [0usize, 1, 300, usize::MAX] {
        assert_eq!(Plain.format(&v).unwrap(), format!("{}", v));
        assert_eq!(UpperExp.format(&v).unwrap(), format!("{:E}", v));
        assert_eq!(LowerHex.format(&v).unwrap(), format!("{:x}", v));
        assert_eq!(Binary.format(&v).unwrap(), format!("{:b}", v));
    }
}

#[test]
fn digits_in_a_radix() {
    assert_eq!(Binary.format(&0u64).unwrap(), "0");
    assert_eq!(Binary.format(&5u64).unwrap(), "101");
    assert_eq!(LowerHex.format(&255u64).unwrap(), "ff");
    assert_eq!(LowerHex.format(&48879u64).unwrap(), "beef");
    assert_eq!(LowerHex.format(&0xfedcba9876543210u64).unwrap(), "fedcba9876543210");
    assert_eq!(Plain.format(&1234567890u64).unwrap(), "1234567890");
    assert_eq!(LowerHex.format(&u64::MAX).unwrap(), "ffffffffffffffff");
    assert_eq!(LowerHex.format(&-1i32).unwrap(), "ffffffff");
    assert_eq!(Binary.format(&-2i32).unwrap(), "11111111111111111111111111111110");
}

#[test]
fn decimals_with_sign() {
    assert_eq!(Plain.format(&0i64).unwrap(), "0");
    assert_eq!(Plain.format(&42i64).unwrap(), "42");
    assert_eq!(Plain.format(&-42i64).unwrap(), "-42");
    assert_eq!(Plain.format(&i64::MIN).unwrap(), "-9223372036854775808");
    assert_eq!(Annotated.format(&-42i32).unwrap(), "-42");
}

#[test]
fn scientific_notation() {
    assert_eq!(LowerExp.format(&0u64).unwrap(), "0e0");
    assert_eq!(LowerExp.format(&1u64).unwrap(), "1e0");
    assert_eq!(LowerExp.format(&10u64).unwrap(), "1e1");
    assert_eq!(LowerExp.format(&12u64).unwrap(), "1.2e1");
    assert_eq!(UpperExp.format(&1200u64).unwrap(), "1.2E3");
    assert_eq!(LowerExp.format(&-12345i64).unwrap(), "-1.2345e4");
    assert_eq!(LowerExp.format(&10000000000u64).unwrap(), "1e10");
    assert_eq!(UpperExp.format(&-100i32).unwrap(), "-1E2");
}

fn hex(data: &[i64], shape: &[usize], strides: &[isize]) -> String {
    let view = ArrayView::new(data, 0, shape, strides).unwrap();
    let mut sink = TextBuffer::new();
    fmt_lower_hex(&view, &mut sink).unwrap();
    sink.as_str().to_string()
}

#[test]
fn hexadecimal_flavor() {
    assert_eq!(hex(&[10, 11, 255, 4096], &[2, 2], &[2, 1]), "[[a, b],\n [ff, 1000]]");
    assert_eq!(hex(&[-1], &[], &[]), "ffffffffffffffff");
}

#[test]
fn binary_flavor() {
    let data = [1u32, 2, 3, 4, 5, 6, 7, 8];
    let view = ArrayView::new(&data, 0, &[8], &[1]).unwrap();
    let mut sink = TextBuffer::new();
    fmt_binary(&view, &mut sink).unwrap();
    assert_eq!(sink.as_str(), "[1, 10, 11, ..., 110, 111, 1000]");
}

#[test]
fn scientific_flavors() {
    let data = [1500i64, -20, 3, 0];
    let view = ArrayView::new(&data, 0, &[2, 2], &[2, 1]).unwrap();
    let mut sink = TextBuffer::new();
    fmt_lower_exp(&view, &mut sink).unwrap();
    assert_eq!(sink.as_str(), "[[1.5e3, -2e1],\n [3e0, 0e0]]");
    let mut sink = TextBuffer::new();
    fmt_upper_exp(&view, &mut sink).unwrap();
    assert_eq!(sink.as_str(), "[[1.5E3, -2E1],\n [3E0, 0E0]]");
}

#[test]
fn lists_of_integers() {
    let none: [usize; 0] = [];
    assert_eq!(list_string(&none), "[]");
    assert_eq!(list_string(&[7usize]), "[7]");
    assert_eq!(list_string(&[3usize, 0, 4]), format!("{:?}", [3usize, 0, 4]));
    assert_eq!(list_string(&[-4isize, 1, 0]), format!("{:?}", [-4isize, 1, 0]));
}

#[test]
fn metadata_wording() {
    assert_eq!(
        metadata_string(&[2, 3], &[3, 1], "Cc (0x5)", RankKind::Fixed(2)),
        " shape=[2, 3], strides=[3, 1], layout=Cc (0x5), const ndim=2"
    );
    assert_eq!(
        metadata_string(&[2, 3], &[1, 2], "Ff (0xa)", RankKind::Dynamic),
        " shape=[2, 3], strides=[1, 2], layout=Ff (0xa), dynamic ndim=2"
    );
    assert_eq!(
        metadata_string(&[], &[], "CFcf (0xf)", RankKind::Fixed(0)),
        " shape=[], strides=[], layout=CFcf (0xf), const ndim=0"
    );
    assert_eq!(
        metadata_string(&[4], &[-1], "Custom (0x0)", RankKind::Dynamic),
        " shape=[4], strides=[-1], layout=Custom (0x0), dynamic ndim=1"
    );
}

#[test]
fn annotated_flavor_adds_the_metadata() {
    let data = [1i32, 2, 3, 4, 5, 6];
    let view = ArrayView::new(&data, 0, &[2, 3], &[3, 1]).unwrap();
    let mut sink = TextBuffer::new();
    fmt_debug(&view, &mut sink, "Cc (0x5)", RankKind::Fixed(2)).unwrap();
    assert_eq!(
        sink.as_str(),
        "[[1, 2, 3],\n [4, 5, 6]] shape=[2, 3], strides=[3, 1], layout=Cc (0x5), const ndim=2"
    );
    let mut sink = TextBuffer::new();
    fmt_debug(&view, &mut sink, "Cc (0x5)", RankKind::Dynamic).unwrap();
    assert_eq!(
        sink.as_str(),
        "[[1, 2, 3],\n [4, 5, 6]] shape=[2, 3], strides=[3, 1], layout=Cc (0x5), dynamic ndim=2"
    );
}

#[test]
fn annotated_flavor_of_an_empty_array() {
    let data: [u32; 0] = [];
    let view = ArrayView::new(&data, 0, &[2, 0], &[0, 0]).unwrap();
    let mut sink = TextBuffer::new();
    fmt_debug(&view, &mut sink, "CFcf (0xf)", RankKind::Fixed(2)).unwrap();
    assert_eq!(sink.as_str(), "[[]] shape=[2, 0], strides=[0, 0], layout=CFcf (0xf), const ndim=2");
}

#[test]
fn annotated_flavor_with_a_formatter_of_its_own() {
    let data = [1.5f64, 2.25];
    let view = ArrayView::new(&data, 0, &[2], &[1]).unwrap();
    let format = FnFormatter::new(|e: &f64| -> Result<String, FormatError> { Ok(format!("{:?}", e)) });
    let mut sink = TextBuffer::new();
    format_annotated(&view, &mut sink, &format, "CFcf (0xf)", RankKind::Fixed(1)).unwrap();
    assert_eq!(sink.as_str(), "[1.5, 2.25] shape=[2], strides=[1], layout=CFcf (0xf), const ndim=1");
}

#[test]
fn no_metadata_behind_a_failed_array() {
    let data = [1i64, 2, 3];
    let view = ArrayView::new(&data, 0, &[3], &[1]).unwrap();
    let format = FnFormatter::new(|e: &i64| -> Result<String, FormatError> {
        if *e == 3 {
            Err(FormatError)
        } else {
            Ok(format!("{}", e))
        }
    });
    let mut sink = TextBuffer::new();
    assert_eq!(
        format_annotated(&view, &mut sink, &format, "CFcf (0xf)", RankKind::Dynamic),
        Err(FormatError)
    );
    assert_eq!(sink.as_str(), "[1, 2, ");
    let mut sink = BoundedBuffer::with_capacity(15);
    assert_eq!(fmt_debug(&view, &mut sink, "CFcf (0xf)", RankKind::Dynamic), Err(FormatError));
    assert_eq!(sink.as_str(), "[1, 2, 3] shape");
}
