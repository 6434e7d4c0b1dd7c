//! The flavors of output: which text an element gets, and what is added
//! behind the array.

use vstd::prelude::*;
use vstd::string::*;
use crate::element::ElementFormatter;
use crate::numbers::{
    decimal_string, decimal_text, radix_string, radix_text, scientific_string, scientific_text, Integer,
};
use crate::planner::PRINT_ELEMENTS_LIMIT;
use crate::render::{format_array, rendered};
use crate::sink::{delivers, lemma_delivers_stop, lemma_delivers_then, FormatError, Outcome, Sink};
use crate::view::ArrayView;

verus! {

/// Elements as plain text: integers in decimal.
#[derive(Clone, Copy, Debug)]
pub struct Plain;

/// Elements as text for inspection: integers in decimal.
#[derive(Clone, Copy, Debug)]
pub struct Annotated;

/// Elements in scientific notation with a small `e`.
#[derive(Clone, Copy, Debug)]
pub struct LowerExp;

/// Elements in scientific notation with a capital `E`.
#[derive(Clone, Copy, Debug)]
pub struct UpperExp;

/// Elements in hexadecimal with small letters: the bits of the integer in
/// two's complement, without sign and prefix.
#[derive(Clone, Copy, Debug)]
pub struct LowerHex;

/// Elements in binary: the bits of the integer in two's complement, without
/// sign and prefix.
#[derive(Clone, Copy, Debug)]
pub struct Binary;

/// The bits of `v` in two's complement as a number without sign, for a type
/// of `modulus` values.
pub open spec fn bits_of(v: int, modulus: nat) -> nat {
    (if v < 0 { v + modulus } else { v }) as nat
}

impl<T: Integer> ElementFormatter<T> for Plain {
    open spec fn text(&self, elem: &T) -> Option<Seq<char>> {
        Some(decimal_text(elem.value()))
    }

    fn format(&self, elem: &T) -> (r: Result<String, FormatError>) {
        Ok(decimal_string(elem.is_negative(), elem.magnitude()))
    }
}

impl<T: Integer> ElementFormatter<T> for Annotated {
    open spec fn text(&self, elem: &T) -> Option<Seq<char>> {
        Some(decimal_text(elem.value()))
    }

    fn format(&self, elem: &T) -> (r: Result<String, FormatError>) {
        Ok(decimal_string(elem.is_negative(), elem.magnitude()))
    }
}

impl<T: Integer> ElementFormatter<T> for LowerExp {
    open spec fn text(&self, elem: &T) -> Option<Seq<char>> {
        Some(scientific_text(elem.value(), false))
    }

    fn format(&self, elem: &T) -> (r: Result<String, FormatError>) {
        Ok(scientific_string(elem.is_negative(), elem.magnitude(), false))
    }
}

impl<T: Integer> ElementFormatter<T> for UpperExp {
    open spec fn text(&self, elem: &T) -> Option<Seq<char>> {
        Some(scientific_text(elem.value(), true))
    }

    fn format(&self, elem: &T) -> (r: Result<String, FormatError>) {
        Ok(scientific_string(elem.is_negative(), elem.magnitude(), true))
    }
}

impl<T: Integer> ElementFormatter<T> for LowerHex {
    open spec fn text(&self, elem: &T) -> Option<Seq<char>> {
        Some(radix_text(bits_of(elem.value(), T::modulus()), 16))
    }

    fn format(&self, elem: &T) -> (r: Result<String, FormatError>) {
        Ok(radix_string(elem.bits(), 16))
    }
}

impl<T: Integer> ElementFormatter<T> for Binary {
    open spec fn text(&self, elem: &T) -> Option<Seq<char>> {
        Some(radix_text(bits_of(elem.value(), T::modulus()), 2))
    }

    fn format(&self, elem: &T) -> (r: Result<String, FormatError>) {
        Ok(radix_string(elem.bits(), 2))
    }
}

/// How the number of axes of an array is known.
#[derive(Clone, Copy, Debug, PartialEq, Eq, Structural)]
pub enum RankKind {
    /// Fixed when the array's type was written; the number is that rank.
    Fixed(usize),
    /// Known only from the array itself.
    Dynamic,
}

/// The items in decimal with `", "` between them.
pub open spec fn joined_text(items: Seq<int>) -> Seq<char>
    decreases items.len(),
{
    if items.len() == 0 {
        Seq::empty()
    } else if items.len() == 1 {
        decimal_text(items[0])
    } else {
        joined_text(items.drop_last()) + seq![',', ' '] + decimal_text(items.last())
    }
}

/// The items as a list: in decimal, with `", "` between them, in square
/// brackets.
pub open spec fn list_text(items: Seq<int>) -> Seq<char> {
    seq!['['] + joined_text(items) + seq![']']
}

/// The integers that `items` hold.
pub open spec fn values_of<T: Integer>(items: Seq<T>) -> Seq<int> {
    items.map_values(|x: T| x.value())
}

/// What the annotated flavor adds behind an array: its shape, its strides,
/// its layout as the caller describes it, and its number of axes with the
/// way it is known.
pub open spec fn metadata_text(
    shape: Seq<usize>,
    strides: Seq<isize>,
    layout: Seq<char>,
    rank: RankKind,
) -> Seq<char> {
    " shape="@ + list_text(values_of(shape)) + ", strides="@ + list_text(values_of(strides))
        + ", layout="@ + layout + match rank {
        RankKind::Fixed(n) => ", const ndim="@ + decimal_text(n as int),
        RankKind::Dynamic => ", dynamic ndim="@ + decimal_text(shape.len() as int),
    }
}

/// Writes the items as a list.
pub fn list_string<T: Integer>(items: &[T]) -> (s: String)
    ensures
        s@ == list_text(values_of(items@)),
{
    proof {
        reveal_strlit("[");
        reveal_strlit("]");
        reveal_strlit(", ");
        assert("["@ =~= seq!['[']);
        assert("]"@ =~= seq![']']);
        assert(", "@ =~= seq![',', ' ']);
    }
    let mut text = String::from_str("[");
    let mut k: usize = 0;
    assert(values_of(items@).take(0) =~= Seq::<int>::empty());
    while k < items.len()
        invariant
            k <= items.len(),
            "]"@ == seq![']'],
            ", "@ == seq![',', ' '],
            text@ == seq!['['] + joined_text(values_of(items@).take(k as int)),
        decreases items.len() - k,
    {
        let item = decimal_string(items[k].is_negative(), items[k].magnitude());
        let ghost before = values_of(items@).take(k as int);
        let ghost now = values_of(items@).take(k + 1);
        proof {
            assert(now.drop_last() =~= before);
            assert(now.last() == items@[k as int].value());
        }
        if k > 0 {
            text.append(", ");
        }
        text.append(item.as_str());
        k = k + 1;
        assert(text@ =~= seq!['['] + joined_text(now));
    }
    assert(values_of(items@).take(k as int) =~= values_of(items@));
    text.append("]");
    text
}

/// Formats what the annotated flavor adds behind an array.
pub fn metadata_string(shape: &[usize], strides: &[isize], layout: &str, rank: RankKind) -> (s: String)
    ensures
        s@ == metadata_text(shape@, strides@, layout@, rank),
{
    let mut text = String::from_str(" shape=");
    text.append(list_string(shape).as_str());
    text.append(", strides=");
    text.append(list_string(strides).as_str());
    text.append(", layout=");
    text.append(layout);
    match rank {
        RankKind::Fixed(n) => {
            text.append(", const ndim=");
            text.append(decimal_string(false, n as u64).as_str());
        },
        RankKind::Dynamic => {
            text.append(", dynamic ndim=");
            text.append(decimal_string(false, shape.len() as u64).as_str());
        },
    }
    assert(text@ =~= metadata_text(shape@, strides@, layout@, rank));
    text
}

/// Renders `view` with `format` and the fixed limit, and adds the metadata
/// behind it once the array is written.
pub fn format_annotated<A, F: ElementFormatter<A>, W: Sink>(
    view: &ArrayView<'_, A>,
    sink: &mut W,
    format: &F,
    layout: &str,
    rank: RankKind,
) -> (r: Result<(), FormatError>)
    ensures
        delivers(
            old(sink)@,
            final(sink)@,
            r,
            rendered(view@, *format, PRINT_ELEMENTS_LIMIT as nat).followed_by(
                Outcome::done(metadata_text(view.shape_of(), view.strides_of(), layout@, rank)),
            ),
        ),
{
    let ghost start = sink@;
    let ghost array = rendered(view@, *format, PRINT_ELEMENTS_LIMIT as nat);
    let ghost suffix = Outcome::done(metadata_text(view.shape_of(), view.strides_of(), layout@, rank));
    let shown = format_array(view, sink, format, PRINT_ELEMENTS_LIMIT);
    if shown.is_err() {
        proof {
            lemma_delivers_stop(start, sink@, array, suffix);
        }
        return shown;
    }
    let ghost between = sink@;
    let text = metadata_string(view.shape(), view.strides(), layout, rank);
    let added = sink.write_str(text.as_str());
    proof {
        lemma_delivers_then(start, between, sink@, added, array, suffix);
    }
    added
}

/// The plain flavor: the array with each element as plain text.
pub fn fmt_display<A, W: Sink>(view: &ArrayView<'_, A>, sink: &mut W) -> (r: Result<(), FormatError>) where
    Plain: ElementFormatter<A>,

    ensures
        delivers(old(sink)@, final(sink)@, r, rendered(view@, Plain, PRINT_ELEMENTS_LIMIT as nat)),
{
    format_array(view, sink, &Plain, PRINT_ELEMENTS_LIMIT)
}

/// The annotated flavor: the array with each element as text for
/// inspection, and the metadata behind it.
pub fn fmt_debug<A, W: Sink>(view: &ArrayView<'_, A>, sink: &mut W, layout: &str, rank: RankKind) -> (r:
    Result<(), FormatError>) where Annotated: ElementFormatter<A>
    ensures
        delivers(
            old(sink)@,
            final(sink)@,
            r,
            rendered(view@, Annotated, PRINT_ELEMENTS_LIMIT as nat).followed_by(
                Outcome::done(metadata_text(view.shape_of(), view.strides_of(), layout@, rank)),
            ),
        ),
{
    format_annotated(view, sink, &Annotated, layout, rank)
}

/// The scientific flavor with a small `e`.
pub fn fmt_lower_exp<A, W: Sink>(view: &ArrayView<'_, A>, sink: &mut W) -> (r: Result<(), FormatError>) where
    LowerExp: ElementFormatter<A>,

    ensures
        delivers(old(sink)@, final(sink)@, r, rendered(view@, LowerExp, PRINT_ELEMENTS_LIMIT as nat)),
{
    format_array(view, sink, &LowerExp, PRINT_ELEMENTS_LIMIT)
}

/// The scientific flavor with a capital `E`.
pub fn fmt_upper_exp<A, W: Sink>(view: &ArrayView<'_, A>, sink: &mut W) -> (r: Result<(), FormatError>) where
    UpperExp: ElementFormatter<A>,

    ensures
        delivers(old(sink)@, final(sink)@, r, rendered(view@, UpperExp, PRINT_ELEMENTS_LIMIT as nat)),
{
    format_array(view, sink, &UpperExp, PRINT_ELEMENTS_LIMIT)
}

/// The hexadecimal flavor.
pub fn fmt_lower_hex<A, W: Sink>(view: &ArrayView<'_, A>, sink: &mut W) -> (r: Result<(), FormatError>) where
    LowerHex: ElementFormatter<A>,

    ensures
        delivers(old(sink)@, final(sink)@, r, rendered(view@, LowerHex, PRINT_ELEMENTS_LIMIT as nat)),
{
    format_array(view, sink, &LowerHex, PRINT_ELEMENTS_LIMIT)
}

/// The binary flavor.
pub fn fmt_binary<A, W: Sink>(view: &ArrayView<'_, A>, sink: &mut W) -> (r: Result<(), FormatError>) where
    Binary: ElementFormatter<A>,

    ensures
        delivers(old(sink)@, final(sink)@, r, rendered(view@, Binary, PRINT_ELEMENTS_LIMIT as nat)),
{
    format_array(view, sink, &Binary, PRINT_ELEMENTS_LIMIT)
}

} // verus!
