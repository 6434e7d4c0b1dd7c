//! What holds of every rendering.

use vstd::prelude::*;
use crate::element::ElementFormatter;
use crate::planner::{lemma_planned_cells, planned_cells, PrintableCell};
use crate::render::{body, brackets, cell_content, element_outcome, rendered, row_from};
use crate::sink::{delivers, enough_room, FormatError, Outcome, SinkState};
use crate::view::ArrayModel;

verus! {

/// An array with an empty axis renders as one opening bracket per axis, then
/// one closing bracket per axis, and as nothing else: whatever the lengths of
/// its other axes, the limit and the formatter.
pub proof fn lemma_empty_axis_renders_brackets<A, F: ElementFormatter<A>>(
    m: ArrayModel<A>,
    f: F,
    limit: nat,
)
    requires
        m.has_empty_axis(),
    ensures
        rendered(m, f, limit).complete,
        rendered(m, f, limit).text.len() == 2 * m.rank(),
        forall|i: int| 0 <= i < m.rank() ==> rendered(m, f, limit).text[i] == '[',
        forall|i: int| m.rank() <= i < 2 * m.rank() ==> rendered(m, f, limit).text[i] == ']',
{
}

/// An array without axes renders as the text of its element, without
/// brackets; the rendering fails where the formatter fails on the element.
pub proof fn lemma_scalar_renders_element<A, F: ElementFormatter<A>>(
    m: ArrayModel<A>,
    f: F,
    limit: nat,
)
    requires
        m.rank() == 0,
    ensures
        rendered(m, f, limit) == element_outcome(f.text(&m.scalar())),
        f.text(&m.scalar()) matches Some(t) ==> rendered(m, f, limit) == Outcome::done(t),
{
}

/// Two renderings of one array with one formatter and one limit write the
/// same text and end alike, whatever the two sinks held before, as long as
/// each had room for the text.
pub proof fn lemma_rendering_repeats<A, F: ElementFormatter<A>>(
    m: ArrayModel<A>,
    f: F,
    limit: nat,
    first_before: SinkState,
    first_after: SinkState,
    first_result: Result<(), FormatError>,
    second_before: SinkState,
    second_after: SinkState,
    second_result: Result<(), FormatError>,
)
    requires
        delivers(first_before, first_after, first_result, rendered(m, f, limit)),
        delivers(second_before, second_after, second_result, rendered(m, f, limit)),
        enough_room(first_before.room, rendered(m, f, limit).text.len()),
        enough_room(second_before.room, rendered(m, f, limit).text.len()),
    ensures
        first_result is Ok <==> second_result is Ok,
        first_after.text.skip(first_before.text.len() as int) == second_after.text.skip(
            second_before.text.len() as int,
        ),
{
    let text = rendered(m, f, limit).text;
    assert(first_after.text.skip(first_before.text.len() as int) =~= text);
    assert(second_after.text.skip(second_before.text.len() as int) =~= text);
}

/// True when `f` has a text for every element.
pub open spec fn never_fails<A, F: ElementFormatter<A>>(f: F) -> bool {
    forall|elem: A| (#[trigger] f.text(&elem)) is Some
}

/// With a formatter that never fails, the rows of an array are rendered to
/// their end.
proof fn lemma_rows_complete<A, F: ElementFormatter<A>>(m: ArrayModel<A>, f: F, limit: nat, from: nat)
    requires
        never_fails(f),
        m.rank() > 0,
    ensures
        row_from(m, f, limit, from).complete,
    decreases m.rank(), 1nat, planned_cells(m.shape[0], limit).len() - from,
{
    let cells = planned_cells(m.shape[0], limit);
    if from < cells.len() {
        let cell = cells[from as int];
        match cell {
            PrintableCell::ElementIndex(i) => {
                lemma_body_completes(m.sub(i as int), f, limit);
            },
            PrintableCell::Ellipsis => {},
        }
        assert(cell_content(m, f, limit, cell).complete);
        lemma_rows_complete(m, f, limit, from + 1);
    }
}

/// With a formatter that never fails, the body of an array is rendered to
/// its end.
proof fn lemma_body_completes<A, F: ElementFormatter<A>>(m: ArrayModel<A>, f: F, limit: nat)
    requires
        never_fails(f),
    ensures
        body(m, f, limit).complete,
    decreases m.rank(), 2nat, 0nat,
{
    if m.rank() == 0 {
        assert(f.text(&m.scalar()) is Some);
    } else {
        lemma_rows_complete(m, f, limit, 0);
    }
}

/// A rendering is cut short by nothing but a formatter that fails: with one
/// that never does, every array is rendered to its end, so that a sink with
/// room for the text receives all of it and the rendering succeeds.
pub proof fn lemma_rendering_completes<A, F: ElementFormatter<A>>(m: ArrayModel<A>, f: F, limit: nat)
    requires
        never_fails(f),
    ensures
        rendered(m, f, limit).complete,
{
    lemma_body_completes(m, f, limit);
}

/// True when two arrays have the same shape and the same element at every
/// index within it.
pub open spec fn same_contents<A>(a: ArrayModel<A>, b: ArrayModel<A>) -> bool {
    &&& a.shape == b.shape
    &&& forall|index: Seq<int>| a.in_bounds(index) ==> #[trigger] (a.at)(index) == (b.at)(index)
}

/// True when every axis of `m` has a length that a machine index can hold.
pub open spec fn machine_sized<A>(m: ArrayModel<A>) -> bool {
    forall|k: int| 0 <= k < m.shape.len() ==> #[trigger] m.shape[k] <= usize::MAX
}

/// The arrays found at one position of two arrays of the same contents have
/// the same contents.
proof fn lemma_sub_same_contents<A>(a: ArrayModel<A>, b: ArrayModel<A>, i: int)
    requires
        same_contents(a, b),
        machine_sized(a),
        a.rank() > 0,
        0 <= i < a.shape[0],
    ensures
        same_contents(a.sub(i), b.sub(i)),
        machine_sized(a.sub(i)),
{
    assert forall|index: Seq<int>| a.sub(i).in_bounds(index) implies #[trigger] (a.sub(i).at)(index) == (b.sub(
        i,
    ).at)(index) by {
        let whole = seq![i] + index;
        assert forall|k: int| 0 <= k < whole.len() implies 0 <= #[trigger] whole[k] < a.shape[k] by {
            if k > 0 {
                assert(whole[k] == index[k - 1]);
                assert(a.shape[k] == a.sub(i).shape[k - 1]);
            }
        }
        assert(a.in_bounds(whole));
    }
    assert forall|k: int| 0 <= k < a.sub(i).shape.len() implies #[trigger] a.sub(i).shape[k]
        <= usize::MAX by {
        assert(a.sub(i).shape[k] == a.shape[k + 1]);
    }
}

/// Rows of two arrays of the same contents render alike.
proof fn lemma_rows_agree<A, F: ElementFormatter<A>>(
    a: ArrayModel<A>,
    b: ArrayModel<A>,
    f: F,
    limit: nat,
    from: nat,
)
    requires
        same_contents(a, b),
        machine_sized(a),
        a.rank() > 0,
    ensures
        row_from(a, f, limit, from) == row_from(b, f, limit, from),
    decreases a.rank(), 1nat, planned_cells(a.shape[0], limit).len() - from,
{
    let cells = planned_cells(a.shape[0], limit);
    if from < cells.len() {
        lemma_planned_cells(a.shape[0], limit);
        let cell = cells[from as int];
        match cell {
            PrintableCell::ElementIndex(i) => {
                lemma_sub_same_contents(a, b, i as int);
                lemma_bodies_agree(a.sub(i as int), b.sub(i as int), f, limit);
            },
            PrintableCell::Ellipsis => {},
        }
        assert(cell_content(a, f, limit, cell) == cell_content(b, f, limit, cell));
        lemma_rows_agree(a, b, f, limit, from + 1);
    }
}

/// Bodies of two arrays of the same contents render alike.
proof fn lemma_bodies_agree<A, F: ElementFormatter<A>>(
    a: ArrayModel<A>,
    b: ArrayModel<A>,
    f: F,
    limit: nat,
)
    requires
        same_contents(a, b),
        machine_sized(a),
    ensures
        body(a, f, limit) == body(b, f, limit),
    decreases a.rank(), 2nat, 0nat,
{
    if a.rank() == 0 {
        assert(a.in_bounds(Seq::empty()));
    } else {
        lemma_rows_agree(a, b, f, limit, 0);
    }
}

/// A rendering reads nothing but the shape of the array and the elements
/// within it: two arrays of the same contents render alike, however they are
/// laid out.
pub proof fn lemma_rendering_reads_contents<A, F: ElementFormatter<A>>(
    a: ArrayModel<A>,
    b: ArrayModel<A>,
    f: F,
    limit: nat,
)
    requires
        same_contents(a, b),
        machine_sized(a),
    ensures
        rendered(a, f, limit) == rendered(b, f, limit),
{
    lemma_bodies_agree(a, b, f, limit);
}

} // verus!
