//! The renderers: what an array looks like as bracketed text, and the
//! functions that write it to a sink.

use vstd::prelude::*;
use vstd::string::*;
use crate::element::ElementFormatter;
use crate::planner::{lemma_planned_cells, planned_cells, to_be_printed, PrintableCell};
use crate::sink::{
    delivers, lemma_delivers_nothing, lemma_delivers_step, lemma_delivers_stop, lemma_delivers_then,
    FormatError, Outcome, Sink,
};
use crate::view::{ArrayModel, ArrayView};

verus! {

/// What stands between two neighbours along an axis: `", "` between the
/// elements of the innermost axis, `",\n "` between arrays, at any depth.
pub open spec fn separator(rank: nat) -> Seq<char> {
    if rank <= 1 {
        seq![',', ' ']
    } else {
        seq![',', '\n', ' ']
    }
}

/// The mark that stands for a run of omitted positions.
pub open spec fn ellipsis() -> Seq<char> {
    seq!['.', '.', '.']
}

/// `rank` opening brackets, then `rank` closing brackets.
pub open spec fn brackets(rank: nat) -> Seq<char> {
    Seq::new(rank, |i: int| '[') + Seq::new(rank, |i: int| ']')
}

/// The outcome of writing one element, given what its formatter makes of it.
pub open spec fn element_outcome(text: Option<Seq<char>>) -> Outcome {
    match text {
        Some(t) => Outcome::done(t),
        None => Outcome::failed(),
    }
}

/// What follows a cell: an ellipsis always has a separator behind it, an
/// element has one unless it is the last cell of its axis.
pub open spec fn cell_separator(rank: nat, cell: PrintableCell, last: bool) -> Seq<char> {
    match cell {
        PrintableCell::ElementIndex(_) => if last {
            Seq::empty()
        } else {
            separator(rank)
        },
        PrintableCell::Ellipsis => separator(rank),
    }
}

/// What stands for a cell of the leading axis of `m`: the rendering of the
/// array found there, or the ellipsis.
pub open spec fn cell_content<A, F: ElementFormatter<A>>(
    m: ArrayModel<A>,
    f: F,
    limit: nat,
    cell: PrintableCell,
) -> Outcome
    decreases m.rank(), 0nat, 0nat,
{
    match cell {
        PrintableCell::ElementIndex(i) => if m.rank() > 0 {
            body(m.sub(i as int), f, limit)
        } else {
            Outcome::failed()
        },
        PrintableCell::Ellipsis => Outcome::done(ellipsis()),
    }
}

/// The rendering of the leading axis of `m` from the planned cell `from` on,
/// the closing bracket included.
pub open spec fn row_from<A, F: ElementFormatter<A>>(
    m: ArrayModel<A>,
    f: F,
    limit: nat,
    from: nat,
) -> Outcome
    decreases m.rank(), 1nat, planned_cells(m.shape[0], limit).len() - from,
{
    let cells = planned_cells(m.shape[0], limit);
    if from >= cells.len() {
        Outcome::done(seq![']'])
    } else {
        let cell = cells[from as int];
        let behind = cell_separator(m.rank(), cell, from + 1 == cells.len());
        cell_content(m, f, limit, cell).followed_by(
            Outcome::done(behind).followed_by(row_from(m, f, limit, from + 1)),
        )
    }
}

/// The rendering of an array none of whose axes is empty: the element's own
/// text for an array without axes; otherwise one pair of brackets round the
/// planned cells of the leading axis.
pub open spec fn body<A, F: ElementFormatter<A>>(m: ArrayModel<A>, f: F, limit: nat) -> Outcome
    decreases m.rank(), 2nat, 0nat,
{
    if m.rank() == 0 {
        element_outcome(f.text(&m.scalar()))
    } else {
        Outcome::done(seq!['[']).followed_by(row_from(m, f, limit, 0))
    }
}

/// The rendering of an array: as many opening and then closing brackets as it
/// has axes where one of them is empty, its body otherwise.
pub open spec fn rendered<A, F: ElementFormatter<A>>(m: ArrayModel<A>, f: F, limit: nat) -> Outcome {
    if m.has_empty_axis() {
        Outcome::done(brackets(m.rank()))
    } else {
        body(m, f, limit)
    }
}

/// An array found inside an array without an empty axis has none either.
pub proof fn lemma_sub_has_no_empty_axis<A>(m: ArrayModel<A>, i: int)
    requires
        m.rank() > 0,
        !m.has_empty_axis(),
    ensures
        !m.sub(i).has_empty_axis(),
{
    let inner = m.sub(i).shape;
    if inner.contains(0nat) {
        let k = choose|k: int| 0 <= k < inner.len() && inner[k] == 0nat;
        assert(m.shape[k + 1] == 0nat);
    }
}

/// Formats one element and writes its text.
fn write_element<A, F: ElementFormatter<A>, W: Sink>(elem: &A, sink: &mut W, format: &F) -> (r: Result<
    (),
    FormatError,
>)
    ensures
        delivers(old(sink)@, final(sink)@, r, element_outcome(format.text(elem))),
{
    match format.format(elem) {
        Ok(text) => sink.write_str(text.as_str()),
        Err(e) => {
            proof {
                lemma_delivers_nothing(sink@);
            }
            Err(e)
        },
    }
}

/// Writes `rank` opening brackets and then `rank` closing brackets.
fn write_brackets<W: Sink>(sink: &mut W, rank: usize) -> (r: Result<(), FormatError>)
    ensures
        delivers(old(sink)@, final(sink)@, r, Outcome::done(brackets(rank as nat))),
{
    let mut text = String::new();
    let mut k: usize = 0;
    proof {
        reveal_strlit("[");
        reveal_strlit("]");
    }
    while k < rank
        invariant
            k <= rank,
            "["@ == seq!['['],
            text@ == Seq::new(k as nat, |i: int| '['),
        decreases rank - k,
    {
        text.append("[");
        k = k + 1;
        assert(text@ =~= Seq::new(k as nat, |i: int| '['));
    }
    k = 0;
    while k < rank
        invariant
            k <= rank,
            "]"@ == seq![']'],
            text@ == Seq::new(rank as nat, |i: int| '[') + Seq::new(k as nat, |i: int| ']'),
        decreases rank - k,
    {
        text.append("]");
        k = k + 1;
        assert(text@ =~= Seq::new(rank as nat, |i: int| '[') + Seq::new(k as nat, |i: int| ']'));
    }
    sink.write_str(text.as_str())
}

/// Renders a view of one axis: an opening bracket, the planned cells with
/// `", "` between them, a closing bracket.
pub fn format_1d_array<A, F: ElementFormatter<A>, W: Sink>(
    view: &ArrayView<'_, A>,
    sink: &mut W,
    format: &F,
    limit: usize,
) -> (r: Result<(), FormatError>)
    requires
        view@.rank() == 1,
    ensures
        delivers(old(sink)@, final(sink)@, r, body(view@, *format, limit as nat)),
{
    let length = view.shape()[0];
    let cells = to_be_printed(length, limit);
    let n = cells.len();
    let ghost start = sink@;
    let ghost m = view@;
    let ghost k = limit as nat;
    proof {
        reveal_strlit("[");
        reveal_strlit("]");
        reveal_strlit(", ");
        reveal_strlit("..., ");
        assert("["@ =~= seq!['[']);
        assert("]"@ =~= seq![']']);
        assert(", "@ =~= separator(1));
        assert("..., "@ =~= ellipsis() + separator(1));
    }
    let opened = sink.write_str("[");
    if opened.is_err() {
        proof {
            lemma_delivers_stop(start, sink@, Outcome::done(seq!['[']), row_from(m, *format, k, 0));
        }
        return opened;
    }
    let ghost mut written: Seq<char> = seq!['['];
    let mut j: usize = 0;
    while j < n
        invariant
            j <= n,
            n == cells.len(),
            cells@ == planned_cells(length as nat, k),
            start == old(sink)@,
            m == view@,
            m.rank() == 1,
            m.shape[0] == length,
            k == limit,
            ", "@ == separator(1),
            "..., "@ == ellipsis() + separator(1),
            "]"@ == seq![']'],
            delivers(start, sink@, Ok(()), Outcome::done(written)),
            body(m, *format, k) == Outcome::done(written).followed_by(row_from(m, *format, k, j as nat)),
        decreases n - j,
    {
        let ghost before = sink@;
        let ghost rest = row_from(m, *format, k, (j + 1) as nat);
        let cell = cells[j];
        let ghost behind = cell_separator(1, cell, j + 1 == n);
        proof {
            lemma_planned_cells(length as nat, k);
        }
        match cell {
            PrintableCell::ElementIndex(i) => {
                let elem = view.index_axis(i).scalar();
                let ghost content = element_outcome(format.text(elem));
                assert(content == cell_content(m, *format, k, cell));
                let shown = write_element(elem, sink, format);
                proof {
                    lemma_delivers_step(
                        start,
                        before,
                        sink@,
                        shown,
                        written,
                        content,
                        Outcome::done(behind).followed_by(rest),
                    );
                }
                if shown.is_err() {
                    return shown;
                }
                proof {
                    written = written + content.text;
                }
                let ghost between = sink@;
                let parted = if j != n - 1 {
                    sink.write_str(", ")
                } else {
                    proof {
                        lemma_delivers_nothing(sink@);
                    }
                    Ok(())
                };
                proof {
                    lemma_delivers_step(start, between, sink@, parted, written, Outcome::done(behind), rest);
                }
                if parted.is_err() {
                    return parted;
                }
                proof {
                    written = written + behind;
                }
            },
            PrintableCell::Ellipsis => {
                let marked = sink.write_str("..., ");
                proof {
                    let step = Outcome::done(ellipsis() + behind);
                    assert(step.followed_by(rest) == cell_content(m, *format, k, cell).followed_by(
                        Outcome::done(behind).followed_by(rest),
                    )) by {
                        assert((ellipsis() + behind) + rest.text =~= ellipsis() + (behind + rest.text));
                    }
                    lemma_delivers_step(start, before, sink@, marked, written, step, rest);
                }
                if marked.is_err() {
                    return marked;
                }
                proof {
                    written = written + (ellipsis() + behind);
                }
            },
        }
        j = j + 1;
    }
    let ghost before = sink@;
    let closed = sink.write_str("]");
    proof {
        lemma_delivers_then(start, before, sink@, closed, Outcome::done(written), Outcome::done(seq![']']));
    }
    closed
}

/// Renders a view of any number of axes.
///
/// A view with an empty axis becomes as many opening and then closing
/// brackets as it has axes. A view without axes becomes its element's text.
/// Any other view becomes one pair of brackets round the planned cells of
/// its leading axis, each of them rendered in the same way; between
/// elements stands `", "`, between arrays `",\n "`.
pub fn format_array<A, F: ElementFormatter<A>, W: Sink>(
    view: &ArrayView<'_, A>,
    sink: &mut W,
    format: &F,
    limit: usize,
) -> (r: Result<(), FormatError>)
    ensures
        delivers(old(sink)@, final(sink)@, r, rendered(view@, *format, limit as nat)),
    decreases view@.rank(),
{
    let ndim = view.ndim();
    if view.has_empty_axis() {
        return write_brackets(sink, ndim);
    }
    if ndim == 0 {
        return write_element(view.scalar(), sink, format);
    }
    if ndim == 1 {
        return format_1d_array(view, sink, format, limit);
    }
    let length = view.shape()[0];
    let cells = to_be_printed(length, limit);
    let n = cells.len();
    let ghost start = sink@;
    let ghost m = view@;
    let ghost k = limit as nat;
    proof {
        reveal_strlit("[");
        reveal_strlit("]");
        reveal_strlit(",\n ");
        reveal_strlit("...,\n ");
        assert("["@ =~= seq!['[']);
        assert("]"@ =~= seq![']']);
        assert(",\n "@ =~= separator(2));
        assert("...,\n "@ =~= ellipsis() + separator(2));
    }
    let opened = sink.write_str("[");
    if opened.is_err() {
        proof {
            lemma_delivers_stop(start, sink@, Outcome::done(seq!['[']), row_from(m, *format, k, 0));
        }
        return opened;
    }
    let ghost mut written: Seq<char> = seq!['['];
    let mut j: usize = 0;
    while j < n
        invariant
            j <= n,
            n == cells.len(),
            cells@ == planned_cells(length as nat, k),
            start == old(sink)@,
            m == view@,
            m.rank() >= 2,
            !m.has_empty_axis(),
            m.shape[0] == length,
            k == limit,
            ",\n "@ == separator(2),
            "...,\n "@ == ellipsis() + separator(2),
            "]"@ == seq![']'],
            delivers(start, sink@, Ok(()), Outcome::done(written)),
            body(m, *format, k) == Outcome::done(written).followed_by(row_from(m, *format, k, j as nat)),
        decreases n - j,
    {
        let ghost before = sink@;
        let ghost rest = row_from(m, *format, k, (j + 1) as nat);
        let cell = cells[j];
        let ghost behind = cell_separator(m.rank(), cell, j + 1 == n);
        proof {
            lemma_planned_cells(length as nat, k);
        }
        match cell {
            PrintableCell::ElementIndex(i) => {
                let sub = view.index_axis(i);
                let ghost content = body(sub@, *format, k);
                proof {
                    lemma_sub_has_no_empty_axis(m, i as int);
                    assert(content == cell_content(m, *format, k, cell));
                    assert(content == rendered(sub@, *format, k));
                }
                let shown = format_array(&sub, sink, format, limit);
                proof {
                    lemma_delivers_step(
                        start,
                        before,
                        sink@,
                        shown,
                        written,
                        content,
                        Outcome::done(behind).followed_by(rest),
                    );
                }
                if shown.is_err() {
                    return shown;
                }
                proof {
                    written = written + content.text;
                }
                let ghost between = sink@;
                let parted = if j != n - 1 {
                    sink.write_str(",\n ")
                } else {
                    proof {
                        lemma_delivers_nothing(sink@);
                    }
                    Ok(())
                };
                proof {
                    lemma_delivers_step(start, between, sink@, parted, written, Outcome::done(behind), rest);
                }
                if parted.is_err() {
                    return parted;
                }
                proof {
                    written = written + behind;
                }
            },
            PrintableCell::Ellipsis => {
                let marked = sink.write_str("...,\n ");
                proof {
                    let step = Outcome::done(ellipsis() + behind);
                    assert(step.followed_by(rest) == cell_content(m, *format, k, cell).followed_by(
                        Outcome::done(behind).followed_by(rest),
                    )) by {
                        assert((ellipsis() + behind) + rest.text =~= ellipsis() + (behind + rest.text));
                    }
                    lemma_delivers_step(start, before, sink@, marked, written, step, rest);
                }
                if marked.is_err() {
                    return marked;
                }
                proof {
                    written = written + (ellipsis() + behind);
                }
            },
        }
        j = j + 1;
    }
    let ghost before = sink@;
    let closed = sink.write_str("]");
    proof {
        lemma_delivers_then(start, before, sink@, closed, Outcome::done(written), Outcome::done(seq![']']));
    }
    closed
}

} // verus!
