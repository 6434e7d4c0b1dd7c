//! The truncation planner: which positions of an axis are shown, and where
//! the run of omitted positions is marked.

use vstd::prelude::*;

verus! {

/// Number of positions shown at each end of an axis that is too long to be
/// shown whole.
pub const PRINT_ELEMENTS_LIMIT: usize = 3;

/// One planned step along an axis.
#[derive(Clone, Copy, Debug, PartialEq, Eq, Structural)]
pub enum PrintableCell {
    /// Show the position with this index.
    ElementIndex(usize),
    /// Mark a run of omitted positions.
    Ellipsis,
}

/// The plan for an axis of `length` positions with `limit` positions kept at
/// each end: every position when `length <= 2 * limit`, otherwise the first
/// `limit` positions, one ellipsis, and the last `limit` positions.
pub open spec fn planned_cells(length: nat, limit: nat) -> Seq<PrintableCell> {
    if length <= 2 * limit {
        Seq::new(length, |i: int| PrintableCell::ElementIndex(i as usize))
    } else {
        Seq::new(
            2 * limit + 1,
            |i: int|
                if i < limit {
                    PrintableCell::ElementIndex(i as usize)
                } else if i == limit {
                    PrintableCell::Ellipsis
                } else {
                    PrintableCell::ElementIndex((length - 2 * limit - 1 + i) as usize)
                },
        )
    }
}

/// What a plan holds, position by position: an axis that is short enough is
/// shown whole, in ascending order and without an ellipsis; a longer one
/// shows its first `limit` positions, one ellipsis, and its last `limit`
/// positions. No plan names a position beyond the axis.
pub proof fn lemma_planned_cells(length: nat, limit: nat)
    requires
        length <= usize::MAX,
    ensures
        length <= 2 * limit ==> {
            &&& planned_cells(length, limit).len() == length
            &&& forall|j: int|
                0 <= j < length ==> #[trigger] planned_cells(length, limit)[j]
                    == PrintableCell::ElementIndex(j as usize)
        },
        length > 2 * limit ==> {
            &&& planned_cells(length, limit).len() == 2 * limit + 1
            &&& forall|j: int|
                0 <= j < limit ==> #[trigger] planned_cells(length, limit)[j]
                    == PrintableCell::ElementIndex(j as usize)
            &&& planned_cells(length, limit)[limit as int] == PrintableCell::Ellipsis
            &&& forall|j: int|
                0 <= j < limit ==> #[trigger] planned_cells(length, limit)[limit + 1 + j]
                    == PrintableCell::ElementIndex((length - limit + j) as usize)
        },
        forall|j: int|
            0 <= j < planned_cells(length, limit).len() ==> (#[trigger] planned_cells(
                length,
                limit,
            )[j] is Ellipsis <==> length > 2 * limit && j == limit),
        forall|j: int|
            0 <= j < planned_cells(length, limit).len() ==> (#[trigger] planned_cells(
                length,
                limit,
            )[j] matches PrintableCell::ElementIndex(i) ==> i < length),
{
}

/// Plans an axis: returns what `planned_cells` describes.
pub fn to_be_printed(length: usize, limit: usize) -> (cells: Vec<PrintableCell>)
    ensures
        cells@ == planned_cells(length as nat, limit as nat),
{
    let mut cells: Vec<PrintableCell> = Vec::new();
    if length - length / 2 <= limit {
        let mut i: usize = 0;
        while i < length
            invariant
                i <= length,
                length <= 2 * limit,
                cells@ == Seq::new(i as nat, |k: int| PrintableCell::ElementIndex(k as usize)),
            decreases length - i,
        {
            cells.push(PrintableCell::ElementIndex(i));
            i = i + 1;
        }
    } else {
        let mut i: usize = 0;
        while i < limit
            invariant
                i <= limit,
                2 * limit < length,
                cells@ == Seq::new(i as nat, |k: int| PrintableCell::ElementIndex(k as usize)),
            decreases limit - i,
        {
            cells.push(PrintableCell::ElementIndex(i));
            i = i + 1;
        }
        cells.push(PrintableCell::Ellipsis);
        let mut j: usize = length - limit;
        while j < length
            invariant
                length - limit <= j <= length,
                2 * limit < length,
                cells@ == planned_cells(length as nat, limit as nat).take(j - length + 2 * limit + 1),
            decreases length - j,
        {
            cells.push(PrintableCell::ElementIndex(j));
            j = j + 1;
        }
    }
    cells
}

} // verus!
