//! Read-only strided views of n-dimensional arrays.

use vstd::prelude::*;
use vstd::slice::slice_subrange;

verus! {

/// An n-dimensional array as mathematics sees it: the length of each axis,
/// outermost first, and the element at each multi-index.
#[verifier::ext_equal]
pub struct ArrayModel<A> {
    /// The length of each axis, outermost first.
    pub shape: Seq<nat>,
    /// The element at each index within the shape; what it gives elsewhere
    /// has no meaning.
    pub at: spec_fn(Seq<int>) -> A,
}

impl<A> ArrayModel<A> {
    /// The number of axes.
    pub open spec fn rank(self) -> nat {
        self.shape.len()
    }

    /// True when some axis has length zero, so that the array has no element.
    pub open spec fn has_empty_axis(self) -> bool {
        self.shape.contains(0nat)
    }

    /// True when `index` names an element of the array.
    pub open spec fn in_bounds(self, index: Seq<int>) -> bool {
        &&& index.len() == self.shape.len()
        &&& forall|k: int| 0 <= k < index.len() ==> 0 <= #[trigger] index[k] < self.shape[k]
    }

    /// The only element of an array without axes.
    pub open spec fn scalar(self) -> A {
        (self.at)(Seq::empty())
    }

    /// The array of one axis less that is found at position `i` of the
    /// leading axis.
    pub open spec fn sub(self, i: int) -> ArrayModel<A> {
        ArrayModel { shape: self.shape.skip(1), at: |index: Seq<int>| (self.at)(seq![i] + index) }
    }
}

/// Distance in elements, from the element at the all-zero index, of the
/// element at `index` under `strides`.
pub open spec fn linear_offset(index: Seq<int>, strides: Seq<isize>) -> int
    decreases strides.len(),
{
    if strides.len() == 0 {
        0
    } else {
        index[0] * strides[0] + linear_offset(index.skip(1), strides.skip(1))
    }
}

/// Distance covered along one axis of `n` positions and stride `s`, from its
/// first position to its last.
pub open spec fn extent(n: usize, s: isize) -> int {
    if n == 0 {
        0
    } else {
        (n - 1) * s
    }
}

/// The farthest that an index can lead below the all-zero index.
pub open spec fn reach_low(shape: Seq<usize>, strides: Seq<isize>) -> int
    decreases shape.len(),
{
    if shape.len() == 0 || strides.len() == 0 {
        0
    } else {
        let e = extent(shape[0], strides[0]);
        (if e < 0 { e } else { 0 }) + reach_low(shape.skip(1), strides.skip(1))
    }
}

/// The farthest that an index can lead above the all-zero index.
pub open spec fn reach_high(shape: Seq<usize>, strides: Seq<isize>) -> int
    decreases shape.len(),
{
    if shape.len() == 0 || strides.len() == 0 {
        0
    } else {
        let e = extent(shape[0], strides[0]);
        (if e > 0 { e } else { 0 }) + reach_high(shape.skip(1), strides.skip(1))
    }
}

/// True when a storage of `len` elements holds every element that `shape`
/// and `strides` reach from `offset`. A view with an empty axis reaches no
/// element; its positions must still not leave the storage.
pub open spec fn layout_fits(len: nat, offset: int, shape: Seq<usize>, strides: Seq<isize>) -> bool {
    &&& shape.len() == strides.len()
    &&& 0 <= offset + reach_low(shape, strides)
    &&& if shape.contains(0usize) {
        offset + reach_high(shape, strides) <= len
    } else {
        offset + reach_high(shape, strides) < len
    }
}

/// The axis lengths as natural numbers.
pub open spec fn shape_model(shape: Seq<usize>) -> Seq<nat> {
    shape.map_values(|n: usize| n as nat)
}

/// The array that `shape` and `strides` lay over `data` from `offset`.
pub open spec fn strided_model<A>(
    data: Seq<A>,
    offset: int,
    shape: Seq<usize>,
    strides: Seq<isize>,
) -> ArrayModel<A> {
    ArrayModel {
        shape: shape_model(shape),
        at: |index: Seq<int>| data[offset + linear_offset(index, strides)],
    }
}

/// A borrowed, read-only view of an n-dimensional array: a storage, the
/// position of the first element in it, and a length and a stride per axis.
pub struct ArrayView<'a, A> {
    data: &'a [A],
    offset: usize,
    shape: &'a [usize],
    strides: &'a [isize],
}

impl<'a, A> View for ArrayView<'a, A> {
    type V = ArrayModel<A>;

    closed spec fn view(&self) -> ArrayModel<A> {
        strided_model(self.data@, self.offset as int, self.shape@, self.strides@)
    }
}

/// The reach of a layout lies on both sides of zero.
pub proof fn lemma_reach_signs(shape: Seq<usize>, strides: Seq<isize>)
    ensures
        reach_low(shape, strides) <= 0 <= reach_high(shape, strides),
    decreases shape.len(),
{
    if shape.len() != 0 && strides.len() != 0 {
        lemma_reach_signs(shape.skip(1), strides.skip(1));
    }
}

/// A position `i` of an axis of `n` positions lies within the axis's extent.
proof fn lemma_step_within_extent(i: int, n: usize, s: isize)
    requires
        0 <= i < n,
    ensures
        (if extent(n, s) < 0 { extent(n, s) } else { 0 }) <= i * s,
        i * s <= (if extent(n, s) > 0 { extent(n, s) } else { 0 }),
{
    let m = n - 1;
    assert(s >= 0 ==> 0 <= i * s <= m * s) by (nonlinear_arith)
        requires
            0 <= i <= m,
    ;
    assert(s < 0 ==> m * s <= i * s <= 0) by (nonlinear_arith)
        requires
            0 <= i <= m,
    ;
}

/// The extent of an axis fits in 128 bits with room to spare.
proof fn lemma_extent_bounded(n: usize, s: isize)
    ensures
        -0x8000_0000_0000_0000_0000_0000_0000_0000 < extent(n, s)
            < 0x8000_0000_0000_0000_0000_0000_0000_0000,
        n > 0 ==> extent(n, s) == (n - 1) * s,
{
    if n > 0 {
        let m: int = n - 1;
        let t: int = s as int;
        assert(-0x8000_0000_0000_0000_0000_0000_0000_0000 < m * t
            < 0x8000_0000_0000_0000_0000_0000_0000_0000) by (nonlinear_arith)
            requires
                0 <= m < 0x1_0000_0000_0000_0000,
                -0x8000_0000_0000_0000 <= t < 0x8000_0000_0000_0000,
        ;
    }
}

/// The positions that `index` holds, as integers.
pub open spec fn positions(index: Seq<usize>) -> Seq<int> {
    index.map_values(|i: usize| i as int)
}

/// True when `index` has a position within each axis of `shape`.
pub open spec fn index_within(index: Seq<int>, shape: Seq<usize>) -> bool {
    &&& index.len() == shape.len()
    &&& forall|k: int| 0 <= k < index.len() ==> 0 <= #[trigger] index[k] < shape[k]
}

/// An index within the shape leads no farther than the layout reaches.
pub proof fn lemma_offset_within_reach(index: Seq<int>, shape: Seq<usize>, strides: Seq<isize>)
    requires
        index_within(index, shape),
        shape.len() == strides.len(),
    ensures
        reach_low(shape, strides) <= linear_offset(index, strides) <= reach_high(shape, strides),
    decreases shape.len(),
{
    if shape.len() > 0 {
        lemma_step_within_extent(index[0], shape[0], strides[0]);
        assert forall|k: int| 0 <= k < index.skip(1).len() implies 0 <= #[trigger] index.skip(1)[k]
            < shape.skip(1)[k] by {
            assert(index.skip(1)[k] == index[k + 1]);
        }
        lemma_offset_within_reach(index.skip(1), shape.skip(1), strides.skip(1));
    }
}

/// The index within `shape` that leads lowest where `high` is not set, and
/// highest where it is.
pub open spec fn extreme_index(shape: Seq<usize>, strides: Seq<isize>, high: bool) -> Seq<int> {
    Seq::new(
        shape.len(),
        |k: int|
            if (strides[k] > 0) == high {
                shape[k] - 1
            } else {
                0
            },
    )
}

/// Where no axis is empty, the reach of a layout is attained: some index
/// within the shape leads to its lowest point, and some to its highest.
pub proof fn lemma_reach_attained(shape: Seq<usize>, strides: Seq<isize>, high: bool)
    requires
        shape.len() == strides.len(),
        !shape.contains(0usize),
    ensures
        index_within(extreme_index(shape, strides, high), shape),
        linear_offset(extreme_index(shape, strides, high), strides) == if high {
            reach_high(shape, strides)
        } else {
            reach_low(shape, strides)
        },
    decreases shape.len(),
{
    let index = extreme_index(shape, strides, high);
    assert forall|k: int| 0 <= k < index.len() implies 0 <= #[trigger] index[k] < shape[k] by {
        assert(shape.contains(shape[k]));
    }
    if shape.len() > 0 {
        let rest = shape.skip(1);
        if rest.contains(0usize) {
            let j = choose|j: int| 0 <= j < rest.len() && rest[j] == 0usize;
            assert(shape[j + 1] == 0usize);
            assert(shape.contains(0usize));
        }
        lemma_reach_attained(rest, strides.skip(1), high);
        assert(index.skip(1) =~= extreme_index(rest, strides.skip(1), high));
        assert(shape.contains(shape[0]));
        let n = shape[0];
        let s = strides[0];
        assert(s == 0 ==> (n - 1) * s == 0) by (nonlinear_arith);
        assert(s > 0 ==> (n - 1) * s >= 0) by (nonlinear_arith)
            requires
                n >= 1,
        ;
        assert(s < 0 ==> (n - 1) * s <= 0) by (nonlinear_arith)
            requires
                n >= 1,
        ;
        assert(0 * s == 0);
    }
}

/// What a fitting layout means for a view without an empty axis: the strides
/// lead every index within the shape to a place in the storage, and no
/// layout that does not fit does so.
pub proof fn lemma_layout_fits_storage(len: nat, offset: int, shape: Seq<usize>, strides: Seq<isize>)
    requires
        shape.len() == strides.len(),
        !shape.contains(0usize),
    ensures
        layout_fits(len, offset, shape, strides) <==> (forall|index: Seq<int>|
            index_within(index, shape) ==> 0 <= offset + #[trigger] linear_offset(index, strides) < len),
{
    if layout_fits(len, offset, shape, strides) {
        assert forall|index: Seq<int>| index_within(index, shape) implies 0 <= offset
            + #[trigger] linear_offset(index, strides) < len by {
            lemma_offset_within_reach(index, shape, strides);
        }
    }
    if forall|index: Seq<int>|
        index_within(index, shape) ==> 0 <= offset + #[trigger] linear_offset(index, strides) < len {
        lemma_reach_attained(shape, strides, false);
        lemma_reach_attained(shape, strides, true);
        let lowest = extreme_index(shape, strides, false);
        let highest = extreme_index(shape, strides, true);
        assert(0 <= offset + linear_offset(lowest, strides) < len);
        assert(0 <= offset + linear_offset(highest, strides) < len);
    }
}

impl<'a, A> ArrayView<'a, A> {
    #[verifier::type_invariant]
    spec fn fits(self) -> bool {
        layout_fits(self.data@.len(), self.offset as int, self.shape@, self.strides@)
    }

    /// The length of each axis, outermost first.
    pub closed spec fn shape_of(self) -> Seq<usize> {
        self.shape@
    }

    /// The stride of each axis, in elements.
    pub closed spec fn strides_of(self) -> Seq<isize> {
        self.strides@
    }

    /// The view of `data` that starts at `offset` and has the given `shape`
    /// and `strides`, where the storage holds all that they reach.
    pub fn new(data: &'a [A], offset: usize, shape: &'a [usize], strides: &'a [isize]) -> (v: Option<Self>)
        ensures
            v is Some <==> layout_fits(data@.len(), offset as int, shape@, strides@),
            v matches Some(view) ==> {
                &&& view@ == strided_model(data@, offset as int, shape@, strides@)
                &&& view.shape_of() == shape@
                &&& view.strides_of() == strides@
            },
    {
        if shape.len() != strides.len() {
            return None;
        }
        let bound: i128 = 0x1_0000_0000_0000_0000;
        let mut low: i128 = 0;
        let mut high: i128 = 0;
        let mut empty = false;
        let mut k: usize = shape.len();
        assert(shape@.skip(k as int) =~= Seq::<usize>::empty());
        while k > 0
            invariant
                k <= shape.len(),
                shape.len() == strides.len(),
                bound == 0x1_0000_0000_0000_0000,
                ({
                    let l = reach_low(shape@.skip(k as int), strides@.skip(k as int));
                    low == if l < -bound { -bound as int } else { l }
                }),
                ({
                    let h = reach_high(shape@.skip(k as int), strides@.skip(k as int));
                    high == if h > bound { bound as int } else { h }
                }),
                empty == shape@.skip(k as int).contains(0usize),
                -bound <= low <= 0 <= high <= bound,
            decreases k,
        {
            k = k - 1;
            let n = shape[k];
            let s = strides[k];
            proof {
                lemma_extent_bounded(n, s);
                lemma_reach_signs(shape@.skip(k + 1), strides@.skip(k + 1));
                assert(shape@.skip(k as int).skip(1) =~= shape@.skip(k + 1));
                assert(strides@.skip(k as int).skip(1) =~= strides@.skip(k + 1));
                assert(shape@.skip(k as int)[0] == n);
                assert(strides@.skip(k as int)[0] == s);
            }
            let e: i128 = if n == 0 {
                0
            } else {
                ((n - 1) as i128) * (s as i128)
            };
            let down: i128 = if e < -bound {
                -bound
            } else if e < 0 {
                e
            } else {
                0
            };
            let up: i128 = if e > bound {
                bound
            } else if e > 0 {
                e
            } else {
                0
            };
            low = if low + down < -bound {
                -bound
            } else {
                low + down
            };
            high = if high + up > bound {
                bound
            } else {
                high + up
            };
            proof {
                let rest = shape@.skip(k + 1);
                let here = shape@.skip(k as int);
                if n == 0 {
                    assert(here[0] == 0usize);
                } else if rest.contains(0usize) {
                    let j = choose|j: int| 0 <= j < rest.len() && rest[j] == 0usize;
                    assert(here[j + 1] == 0usize);
                } else if here.contains(0usize) {
                    let j = choose|j: int| 0 <= j < here.len() && here[j] == 0usize;
                    assert(rest[j - 1] == 0usize);
                }
            }
            empty = empty || n == 0;
        }
        assert(shape@.skip(0) =~= shape@);
        assert(strides@.skip(0) =~= strides@);
        let start = offset as i128;
        let len = data.len() as i128;
        if start + low < 0 {
            return None;
        }
        if empty {
            if start + high > len {
                return None;
            }
        } else if start + high >= len {
            return None;
        }
        Some(ArrayView { data, offset, shape, strides })
    }

    /// The number of axes.
    pub fn ndim(&self) -> (n: usize)
        ensures
            n == self@.rank(),
    {
        self.shape.len()
    }

    /// The length of each axis, outermost first.
    pub fn shape(&self) -> (shape: &'a [usize])
        ensures
            shape@ == self.shape_of(),
            shape_model(shape@) == self@.shape,
    {
        self.shape
    }

    /// The stride of each axis, in elements.
    pub fn strides(&self) -> (strides: &'a [isize])
        ensures
            strides@ == self.strides_of(),
    {
        self.strides
    }

    /// Tells whether some axis has length zero.
    pub fn has_empty_axis(&self) -> (b: bool)
        ensures
            b == self@.has_empty_axis(),
    {
        let mut k: usize = 0;
        while k < self.shape.len()
            invariant
                k <= self.shape.len(),
                forall|j: int| 0 <= j < k ==> self.shape@[j] != 0,
            decreases self.shape.len() - k,
        {
            if self.shape[k] == 0 {
                assert(shape_model(self.shape@)[k as int] == 0nat);
                return true;
            }
            k = k + 1;
        }
        proof {
            let m = shape_model(self.shape@);
            if m.contains(0nat) {
                let j = choose|j: int| 0 <= j < m.len() && m[j] == 0nat;
                assert(self.shape@[j] != 0);
            }
        }
        false
    }

    /// The only element of a view without axes.
    pub fn scalar(&self) -> (elem: &'a A)
        requires
            self@.rank() == 0,
        ensures
            *elem == self@.scalar(),
    {
        proof {
            use_type_invariant(self);
            assert(!self.shape@.contains(0usize));
        }
        &self.data[self.offset]
    }

    /// The element at `index`, which holds one position per axis, outermost
    /// first; `None` where `index` names no element of the view.
    pub fn get(&self, index: &[usize]) -> (elem: Option<&'a A>)
        ensures
            elem is Some <==> self@.in_bounds(positions(index@)),
            elem matches Some(e) ==> *e == (self@.at)(positions(index@)),
    {
        proof {
            use_type_invariant(self);
        }
        if index.len() != self.shape.len() {
            return None;
        }
        let ghost whole = positions(index@);
        let mut inner = ArrayView {
            data: self.data,
            offset: self.offset,
            shape: self.shape,
            strides: self.strides,
        };
        let mut k: usize = 0;
        proof {
            assert(self.shape@.skip(0) =~= self.shape@);
            assert forall|rest: Seq<int>| #[trigger] (inner@.at)(rest) == (self@.at)(whole.take(0) + rest) by {
                assert(whole.take(0) + rest =~= rest);
            }
        }
        while k < index.len()
            invariant
                k <= index.len(),
                index.len() == self.shape@.len(),
                whole == positions(index@),
                inner.shape@ == self.shape@.skip(k as int),
                forall|j: int| 0 <= j < k ==> index@[j] < self.shape@[j],
                forall|rest: Seq<int>| #[trigger] (inner@.at)(rest) == (self@.at)(whole.take(k as int) + rest),
            decreases index.len() - k,
        {
            let i = index[k];
            if i >= inner.shape[0] {
                assert(!(whole[k as int] < self@.shape[k as int]));
                return None;
            }
            let next = inner.index_axis(i);
            proof {
                assert(next.shape@ =~= self.shape@.skip(k + 1));
                assert forall|rest: Seq<int>| #[trigger] (next@.at)(rest) == (self@.at)(
                    whole.take(k + 1) + rest,
                ) by {
                    assert(whole.take(k as int) + (seq![i as int] + rest) =~= whole.take(k + 1) + rest);
                }
            }
            inner = next;
            k = k + 1;
        }
        proof {
            assert(whole.take(k as int) + Seq::<int>::empty() =~= whole);
            assert forall|j: int| 0 <= j < whole.len() implies 0 <= #[trigger] whole[j] < self@.shape[j] by {
                assert(index@[j] < self.shape@[j]);
            }
        }
        Some(inner.scalar())
    }

    /// The view of one axis less that is found at position `i` of the
    /// leading axis.
    pub fn index_axis(&self, i: usize) -> (sub: ArrayView<'a, A>)
        requires
            self@.rank() > 0,
            i < self@.shape[0],
        ensures
            sub@ == self@.sub(i as int),
            sub.shape_of() == self.shape_of().skip(1),
            sub.strides_of() == self.strides_of().skip(1),
    {
        proof {
            use_type_invariant(self);
        }
        let n = self.shape[0];
        let s = self.strides[0];
        let rest_shape = slice_subrange(self.shape, 1, self.shape.len());
        let rest_strides = slice_subrange(self.strides, 1, self.strides.len());
        proof {
            use_type_invariant(self);
            lemma_extent_bounded(n, s);
            lemma_step_within_extent(i as int, n, s);
            lemma_reach_signs(rest_shape@, rest_strides@);
            assert(rest_shape@ =~= self.shape@.skip(1));
            assert(rest_strides@ =~= self.strides@.skip(1));
            if !rest_shape@.contains(0usize) && self.shape@.contains(0usize) {
                let j = choose|j: int| 0 <= j < self.shape@.len() && self.shape@[j] == 0usize;
                assert(rest_shape@[j - 1] == 0usize);
            }
            if rest_shape@.contains(0usize) {
                let j = choose|j: int| 0 <= j < rest_shape@.len() && rest_shape@[j] == 0usize;
                assert(self.shape@[j + 1] == 0usize);
            }
        }
        proof {
            let e = extent(n, s);
            assert(reach_low(self.shape@, self.strides@) == (if e < 0 { e } else { 0 }) + reach_low(
                rest_shape@,
                rest_strides@,
            ));
            assert(reach_high(self.shape@, self.strides@) == (if e > 0 { e } else { 0 })
                + reach_high(rest_shape@, rest_strides@));
            assert(0 <= self.offset + i * s <= self.data@.len());
        }
        let len = self.data.len();
        let start: i128 = (self.offset as i128) + (i as i128) * (s as i128);
        assert(0 <= start <= len);
        let sub = ArrayView { data: self.data, offset: start as usize, shape: rest_shape, strides: rest_strides };
        proof {
            assert(shape_model(rest_shape@) =~= shape_model(self.shape@).skip(1));
            assert forall|index: Seq<int>| #[trigger] (sub@.at)(index) == (self@.sub(i as int).at)(index) by {
                let whole = seq![i as int] + index;
                assert(whole.skip(1) =~= index);
                assert(whole[0] == i);
                assert(linear_offset(whole, self.strides@) == i * s + linear_offset(index, rest_strides@));
            }
            assert(sub@ =~= self@.sub(i as int));
        }
        sub
    }
}

} // verus!
