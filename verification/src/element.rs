//! Element formatters: how one element becomes text.

use vstd::prelude::*;
use crate::sink::FormatError;

verus! {

/// A reusable strategy that turns one element into text, or fails on it.
/// Formatting reads nothing but the element and changes nothing, so that one
/// formatter serves every element of an array, in any order.
pub trait ElementFormatter<A> {
    /// The text of `elem`, or `None` where the formatter fails on it.
    spec fn text(&self, elem: &A) -> Option<Seq<char>>;

    /// Formats `elem`.
    fn format(&self, elem: &A) -> (r: Result<String, FormatError>)
        ensures
            match self.text(elem) {
                Some(t) => r is Ok && r->Ok_0@ == t,
                None => r is Err,
            },
    ;
}

/// The text that a formatting function gives to `elem`: that of a result it
/// may return on it.
pub open spec fn fn_text<A, F: Fn(&A) -> Result<String, FormatError>>(f: F, elem: &A) -> Option<
    Seq<char>,
> {
    match choose|r: Result<String, FormatError>| call_ensures(f, (elem,), r) {
        Ok(s) => Some(s@),
        Err(_) => None,
    }
}

/// True when `f` may be called on every element, and the element decides
/// whether it succeeds and with which text.
pub open spec fn fn_is_functional<A, F: Fn(&A) -> Result<String, FormatError>>(f: F) -> bool {
    &&& forall|e: &A| call_requires(f, (e,))
    &&& forall|e: &A, r: Result<String, FormatError>| #[trigger]
        call_ensures(f, (e,), r) ==> (match r {
            Ok(s) => fn_text(f, e) == Some(s@),
            Err(_) => fn_text(f, e) is None,
        })
}

/// An element formatter made of a formatting function.
pub struct FnFormatter<A, F: Fn(&A) -> Result<String, FormatError>> {
    f: F,
    _elem: core::marker::PhantomData<A>,
}

impl<A, F: Fn(&A) -> Result<String, FormatError>> FnFormatter<A, F> {
    #[verifier::type_invariant]
    spec fn functional(self) -> bool {
        fn_is_functional::<A, F>(self.f)
    }

    /// The function that does the formatting.
    pub closed spec fn function(self) -> F {
        self.f
    }

    /// Makes a formatter of `f`.
    pub fn new(f: F) -> (formatter: Self)
        requires
            fn_is_functional::<A, F>(f),
        ensures
            formatter.function() == f,
    {
        FnFormatter { f, _elem: core::marker::PhantomData }
    }
}

impl<A, F: Fn(&A) -> Result<String, FormatError>> ElementFormatter<A> for FnFormatter<A, F> {
    open spec fn text(&self, elem: &A) -> Option<Seq<char>> {
        fn_text::<A, F>(self.function(), elem)
    }

    fn format(&self, elem: &A) -> (r: Result<String, FormatError>) {
        proof {
            use_type_invariant(self);
        }
        (self.f)(elem)
    }
}

} // verus!
