//! Integers as text: digits in a radix, signed decimals, and decimals in
//! scientific notation.

use vstd::prelude::*;
use vstd::string::*;

verus! {

/// The sixteen digits, in order.
pub open spec fn digit_chars() -> Seq<char> {
    seq!['0', '1', '2', '3', '4', '5', '6', '7', '8', '9', 'a', 'b', 'c', 'd', 'e', 'f']
}

/// The character of the digit `d`, for digits below sixteen.
pub open spec fn digit_char(d: nat) -> char {
    digit_chars()[d as int]
}

/// The digits of `n` in `radix`, most significant first, without leading
/// zeros; zero is the one digit `0`.
pub open spec fn radix_text(n: nat, radix: nat) -> Seq<char>
    decreases n,
    via radix_text_ends
{
    if radix < 2 || n < radix {
        seq![digit_char(n)]
    } else {
        radix_text(n / radix, radix).push(digit_char(n % radix))
    }
}

#[via_fn]
proof fn radix_text_ends(n: nat, radix: nat) {
    if !(radix < 2 || n < radix) {
        lemma_quotient_smaller(n, radix);
    }
}

/// Division by two or more makes a positive number smaller, and leaves a
/// remainder below the divisor.
proof fn lemma_quotient_smaller(n: nat, radix: nat)
    requires
        radix >= 2,
    ensures
        n > 0 ==> n / radix < n,
        n % radix < radix,
        n == radix * (n / radix) + n % radix,
        n < radix ==> n / radix == 0 && n % radix == n,
        n >= radix ==> n / radix > 0,
{
    assert(n > 0 ==> (n as int) / (radix as int) < n) by (nonlinear_arith)
        requires
            radix >= 2,
    ;
    assert((n as int) % (radix as int) < radix) by (nonlinear_arith)
        requires
            radix >= 2,
    ;
    assert(n == (radix as int) * ((n as int) / (radix as int)) + (n as int) % (radix as int))
        by (nonlinear_arith)
        requires
            radix >= 2,
    ;
    assert(n < radix ==> (n as int) / (radix as int) == 0) by (nonlinear_arith)
        requires
            radix >= 2,
    ;
    assert(n >= radix ==> (n as int) / (radix as int) > 0) by (nonlinear_arith)
        requires
            radix >= 2,
    ;
}

/// The decimal digits of `v`, behind a minus sign where it is negative.
pub open spec fn decimal_text(v: int) -> Seq<char> {
    if v < 0 {
        seq!['-'] + radix_text((-v) as nat, 10)
    } else {
        radix_text(v as nat, 10)
    }
}

/// The digit `d` as a string of one character.
fn digit_str(d: u64) -> (s: &'static str)
    requires
        d < 16,
    ensures
        s@ == seq![digit_char(d as nat)],
{
    proof {
        reveal_strlit("0");
        reveal_strlit("1");
        reveal_strlit("2");
        reveal_strlit("3");
        reveal_strlit("4");
        reveal_strlit("5");
        reveal_strlit("6");
        reveal_strlit("7");
        reveal_strlit("8");
        reveal_strlit("9");
        reveal_strlit("a");
        reveal_strlit("b");
        reveal_strlit("c");
        reveal_strlit("d");
        reveal_strlit("e");
        reveal_strlit("f");
    }
    let s = match d {
        0 => "0",
        1 => "1",
        2 => "2",
        3 => "3",
        4 => "4",
        5 => "5",
        6 => "6",
        7 => "7",
        8 => "8",
        9 => "9",
        10 => "a",
        11 => "b",
        12 => "c",
        13 => "d",
        14 => "e",
        _ => "f",
    };
    assert(s@ =~= seq![digit_char(d as nat)]);
    s
}

/// Writes `n` in `radix`.
pub(crate) fn radix_string(n: u64, radix: u64) -> (s: String)
    requires
        2 <= radix <= 16,
    ensures
        s@ == radix_text(n as nat, radix as nat),
{
    proof {
        lemma_quotient_smaller(n as nat, radix as nat);
    }
    let mut text = String::from_str(digit_str(n % radix));
    let mut rest = n / radix;
    while rest > 0
        invariant
            2 <= radix <= 16,
            rest == 0 ==> text@ == radix_text(n as nat, radix as nat),
            rest > 0 ==> radix_text(n as nat, radix as nat) == radix_text(rest as nat, radix as nat)
                + text@,
        decreases rest,
    {
        let ghost before = text@;
        proof {
            lemma_quotient_smaller(rest as nat, radix as nat);
        }
        text = String::from_str(digit_str(rest % radix)).concat(text.as_str());
        proof {
            let head = radix_text((rest / radix) as nat, radix as nat);
            let d = seq![digit_char((rest % radix) as nat)];
            if rest >= radix {
                assert(head.push(digit_char((rest % radix) as nat)) + before =~= head + (d + before));
            }
        }
        rest = rest / radix;
    }
    text
}

/// Writes the integer of the given sign and magnitude in decimal.
pub(crate) fn decimal_string(negative: bool, magnitude: u64) -> (s: String)
    requires
        negative ==> magnitude > 0,
    ensures
        s@ == decimal_text(if negative { -(magnitude as int) } else { magnitude as int }),
{
    let digits = radix_string(magnitude, 10);
    if negative {
        proof {
            reveal_strlit("-");
            assert("-"@ =~= seq!['-']);
        }
        String::from_str("-").concat(digits.as_str())
    } else {
        digits
    }
}

/// `n` without the zeros at the end of its decimal digits; zero stays zero.
pub open spec fn without_trailing_zeros(n: nat) -> nat
    decreases n,
{
    if n >= 10 && n % 10 == 0 {
        without_trailing_zeros(n / 10)
    } else {
        n
    }
}

/// The decimal digits `digits` as a mantissa: a point behind the first digit
/// where more digits follow.
pub open spec fn mantissa_text(digits: Seq<char>) -> Seq<char> {
    if digits.len() > 1 {
        digits.take(1) + seq!['.'] + digits.skip(1)
    } else {
        digits
    }
}

/// `v` in scientific notation: a minus sign where it is negative, its decimal
/// digits up to the last that is not zero, with a point behind the first
/// where more follow, then `e`, or `E` where `upper` is set, and the power of
/// ten of the first digit.
pub open spec fn scientific_text(v: int, upper: bool) -> Seq<char> {
    let magnitude = (if v < 0 { -v } else { v }) as nat;
    let sign = if v < 0 { seq!['-'] } else { Seq::empty() };
    let mark = if upper { 'E' } else { 'e' };
    let exponent = (radix_text(magnitude, 10).len() - 1) as nat;
    sign + mantissa_text(radix_text(without_trailing_zeros(magnitude), 10)) + seq![mark]
        + radix_text(exponent, 10)
}

/// Every number has a digit.
pub proof fn lemma_radix_text_nonempty(n: nat, radix: nat)
    ensures
        radix_text(n, radix).len() >= 1,
    decreases n,
{
    if !(radix < 2 || n < radix) {
        lemma_quotient_smaller(n, radix);
        lemma_radix_text_nonempty(n / radix, radix);
    }
}

/// Writes the integer of the given sign and magnitude in scientific
/// notation.
pub(crate) fn scientific_string(negative: bool, magnitude: u64, upper: bool) -> (s: String)
    requires
        negative ==> magnitude > 0,
    ensures
        s@ == scientific_text(if negative { -(magnitude as int) } else { magnitude as int }, upper),
{
    let all = radix_string(magnitude, 10);
    proof {
        lemma_radix_text_nonempty(magnitude as nat, 10);
    }
    let exponent = all.as_str().unicode_len() - 1;
    let mut stripped = magnitude;
    while stripped >= 10 && stripped % 10 == 0
        invariant
            without_trailing_zeros(stripped as nat) == without_trailing_zeros(magnitude as nat),
        decreases stripped,
    {
        stripped = stripped / 10;
    }
    let digits = radix_string(stripped, 10);
    let len = digits.as_str().unicode_len();
    proof {
        reveal_strlit("-");
        reveal_strlit("");
        reveal_strlit(".");
        reveal_strlit("e");
        reveal_strlit("E");
        assert("-"@ =~= seq!['-']);
        assert(""@ =~= Seq::<char>::empty());
        assert("."@ =~= seq!['.']);
        assert("e"@ =~= seq!['e']);
        assert("E"@ =~= seq!['E']);
    }
    let mut text = String::from_str(if negative { "-" } else { "" });
    if len > 1 {
        text.append(digits.as_str().substring_char(0, 1));
        text.append(".");
        text.append(digits.as_str().substring_char(1, len));
        assert(digits@.subrange(0, 1) =~= digits@.take(1));
        assert(digits@.subrange(1, len as int) =~= digits@.skip(1));
    } else {
        text.append(digits.as_str());
    }
    text.append(if upper { "E" } else { "e" });
    text.append(radix_string(exponent as u64, 10).as_str());
    proof {
        let v = if negative { -(magnitude as int) } else { magnitude as int };
        assert(text@ =~= scientific_text(v, upper));
    }
    text
}

/// An integer type of at most 64 bits.
pub trait Integer {
    /// The integer that `self` holds.
    spec fn value(&self) -> int;

    /// The number of values that the type has.
    spec fn modulus() -> nat;

    /// Tells whether `self` is below zero.
    fn is_negative(&self) -> (b: bool)
        ensures
            b == (self.value() < 0),
    ;

    /// The distance of `self` from zero.
    fn magnitude(&self) -> (m: u64)
        ensures
            m == if self.value() < 0 { -self.value() } else { self.value() },
    ;

    /// The bits of `self` in two's complement, read as a number without
    /// sign.
    fn bits(&self) -> (w: u64)
        ensures
            w == if self.value() < 0 { self.value() + Self::modulus() } else { self.value() },
    ;
}

impl Integer for u32 {
    open spec fn value(&self) -> int {
        *self as int
    }

    open spec fn modulus() -> nat {
        0x1_0000_0000
    }

    fn is_negative(&self) -> (b: bool) {
        false
    }

    fn magnitude(&self) -> (m: u64) {
        *self as u64
    }

    fn bits(&self) -> (w: u64) {
        *self as u64
    }
}

impl Integer for u64 {
    open spec fn value(&self) -> int {
        *self as int
    }

    open spec fn modulus() -> nat {
        0x1_0000_0000_0000_0000
    }

    fn is_negative(&self) -> (b: bool) {
        false
    }

    fn magnitude(&self) -> (m: u64) {
        *self
    }

    fn bits(&self) -> (w: u64) {
        *self
    }
}

impl Integer for usize {
    open spec fn value(&self) -> int {
        *self as int
    }

    open spec fn modulus() -> nat {
        (usize::MAX + 1) as nat
    }

    fn is_negative(&self) -> (b: bool) {
        false
    }

    fn magnitude(&self) -> (m: u64) {
        *self as u64
    }

    fn bits(&self) -> (w: u64) {
        *self as u64
    }
}

impl Integer for i32 {
    open spec fn value(&self) -> int {
        *self as int
    }

    open spec fn modulus() -> nat {
        0x1_0000_0000
    }

    fn is_negative(&self) -> (b: bool) {
        *self < 0
    }

    fn magnitude(&self) -> (m: u64) {
        if *self < 0 {
            (-(*self + 1)) as u64 + 1
        } else {
            *self as u64
        }
    }

    fn bits(&self) -> (w: u64) {
        if *self < 0 {
            u32::MAX as u64 - (-(*self + 1)) as u64
        } else {
            *self as u64
        }
    }
}

impl Integer for i64 {
    open spec fn value(&self) -> int {
        *self as int
    }

    open spec fn modulus() -> nat {
        0x1_0000_0000_0000_0000
    }

    fn is_negative(&self) -> (b: bool) {
        *self < 0
    }

    fn magnitude(&self) -> (m: u64) {
        if *self < 0 {
            (-(*self + 1)) as u64 + 1
        } else {
            *self as u64
        }
    }

    fn bits(&self) -> (w: u64) {
        if *self < 0 {
            u64::MAX - (-(*self + 1)) as u64
        } else {
            *self as u64
        }
    }
}

impl Integer for isize {
    open spec fn value(&self) -> int {
        *self as int
    }

    open spec fn modulus() -> nat {
        (usize::MAX + 1) as nat
    }

    fn is_negative(&self) -> (b: bool) {
        *self < 0
    }

    fn magnitude(&self) -> (m: u64) {
        if *self < 0 {
            (-(*self + 1)) as u64 + 1
        } else {
            *self as u64
        }
    }

    fn bits(&self) -> (w: u64) {
        if *self < 0 {
            usize::MAX as u64 - (-(*self + 1)) as u64
        } else {
            *self as u64
        }
    }
}

} // verus!
