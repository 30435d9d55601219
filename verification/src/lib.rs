//! Rounding of values to an arbitrary positive factor, with a selectable
//! tie-breaking policy.
//!
//! The [`Roundable`] trait equips a type with two operations:
//!
//! * [`Roundable::try_round_to`] rounds to the nearest multiple of a factor
//!   and reports overflow as `None`;
//! * [`Roundable::round_to`] is the same operation for callers who can rule
//!   overflow out beforehand.
//!
//! Values exactly halfway between two multiples ("ties") are resolved by a
//! [`Tie`] policy. The mathematical meaning of every operation is the spec
//! function [`rounded`], stated over unbounded integers; each implementation
//! proves that its fixed-width arithmetic computes exactly that value
//! whenever it fits, and reports overflow otherwise.

use vstd::prelude::*;
use vstd::arithmetic::div_mod::lemma_fundamental_div_mod;

pub mod duration;
pub mod integer;

verus! {

/// How to resolve a value exactly halfway between two multiples of the
/// factor, e.g. `5` when rounding to the nearest `10`.
#[derive(Clone, Copy, Debug, PartialEq, Eq, Structural)]
pub enum Tie {
    /// Round ties up (traditional rounding).
    Up,
    /// Round ties down.
    Down,
    /// Round ties toward zero.
    TowardZero,
    /// Round ties away from zero.
    AwayFromZero,
    /// Round ties toward the even multiple: a multiple `n * factor` counts
    /// as even exactly when `n` is even, so when rounding to the nearest
    /// `10`, the values `0` and `20` are even while `10` is odd.
    TowardEven,
    /// Round ties toward the odd multiple, the complement of `TowardEven`.
    TowardOdd,
}

/// Holds when `tie` resolves an exact midpoint between the multiples
/// `f * (v / f)` and `f * (v / f + 1)` to the lower of the two.
pub open spec fn tie_rounds_down(v: int, f: int, tie: Tie) -> bool {
    let q = v / f;
    match tie {
        Tie::Up => false,
        Tie::Down => true,
        Tie::TowardZero => v > 0,
        Tie::AwayFromZero => v < 0,
        Tie::TowardEven => q % 2 == 0,
        Tie::TowardOdd => q % 2 != 0,
    }
}

/// The index of the multiple of `f` that `v` rounds to: the quotient
/// `v / f` itself when `v` lies closer to (or, on a tie the policy sends
/// down, exactly between) the lower multiple, and `v / f + 1` otherwise.
pub open spec fn round_index(v: int, f: int, tie: Tie) -> int {
    let q = v / f;
    let r = v % f;
    if 2 * r < f || (2 * r == f && tie_rounds_down(v, f, tie)) {
        q
    } else {
        q + 1
    }
}

/// The multiple of `f` nearest to `v`, with ties resolved by `tie`. This is
/// the mathematical value that every rounding operation returns whenever it
/// fits the operand's domain.
pub open spec fn rounded(v: int, f: int, tie: Tie) -> int {
    f * round_index(v, f, tie)
}

/// Rounding to the nearest multiple of a positive factor.
pub trait Roundable: Sized {
    /// The mathematical value of the operand.
    spec fn val(self) -> int;

    /// Well-formedness of the representation.
    spec fn inv(self) -> bool;

    /// Whether a mathematical value fits this domain.
    spec fn fits(x: int) -> bool;

    /// Round to the nearest multiple of `factor`, resolving ties by `tie`.
    /// Returns `None` exactly when the rounded value does not fit the
    /// domain.
    fn try_round_to(self, factor: Self, tie: Tie) -> (r: Option<Self>)
        requires
            self.inv(),
            factor.inv(),
            factor.val() > 0,
        ensures
            r is Some <==> Self::fits(rounded(self.val(), factor.val(), tie)),
            r matches Some(x) ==> x.inv() && x.val() == rounded(self.val(), factor.val(), tie),
    ;

    /// Round to the nearest multiple of `factor`, resolving ties by `tie`,
    /// for callers who know the rounded value fits the domain.
    fn round_to(self, factor: Self, tie: Tie) -> (r: Self)
        requires
            self.inv(),
            factor.inv(),
            factor.val() > 0,
            Self::fits(rounded(self.val(), factor.val(), tie)),
        ensures
            r.inv(),
            r.val() == rounded(self.val(), factor.val(), tie),
    {
        self.try_round_to(factor, tie).unwrap()
    }

    /// Traditional rounding: the nearest multiple of `factor`, ties up.
    fn round_half_up(self, factor: Self) -> (r: Self)
        requires
            self.inv(),
            factor.inv(),
            factor.val() > 0,
            Self::fits(rounded(self.val(), factor.val(), Tie::Up)),
        ensures
            r.inv(),
            r.val() == rounded(self.val(), factor.val(), Tie::Up),
    {
        self.round_to(factor, Tie::Up)
    }
}

/// The facts every implementation needs about the lower multiple
/// `f * (v / f)`, the midpoint test against `f / 2`, and the upper multiple.
pub(crate) proof fn lemma_round_frame(v: int, f: int)
    requires
        f > 0,
    ensures
        0 <= v % f < f,
        v == f * (v / f) + v % f,
        f == 2 * (f / 2) + f % 2,
        0 <= f % 2 < 2,
        f * (v / f + 1) == f * (v / f) + f,
        v - f < f * (v / f) <= v,
        v >= 0 ==> v / f >= 0,
        v < 0 && v % f != 0 ==> v / f <= -1,
        (f * (v / f)) / f == v / f,
        (f * (v / f + 1)) / f == v / f + 1,
{
    lemma_fundamental_div_mod(v, f);
    lemma_fundamental_div_mod(f, 2);
    let q = v / f;
    assert(f * (q + 1) == f * q + f) by (nonlinear_arith);
    assert((v >= 0 ==> q >= 0) && (v < 0 && v % f != 0 ==> q <= -1)) by (nonlinear_arith)
        requires
            f > 0,
            v == f * q + v % f,
            0 <= v % f < f,
    ;
    assert((f * q) / f == q) by (nonlinear_arith)
        requires
            f > 0,
    ;
    assert((f * (q + 1)) / f == q + 1) by (nonlinear_arith)
        requires
            f > 0,
    ;
}

/// Division and remainder of `-v` in terms of those of `v`, for a positive
/// divisor. This is how the truncating machine remainder of a negative value
/// relates to the Euclidean remainder the specifications use.
pub(crate) proof fn lemma_neg_div_mod(v: int, f: int)
    requires
        f > 0,
    ensures
        v % f == 0 ==> (-v) % f == 0 && (-v) / f == -(v / f),
        v % f != 0 ==> (-v) % f == f - v % f && (-v) / f == -(v / f) - 1,
{
    lemma_fundamental_div_mod(v, f);
    lemma_fundamental_div_mod(-v, f);
    let a = v / f;
    let b = (-v) / f;
    let r1 = v % f;
    let r2 = (-v) % f;
    assert(f * (a + b) == -(r1 + r2)) by (nonlinear_arith)
        requires
            v == f * a + r1,
            -v == f * b + r2,
    ;
    assert(a + b == 0 || a + b == -1) by (nonlinear_arith)
        requires
            f > 0,
            f * (a + b) == -(r1 + r2),
            0 <= r1 < f,
            0 <= r2 < f,
    ;
    if a + b == 0 {
        assert(f * (a + b) == 0) by (nonlinear_arith)
            requires
                a + b == 0,
        ;
    } else {
        assert(f * (a + b) == -f) by (nonlinear_arith)
            requires
                a + b == -1,
        ;
    }
}

/// Dividing a multiple of a positive factor by that factor recovers the
/// multiple's index.
pub(crate) proof fn lemma_mul_div_cancel(k: int, f: int)
    requires
        f > 0,
    ensures
        (f * k) / f == k,
{
    assert((f * k) / f == k) by (nonlinear_arith)
        requires
            f > 0,
    ;
}

/// Consecutive integers have opposite parity.
pub(crate) proof fn lemma_parity_succ(q: int)
    ensures
        ((q + 1) % 2 == 0) <==> (q % 2 == 1),
        0 <= q % 2 < 2,
{
    lemma_fundamental_div_mod(q, 2);
    lemma_fundamental_div_mod(q + 1, 2);
    assert(((q + 1) % 2 == 0 <==> q % 2 == 1) && 0 <= q % 2 < 2) by (nonlinear_arith)
        requires
            q == 2 * (q / 2) + q % 2,
            q + 1 == 2 * ((q + 1) / 2) + (q + 1) % 2,
            0 <= q % 2 < 2,
            0 <= (q + 1) % 2 < 2,
    ;
}

/// Negation distributes over the product with the factor.
pub(crate) proof fn lemma_mul_neg(f: int, k: int)
    ensures
        f * (-k) == -(f * k),
        f * (-k - 1) == -(f * (k + 1)),
{
    assert(f * (-k) == -(f * k) && f * (-k - 1) == -(f * (k + 1))) by (nonlinear_arith);
}

/// The rounded value is an exact multiple of the factor and differs from
/// the value by strictly less than the factor; a non-negative value rounds
/// to a non-negative multiple.
pub proof fn lemma_rounded_near_multiple(v: int, f: int, tie: Tie)
    requires
        f > 0,
    ensures
        rounded(v, f, tie) % f == 0,
        v - f < rounded(v, f, tie) < v + f,
        v >= 0 ==> rounded(v, f, tie) >= 0,
{
    lemma_round_frame(v, f);
    let idx = round_index(v, f, tie);
    lemma_mul_div_cancel(idx, f);
    lemma_fundamental_div_mod(f * idx, f);
    assert(rounded(v, f, tie) % f == 0);
    if v >= 0 && 2 * (v % f) >= f {
        assert(f * (v / f) >= 0) by (nonlinear_arith)
            requires
                f > 0,
                v / f >= 0,
        ;
    }
}

/// A value that is already a multiple of the factor rounds to itself, under
/// every tie policy.
pub proof fn lemma_rounded_fixed_on_multiples(v: int, f: int, tie: Tie)
    requires
        f > 0,
        v % f == 0,
    ensures
        rounded(v, f, tie) == v,
{
    lemma_round_frame(v, f);
}

/// Rounding is idempotent: a rounded value is a multiple of the factor, so
/// rounding it again, under any tie policy, returns it unchanged.
pub proof fn lemma_rounded_idempotent(v: int, f: int, tie: Tie, again: Tie)
    requires
        f > 0,
    ensures
        rounded(rounded(v, f, tie), f, again) == rounded(v, f, tie),
{
    lemma_rounded_near_multiple(v, f, tie);
    lemma_rounded_fixed_on_multiples(rounded(v, f, tie), f, again);
}

/// Zero rounds to zero under every tie policy and every positive factor.
pub proof fn lemma_rounded_zero(f: int, tie: Tie)
    requires
        f > 0,
    ensures
        rounded(0, f, tie) == 0,
{
    lemma_round_frame(0, f);
    lemma_rounded_fixed_on_multiples(0, f, tie);
}

/// Rounding with ties toward or away from zero is symmetric about zero:
/// negating the value negates the result.
pub proof fn lemma_rounded_sign_symmetric(v: int, f: int, tie: Tie)
    requires
        f > 0,
        tie == Tie::TowardZero || tie == Tie::AwayFromZero,
    ensures
        rounded(-v, f, tie) == -rounded(v, f, tie),
{
    lemma_round_frame(v, f);
    lemma_round_frame(-v, f);
    lemma_neg_div_mod(v, f);
    lemma_mul_neg(f, v / f);
}

} // verus!

