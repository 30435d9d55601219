//! [`Roundable`] for the fixed-width integer types.
//!
//! Every implementation follows the same plan. The remainder of the value by
//! the factor splits the value between two neighbouring multiples; comparing
//! twice the remainder against the factor picks the nearer one, and an exact
//! midpoint is resolved by the tie policy. The chosen multiple is computed
//! with machine arithmetic whose bounds are proved, except for the one step
//! that can genuinely leave the type's range, which is guarded and reported
//! as `None`.

use vstd::prelude::*;
use crate::{Roundable, Tie, rounded, tie_rounds_down};
use crate::{lemma_round_frame, lemma_neg_div_mod, lemma_mul_div_cancel, lemma_parity_succ};

verus! {

impl Roundable for u8 {
    open spec fn val(self) -> int {
        self as int
    }

    open spec fn inv(self) -> bool {
        true
    }

    open spec fn fits(x: int) -> bool {
        0 <= x <= u8::MAX
    }

    fn try_round_to(self, factor: Self, tie: Tie) -> (r: Option<Self>) {
        let ghost v = self as int;
        let ghost f = factor as int;
        proof {
            lemma_round_frame(v, f);
        }
        let remainder = self % factor;
        let base = self - remainder;
        let half = factor / 2 + factor % 2;
        assert(base == f * (v / f));
        assert((remainder < half) <==> 2 * (v % f) < f);
        assert((remainder == factor / 2 && remainder >= half) ==> 2 * (v % f) == f);
        assert((2 * (v % f) == f) ==> remainder == factor / 2);
        let use_smaller = match tie {
            Tie::Up => false,
            Tie::Down => true,
            Tie::TowardZero => self > 0,
            Tie::AwayFromZero => false,
            Tie::TowardEven => (base / factor) % 2 == 0,
            Tie::TowardOdd => (base / factor) % 2 != 0,
        };
        assert(use_smaller == tie_rounds_down(v, f, tie));
        if remainder < half || (remainder == factor / 2 && use_smaller) {
            assert(rounded(v, f, tie) == base);
            Some(base)
        } else if base <= u8::MAX - factor {
            assert(rounded(v, f, tie) == base + f);
            Some(base + factor)
        } else {
            assert(rounded(v, f, tie) == f * (v / f) + f);
            None
        }
    }
}


impl Roundable for u16 {
    open spec fn val(self) -> int {
        self as int
    }

    open spec fn inv(self) -> bool {
        true
    }

    open spec fn fits(x: int) -> bool {
        0 <= x <= u16::MAX
    }

    fn try_round_to(self, factor: Self, tie: Tie) -> (r: Option<Self>) {
        let ghost v = self as int;
        let ghost f = factor as int;
        proof {
            lemma_round_frame(v, f);
        }
        let remainder = self % factor;
        let base = self - remainder;
        let half = factor / 2 + factor % 2;
        assert(base == f * (v / f));
        assert((remainder < half) <==> 2 * (v % f) < f);
        assert((remainder == factor / 2 && remainder >= half) ==> 2 * (v % f) == f);
        assert((2 * (v % f) == f) ==> remainder == factor / 2);
        let use_smaller = match tie {
            Tie::Up => false,
            Tie::Down => true,
            Tie::TowardZero => self > 0,
            Tie::AwayFromZero => false,
            Tie::TowardEven => (base / factor) % 2 == 0,
            Tie::TowardOdd => (base / factor) % 2 != 0,
        };
        assert(use_smaller == tie_rounds_down(v, f, tie));
        if remainder < half || (remainder == factor / 2 && use_smaller) {
            assert(rounded(v, f, tie) == base);
            Some(base)
        } else if base <= u16::MAX - factor {
            assert(rounded(v, f, tie) == base + f);
            Some(base + factor)
        } else {
            assert(rounded(v, f, tie) == f * (v / f) + f);
            None
        }
    }
}


impl Roundable for u32 {
    open spec fn val(self) -> int {
        self as int
    }

    open spec fn inv(self) -> bool {
        true
    }

    open spec fn fits(x: int) -> bool {
        0 <= x <= u32::MAX
    }

    fn try_round_to(self, factor: Self, tie: Tie) -> (r: Option<Self>) {
        let ghost v = self as int;
        let ghost f = factor as int;
        proof {
            lemma_round_frame(v, f);
        }
        let remainder = self % factor;
        let base = self - remainder;
        let half = factor / 2 + factor % 2;
        assert(base == f * (v / f));
        assert((remainder < half) <==> 2 * (v % f) < f);
        assert((remainder == factor / 2 && remainder >= half) ==> 2 * (v % f) == f);
        assert((2 * (v % f) == f) ==> remainder == factor / 2);
        let use_smaller = match tie {
            Tie::Up => false,
            Tie::Down => true,
            Tie::TowardZero => self > 0,
            Tie::AwayFromZero => false,
            Tie::TowardEven => (base / factor) % 2 == 0,
            Tie::TowardOdd => (base / factor) % 2 != 0,
        };
        assert(use_smaller == tie_rounds_down(v, f, tie));
        if remainder < half || (remainder == factor / 2 && use_smaller) {
            assert(rounded(v, f, tie) == base);
            Some(base)
        } else if base <= u32::MAX - factor {
            assert(rounded(v, f, tie) == base + f);
            Some(base + factor)
        } else {
            assert(rounded(v, f, tie) == f * (v / f) + f);
            None
        }
    }
}


impl Roundable for u64 {
    open spec fn val(self) -> int {
        self as int
    }

    open spec fn inv(self) -> bool {
        true
    }

    open spec fn fits(x: int) -> bool {
        0 <= x <= u64::MAX
    }

    fn try_round_to(self, factor: Self, tie: Tie) -> (r: Option<Self>) {
        let ghost v = self as int;
        let ghost f = factor as int;
        proof {
            lemma_round_frame(v, f);
        }
        let remainder = self % factor;
        let base = self - remainder;
        let half = factor / 2 + factor % 2;
        assert(base == f * (v / f));
        assert((remainder < half) <==> 2 * (v % f) < f);
        assert((remainder == factor / 2 && remainder >= half) ==> 2 * (v % f) == f);
        assert((2 * (v % f) == f) ==> remainder == factor / 2);
        let use_smaller = match tie {
            Tie::Up => false,
            Tie::Down => true,
            Tie::TowardZero => self > 0,
            Tie::AwayFromZero => false,
            Tie::TowardEven => (base / factor) % 2 == 0,
            Tie::TowardOdd => (base / factor) % 2 != 0,
        };
        assert(use_smaller == tie_rounds_down(v, f, tie));
        if remainder < half || (remainder == factor / 2 && use_smaller) {
            assert(rounded(v, f, tie) == base);
            Some(base)
        } else if base <= u64::MAX - factor {
            assert(rounded(v, f, tie) == base + f);
            Some(base + factor)
        } else {
            assert(rounded(v, f, tie) == f * (v / f) + f);
            None
        }
    }
}


impl Roundable for u128 {
    open spec fn val(self) -> int {
        self as int
    }

    open spec fn inv(self) -> bool {
        true
    }

    open spec fn fits(x: int) -> bool {
        0 <= x <= u128::MAX
    }

    fn try_round_to(self, factor: Self, tie: Tie) -> (r: Option<Self>) {
        let ghost v = self as int;
        let ghost f = factor as int;
        proof {
            // Name this type's spec functions so their definitions unfold
            // here; for this width alone the prover does not do it unasked.
            assert(self.val() == v && factor.val() == f);
            lemma_round_frame(v, f);
        }
        let remainder = self % factor;
        let base = self - remainder;
        let half = factor / 2 + factor % 2;
        assert(base == f * (v / f));
        assert((remainder < half) <==> 2 * (v % f) < f);
        assert((remainder == factor / 2 && remainder >= half) ==> 2 * (v % f) == f);
        assert((2 * (v % f) == f) ==> remainder == factor / 2);
        let use_smaller = match tie {
            Tie::Up => false,
            Tie::Down => true,
            Tie::TowardZero => self > 0,
            Tie::AwayFromZero => false,
            Tie::TowardEven => (base / factor) % 2 == 0,
            Tie::TowardOdd => (base / factor) % 2 != 0,
        };
        assert(use_smaller == tie_rounds_down(v, f, tie));
        if remainder < half || (remainder == factor / 2 && use_smaller) {
            assert(base.inv() && Self::fits(rounded(v, f, tie)) && base.val() == rounded(v, f, tie));
            Some(base)
        } else if base <= u128::MAX - factor {
            let upper = base + factor;
            assert(upper.inv() && Self::fits(rounded(v, f, tie)) && upper.val() == rounded(v, f, tie));
            Some(upper)
        } else {
            assert(rounded(v, f, tie) == f * (v / f) + f);
            assert(!Self::fits(rounded(v, f, tie)));
            None
        }
    }
}


impl Roundable for usize {
    open spec fn val(self) -> int {
        self as int
    }

    open spec fn inv(self) -> bool {
        true
    }

    open spec fn fits(x: int) -> bool {
        0 <= x <= usize::MAX
    }

    fn try_round_to(self, factor: Self, tie: Tie) -> (r: Option<Self>) {
        let ghost v = self as int;
        let ghost f = factor as int;
        proof {
            lemma_round_frame(v, f);
        }
        let remainder = self % factor;
        let base = self - remainder;
        let half = factor / 2 + factor % 2;
        assert(base == f * (v / f));
        assert((remainder < half) <==> 2 * (v % f) < f);
        assert((remainder == factor / 2 && remainder >= half) ==> 2 * (v % f) == f);
        assert((2 * (v % f) == f) ==> remainder == factor / 2);
        let use_smaller = match tie {
            Tie::Up => false,
            Tie::Down => true,
            Tie::TowardZero => self > 0,
            Tie::AwayFromZero => false,
            Tie::TowardEven => (base / factor) % 2 == 0,
            Tie::TowardOdd => (base / factor) % 2 != 0,
        };
        assert(use_smaller == tie_rounds_down(v, f, tie));
        if remainder < half || (remainder == factor / 2 && use_smaller) {
            assert(rounded(v, f, tie) == base);
            Some(base)
        } else if base <= usize::MAX - factor {
            assert(rounded(v, f, tie) == base + f);
            Some(base + factor)
        } else {
            assert(rounded(v, f, tie) == f * (v / f) + f);
            None
        }
    }
}


impl Roundable for i8 {
    open spec fn val(self) -> int {
        self as int
    }

    open spec fn inv(self) -> bool {
        true
    }

    open spec fn fits(x: int) -> bool {
        i8::MIN <= x <= i8::MAX
    }

    fn try_round_to(self, factor: Self, tie: Tie) -> (r: Option<Self>) {
        let ghost v = self as int;
        let ghost f = factor as int;
        let ghost q = v / f;
        let ghost rr = v % f;
        proof {
            lemma_round_frame(v, f);
            lemma_neg_div_mod(v, f);
            lemma_mul_div_cancel(-q, f);
            lemma_mul_div_cancel(-(q + 1), f);
        }
        let remainder = self % factor;
        assert(v >= 0 ==> remainder == rr);
        assert(v < 0 && rr == 0 ==> remainder == 0);
        assert(v < 0 && rr != 0 ==> remainder == rr - f);
        let base = self - remainder;
        // For a non-negative value the lower multiple; for a negative one
        // the upper, since the machine remainder carries the value's sign.
        assert(v >= 0 || rr == 0 ==> base == f * q);
        assert(v < 0 && rr != 0 ==> base == f * (q + 1));
        let half = factor / 2 + factor % 2;
        assert(2 * (f / 2) == f - f % 2);
        let ghost tq = if v >= 0 || rr == 0 { q } else { q + 1 };
        assert(base == f * tq);
        let index = base / factor;
        assert(index == tq) by {
            if base < 0 {
                assert(f * tq * -1 == f * (-tq)) by (nonlinear_arith);
                assert((base as int) * -1 == f * (-tq));
                lemma_mul_div_cancel(-tq, f);
                assert(((base as int) * -1) / f == -tq);
                assert(index as int == (((base as int) * -1) / f) * -1);
            } else {
                assert(base as int == f * tq);
                lemma_mul_div_cancel(tq, f);
                assert(index as int == (base as int) / f);
            }
        };
        let index_even = index % 2 == 0;
        assert(index_even <==> tq % 2 == 0) by {
            lemma_parity_succ(tq);
            if index < 0 {
                lemma_neg_div_mod(tq, 2);
            }
        };
        let use_smaller = match tie {
            Tie::Up => false,
            Tie::Down => true,
            Tie::TowardZero => self > 0,
            Tie::AwayFromZero => self < 0,
            Tie::TowardEven => index_even != (self < 0),
            Tie::TowardOdd => !index_even != (self < 0),
        };
        assert(2 * rr == f ==> use_smaller == tie_rounds_down(v, f, tie)) by {
            lemma_parity_succ(q);
        };
        if self > 0 {
            assert(remainder == rr && base == f * q);
            if remainder < half || (remainder == factor / 2 && use_smaller) {
                assert(2 * rr < f || (2 * rr == f && tie_rounds_down(v, f, tie)));
                assert(rounded(v, f, tie) == base);
                Some(base)
            } else if base <= i8::MAX - factor {
                assert(rounded(v, f, tie) == base + f);
                Some(base + factor)
            } else {
                assert(rounded(v, f, tie) == f * (q + 1) && f * (q + 1) > i8::MAX);
                None
            }
        } else {
            if remainder + factor < half || (remainder + half == 0 && use_smaller) {
                assert(rr != 0);
                assert(2 * rr < f || (2 * rr == f && tie_rounds_down(v, f, tie)));
                assert(rounded(v, f, tie) == f * q && f * q == base - f);
                if base >= i8::MIN + factor {
                    Some(base - factor)
                } else {
                    None
                }
            } else {
                assert(rounded(v, f, tie) == base);
                Some(base)
            }
        }
    }
}


impl Roundable for i16 {
    open spec fn val(self) -> int {
        self as int
    }

    open spec fn inv(self) -> bool {
        true
    }

    open spec fn fits(x: int) -> bool {
        i16::MIN <= x <= i16::MAX
    }

    fn try_round_to(self, factor: Self, tie: Tie) -> (r: Option<Self>) {
        let ghost v = self as int;
        let ghost f = factor as int;
        let ghost q = v / f;
        let ghost rr = v % f;
        proof {
            lemma_round_frame(v, f);
            lemma_neg_div_mod(v, f);
            lemma_mul_div_cancel(-q, f);
            lemma_mul_div_cancel(-(q + 1), f);
        }
        let remainder = self % factor;
        assert(v >= 0 ==> remainder == rr);
        assert(v < 0 && rr == 0 ==> remainder == 0);
        assert(v < 0 && rr != 0 ==> remainder == rr - f);
        let base = self - remainder;
        // For a non-negative value the lower multiple; for a negative one
        // the upper, since the machine remainder carries the value's sign.
        assert(v >= 0 || rr == 0 ==> base == f * q);
        assert(v < 0 && rr != 0 ==> base == f * (q + 1));
        let half = factor / 2 + factor % 2;
        assert(2 * (f / 2) == f - f % 2);
        let ghost tq = if v >= 0 || rr == 0 { q } else { q + 1 };
        assert(base == f * tq);
        let index = base / factor;
        assert(index == tq) by {
            if base < 0 {
                assert(f * tq * -1 == f * (-tq)) by (nonlinear_arith);
                assert((base as int) * -1 == f * (-tq));
                lemma_mul_div_cancel(-tq, f);
                assert(((base as int) * -1) / f == -tq);
                assert(index as int == (((base as int) * -1) / f) * -1);
            } else {
                assert(base as int == f * tq);
                lemma_mul_div_cancel(tq, f);
                assert(index as int == (base as int) / f);
            }
        };
        let index_even = index % 2 == 0;
        assert(index_even <==> tq % 2 == 0) by {
            lemma_parity_succ(tq);
            if index < 0 {
                lemma_neg_div_mod(tq, 2);
            }
        };
        let use_smaller = match tie {
            Tie::Up => false,
            Tie::Down => true,
            Tie::TowardZero => self > 0,
            Tie::AwayFromZero => self < 0,
            Tie::TowardEven => index_even != (self < 0),
            Tie::TowardOdd => !index_even != (self < 0),
        };
        assert(2 * rr == f ==> use_smaller == tie_rounds_down(v, f, tie)) by {
            lemma_parity_succ(q);
        };
        if self > 0 {
            assert(remainder == rr && base == f * q);
            if remainder < half || (remainder == factor / 2 && use_smaller) {
                assert(2 * rr < f || (2 * rr == f && tie_rounds_down(v, f, tie)));
                assert(rounded(v, f, tie) == base);
                Some(base)
            } else if base <= i16::MAX - factor {
                assert(rounded(v, f, tie) == base + f);
                Some(base + factor)
            } else {
                assert(rounded(v, f, tie) == f * (q + 1) && f * (q + 1) > i16::MAX);
                None
            }
        } else {
            if remainder + factor < half || (remainder + half == 0 && use_smaller) {
                assert(rr != 0);
                assert(2 * rr < f || (2 * rr == f && tie_rounds_down(v, f, tie)));
                assert(rounded(v, f, tie) == f * q && f * q == base - f);
                if base >= i16::MIN + factor {
                    Some(base - factor)
                } else {
                    None
                }
            } else {
                assert(rounded(v, f, tie) == base);
                Some(base)
            }
        }
    }
}


impl Roundable for i32 {
    open spec fn val(self) -> int {
        self as int
    }

    open spec fn inv(self) -> bool {
        true
    }

    open spec fn fits(x: int) -> bool {
        i32::MIN <= x <= i32::MAX
    }

    fn try_round_to(self, factor: Self, tie: Tie) -> (r: Option<Self>) {
        let ghost v = self as int;
        let ghost f = factor as int;
        let ghost q = v / f;
        let ghost rr = v % f;
        proof {
            lemma_round_frame(v, f);
            lemma_neg_div_mod(v, f);
            lemma_mul_div_cancel(-q, f);
            lemma_mul_div_cancel(-(q + 1), f);
        }
        let remainder = self % factor;
        assert(v >= 0 ==> remainder == rr);
        assert(v < 0 && rr == 0 ==> remainder == 0);
        assert(v < 0 && rr != 0 ==> remainder == rr - f);
        let base = self - remainder;
        // For a non-negative value the lower multiple; for a negative one
        // the upper, since the machine remainder carries the value's sign.
        assert(v >= 0 || rr == 0 ==> base == f * q);
        assert(v < 0 && rr != 0 ==> base == f * (q + 1));
        let half = factor / 2 + factor % 2;
        assert(2 * (f / 2) == f - f % 2);
        let ghost tq = if v >= 0 || rr == 0 { q } else { q + 1 };
        assert(base == f * tq);
        let index = base / factor;
        assert(index == tq) by {
            if base < 0 {
                assert(f * tq * -1 == f * (-tq)) by (nonlinear_arith);
                assert((base as int) * -1 == f * (-tq));
                lemma_mul_div_cancel(-tq, f);
                assert(((base as int) * -1) / f == -tq);
                assert(index as int == (((base as int) * -1) / f) * -1);
            } else {
                assert(base as int == f * tq);
                lemma_mul_div_cancel(tq, f);
                assert(index as int == (base as int) / f);
            }
        };
        let index_even = index % 2 == 0;
        assert(index_even <==> tq % 2 == 0) by {
            lemma_parity_succ(tq);
            if index < 0 {
                lemma_neg_div_mod(tq, 2);
            }
        };
        let use_smaller = match tie {
            Tie::Up => false,
            Tie::Down => true,
            Tie::TowardZero => self > 0,
            Tie::AwayFromZero => self < 0,
            Tie::TowardEven => index_even != (self < 0),
            Tie::TowardOdd => !index_even != (self < 0),
        };
        assert(2 * rr == f ==> use_smaller == tie_rounds_down(v, f, tie)) by {
            lemma_parity_succ(q);
        };
        if self > 0 {
            assert(remainder == rr && base == f * q);
            if remainder < half || (remainder == factor / 2 && use_smaller) {
                assert(2 * rr < f || (2 * rr == f && tie_rounds_down(v, f, tie)));
                assert(rounded(v, f, tie) == base);
                Some(base)
            } else if base <= i32::MAX - factor {
                assert(rounded(v, f, tie) == base + f);
                Some(base + factor)
            } else {
                assert(rounded(v, f, tie) == f * (q + 1) && f * (q + 1) > i32::MAX);
                None
            }
        } else {
            if remainder + factor < half || (remainder + half == 0 && use_smaller) {
                assert(rr != 0);
                assert(2 * rr < f || (2 * rr == f && tie_rounds_down(v, f, tie)));
                assert(rounded(v, f, tie) == f * q && f * q == base - f);
                if base >= i32::MIN + factor {
                    Some(base - factor)
                } else {
                    None
                }
            } else {
                assert(rounded(v, f, tie) == base);
                Some(base)
            }
        }
    }
}


impl Roundable for i64 {
    open spec fn val(self) -> int {
        self as int
    }

    open spec fn inv(self) -> bool {
        true
    }

    open spec fn fits(x: int) -> bool {
        i64::MIN <= x <= i64::MAX
    }

    fn try_round_to(self, factor: Self, tie: Tie) -> (r: Option<Self>) {
        let ghost v = self as int;
        let ghost f = factor as int;
        let ghost q = v / f;
        let ghost rr = v % f;
        proof {
            lemma_round_frame(v, f);
            lemma_neg_div_mod(v, f);
            lemma_mul_div_cancel(-q, f);
            lemma_mul_div_cancel(-(q + 1), f);
        }
        let remainder = self % factor;
        assert(v >= 0 ==> remainder == rr);
        assert(v < 0 && rr == 0 ==> remainder == 0);
        assert(v < 0 && rr != 0 ==> remainder == rr - f);
        let base = self - remainder;
        // For a non-negative value the lower multiple; for a negative one
        // the upper, since the machine remainder carries the value's sign.
        assert(v >= 0 || rr == 0 ==> base == f * q);
        assert(v < 0 && rr != 0 ==> base == f * (q + 1));
        let half = factor / 2 + factor % 2;
        assert(2 * (f / 2) == f - f % 2);
        let ghost tq = if v >= 0 || rr == 0 { q } else { q + 1 };
        assert(base == f * tq);
        let index = base / factor;
        assert(index == tq) by {
            if base < 0 {
                assert(f * tq * -1 == f * (-tq)) by (nonlinear_arith);
                assert((base as int) * -1 == f * (-tq));
                lemma_mul_div_cancel(-tq, f);
                assert(((base as int) * -1) / f == -tq);
                assert(index as int == (((base as int) * -1) / f) * -1);
            } else {
                assert(base as int == f * tq);
                lemma_mul_div_cancel(tq, f);
                assert(index as int == (base as int) / f);
            }
        };
        let index_even = index % 2 == 0;
        assert(index_even <==> tq % 2 == 0) by {
            lemma_parity_succ(tq);
            if index < 0 {
                lemma_neg_div_mod(tq, 2);
            }
        };
        let use_smaller = match tie {
            Tie::Up => false,
            Tie::Down => true,
            Tie::TowardZero => self > 0,
            Tie::AwayFromZero => self < 0,
            Tie::TowardEven => index_even != (self < 0),
            Tie::TowardOdd => !index_even != (self < 0),
        };
        assert(2 * rr == f ==> use_smaller == tie_rounds_down(v, f, tie)) by {
            lemma_parity_succ(q);
        };
        if self > 0 {
            assert(remainder == rr && base == f * q);
            if remainder < half || (remainder == factor / 2 && use_smaller) {
                assert(2 * rr < f || (2 * rr == f && tie_rounds_down(v, f, tie)));
                assert(rounded(v, f, tie) == base);
                Some(base)
            } else if base <= i64::MAX - factor {
                assert(rounded(v, f, tie) == base + f);
                Some(base + factor)
            } else {
                assert(rounded(v, f, tie) == f * (q + 1) && f * (q + 1) > i64::MAX);
                None
            }
        } else {
            if remainder + factor < half || (remainder + half == 0 && use_smaller) {
                assert(rr != 0);
                assert(2 * rr < f || (2 * rr == f && tie_rounds_down(v, f, tie)));
                assert(rounded(v, f, tie) == f * q && f * q == base - f);
                if base >= i64::MIN + factor {
                    Some(base - factor)
                } else {
                    None
                }
            } else {
                assert(rounded(v, f, tie) == base);
                Some(base)
            }
        }
    }
}


impl Roundable for i128 {
    open spec fn val(self) -> int {
        self as int
    }

    open spec fn inv(self) -> bool {
        true
    }

    open spec fn fits(x: int) -> bool {
        i128::MIN <= x <= i128::MAX
    }

    fn try_round_to(self, factor: Self, tie: Tie) -> (r: Option<Self>) {
        let ghost v = self as int;
        let ghost f = factor as int;
        let ghost q = v / f;
        let ghost rr = v % f;
        proof {
            lemma_round_frame(v, f);
            lemma_neg_div_mod(v, f);
            lemma_mul_div_cancel(-q, f);
            lemma_mul_div_cancel(-(q + 1), f);
        }
        let remainder = self % factor;
        assert(v >= 0 ==> remainder == rr);
        assert(v < 0 && rr == 0 ==> remainder == 0);
        assert(v < 0 && rr != 0 ==> remainder == rr - f);
        let base = self - remainder;
        // For a non-negative value the lower multiple; for a negative one
        // the upper, since the machine remainder carries the value's sign.
        assert(v >= 0 || rr == 0 ==> base == f * q);
        assert(v < 0 && rr != 0 ==> base == f * (q + 1));
        let half = factor / 2 + factor % 2;
        assert(2 * (f / 2) == f - f % 2);
        let ghost tq = if v >= 0 || rr == 0 { q } else { q + 1 };
        assert(base == f * tq);
        let index = base / factor;
        assert(index == tq) by {
            if base < 0 {
                assert(f * tq * -1 == f * (-tq)) by (nonlinear_arith);
                assert((base as int) * -1 == f * (-tq));
                lemma_mul_div_cancel(-tq, f);
                assert(((base as int) * -1) / f == -tq);
                assert(index as int == (((base as int) * -1) / f) * -1);
            } else {
                assert(base as int == f * tq);
                lemma_mul_div_cancel(tq, f);
                assert(index as int == (base as int) / f);
            }
        };
        let index_even = index % 2 == 0;
        assert(index_even <==> tq % 2 == 0) by {
            lemma_parity_succ(tq);
            if index < 0 {
                lemma_neg_div_mod(tq, 2);
            }
        };
        let use_smaller = match tie {
            Tie::Up => false,
            Tie::Down => true,
            Tie::TowardZero => self > 0,
            Tie::AwayFromZero => self < 0,
            Tie::TowardEven => index_even != (self < 0),
            Tie::TowardOdd => !index_even != (self < 0),
        };
        assert(2 * rr == f ==> use_smaller == tie_rounds_down(v, f, tie)) by {
            lemma_parity_succ(q);
        };
        if self > 0 {
            assert(remainder == rr && base == f * q);
            if remainder < half || (remainder == factor / 2 && use_smaller) {
                assert(2 * rr < f || (2 * rr == f && tie_rounds_down(v, f, tie)));
                assert(rounded(v, f, tie) == base);
                Some(base)
            } else if base <= i128::MAX - factor {
                assert(rounded(v, f, tie) == base + f);
                Some(base + factor)
            } else {
                assert(rounded(v, f, tie) == f * (q + 1) && f * (q + 1) > i128::MAX);
                None
            }
        } else {
            if remainder + factor < half || (remainder + half == 0 && use_smaller) {
                assert(rr != 0);
                assert(2 * rr < f || (2 * rr == f && tie_rounds_down(v, f, tie)));
                assert(rounded(v, f, tie) == f * q && f * q == base - f);
                if base >= i128::MIN + factor {
                    Some(base - factor)
                } else {
                    None
                }
            } else {
                assert(rounded(v, f, tie) == base);
                Some(base)
            }
        }
    }
}


impl Roundable for isize {
    open spec fn val(self) -> int {
        self as int
    }

    open spec fn inv(self) -> bool {
        true
    }

    open spec fn fits(x: int) -> bool {
        isize::MIN <= x <= isize::MAX
    }

    fn try_round_to(self, factor: Self, tie: Tie) -> (r: Option<Self>) {
        let ghost v = self as int;
        let ghost f = factor as int;
        let ghost q = v / f;
        let ghost rr = v % f;
        proof {
            lemma_round_frame(v, f);
            lemma_neg_div_mod(v, f);
            lemma_mul_div_cancel(-q, f);
            lemma_mul_div_cancel(-(q + 1), f);
        }
        let remainder = self % factor;
        assert(v >= 0 ==> remainder == rr);
        assert(v < 0 && rr == 0 ==> remainder == 0);
        assert(v < 0 && rr != 0 ==> remainder == rr - f);
        let base = self - remainder;
        // For a non-negative value the lower multiple; for a negative one
        // the upper, since the machine remainder carries the value's sign.
        assert(v >= 0 || rr == 0 ==> base == f * q);
        assert(v < 0 && rr != 0 ==> base == f * (q + 1));
        let half = factor / 2 + factor % 2;
        assert(2 * (f / 2) == f - f % 2);
        let ghost tq = if v >= 0 || rr == 0 { q } else { q + 1 };
        assert(base == f * tq);
        let index = base / factor;
        assert(index == tq) by {
            if base < 0 {
                assert(f * tq * -1 == f * (-tq)) by (nonlinear_arith);
                assert((base as int) * -1 == f * (-tq));
                lemma_mul_div_cancel(-tq, f);
                assert(((base as int) * -1) / f == -tq);
                assert(index as int == (((base as int) * -1) / f) * -1);
            } else {
                assert(base as int == f * tq);
                lemma_mul_div_cancel(tq, f);
                assert(index as int == (base as int) / f);
            }
        };
        let index_even = index % 2 == 0;
        assert(index_even <==> tq % 2 == 0) by {
            lemma_parity_succ(tq);
            if index < 0 {
                lemma_neg_div_mod(tq, 2);
            }
        };
        let use_smaller = match tie {
            Tie::Up => false,
            Tie::Down => true,
            Tie::TowardZero => self > 0,
            Tie::AwayFromZero => self < 0,
            Tie::TowardEven => index_even != (self < 0),
            Tie::TowardOdd => !index_even != (self < 0),
        };
        assert(2 * rr == f ==> use_smaller == tie_rounds_down(v, f, tie)) by {
            lemma_parity_succ(q);
        };
        if self > 0 {
            assert(remainder == rr && base == f * q);
            if remainder < half || (remainder == factor / 2 && use_smaller) {
                assert(2 * rr < f || (2 * rr == f && tie_rounds_down(v, f, tie)));
                assert(rounded(v, f, tie) == base);
                Some(base)
            } else if base <= isize::MAX - factor {
                assert(rounded(v, f, tie) == base + f);
                Some(base + factor)
            } else {
                assert(rounded(v, f, tie) == f * (q + 1) && f * (q + 1) > isize::MAX);
                None
            }
        } else {
            if remainder + factor < half || (remainder + half == 0 && use_smaller) {
                assert(rr != 0);
                assert(2 * rr < f || (2 * rr == f && tie_rounds_down(v, f, tie)));
                assert(rounded(v, f, tie) == f * q && f * q == base - f);
                if base >= isize::MIN + factor {
                    Some(base - factor)
                } else {
                    None
                }
            } else {
                assert(rounded(v, f, tie) == base);
                Some(base)
            }
        }
    }
}

} // verus!

