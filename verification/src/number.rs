//! The arithmetic of binary floating-point numbers, as mathematics.
//!
//! Each function says what an operation of IEEE 754 returns: the exact result,
//! rounded to the nearest number of the format, ties to even.
use crate::rounding::{lemma_pow2_monotone, lemma_representable, nearest};
use vstd::arithmetic::power2::{
    lemma2_to64, lemma2_to64_rest, lemma_pow2_adds, lemma_pow2_pos, pow2,
};
use vstd::prelude::*;

verus! {

/// What a bit pattern stands for. A finite number is counted in quanta of
/// `2^-1074`, the smallest positive number of the format: every finite number
/// of the format is a whole number of them.
pub enum Number {
    NotANumber,
    Infinite { negative: bool },
    Finite { negative: bool, quanta: nat },
}

/// The number of quanta in one.
pub open spec fn one() -> nat {
    pow2(1074)
}

impl Number {
    /// The finite number as a signed count of quanta.
    pub open spec fn signed(self) -> int {
        match self {
            Number::Finite { negative, quanta } => if negative {
                -(quanta as int)
            } else {
                quanta as int
            },
            _ => 0,
        }
    }

    pub open spec fn is_negative(self) -> bool {
        match self {
            Number::Finite { negative, .. } => negative,
            Number::Infinite { negative } => negative,
            Number::NotANumber => false,
        }
    }
}

/// `num / den` quanta rounded to the nearest number of the format.
pub open spec fn rounded(negative: bool, num: nat, den: nat) -> Number {
    let quanta = nearest(num, den, 53, 0);
    if quanta >= pow2(2098) {
        Number::Infinite { negative }
    } else {
        Number::Finite { negative, quanta }
    }
}

/// `num / den` quanta rounded to the nearest single-precision number.
pub open spec fn rounded_single(negative: bool, num: nat, den: nat) -> Number {
    let quanta = nearest(num, den, 24, 925);
    if quanta >= pow2(1202) {
        Number::Infinite { negative }
    } else {
        Number::Finite { negative, quanta }
    }
}

/// The number nearest to the integer `n`.
pub open spec fn of_integer(n: int) -> Number {
    rounded(n < 0, (if n < 0 {
        -n
    } else {
        n
    }) as nat * one(), 1)
}

/// The single-precision number nearest to the integer `n`.
pub open spec fn single_of_integer(n: nat) -> Number {
    rounded_single(false, n * one(), 1)
}

pub open spec fn negated(a: Number) -> Number {
    match a {
        Number::NotANumber => Number::NotANumber,
        Number::Infinite { negative } => Number::Infinite { negative: !negative },
        Number::Finite { negative, quanta } => Number::Finite { negative: !negative, quanta },
    }
}

pub open spec fn sum(a: Number, b: Number) -> Number {
    match (a, b) {
        (Number::NotANumber, _) => Number::NotANumber,
        (_, Number::NotANumber) => Number::NotANumber,
        (Number::Infinite { negative: x }, Number::Infinite { negative: y }) => if x == y {
            a
        } else {
            Number::NotANumber
        },
        (Number::Infinite { .. }, _) => a,
        (_, Number::Infinite { .. }) => b,
        (Number::Finite { negative: x, .. }, Number::Finite { negative: y, .. }) => finite_sum(
            a.signed() + b.signed(),
            x && y,
        ),
    }
}

/// A total of `total` quanta, rounded; an exact zero has the given sign.
pub open spec fn finite_sum(total: int, negative_zero: bool) -> Number {
    if total == 0 {
        Number::Finite { negative: negative_zero, quanta: 0 }
    } else if total < 0 {
        rounded(true, (-total) as nat, 1)
    } else {
        rounded(false, total as nat, 1)
    }
}

pub open spec fn difference(a: Number, b: Number) -> Number {
    sum(a, negated(b))
}

pub open spec fn product(a: Number, b: Number) -> Number {
    match (a, b) {
        (Number::NotANumber, _) => Number::NotANumber,
        (_, Number::NotANumber) => Number::NotANumber,
        (Number::Infinite { negative: x }, Number::Infinite { negative: y }) => Number::Infinite {
            negative: x != y,
        },
        (Number::Infinite { negative: x }, Number::Finite { negative: y, quanta }) => if quanta
            == 0 {
            Number::NotANumber
        } else {
            Number::Infinite { negative: x != y }
        },
        (Number::Finite { negative: x, quanta }, Number::Infinite { negative: y }) => if quanta
            == 0 {
            Number::NotANumber
        } else {
            Number::Infinite { negative: x != y }
        },
        (
            Number::Finite { negative: x, quanta: p },
            Number::Finite { negative: y, quanta: q },
        ) => rounded(x != y, p * q, one()),
    }
}

/// The product rounded to single precision.
pub open spec fn single_product(a: Number, b: Number) -> Number {
    match (a, b) {
        (
            Number::Finite { negative: x, quanta: p },
            Number::Finite { negative: y, quanta: q },
        ) => rounded_single(x != y, p * q, one()),
        _ => product(a, b),
    }
}

pub open spec fn quotient(a: Number, b: Number) -> Number {
    match (a, b) {
        (Number::NotANumber, _) => Number::NotANumber,
        (_, Number::NotANumber) => Number::NotANumber,
        (Number::Infinite { .. }, Number::Infinite { .. }) => Number::NotANumber,
        (Number::Infinite { negative: x }, Number::Finite { negative: y, .. }) => Number::Infinite {
            negative: x != y,
        },
        (Number::Finite { negative: x, .. }, Number::Infinite { negative: y }) => Number::Finite {
            negative: x != y,
            quanta: 0,
        },
        (
            Number::Finite { negative: x, quanta: p },
            Number::Finite { negative: y, quanta: q },
        ) => if q == 0 {
            if p == 0 {
                Number::NotANumber
            } else {
                Number::Infinite { negative: x != y }
            }
        } else {
            rounded(x != y, p * one(), q)
        },
    }
}

/// Whether `a` is less than `b`; no order holds with a value that is not a
/// number.
pub open spec fn less(a: Number, b: Number) -> bool {
    match (a, b) {
        (Number::NotANumber, _) => false,
        (_, Number::NotANumber) => false,
        (Number::Infinite { negative: x }, Number::Infinite { negative: y }) => x && !y,
        (Number::Infinite { negative: x }, _) => x,
        (_, Number::Infinite { negative: y }) => !y,
        (Number::Finite { .. }, Number::Finite { .. }) => a.signed() < b.signed(),
    }
}

/// Whether `a` is greater than zero.
pub open spec fn positive(a: Number) -> bool {
    less(Number::Finite { negative: false, quanta: 0 }, a)
}

/// Whether `a` is less than or equal to `b`.
pub open spec fn at_most(a: Number, b: Number) -> bool {
    a !is NotANumber && b !is NotANumber && !less(b, a)
}

/// The lesser of two numbers; the other one where one is not a number.
pub open spec fn lesser(a: Number, b: Number) -> Number {
    if b is NotANumber || at_most(a, b) {
        a
    } else {
        b
    }
}

/// The greater of two numbers; the other one where one is not a number.
pub open spec fn greater(a: Number, b: Number) -> Number {
    if b is NotANumber || at_most(b, a) {
        a
    } else {
        b
    }
}

/// The nearest integer, halves away from zero, within the range of `i64`;
/// zero for a value that is not a number.
pub open spec fn nearest_integer(a: Number) -> i64 {
    match a {
        Number::NotANumber => 0,
        Number::Infinite { negative } => if negative {
            i64::MIN
        } else {
            i64::MAX
        },
        Number::Finite { negative, quanta } => {
            let whole = (2 * quanta + one()) / (2 * one());
            if negative {
                if whole > 0x8000_0000_0000_0000 {
                    i64::MIN
                } else {
                    (-(whole as int)) as i64
                }
            } else if whole > i64::MAX {
                i64::MAX
            } else {
                whole as i64
            }
        },
    }
}

/// The least integer that is no less, within the range of `usize`; zero for a
/// value that is not a number.
pub open spec fn ceiling(a: Number) -> usize {
    match a {
        Number::NotANumber => 0,
        Number::Infinite { negative } => if negative {
            0
        } else {
            usize::MAX
        },
        Number::Finite { negative, quanta } => if negative {
            0
        } else {
            let whole = (quanta + one() - 1) as nat / one();
            if whole > usize::MAX {
                usize::MAX
            } else {
                whole as usize
            }
        },
    }
}

/// Integers of at most 53 bits are represented exactly.
pub proof fn lemma_integer_is_exact(n: int)
    requires
        -0x20_0000_0000_0000 < n < 0x20_0000_0000_0000,
    ensures
        of_integer(n) == (Number::Finite {
            negative: n < 0,
            quanta: (if n < 0 {
                -n
            } else {
                n
            }) as nat * one(),
        }),
{
    let magnitude = (if n < 0 {
        -n
    } else {
        n
    }) as nat;
    lemma2_to64();
    lemma2_to64_rest();
    let quanta = magnitude * pow2(1074);
    assert(quanta == 1 * quanta);
    lemma_representable(quanta, 1, magnitude, 1074, 53, 0);
    lemma_pow2_adds(53, 1074);
    lemma_pow2_pos(1074);
    lemma_pow2_monotone(1127, 2098);
    assert(quanta < pow2(53) * pow2(1074)) by (nonlinear_arith)
        requires
            quanta == magnitude * pow2(1074),
            magnitude < pow2(53),
            pow2(1074) > 0,
    ;
}

/// The number one is exactly what it says.
pub proof fn lemma_one_is_exact()
    ensures
        of_integer(1) == (Number::Finite { negative: false, quanta: one() }),
        one() > 0,
{
    lemma_pow2_pos(1074);
    lemma_integer_is_exact(1);
    assert(1 * one() == one());
}

} // verus!
