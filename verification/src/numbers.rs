//! The order of numbers.
//!
//! An integer and a real are compared by their values, not by turning one into the other, which
//! would lose digits. A real is given by the bits of its binary64 form: sign, exponent, fraction.

use vstd::arithmetic::power2::{
    lemma2_to64, lemma2_to64_rest, lemma_pow2_adds, lemma_pow2_pos, lemma_pow2_strictly_increases,
    lemma_pow2_unfold, pow2,
};
use vstd::prelude::*;

use crate::value::{Numeric, NumericView};

verus! {

/// How one thing stands to another.
#[derive(Debug, PartialEq, Eq, Clone, Copy, Structural)]
pub enum Relation {
    Less,
    Equal,
    Greater,
}

impl Relation {
    /// How the other stands to the one.
    pub open spec fn flipped(self) -> Relation {
        match self {
            Relation::Less => Relation::Greater,
            Relation::Equal => Relation::Equal,
            Relation::Greater => Relation::Less,
        }
    }

    pub fn flip(self) -> (r: Relation)
        ensures
            r == self.flipped(),
    {
        match self {
            Relation::Less => Relation::Greater,
            Relation::Equal => Relation::Equal,
            Relation::Greater => Relation::Less,
        }
    }
}

/// How an integer stands to another.
pub open spec fn relation(a: int, b: int) -> Relation {
    if a < b {
        Relation::Less
    } else if a > b {
        Relation::Greater
    } else {
        Relation::Equal
    }
}

/// The size of a real without its sign, in units of the smallest positive real.
pub open spec fn magnitude(bits: int) -> int {
    let exponent = bits / 0x10_0000_0000_0000;
    let fraction = bits % 0x10_0000_0000_0000;
    if exponent == 0 {
        fraction
    } else {
        (0x10_0000_0000_0000 + fraction) * pow2((exponent - 1) as nat)
    }
}

/// The bits of a real without its sign.
pub open spec fn unsigned_bits(bits: u64) -> int {
    bits as int % 0x8000_0000_0000_0000
}

/// A real in units of the smallest positive real.
pub open spec fn real_units(bits: u64) -> int {
    if bits >= 0x8000_0000_0000_0000 {
        -magnitude(unsigned_bits(bits))
    } else {
        magnitude(unsigned_bits(bits))
    }
}

/// A number in units of the smallest positive real.
pub open spec fn units(n: NumericView) -> int {
    match n {
        NumericView::Integer(i) => i * pow2(1074),
        NumericView::Float(r) => real_units(r.bits),
    }
}

proof fn lemma_magnitude_grows(a: int, b: int)
    requires
        0 <= a < b < 0x8000_0000_0000_0000,
    ensures
        0 <= magnitude(a) < magnitude(b),
{
    let unit = 0x10_0000_0000_0000int;
    let ea = a / unit;
    let fa = a % unit;
    let eb = b / unit;
    let fb = b % unit;
    assert(0 <= fa < unit && 0 <= fb < unit);
    assert(a == ea * unit + fa && b == eb * unit + fb);
    assert(ea <= eb);
    if eb > 0 {
        lemma_pow2_pos((eb - 1) as nat);
    }
    if ea > 0 {
        lemma_pow2_pos((ea - 1) as nat);
        let pa = pow2((ea - 1) as nat) as int;
        assert((unit + fa) * pa >= 0) by (nonlinear_arith)
            requires
                unit + fa >= 0,
                pa > 0,
        ;
    }
    if ea == eb {
        assert(fa < fb);
        if ea > 0 {
            let p = pow2((ea - 1) as nat) as int;
            assert((unit + fa) * p < (unit + fb) * p) by (nonlinear_arith)
                requires
                    unit + fa < unit + fb,
                    p > 0,
            ;
        }
    } else if ea == 0 {
        let p = pow2((eb - 1) as nat) as int;
        assert((unit + fb) * p >= unit) by (nonlinear_arith)
            requires
                unit > 0,
                fb >= 0,
                p >= 1,
        ;
    } else {
        // The larger exponent is at least one more, and doubles what any fraction can add.
        let p = pow2((ea - 1) as nat) as int;
        let q = pow2((eb - 1) as nat) as int;
        lemma_pow2_unfold(ea as nat);
        if ea < eb - 1 {
            lemma_pow2_strictly_increases(ea as nat, (eb - 1) as nat);
        }
        assert(pow2(ea as nat) == 2 * p);
        assert(q >= 2 * p);
        assert((unit + fa) * p < 2 * unit * p) by (nonlinear_arith)
            requires
                fa < unit,
                p > 0,
        ;
        assert(2 * unit * p <= unit * q) by (nonlinear_arith)
            requires
                q >= 2 * p,
                unit > 0,
        ;
        assert(unit * q <= (unit + fb) * q) by (nonlinear_arith)
            requires
                fb >= 0,
                q > 0,
        ;
    }
}

/// Compares two reals by their bits.
fn compare_reals(a: u64, b: u64) -> (r: Relation)
    ensures
        r == relation(real_units(a), real_units(b)),
{
    let ma: u64 = a % 0x8000_0000_0000_0000;
    let mb: u64 = b % 0x8000_0000_0000_0000;
    let na = a >= 0x8000_0000_0000_0000;
    let nb = b >= 0x8000_0000_0000_0000;
    proof {
        if ma < mb {
            lemma_magnitude_grows(ma as int, mb as int);
        } else if mb < ma {
            lemma_magnitude_grows(mb as int, ma as int);
        }
        if ma > 0 {
            lemma_magnitude_grows(0, ma as int);
        }
        if mb > 0 {
            lemma_magnitude_grows(0, mb as int);
        }
        assert(magnitude(0) == 0);
    }
    if na && nb {
        if ma < mb {
            Relation::Greater
        } else if ma > mb {
            Relation::Less
        } else {
            Relation::Equal
        }
    } else if na {
        if ma == 0 && mb == 0 {
            Relation::Equal
        } else {
            Relation::Less
        }
    } else if nb {
        if ma == 0 && mb == 0 {
            Relation::Equal
        } else {
            Relation::Greater
        }
    } else if ma < mb {
        Relation::Less
    } else if ma > mb {
        Relation::Greater
    } else {
        Relation::Equal
    }
}

fn power_of_two(e: u32) -> (r: u128)
    requires
        e <= 64,
    ensures
        r == pow2(e as nat),
{
    proof {
        lemma2_to64();
    }
    let mut p: u128 = 1;
    let mut i: u32 = 0;
    while i < e
        invariant
            i <= e <= 64,
            p == pow2(i as nat),
        decreases e - i,
    {
        proof {
            lemma_pow2_unfold((i + 1) as nat);
            lemma2_to64();
            if i < 64 {
                lemma_pow2_strictly_increases(i as nat, 64);
            }
            assert(pow2(64) == 0x1_0000_0000_0000_0000);
        }
        p = p * 2;
        i += 1;
    }
    p
}

/// Compares the size of an integer with that of a real. `n` is the integer without its sign, and
/// `m` are the bits of the real without its sign.
fn compare_sizes(n: u64, m: u64) -> (r: Relation)
    requires
        n <= 0x8000_0000_0000_0000,
        m < 0x8000_0000_0000_0000,
    ensures
        r == relation(n * pow2(1074), magnitude(m as int)),
{
    let exponent: u64 = m / 0x10_0000_0000_0000;
    let fraction: u64 = m % 0x10_0000_0000_0000;
    let ghost unit = 0x10_0000_0000_0000int;
    let ghost big = pow2(1074) as int;
    proof {
        lemma2_to64();
        lemma2_to64_rest();
        lemma_pow2_pos(1074);
        lemma_pow2_strictly_increases(53, 1074);
        assert(pow2(53) == 0x20_0000_0000_0000);
    }
    if n == 0 {
        proof {
            assert(0 * big == 0);
            if m > 0 {
                lemma_magnitude_grows(0, m as int);
            }
            assert(magnitude(0) == 0);
        }
        return if m == 0 {
            Relation::Equal
        } else {
            Relation::Less
        };
    }
    if exponent == 0 {
        proof {
            assert(n * big >= big) by (nonlinear_arith)
                requires
                    n >= 1,
                    big > 0,
            ;
        }
        return Relation::Greater;
    }
    let mantissa: u64 = 0x10_0000_0000_0000 + fraction;
    let ghost e = (exponent - 1) as nat;
    proof {
        lemma_pow2_pos(e);
    }
    if exponent >= 1075 {
        let d: u64 = exponent - 1075;
        proof {
            lemma_pow2_adds(1074, d as nat);
            assert(pow2(e) == big * pow2(d as nat));
            lemma_pow2_pos(d as nat);
        }
        let ghost pd = pow2(d as nat) as int;
        assert(mantissa * (big * pd) == (mantissa * pd) * big) by (nonlinear_arith);
        if d >= 12 {
            proof {
                if d > 12 {
                    lemma_pow2_strictly_increases(12, d as nat);
                }
                assert(pd >= 0x1000);
                assert(mantissa * pd >= unit * 0x1000) by (nonlinear_arith)
                    requires
                        mantissa >= unit,
                        pd >= 0x1000,
                        unit == 0x10_0000_0000_0000,
                ;
                assert(n * big < (mantissa * pd) * big) by (nonlinear_arith)
                    requires
                        n < mantissa * pd,
                        big > 0,
                ;
            }
            return Relation::Less;
        }
        let p: u128 = power_of_two(d as u32);
        proof {
            if d < 12 {
                lemma_pow2_strictly_increases(d as nat, 12);
            }
            assert(mantissa * p < 0x20_0000_0000_0000 * 0x1000) by (nonlinear_arith)
                requires
                    mantissa < 0x20_0000_0000_0000,
                    p < 0x1000,
                    p > 0,
            ;
        }
        let whole: u128 = mantissa as u128 * p;
        proof {
            let x = n as int;
            let y = whole as int;
            assert(y == mantissa * pd);
            lemma_scale(x, y, big);
        }
        if (n as u128) < whole {
            Relation::Less
        } else if (n as u128) > whole {
            Relation::Greater
        } else {
            Relation::Equal
        }
    } else {
        let s: u64 = 1075 - exponent;
        proof {
            lemma_pow2_adds(s as nat, e);
            assert(big == pow2(s as nat) * pow2(e));
            lemma_pow2_pos(s as nat);
        }
        let ghost ps = pow2(s as nat) as int;
        let ghost pe = pow2(e) as int;
        assert(n * (ps * pe) == (n * ps) * pe) by (nonlinear_arith);
        if s >= 53 {
            proof {
                if s > 53 {
                    lemma_pow2_strictly_increases(53, s as nat);
                }
                assert(n * ps >= ps) by (nonlinear_arith)
                    requires
                        n >= 1,
                        ps > 0,
                ;
                lemma_scale(n * ps, mantissa as int, pe);
            }
            return Relation::Greater;
        }
        let p: u128 = power_of_two(s as u32);
        proof {
            lemma_pow2_strictly_increases(s as nat, 53);
            assert(n * p < 0x1_0000_0000_0000_0000 * 0x20_0000_0000_0000) by (nonlinear_arith)
                requires
                    n < 0x1_0000_0000_0000_0000,
                    p < 0x20_0000_0000_0000,
                    p > 0,
                    n > 0,
            ;
            assert(n * p >= 0) by (nonlinear_arith)
                requires
                    n >= 0,
                    p > 0,
            ;
        }
        let whole: u128 = n as u128 * p;
        proof {
            lemma_scale(whole as int, mantissa as int, pe);
        }
        if whole < mantissa as u128 {
            Relation::Less
        } else if whole > mantissa as u128 {
            Relation::Greater
        } else {
            Relation::Equal
        }
    }
}

proof fn lemma_scale(x: int, y: int, k: int)
    requires
        k > 0,
    ensures
        relation(x * k, y * k) == relation(x, y),
{
    if x < y {
        assert(x * k < y * k) by (nonlinear_arith)
            requires
                x < y,
                k > 0,
        ;
    } else if x > y {
        assert(x * k > y * k) by (nonlinear_arith)
            requires
                x > y,
                k > 0,
        ;
    }
}

/// Compares an integer with a real.
fn compare_integer_real(i: i64, bits: u64) -> (r: Relation)
    ensures
        r == relation(i * pow2(1074), real_units(bits)),
{
    let m: u64 = bits % 0x8000_0000_0000_0000;
    let negative = bits >= 0x8000_0000_0000_0000;
    let ghost big = pow2(1074) as int;
    proof {
        lemma_pow2_pos(1074);
        assert(magnitude(0) == 0);
        if m > 0 {
            lemma_magnitude_grows(0, m as int);
        }
        assert(0 * big == 0);
    }
    if i >= 0 {
        if negative {
            proof {
                assert(i * big >= 0) by (nonlinear_arith)
                    requires
                        i >= 0,
                        big > 0,
                ;
                if i > 0 {
                    assert(i * big > 0) by (nonlinear_arith)
                        requires
                            i > 0,
                            big > 0,
                    ;
                }
            }
            if i == 0 && m == 0 {
                Relation::Equal
            } else {
                Relation::Greater
            }
        } else {
            compare_sizes(i as u64, m)
        }
    } else {
        let n: u64 = if i == i64::MIN {
            0x8000_0000_0000_0000
        } else {
            (-i) as u64
        };
        proof {
            assert(n == -i);
            assert(i * big == -(n * big)) by (nonlinear_arith)
                requires
                    n == -i,
            ;
            assert(i * big < 0) by (nonlinear_arith)
                requires
                    i < 0,
                    big > 0,
            ;
        }
        if negative {
            compare_sizes(n, m).flip()
        } else {
            Relation::Less
        }
    }
}

impl Numeric {
    /// How the number stands to another.
    pub fn compare(&self, other: &Numeric) -> (r: Relation)
        ensures
            r == relation(units(self@), units(other@)),
    {
        match (self, other) {
            (Numeric::Integer(a), Numeric::Integer(b)) => {
                proof {
                    lemma_pow2_pos(1074);
                    lemma_scale(*a as int, *b as int, pow2(1074) as int);
                }
                if *a < *b {
                    Relation::Less
                } else if *a > *b {
                    Relation::Greater
                } else {
                    Relation::Equal
                }
            },
            (Numeric::Float(a), Numeric::Float(b)) => compare_reals(a.bits, b.bits),
            (Numeric::Integer(i), Numeric::Float(b)) => compare_integer_real(*i, b.bits),
            (Numeric::Float(a), Numeric::Integer(i)) => compare_integer_real(*i, a.bits).flip(),
        }
    }
}

/// A real is what its binary64 form says: in units of the smallest positive real, a fraction alone
/// counts as it is, and with an exponent the fraction and the bit before it count twice as much with
/// each further exponent. A sign bit negates it. An integer is as many units as it would take reals.
pub proof fn law_reals_have_the_value_of_their_form(exponent: int, fraction: int, i: i64)
    requires
        0 <= exponent < 2048,
        0 <= fraction < 0x10_0000_0000_0000,
    ensures
        ({
            let bits = exponent * 0x10_0000_0000_0000 + fraction;
            let size = if exponent == 0 {
                fraction
            } else {
                (0x10_0000_0000_0000 + fraction) * pow2((exponent - 1) as nat)
            };
            &&& real_units(bits as u64) == size
            &&& real_units((bits + 0x8000_0000_0000_0000) as u64) == -size
        }),
        units(NumericView::Integer(i)) == i * pow2(1074),
{
    let unit = 0x10_0000_0000_0000int;
    let bits = exponent * unit + fraction;
    assert(0 <= bits < 0x8000_0000_0000_0000);
    assert(bits / unit == exponent && bits % unit == fraction) by (nonlinear_arith)
        requires
            bits == exponent * unit + fraction,
            unit == 0x10_0000_0000_0000int,
            0 <= fraction < unit,
            0 <= exponent,
    ;
    assert(unsigned_bits(bits as u64) == bits);
    assert(unsigned_bits((bits + 0x8000_0000_0000_0000) as u64) == bits);
}

} // verus!
