use vstd::prelude::*;

verus! {

/// The most fractional digits an amount may carry.
pub const MAX_SCALE: u32 = 28;

/// `10^n`.
pub open spec fn pow10(n: nat) -> int
    decreases n,
{
    if n == 0 {
        1
    } else {
        10 * pow10((n - 1) as nat)
    }
}

pub open spec fn fits_i128(x: int) -> bool {
    i128::MIN <= x <= i128::MAX
}

/// An exact decimal number, `mantissa / 10^scale`.
#[derive(Clone, Copy, Debug, PartialEq, Eq, Structural)]
pub struct Amount {
    pub mantissa: i128,
    pub scale: u32,
}

/// The mantissa of `a` written with `scale` fractional digits.
pub open spec fn aligned(a: Amount, scale: u32) -> int {
    a.mantissa * pow10((scale - a.scale) as nat)
}

pub open spec fn common_scale(a: Amount, b: Amount) -> u32 {
    if a.scale >= b.scale {
        a.scale
    } else {
        b.scale
    }
}

/// `a + b` at the larger of the two scales, or `None` where a mantissa at
/// that scale leaves `i128`.
pub open spec fn sum_of(a: Amount, b: Amount) -> Option<Amount> {
    let s = common_scale(a, b);
    let x = aligned(a, s);
    let y = aligned(b, s);
    if fits_i128(x) && fits_i128(y) && fits_i128(x + y) {
        Some(Amount { mantissa: (x + y) as i128, scale: s })
    } else {
        None
    }
}

/// `a - b` at the larger of the two scales, or `None` where a mantissa at
/// that scale leaves `i128`.
pub open spec fn difference_of(a: Amount, b: Amount) -> Option<Amount> {
    let s = common_scale(a, b);
    let x = aligned(a, s);
    let y = aligned(b, s);
    if fits_i128(x) && fits_i128(y) && fits_i128(x - y) {
        Some(Amount { mantissa: (x - y) as i128, scale: s })
    } else {
        None
    }
}

pub proof fn lemma_pow10_pos(n: nat)
    ensures
        pow10(n) >= 1,
    decreases n,
{
    if n > 0 {
        lemma_pow10_pos((n - 1) as nat);
    }
}

pub proof fn lemma_pow10_add(a: nat, b: nat)
    ensures
        pow10(a + b) == pow10(a) * pow10(b),
    decreases a,
{
    if a > 0 {
        lemma_pow10_add((a - 1) as nat, b);
        assert(pow10(a + b) == 10 * pow10((a - 1 + b) as nat));
        let p = pow10((a - 1) as nat);
        let q = pow10(b);
        assert(10 * (p * q) == (10 * p) * q) by (nonlinear_arith);
    }
}

/// Bringing an amount to a finer scale keeps its value.
pub proof fn lemma_aligned_units(a: Amount, s: u32)
    requires
        a.wf(),
        a.scale <= s <= MAX_SCALE,
    ensures
        a.units() == aligned(a, s) * pow10((MAX_SCALE - s) as nat),
{
    let p = pow10((s - a.scale) as nat);
    let q = pow10((MAX_SCALE - s) as nat);
    lemma_pow10_add((s - a.scale) as nat, (MAX_SCALE - s) as nat);
    assert((s - a.scale) as nat + (MAX_SCALE - s) as nat == (MAX_SCALE - a.scale) as nat);
    let m = a.mantissa as int;
    assert(m * (p * q) == (m * p) * q) by (nonlinear_arith);
}

/// A sum that exists is well formed and adds the values exactly.
pub proof fn lemma_sum_units(a: Amount, b: Amount)
    requires
        a.wf(),
        b.wf(),
        sum_of(a, b) is Some,
    ensures
        sum_of(a, b)->0.wf(),
        sum_of(a, b)->0.units() == a.units() + b.units(),
{
    let s = common_scale(a, b);
    lemma_aligned_units(a, s);
    lemma_aligned_units(b, s);
    let q = pow10((MAX_SCALE - s) as nat);
    let x = aligned(a, s);
    let y = aligned(b, s);
    assert((x + y) * q == x * q + y * q) by (nonlinear_arith);
}

/// A difference that exists is well formed and subtracts the values exactly.
pub proof fn lemma_difference_units(a: Amount, b: Amount)
    requires
        a.wf(),
        b.wf(),
        difference_of(a, b) is Some,
    ensures
        difference_of(a, b)->0.wf(),
        difference_of(a, b)->0.units() == a.units() - b.units(),
{
    let s = common_scale(a, b);
    lemma_aligned_units(a, s);
    lemma_aligned_units(b, s);
    let q = pow10((MAX_SCALE - s) as nat);
    let x = aligned(a, s);
    let y = aligned(b, s);
    assert((x - y) * q == x * q - y * q) by (nonlinear_arith);
}

/// `m * 10^k`, or `None` where that leaves `i128`.
fn scale_up(m: i128, k: u32) -> (r: Option<i128>)
    ensures
        r == (if fits_i128(m * pow10(k as nat)) {
            Some((m * pow10(k as nat)) as i128)
        } else {
            None::<i128>
        }),
{
    let mut acc: i128 = m;
    let mut i: u32 = 0;
    while i < k
        invariant
            i <= k,
            acc == m * pow10(i as nat),
        decreases k - i,
    {
        proof {
            assert(pow10(i as nat + 1) == 10 * pow10(i as nat));
            assert(m * (10 * pow10(i as nat)) == (m * pow10(i as nat)) * 10) by (nonlinear_arith);
        }
        match acc.checked_mul(10) {
            Some(v) => {
                acc = v;
                i = i + 1;
            },
            None => {
                proof {
                    let rest = (k - i - 1) as nat;
                    lemma_pow10_add(1 + i as nat, rest);
                    assert(pow10(i as nat + 1) == 10 * pow10(i as nat));
                    lemma_pow10_pos(rest);
                    assert(1 + i as nat + rest == k as nat);
                    let big = acc * 10;
                    let p = pow10(rest);
                    assert(m * (pow10(1 + i as nat) * p) == big * p) by (nonlinear_arith)
                        requires
                            big == m * pow10(1 + i as nat),
                    ;
                    if big > 0 {
                        assert(big * p >= big) by (nonlinear_arith)
                            requires
                                big > 0,
                                p >= 1,
                        ;
                    } else {
                        assert(big * p <= big) by (nonlinear_arith)
                            requires
                                big <= 0,
                                p >= 1,
                        ;
                    }
                }
                return None;
            },
        }
    }
    Some(acc)
}

impl Amount {
    pub open spec fn wf(self) -> bool {
        self.scale <= MAX_SCALE
    }

    /// The value in units of `10^-MAX_SCALE`.
    pub open spec fn units(self) -> int {
        self.mantissa * pow10((MAX_SCALE - self.scale) as nat)
    }

    pub fn zero() -> (r: Amount)
        ensures
            r == (Amount { mantissa: 0, scale: 0 }),
            r.wf(),
            r.units() == 0,
    {
        Amount { mantissa: 0, scale: 0 }
    }

    /// `mantissa / 10^scale`, where the scale is at most `MAX_SCALE`.
    pub fn new(mantissa: i128, scale: u32) -> (r: Option<Amount>)
        ensures
            r == (if scale <= MAX_SCALE {
                Some(Amount { mantissa, scale })
            } else {
                None::<Amount>
            }),
    {
        if scale <= MAX_SCALE {
            Some(Amount { mantissa, scale })
        } else {
            None
        }
    }

    pub fn checked_add(self, other: Amount) -> (r: Option<Amount>)
        ensures
            r == sum_of(self, other),
    {
        let s: u32 = if self.scale >= other.scale {
            self.scale
        } else {
            other.scale
        };
        let x = match scale_up(self.mantissa, s - self.scale) {
            Some(v) => v,
            None => return None,
        };
        let y = match scale_up(other.mantissa, s - other.scale) {
            Some(v) => v,
            None => return None,
        };
        match x.checked_add(y) {
            Some(m) => Some(Amount { mantissa: m, scale: s }),
            None => None,
        }
    }

    pub fn checked_sub(self, other: Amount) -> (r: Option<Amount>)
        ensures
            r == difference_of(self, other),
    {
        let s: u32 = if self.scale >= other.scale {
            self.scale
        } else {
            other.scale
        };
        let x = match scale_up(self.mantissa, s - self.scale) {
            Some(v) => v,
            None => return None,
        };
        let y = match scale_up(other.mantissa, s - other.scale) {
            Some(v) => v,
            None => return None,
        };
        match x.checked_sub(y) {
            Some(m) => Some(Amount { mantissa: m, scale: s }),
            None => None,
        }
    }

    /// Whether `self` is worth strictly less than `other`; exact at every
    /// magnitude.
    pub fn less_than(&self, other: &Amount) -> (r: bool)
        requires
            self.wf(),
            other.wf(),
        ensures
            r == (self.units() < other.units()),
    {
        let s: u32 = if self.scale >= other.scale {
            self.scale
        } else {
            other.scale
        };
        proof {
            lemma_aligned_units(*self, s);
            lemma_aligned_units(*other, s);
            lemma_pow10_pos((MAX_SCALE - s) as nat);
            lemma_pow10_pos((s - self.scale) as nat);
            lemma_pow10_pos((s - other.scale) as nat);
            let q = pow10((MAX_SCALE - s) as nat);
            let x = aligned(*self, s);
            let y = aligned(*other, s);
            assert((x < y) == (x * q < y * q)) by (nonlinear_arith)
                requires
                    q >= 1,
            ;
            let pa = pow10((s - self.scale) as nat);
            let pb = pow10((s - other.scale) as nat);
            let ma = self.mantissa as int;
            let mb = other.mantissa as int;
            assert((ma < 0) == (ma * pa < 0)) by (nonlinear_arith)
                requires
                    pa >= 1,
            ;
            assert((mb < 0) == (mb * pb < 0)) by (nonlinear_arith)
                requires
                    pb >= 1,
            ;
        }
        // At the common scale one side keeps its mantissa; where the other
        // side leaves i128 its sign alone decides.
        let x = scale_up(self.mantissa, s - self.scale);
        let y = scale_up(other.mantissa, s - other.scale);
        match (x, y) {
            (Some(a), Some(b)) => a < b,
            (None, _) => self.mantissa < 0,
            (_, None) => other.mantissa >= 0,
        }
    }
}

} // verus!
