use vstd::prelude::*;

verus! {

/// Ten raised to `e`.
pub open spec fn pow10(e: nat) -> nat
    decreases e,
{
    if e == 0 {
        1
    } else {
        10 * pow10((e - 1) as nat)
    }
}

/// Powers of ten grow with the exponent.
pub proof fn lemma_pow10_monotone(a: nat, b: nat)
    requires
        a <= b,
    ensures
        1 <= pow10(a) <= pow10(b),
    decreases b,
{
    if b > 0 {
        if a < b {
            lemma_pow10_monotone(a, (b - 1) as nat);
        } else {
            lemma_pow10_monotone((b - 1) as nat, (b - 1) as nat);
        }
    }
}

/// An unsigned decimal number `significand / 10^exponent`.
#[derive(Copy, Clone, Debug, PartialEq, Eq)]
pub struct UDecimal {
    pub significand: u128,
    pub exponent: u32,
}

/// Largest exponent whose power of ten fits in `u128`.
pub open spec fn max_exponent() -> nat {
    38
}

impl UDecimal {
    /// The divisor `10^exponent`.
    pub open spec fn scale(self) -> nat {
        pow10(self.exponent as nat)
    }

    /// `amount` multiplied by this decimal, rounded down.
    pub open spec fn apply(self, amount: nat) -> nat {
        (amount * (self.significand as nat)) / self.scale()
    }

    /// Whether `amount` can be multiplied by this decimal without leaving `u128`.
    pub open spec fn can_apply(self, amount: nat) -> bool {
        &&& self.scale() <= u128::MAX
        &&& amount * (self.significand as nat) <= u128::MAX
    }

    /// Whether the divisor `10^exponent` fits in `u128`.
    pub open spec fn exponent_in_range(self) -> bool {
        self.scale() <= u128::MAX
    }

    /// Tells whether the divisor `10^exponent` fits in `u128`.
    pub fn is_exponent_in_range(&self) -> (b: bool)
        ensures
            b == self.exponent_in_range(),
    {
        checked_pow10(self.exponent).is_some()
    }

    pub fn new(significand: u128, exponent: u32) -> (d: UDecimal)
        ensures
            d.significand == significand,
            d.exponent == exponent,
    {
        UDecimal { significand, exponent }
    }

    pub fn zero() -> (d: UDecimal)
        ensures
            d.significand == 0,
            d.exponent == 0,
    {
        UDecimal { significand: 0, exponent: 0 }
    }

    pub fn is_zero(&self) -> (b: bool)
        ensures
            b == (self.significand == 0),
    {
        self.significand == 0
    }

    /// `amount * significand / 10^exponent`, rounded down.
    pub fn mul(&self, amount: u128) -> (r: u128)
        requires
            self.can_apply(amount as nat),
        ensures
            r == self.apply(amount as nat),
    {
        let scale = checked_pow10(self.exponent);
        proof {
            lemma_pow10_monotone(0, self.exponent as nat);
        }
        match scale {
            Some(s) => {
                let product = amount * self.significand;
                product / s
            },
            None => {
                // unreachable: the scale fits by the precondition
                0
            },
        }
    }
}

/// `10^e`, or `None` when it does not fit in `u128`.
pub fn checked_pow10(e: u32) -> (r: Option<u128>)
    ensures
        r matches Some(v) ==> v as nat == pow10(e as nat),
        r is None <==> pow10(e as nat) > u128::MAX,
{
    let mut acc: u128 = 1;
    let mut i: u32 = 0;
    while i < e
        invariant
            i <= e,
            acc as nat == pow10(i as nat),
        decreases e - i,
    {
        match acc.checked_mul(10) {
            Some(next) => {
                acc = next;
                i = i + 1;
            },
            None => {
                proof {
                    lemma_pow10_monotone((i + 1) as nat, e as nat);
                }
                return None;
            },
        }
    }
    Some(acc)
}

/// The APY that a score earns: one percent for every thousand points,
/// that is `score / 10^5`.
pub fn score_to_apy(score: u32) -> (d: UDecimal)
    ensures
        d.significand == score as u128,
        d.exponent == 5,
{
    UDecimal { significand: score as u128, exponent: 5 }
}

} // verus!
