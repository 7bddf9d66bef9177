use vstd::prelude::*;

use crate::decimal::{checked_pow10, pow10, score_to_apy, UDecimal};
use crate::signature::ed25519_public_key_is_valid;
use crate::signature::ed25519_public_key_valid;

verus! {

/// Length of an ed25519 public key in bytes.
pub const PUBLIC_KEY_LENGTH: usize = 32;

/// The minimum and maximum principal a jar of a product may hold.
#[derive(Copy, Clone, Debug, PartialEq, Eq)]
pub struct Cap {
    pub min: u128,
    pub max: u128,
}

/// A withdrawal fee: either a fixed amount or a share of the withdrawn amount.
#[derive(Copy, Clone, Debug, PartialEq, Eq)]
pub enum WithdrawalFee {
    Fix(u128),
    Percent(UDecimal),
}

/// An APY that an oracle may downgrade when a user breaks the product terms.
#[derive(Copy, Clone, Debug, PartialEq, Eq)]
pub struct DowngradableApy {
    pub default: UDecimal,
    pub fallback: UDecimal,
}

/// The annual percentage yield of a product.
#[derive(Copy, Clone, Debug, PartialEq, Eq)]
pub enum Apy {
    Constant(UDecimal),
    Downgradable(DowngradableApy),
}

impl Apy {
    pub open spec fn effective(self, is_penalty_applied: bool) -> UDecimal {
        match self {
            Apy::Constant(apy) => apy,
            Apy::Downgradable(apy) => if is_penalty_applied {
                apy.fallback
            } else {
                apy.default
            },
        }
    }

    /// Whether every decimal of the APY has an exponent in range.
    pub open spec fn exponents_in_range(self) -> bool {
        match self {
            Apy::Constant(apy) => apy.exponent_in_range(),
            Apy::Downgradable(apy) => apy.default.exponent_in_range() && apy.fallback.exponent_in_range(),
        }
    }

    /// Tells whether every decimal of the APY has an exponent in range.
    pub fn has_exponents_in_range(&self) -> (b: bool)
        ensures
            b == self.exponents_in_range(),
    {
        match self {
            Apy::Constant(apy) => apy.is_exponent_in_range(),
            Apy::Downgradable(apy) => apy.default.is_exponent_in_range() && apy.fallback.is_exponent_in_range(),
        }
    }

    /// The APY that applies: a downgradable APY falls back under penalty.
    pub fn get_effective(&self, is_penalty_applied: bool) -> (r: UDecimal)
        ensures
            r == self.effective(is_penalty_applied),
    {
        match self {
            Apy::Constant(apy) => *apy,
            Apy::Downgradable(apy) => if is_penalty_applied {
                apy.fallback
            } else {
                apy.default
            },
        }
    }
}

/// Terms of a fixed product: the lockup term and what the jar allows.
#[derive(Copy, Clone, Debug, PartialEq, Eq)]
pub struct FixedProductTerms {
    pub lockup_term: u64,
    pub allows_top_up: bool,
    pub allows_restaking: bool,
}

/// A product is either locked for a term (fixed) or flexible.
#[derive(Copy, Clone, Debug, PartialEq, Eq)]
pub enum Terms {
    Fixed(FixedProductTerms),
    Flexible,
}

/// The terms of a deposit jar.
#[derive(Clone, Debug)]
pub struct Product {
    pub id: String,
    pub apy: Apy,
    pub cap: Cap,
    pub terms: Terms,
    pub withdrawal_fee: Option<WithdrawalFee>,
    /// An ed25519 public key that must sign the tickets of this product, if any.
    pub public_key: Option<Vec<u8>>,
    pub is_enabled: bool,
    /// Zero for a product whose interest does not depend on the score.
    pub score_cap: u16,
}

/// Why a product refuses an operation.
#[derive(Clone, Debug, PartialEq, Eq)]
pub enum ProductError {
    /// The amount lies outside `[min..max]`.
    OutOfBounds { min: u128, max: u128 },
    Disabled,
    FeeTooHigh,
    PublicKeyLength,
    PublicKeyInvalid,
    AlreadyExists,
    StatusMatches,
    NotFound,
    ScoreProductUnprotected,
    CapOrder,
    /// A decimal of the product has an exponent whose power of ten leaves `u128`.
    ExponentOutOfRange,
}

/// Sum of the daily scores, each capped at `cap`.
pub open spec fn capped_score_sum(scores: Seq<u16>, cap: u16) -> nat
    decreases scores.len(),
{
    if scores.len() == 0 {
        0
    } else {
        capped_score_sum(scores.drop_last(), cap) + (if scores.last() < cap {
            scores.last()
        } else {
            cap
        }) as nat
    }
}

/// Whether a withdrawal fee lets a user pay no more than what was staked:
/// a fixed fee below the cap minimum, a share below one.
pub open spec fn fee_is_acceptable(fee: WithdrawalFee, cap: Cap) -> bool {
    match fee {
        WithdrawalFee::Fix(amount) => amount < cap.min,
        WithdrawalFee::Percent(p) => p.significand < p.scale(),
    }
}

impl Product {
    pub open spec fn spec_is_score_product(&self) -> bool {
        self.score_cap > 0
    }

    pub open spec fn spec_is_flexible(&self) -> bool {
        self.terms == Terms::Flexible
    }

    pub open spec fn spec_allows_top_up(&self) -> bool {
        self.is_enabled && match self.terms {
            Terms::Fixed(t) => t.allows_top_up,
            Terms::Flexible => true,
        }
    }

    pub open spec fn spec_allows_restaking(&self) -> bool {
        match self.terms {
            Terms::Fixed(t) => t.allows_restaking,
            Terms::Flexible => false,
        }
    }

    pub open spec fn cap_contains(&self, amount: u128) -> bool {
        self.cap.min <= amount <= self.cap.max
    }

    pub open spec fn fee_ok(&self) -> bool {
        match self.withdrawal_fee {
            None => true,
            Some(fee) => fee_is_acceptable(fee, self.cap),
        }
    }

    pub open spec fn public_key_ok(&self) -> bool {
        match self.public_key {
            None => true,
            Some(pk) => pk@.len() == PUBLIC_KEY_LENGTH && ed25519_public_key_valid(pk@),
        }
    }

    #[verifier::when_used_as_spec(spec_is_score_product)]
    pub fn is_score_product(&self) -> (b: bool)
        ensures
            b == self.spec_is_score_product(),
    {
        self.score_cap > 0
    }

    #[verifier::when_used_as_spec(spec_is_flexible)]
    pub fn is_flexible(&self) -> (b: bool)
        ensures
            b == self.spec_is_flexible(),
    {
        match self.terms {
            Terms::Flexible => true,
            Terms::Fixed(_) => false,
        }
    }

    #[verifier::when_used_as_spec(spec_allows_top_up)]
    pub fn allows_top_up(&self) -> (b: bool)
        ensures
            b == self.spec_allows_top_up(),
    {
        self.is_enabled && match &self.terms {
            Terms::Fixed(t) => t.allows_top_up,
            Terms::Flexible => true,
        }
    }

    #[verifier::when_used_as_spec(spec_allows_restaking)]
    pub fn allows_restaking(&self) -> (b: bool)
        ensures
            b == self.spec_allows_restaking(),
    {
        match &self.terms {
            Terms::Fixed(t) => t.allows_restaking,
            Terms::Flexible => false,
        }
    }

    /// The APY earned by the daily scores, each capped at the product's score cap.
    pub fn apy_for_score(&self, score: &Vec<u16>) -> (apy: UDecimal)
        requires
            capped_score_sum(score@, self.score_cap) <= u32::MAX,
        ensures
            apy.significand == capped_score_sum(score@, self.score_cap),
            apy.exponent == 5,
    {
        let mut total: u32 = 0;
        let mut i: usize = 0;
        while i < score.len()
            invariant
                i <= score.len(),
                total == capped_score_sum(score@.take(i as int), self.score_cap),
                capped_score_sum(score@, self.score_cap) <= u32::MAX,
            decreases score.len() - i,
        {
            proof {
                lemma_capped_score_sum_prefix(score@, self.score_cap, (i + 1) as int);
                assert(score@.take(i + 1).drop_last() =~= score@.take(i as int));
            }
            let day = score[i];
            let capped = if day < self.score_cap {
                day
            } else {
                self.score_cap
            };
            total = total + capped as u32;
            i = i + 1;
        }
        assert(score@.take(score.len() as int) =~= score@);
        score_to_apy(total)
    }

    /// Tells whether the daily scores, each capped at the product's score cap, sum
    /// within `u32`.
    pub fn is_score_sum_computable(&self, score: &Vec<u16>) -> (b: bool)
        ensures
            b == (capped_score_sum(score@, self.score_cap) <= u32::MAX),
    {
        let mut total: u32 = 0;
        let mut i: usize = 0;
        while i < score.len()
            invariant
                i <= score.len(),
                total == capped_score_sum(score@.take(i as int), self.score_cap),
            decreases score.len() - i,
        {
            proof {
                lemma_capped_score_sum_prefix(score@, self.score_cap, (i + 1) as int);
                assert(score@.take(i + 1).drop_last() =~= score@.take(i as int));
            }
            let day = score[i];
            let capped = if day < self.score_cap {
                day
            } else {
                self.score_cap
            };
            match total.checked_add(capped as u32) {
                Some(t) => total = t,
                None => return false,
            }
            i = i + 1;
        }
        assert(score@.take(score.len() as int) =~= score@);
        true
    }

    /// `Ok` exactly when `amount` lies within the cap of the product.
    pub fn check_cap(&self, amount: u128) -> (r: Result<(), ProductError>)
        ensures
            r is Ok <==> self.cap_contains(amount),
            r is Err ==> r == Err::<(), ProductError>(
                ProductError::OutOfBounds { min: self.cap.min, max: self.cap.max },
            ),
    {
        if self.cap.min > amount || amount > self.cap.max {
            Err(ProductError::OutOfBounds { min: self.cap.min, max: self.cap.max })
        } else {
            Ok(())
        }
    }

    /// `Ok` exactly when new jars may be created for the product.
    pub fn check_enabled(&self) -> (r: Result<(), ProductError>)
        ensures
            r is Ok <==> self.is_enabled,
            r is Err ==> r == Err::<(), ProductError>(ProductError::Disabled),
    {
        if self.is_enabled {
            Ok(())
        } else {
            Err(ProductError::Disabled)
        }
    }

    /// `Ok` exactly when the withdrawal fee cannot exceed what a user staked.
    pub fn check_fee_amount(&self) -> (r: Result<(), ProductError>)
        ensures
            r is Ok <==> self.fee_ok(),
            r is Err ==> r == Err::<(), ProductError>(ProductError::FeeTooHigh),
    {
        let fee_ok = match &self.withdrawal_fee {
            None => true,
            Some(WithdrawalFee::Fix(amount)) => *amount < self.cap.min,
            Some(WithdrawalFee::Percent(percent)) => match checked_pow10(percent.exponent) {
                // A scale beyond `u128` exceeds every significand.
                None => true,
                Some(scale) => percent.significand < scale,
            },
        };
        if fee_ok {
            Ok(())
        } else {
            Err(ProductError::FeeTooHigh)
        }
    }

    /// `Ok` exactly when the product has no public key or a well-formed ed25519 key.
    pub fn check_public_key(&self) -> (r: Result<(), ProductError>)
        ensures
            r is Ok <==> self.public_key_ok(),
            r matches Err(e) ==> (e == ProductError::PublicKeyLength <==> self.public_key.unwrap()@.len()
                != PUBLIC_KEY_LENGTH),
            r matches Err(e) ==> (e == ProductError::PublicKeyLength || e
                == ProductError::PublicKeyInvalid),
    {
        match &self.public_key {
            None => Ok(()),
            Some(pk) => {
                if pk.len() != PUBLIC_KEY_LENGTH {
                    Err(ProductError::PublicKeyLength)
                } else if ed25519_public_key_is_valid(pk.as_slice()) {
                    Ok(())
                } else {
                    Err(ProductError::PublicKeyInvalid)
                }
            },
        }
    }
}

/// Summing a prefix one more element at a time.
pub proof fn lemma_capped_score_sum_prefix(scores: Seq<u16>, cap: u16, n: int)
    requires
        0 < n <= scores.len(),
    ensures
        capped_score_sum(scores.take(n), cap) == capped_score_sum(scores.take(n - 1), cap) + (
        if scores[n - 1] < cap {
            scores[n - 1]
        } else {
            cap
        }) as nat,
        capped_score_sum(scores.take(n), cap) <= capped_score_sum(scores, cap),
    decreases scores.len(),
{
    assert(scores.take(n).drop_last() =~= scores.take(n - 1));
    if n < scores.len() {
        lemma_capped_score_sum_prefix(scores.drop_last(), cap, n);
        assert(scores.drop_last().take(n) =~= scores.take(n));
    } else {
        assert(scores.take(n) =~= scores);
    }
}

} // verus!
