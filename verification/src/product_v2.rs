use vstd::prelude::*;

use crate::common::{accrue, MS_IN_DAY, MS_IN_YEAR};
use crate::decimal::{checked_pow10, UDecimal};
use crate::jar::{JarCache, ScoreRecord};
use crate::jar_v2::{deposits_before, deposits_sorted, principal_sum, sum_prefix, Deposit, JarV2,
    lemma_principal_sum_monotone};
use crate::product::{capped_score_sum, fee_is_acceptable, Apy, Cap, Product, ProductError, WithdrawalFee,
    PUBLIC_KEY_LENGTH};
use crate::product;
use crate::signature::{ed25519_public_key_is_valid, ed25519_public_key_valid};

verus! {

/// Terms of a fixed product: interest accrues during the lockup term only.
#[derive(Copy, Clone, Debug, PartialEq, Eq)]
pub struct FixedProductTerms {
    pub lockup_term: u64,
    pub apy: Apy,
}

/// Terms of a flexible product: interest accrues until withdrawal.
#[derive(Copy, Clone, Debug, PartialEq, Eq)]
pub struct FlexibleProductTerms {
    pub apy: Apy,
}

/// Terms of a product whose APY comes from the account's daily score.
#[derive(Copy, Clone, Debug, PartialEq, Eq)]
pub struct ScoreBasedProductTerms {
    pub score_cap: u16,
    pub lockup_term: u64,
}

#[derive(Copy, Clone, Debug, PartialEq, Eq)]
pub enum Terms {
    Fixed(FixedProductTerms),
    Flexible(FlexibleProductTerms),
    ScoreBased(ScoreBasedProductTerms),
}

/// The terms of the jars that an account holds in one product.
#[derive(Clone, Debug)]
pub struct ProductV2 {
    pub id: String,
    pub cap: Cap,
    pub terms: Terms,
    pub withdrawal_fee: Option<WithdrawalFee>,
    /// An ed25519 public key that must sign deposit tickets, if any.
    pub public_key: Option<Vec<u8>>,
    pub is_enabled: bool,
    pub is_restakable: bool,
}

/// What an account contributes to interest: whether a penalty applies and its score.
pub struct InterestContext {
    pub is_penalty_applied: bool,
    pub score: ScoreRecord,
}

impl Terms {
    pub open spec fn spec_allows_early_withdrawal(&self) -> bool {
        self is Flexible
    }

    /// Only a flexible product lets deposits go before a term ends.
    #[verifier::when_used_as_spec(spec_allows_early_withdrawal)]
    pub fn allows_early_withdrawal(&self) -> (b: bool)
        ensures
            b == self.spec_allows_early_withdrawal(),
    {
        match self {
            Terms::Flexible(_) => true,
            _ => false,
        }
    }

    pub open spec fn spec_is_liquid(&self, deposit: Deposit, now: u64) -> bool {
        match self {
            Terms::Fixed(t) => deposit.spec_is_liquid(now, t.lockup_term),
            Terms::Flexible(_) => true,
            Terms::ScoreBased(t) => deposit.spec_is_liquid(now, t.lockup_term),
        }
    }

    /// Whether a deposit may be withdrawn at `now`.
    pub fn is_liquid(&self, deposit: &Deposit, now: u64) -> (b: bool)
        requires
            now >= deposit.created_at,
        ensures
            b == self.spec_is_liquid(*deposit, now),
    {
        match self {
            Terms::Fixed(t) => deposit.is_liquid(now, t.lockup_term),
            Terms::Flexible(_) => true,
            Terms::ScoreBased(t) => deposit.is_liquid(now, t.lockup_term),
        }
    }

    /// The APY that applies to an account.
    pub open spec fn apy(&self, is_penalty_applied: bool, scores: Seq<u16>) -> UDecimal {
        match self {
            Terms::Fixed(t) => t.apy.effective(is_penalty_applied),
            Terms::Flexible(t) => t.apy.effective(is_penalty_applied),
            Terms::ScoreBased(t) => UDecimal {
                significand: capped_score_sum(scores, t.score_cap) as u128,
                exponent: 5,
            },
        }
    }

    pub open spec fn apy_fits(&self, scores: Seq<u16>) -> bool {
        match self {
            Terms::ScoreBased(t) => capped_score_sum(scores, t.score_cap) <= u32::MAX,
            _ => true,
        }
    }

    /// The APY for an account: from the product for fixed and flexible terms, from
    /// the capped scores for score-based terms.
    pub fn get_apy(&self, context: &InterestContext) -> (apy: UDecimal)
        requires
            self.apy_fits(context.score@.0),
        ensures
            apy == self.apy(context.is_penalty_applied, context.score@.0),
    {
        match self {
            Terms::Fixed(t) => t.apy.get_effective(context.is_penalty_applied),
            Terms::Flexible(t) => t.apy.get_effective(context.is_penalty_applied),
            Terms::ScoreBased(t) => {
                let legacy = score_cap_product(t.score_cap);
                legacy.apy_for_score(&context.score.score)
            },
        }
    }

    /// Milliseconds of interest that a deposit earns: since the later of its creation
    /// and the cache, until `now` and, for fixed terms, the end of the lockup; a
    /// score-based deposit earns one day while its score is current and its term runs.
    pub open spec fn term(&self, score_updated: u64, cached_at: Option<u64>, deposit: Deposit, now: u64) -> nat {
        let since: int = match cached_at {
            None => deposit.created_at as int,
            Some(c) => if c >= deposit.created_at {
                c as int
            } else {
                deposit.created_at as int
            },
        };
        match self {
            Terms::Fixed(t) => {
                let end = deposit.created_at + t.lockup_term;
                let until: int = if now <= end {
                    now as int
                } else {
                    end
                };
                if until > since {
                    (until - since) as nat
                } else {
                    0
                }
            },
            Terms::Flexible(_) => (now - since) as nat,
            Terms::ScoreBased(t) => if score_updated < deposit.created_at {
                0
            } else if now >= deposit.created_at + t.lockup_term {
                0
            } else {
                MS_IN_DAY as nat
            },
        }
    }

    /// The term can be computed: the lockup ends within `u64`, and a flexible deposit
    /// is not counted from the future.
    pub open spec fn term_fits(&self, cached_at: Option<u64>, deposit: Deposit, now: u64) -> bool {
        match self {
            Terms::Fixed(t) => deposit.created_at + t.lockup_term <= u64::MAX,
            Terms::Flexible(_) => now >= deposit.created_at && match cached_at {
                None => true,
                Some(c) => now >= c,
            },
            Terms::ScoreBased(t) => deposit.created_at + t.lockup_term <= u64::MAX,
        }
    }

    pub fn get_interest_calculation_term(
        &self,
        score_updated: u64,
        last_cached_at: Option<u64>,
        deposit: &Deposit,
        now: u64,
    ) -> (term: u64)
        requires
            self.term_fits(last_cached_at, *deposit, now),
        ensures
            term == self.term(score_updated, last_cached_at, *deposit, now),
    {
        let since_date = match last_cached_at {
            None => deposit.created_at,
            Some(cache_date) => if cache_date >= deposit.created_at {
                cache_date
            } else {
                deposit.created_at
            },
        };
        match self {
            Terms::Fixed(t) => {
                let end = deposit.created_at + t.lockup_term;
                let until_date = if now <= end {
                    now
                } else {
                    end
                };
                if until_date > since_date {
                    until_date - since_date
                } else {
                    0
                }
            },
            Terms::Flexible(_) => now - since_date,
            Terms::ScoreBased(t) => {
                if score_updated < deposit.created_at {
                    return 0;
                }
                let end = deposit.created_at + t.lockup_term;
                let term_end = if now >= end {
                    now
                } else {
                    end
                };
                if now >= term_end {
                    0
                } else {
                    MS_IN_DAY
                }
            },
        }
    }

    /// The interest of a jar, scaled by MS_IN_YEAR, accrued by its first deposits.
    pub open spec fn scaled_interest(
        &self,
        apy: UDecimal,
        score_updated: u64,
        cached_at: Option<u64>,
        deposits: Seq<Deposit>,
        now: u64,
    ) -> nat
        decreases deposits.len(),
    {
        if deposits.len() == 0 {
            0
        } else {
            self.scaled_interest(apy, score_updated, cached_at, deposits.drop_last(), now) + self.term(
                score_updated,
                cached_at,
                deposits.last(),
                now,
            ) * apy.apply(deposits.last().principal as nat)
        }
    }

    /// Every deposit's interest can be computed within the machine integers.
    pub open spec fn deposits_fit(
        &self,
        apy: UDecimal,
        score_updated: u64,
        cached_at: Option<u64>,
        deposits: Seq<Deposit>,
        now: u64,
    ) -> bool {
        &&& (deposits.len() + 1) * (MS_IN_YEAR as nat) <= u64::MAX
        &&& forall|i: int|
            0 <= i < deposits.len() ==> {
                &&& self.term_fits(cached_at, #[trigger] deposits[i], now)
                &&& apy.can_apply(deposits[i].principal as nat)
                &&& self.term(score_updated, cached_at, deposits[i], now) * apy.apply(
                    deposits[i].principal as nat,
                ) <= u128::MAX
            }
    }

    /// The interest of a jar: the cached interest plus what the deposits accrued,
    /// with the remainders carried.
    pub open spec fn jar_interest(
        &self,
        is_penalty_applied: bool,
        score: (Seq<u16>, u64),
        jar: JarV2,
        now: u64,
    ) -> (nat, nat) {
        let cached_at = match jar.cache {
            Some(c) => Some(c.updated_at),
            None => None,
        };
        let cached = match jar.cache {
            Some(c) => c.interest,
            None => 0,
        };
        accrue(
            cached as nat,
            jar.claim_remainder as nat,
            self.scaled_interest(self.apy(is_penalty_applied, score.0), score.1, cached_at, jar.deposits@, now),
        )
    }

    pub open spec fn jar_interest_fits(
        &self,
        is_penalty_applied: bool,
        score: (Seq<u16>, u64),
        jar: JarV2,
        now: u64,
    ) -> bool {
        let cached_at = match jar.cache {
            Some(c) => Some(c.updated_at),
            None => None,
        };
        &&& jar.claim_remainder + jar.deposits@.len() * (MS_IN_YEAR as nat) <= u64::MAX
        &&& self.apy_fits(score.0)
        &&& self.deposits_fit(self.apy(is_penalty_applied, score.0), score.1, cached_at, jar.deposits@, now)
        &&& self.jar_interest(is_penalty_applied, score, jar, now).0 <= u128::MAX
    }

    /// The interest of a jar at `now` and the remainder to carry.
    pub fn get_interest(&self, context: &InterestContext, jar: &JarV2, now: u64) -> (r: (u128, u64))
        requires
            self.jar_interest_fits(context.is_penalty_applied, context.score@, *jar, now),
        ensures
            r.0 == self.jar_interest(context.is_penalty_applied, context.score@, *jar, now).0,
            r.1 == self.jar_interest(context.is_penalty_applied, context.score@, *jar, now).1,
            r.1 < MS_IN_YEAR,
    {
        let since_date = match jar.cache {
            Some(c) => Some(c.updated_at),
            None => None,
        };
        let apy = self.get_apy(context);
        let cached_interest = match jar.cache {
            Some(c) => c.interest,
            None => 0,
        };
        let ghost score_updated = context.score.updated;
        let ghost total = self.scaled_interest(apy, score_updated, since_date, jar.deposits@, now);
        let ghost m = MS_IN_YEAR as nat;
        proof {
            crate::common::lemma_accrue_exact(cached_interest as nat, jar.claim_remainder as nat, total);
            lemma_accrue_bounds_scaled(cached_interest as nat, jar.claim_remainder as nat, total);
        }
        let mut interest: u128 = 0;
        let mut remainder: u64 = 0;
        let mut i: usize = 0;
        while i < jar.deposits.len()
            invariant
                i <= jar.deposits@.len(),
                apy == self.apy(context.is_penalty_applied, context.score@.0),
                score_updated == context.score.updated,
                self.deposits_fit(apy, score_updated, since_date, jar.deposits@, now),
                interest * m + remainder == self.scaled_interest(
                    apy,
                    score_updated,
                    since_date,
                    jar.deposits@.take(i as int),
                    now,
                ),
                remainder <= i * m,
                self.scaled_interest(apy, score_updated, since_date, jar.deposits@.take(i as int), now)
                    <= total,
                total / m <= u128::MAX,
                m == MS_IN_YEAR,
                total == self.scaled_interest(apy, score_updated, since_date, jar.deposits@, now),
            decreases jar.deposits@.len() - i,
        {
            let deposit = &jar.deposits[i];
            proof {
                assert(jar.deposits@.take(i + 1).drop_last() =~= jar.deposits@.take(i as int));
                assert(jar.deposits@.take(i + 1).last() == jar.deposits@[i as int]);
                self.lemma_scaled_interest_prefix_monotone(
                    apy,
                    score_updated,
                    since_date,
                    jar.deposits@,
                    (i + 1) as int,
                    now,
                );
            }
            let term = self.get_interest_calculation_term(context.score.updated, since_date, deposit, now);
            let (deposit_interest, deposit_remainder) = if term > 0 {
                get_deposit_interest(deposit.principal, apy, term)
            } else {
                (0, 0)
            };
            proof {
                let s = term as nat * apy.apply(deposit.principal as nat);
                let prev = interest * m + remainder;
                assert(deposit_interest * m + deposit_remainder == s) by {
                    if term > 0 {
                        vstd::arithmetic::div_mod::lemma_fundamental_div_mod(s as int, m as int);
                        let q = s as int / m as int;
                        assert(q * m == m * q) by (nonlinear_arith);
                        assert(deposit_interest == q);
                    } else {
                        assert(s == 0) by (nonlinear_arith)
                            requires
                                term == 0,
                                s == term as nat * apy.apply(deposit.principal as nat),
                        ;
                    }
                };
                assert((interest + deposit_interest) * m + (remainder + deposit_remainder) == prev + s)
                    by (nonlinear_arith)
                    requires
                        deposit_interest * m + deposit_remainder == s,
                        prev == interest * m + remainder,
                ;
                assert((interest + deposit_interest) * m <= total) by (nonlinear_arith)
                    requires
                        (interest + deposit_interest) * m + (remainder + deposit_remainder) == prev + s,
                        prev + s <= total,
                ;
                assert(interest + deposit_interest <= total / m) by {
                    vstd::arithmetic::div_mod::lemma_div_is_ordered(
                        ((interest + deposit_interest) * m) as int,
                        total as int,
                        m as int,
                    );
                    vstd::arithmetic::div_mod::lemma_div_by_multiple(
                        (interest + deposit_interest) as int,
                        m as int,
                    );
                };
                assert((i + 1) * m == i * m + m) by (nonlinear_arith);
            }
            interest = interest + deposit_interest;
            remainder = remainder + deposit_remainder;
            i = i + 1;
        }
        proof {
            assert(jar.deposits@.take(jar.deposits@.len() as int) =~= jar.deposits@);
            lemma_accrue_decomposed(cached_interest as nat, jar.claim_remainder as nat, interest as nat, remainder as nat);
        }
        let total_remainder = jar.claim_remainder + remainder;
        let extra_interest = (total_remainder / MS_IN_YEAR) as u128;
        (cached_interest + interest + extra_interest, total_remainder % MS_IN_YEAR)
    }

    /// Tells whether the interest of `jar` at `now` can be computed within the
    /// machine integers.
    #[verifier::spinoff_prover]
    pub fn is_interest_computable(&self, context: &InterestContext, jar: &JarV2, now: u64) -> (b: bool)
        ensures
            b == self.jar_interest_fits(context.is_penalty_applied, context.score@, *jar, now),
    {
        let n = jar.deposits.len() as u128;
        let ms: u128 = MS_IN_YEAR as u128;
        if (jar.claim_remainder as u128) + n * ms > u64::MAX as u128 || (n + 1) * ms > u64::MAX as u128 {
            return false;
        }
        let apy_fits = match self {
            Terms::ScoreBased(t) => score_cap_product(t.score_cap).is_score_sum_computable(&context.score.score),
            _ => true,
        };
        if !apy_fits {
            return false;
        }
        let since_date = match jar.cache {
            Some(c) => Some(c.updated_at),
            None => None,
        };
        let apy = self.get_apy(context);
        let ghost score_updated = context.score.updated;
        let mut i: usize = 0;
        while i < jar.deposits.len()
            invariant
                i <= jar.deposits@.len(),
                apy == self.apy(context.is_penalty_applied, context.score@.0),
                score_updated == context.score.updated,
                score_updated == context.score@.1,
                since_date == match jar.cache {
                    Some(c) => Some(c.updated_at),
                    None => None,
                },
                forall|k: int|
                    0 <= k < i ==> {
                        &&& self.term_fits(since_date, #[trigger] jar.deposits@[k], now)
                        &&& apy.can_apply(jar.deposits@[k].principal as nat)
                        &&& self.term(score_updated, since_date, jar.deposits@[k], now) * apy.apply(
                            jar.deposits@[k].principal as nat,
                        ) <= u128::MAX
                    },
            decreases jar.deposits@.len() - i,
        {
            let deposit = &jar.deposits[i];
            let term_fits = match self {
                Terms::Fixed(t) => deposit.created_at.checked_add(t.lockup_term).is_some(),
                Terms::Flexible(_) => now >= deposit.created_at && match since_date {
                    None => true,
                    Some(c) => now >= c,
                },
                Terms::ScoreBased(t) => deposit.created_at.checked_add(t.lockup_term).is_some(),
            };
            proof {
                assert(jar.deposits@[i as int] == *deposit);
            }
            if !term_fits || !apy.is_exponent_in_range() || deposit.principal.checked_mul(apy.significand).is_none() {
                proof {
                    assert(!self.deposits_fit(apy, score_updated, since_date, jar.deposits@, now));
                }
                return false;
            }
            let term = self.get_interest_calculation_term(context.score.updated, since_date, deposit, now);
            if (term as u128).checked_mul(apy.mul(deposit.principal)).is_none() {
                proof {
                    assert(!self.deposits_fit(apy, score_updated, since_date, jar.deposits@, now));
                }
                return false;
            }
            i = i + 1;
        }
        proof {
            assert(self.deposits_fit(apy, score_updated, since_date, jar.deposits@, now));
        }
        let cached_interest = match jar.cache {
            Some(c) => c.interest,
            None => 0,
        };
        let ghost total = self.scaled_interest(apy, score_updated, since_date, jar.deposits@, now);
        let ghost m = MS_IN_YEAR as nat;
        let mut interest: u128 = 0;
        let mut remainder: u64 = 0;
        let mut i: usize = 0;
        while i < jar.deposits.len()
            invariant
                i <= jar.deposits@.len(),
                apy == self.apy(context.is_penalty_applied, context.score@.0),
                score_updated == context.score.updated,
                self.deposits_fit(apy, score_updated, since_date, jar.deposits@, now),
                interest * m + remainder == self.scaled_interest(
                    apy,
                    score_updated,
                    since_date,
                    jar.deposits@.take(i as int),
                    now,
                ),
                remainder <= i * m,
                self.scaled_interest(apy, score_updated, since_date, jar.deposits@.take(i as int), now) <= total,
                m == MS_IN_YEAR,
                total == self.scaled_interest(apy, score_updated, since_date, jar.deposits@, now),
                since_date == match jar.cache {
                    Some(c) => Some(c.updated_at),
                    None => None,
                },
                cached_interest == match jar.cache {
                    Some(c) => c.interest,
                    None => 0,
                },
                self.jar_interest(context.is_penalty_applied, context.score@, *jar, now) == accrue(
                    cached_interest as nat,
                    jar.claim_remainder as nat,
                    total,
                ),
            decreases jar.deposits@.len() - i,
        {
            let deposit = &jar.deposits[i];
            proof {
                assert(jar.deposits@.take(i + 1).drop_last() =~= jar.deposits@.take(i as int));
                assert(jar.deposits@.take(i + 1).last() == jar.deposits@[i as int]);
                self.lemma_scaled_interest_prefix_monotone(apy, score_updated, since_date, jar.deposits@, (i + 1) as int, now);
            }
            let term = self.get_interest_calculation_term(context.score.updated, since_date, deposit, now);
            let (deposit_interest, deposit_remainder) = if term > 0 {
                get_deposit_interest(deposit.principal, apy, term)
            } else {
                (0, 0)
            };
            proof {
                let s = term as nat * apy.apply(deposit.principal as nat);
                let prev = interest * m + remainder;
                assert(deposit_interest * m + deposit_remainder == s) by {
                    if term > 0 {
                        vstd::arithmetic::div_mod::lemma_fundamental_div_mod(s as int, m as int);
                        let q = s as int / m as int;
                        assert(q * m == m * q) by (nonlinear_arith);
                        assert(deposit_interest == q);
                    } else {
                        assert(s == 0) by (nonlinear_arith)
                            requires
                                term == 0,
                                s == term as nat * apy.apply(deposit.principal as nat),
                        ;
                    }
                };
                assert((interest + deposit_interest) * m + (remainder + deposit_remainder) == prev + s)
                    by (nonlinear_arith)
                    requires
                        deposit_interest * m + deposit_remainder == s,
                        prev == interest * m + remainder,
                ;
                assert((interest + deposit_interest) * m <= total) by (nonlinear_arith)
                    requires
                        (interest + deposit_interest) * m + (remainder + deposit_remainder) == prev + s,
                        prev + s <= total,
                ;
                assert(interest + deposit_interest <= total / m) by {
                    vstd::arithmetic::div_mod::lemma_div_is_ordered(
                        ((interest + deposit_interest) * m) as int,
                        total as int,
                        m as int,
                    );
                    vstd::arithmetic::div_mod::lemma_div_by_multiple((interest + deposit_interest) as int, m as int);
                };
                assert((i + 1) * m == i * m + m) by (nonlinear_arith);
                lemma_accrue_bounds_scaled(cached_interest as nat, jar.claim_remainder as nat, total);
            }
            interest = match interest.checked_add(deposit_interest) {
                Some(x) => x,
                None => return false,
            };
            remainder = remainder + deposit_remainder;
            i = i + 1;
        }
        proof {
            assert(jar.deposits@.take(jar.deposits@.len() as int) =~= jar.deposits@);
            lemma_accrue_decomposed(cached_interest as nat, jar.claim_remainder as nat, interest as nat, remainder as nat);
        }
        let total_remainder = jar.claim_remainder + remainder;
        let extra_interest = (total_remainder / MS_IN_YEAR) as u128;
        match cached_interest.checked_add(interest) {
            None => false,
            Some(x) => x.checked_add(extra_interest).is_some(),
        }
    }

    /// Accrued interest only grows with more deposits.
    pub proof fn lemma_scaled_interest_prefix_monotone(
        &self,
        apy: UDecimal,
        score_updated: u64,
        cached_at: Option<u64>,
        deposits: Seq<Deposit>,
        n: int,
        now: u64,
    )
        requires
            0 <= n <= deposits.len(),
        ensures
            self.scaled_interest(apy, score_updated, cached_at, deposits.take(n), now) <= self.scaled_interest(
                apy,
                score_updated,
                cached_at,
                deposits,
                now,
            ),
        decreases deposits.len(),
    {
        if n < deposits.len() {
            self.lemma_scaled_interest_prefix_monotone(apy, score_updated, cached_at, deposits.drop_last(), n, now);
            assert(deposits.drop_last().take(n) =~= deposits.take(n));
        } else {
            assert(deposits.take(n) =~= deposits);
        }
    }
}

/// Accruing a total given as whole units and an unreduced remainder.
pub proof fn lemma_accrue_decomposed(interest: nat, remainder: nat, whole: nat, rest: nat)
    ensures
        accrue(interest, remainder, whole * (MS_IN_YEAR as nat) + rest).0 == interest + whole + (remainder
            + rest) / (MS_IN_YEAR as nat),
        accrue(interest, remainder, whole * (MS_IN_YEAR as nat) + rest).1 == (remainder + rest) % (
        MS_IN_YEAR as nat),
{
    let m = MS_IN_YEAR as int;
    let t = (remainder + rest) as int;
    vstd::arithmetic::div_mod::lemma_fundamental_div_mod(t, m);
    let q = interest + whole + t / m;
    let total = interest * m + remainder + (whole * m + rest);
    assert(total == q * m + t % m) by (nonlinear_arith)
        requires
            t == m * (t / m) + t % m,
            t == remainder + rest,
            total == interest * m + remainder + (whole * m + rest),
            q == interest + whole + t / m,
    ;
    vstd::arithmetic::div_mod::lemma_fundamental_div_mod_converse(total, m, q, t % m);
}

/// The whole part of the scaled total is part of the accrued interest.
pub proof fn lemma_accrue_bounds_scaled(interest: nat, remainder: nat, scaled: nat)
    ensures
        scaled / (MS_IN_YEAR as nat) <= accrue(interest, remainder, scaled).0,
{
    let m = MS_IN_YEAR as int;
    vstd::arithmetic::div_mod::lemma_div_is_ordered(
        scaled as int,
        (interest * (MS_IN_YEAR as nat) + remainder + scaled) as int,
        m,
    );
}

/// The whole interest and the remainder of `term` milliseconds on `principal` at `apy`.
pub fn get_deposit_interest(principal: u128, apy: UDecimal, term: u64) -> (r: (u128, u64))
    requires
        apy.can_apply(principal as nat),
        term as nat * apy.apply(principal as nat) <= u128::MAX,
    ensures
        r.0 == (term as nat * apy.apply(principal as nat)) / (MS_IN_YEAR as nat),
        r.1 == (term as nat * apy.apply(principal as nat)) % (MS_IN_YEAR as nat),
{
    let ms_in_year: u128 = MS_IN_YEAR as u128;
    let yearly_interest = apy.mul(principal);
    let interest = (term as u128) * yearly_interest;
    let remainder = (interest % ms_in_year) as u64;
    (interest / ms_in_year, remainder)
}


impl ProductV2 {
    pub open spec fn fee(&self, principal: u128) -> nat {
        match self.withdrawal_fee {
            None => 0,
            Some(WithdrawalFee::Fix(amount)) => amount as nat,
            Some(WithdrawalFee::Percent(p)) => p.apply(principal as nat),
        }
    }

    pub open spec fn fee_fits(&self, principal: u128) -> bool {
        match self.withdrawal_fee {
            Some(WithdrawalFee::Percent(p)) => p.can_apply(principal as nat),
            _ => true,
        }
    }

    /// Tells whether the fee on `principal` can be computed within `u128`.
    pub fn is_fee_computable(&self, principal: u128) -> (b: bool)
        ensures
            b == self.fee_fits(principal),
    {
        match &self.withdrawal_fee {
            Some(WithdrawalFee::Percent(p)) => p.is_exponent_in_range() && principal.checked_mul(p.significand).is_some(),
            _ => true,
        }
    }

    /// The withdrawal fee on `principal`: the fixed amount, or the share of it.
    pub fn calculate_fee(&self, principal: u128) -> (fee: u128)
        requires
            self.fee_fits(principal),
        ensures
            fee == self.fee(principal),
    {
        match &self.withdrawal_fee {
            None => 0,
            Some(WithdrawalFee::Fix(amount)) => *amount,
            Some(WithdrawalFee::Percent(percent)) => percent.mul(principal),
        }
    }

    pub open spec fn cap_contains(&self, amount: u128) -> bool {
        self.cap.min <= amount <= self.cap.max
    }

    pub open spec fn fee_ok(&self) -> bool {
        match self.withdrawal_fee {
            None => true,
            Some(fee) => fee_is_acceptable(fee, self.cap),
        }
    }

    pub open spec fn public_key_ok(&self) -> bool {
        match self.public_key {
            None => true,
            Some(pk) => pk@.len() == PUBLIC_KEY_LENGTH && ed25519_public_key_valid(pk@),
        }
    }

    pub open spec fn spec_is_protected(&self) -> bool {
        self.public_key is Some
    }

    /// A protected product needs signed tickets.
    #[verifier::when_used_as_spec(spec_is_protected)]
    pub fn is_protected(&self) -> (b: bool)
        ensures
            b == self.spec_is_protected(),
    {
        self.public_key.is_some()
    }

    /// `Ok` exactly when `amount` lies within the cap.
    pub fn check_cap(&self, amount: u128) -> (r: Result<(), ProductError>)
        ensures
            r is Ok <==> self.cap_contains(amount),
            r is Err ==> r == Err::<(), ProductError>(
                ProductError::OutOfBounds { min: self.cap.min, max: self.cap.max },
            ),
    {
        if self.cap.min > amount || amount > self.cap.max {
            Err(ProductError::OutOfBounds { min: self.cap.min, max: self.cap.max })
        } else {
            Ok(())
        }
    }

    /// `Ok` exactly when the cap's minimum lies below its maximum.
    pub fn check_cap_order(&self) -> (r: Result<(), ProductError>)
        ensures
            r is Ok <==> self.cap.min < self.cap.max,
            r is Err ==> r == Err::<(), ProductError>(ProductError::CapOrder),
    {
        if self.cap.min < self.cap.max {
            Ok(())
        } else {
            Err(ProductError::CapOrder)
        }
    }

    /// `Ok` exactly when new jars may be created.
    pub fn check_enabled(&self) -> (r: Result<(), ProductError>)
        ensures
            r is Ok <==> self.is_enabled,
            r is Err ==> r == Err::<(), ProductError>(ProductError::Disabled),
    {
        if self.is_enabled {
            Ok(())
        } else {
            Err(ProductError::Disabled)
        }
    }

    /// `Ok` exactly when the withdrawal fee cannot exceed what a user staked.
    pub fn check_fee_amount(&self) -> (r: Result<(), ProductError>)
        ensures
            r is Ok <==> self.fee_ok(),
            r is Err ==> r == Err::<(), ProductError>(ProductError::FeeTooHigh),
    {
        let fee_ok = match &self.withdrawal_fee {
            None => true,
            Some(WithdrawalFee::Fix(amount)) => *amount < self.cap.min,
            Some(WithdrawalFee::Percent(percent)) => match checked_pow10(percent.exponent) {
                None => true,
                Some(scale) => percent.significand < scale,
            },
        };
        if fee_ok {
            Ok(())
        } else {
            Err(ProductError::FeeTooHigh)
        }
    }

    /// A score-based product must be protected by a public key.
    pub fn check_score_based_product_is_protected(&self) -> (r: Result<(), ProductError>)
        ensures
            r is Ok <==> (self.terms is ScoreBased ==> self.public_key is Some),
            r is Err ==> r == Err::<(), ProductError>(ProductError::ScoreProductUnprotected),
    {
        match &self.terms {
            Terms::ScoreBased(_) => if self.public_key.is_some() {
                Ok(())
            } else {
                Err(ProductError::ScoreProductUnprotected)
            },
            _ => Ok(()),
        }
    }

    /// Whether every decimal of the product (its APY and a percent fee) has an
    /// exponent whose power of ten fits in `u128`.
    pub open spec fn exponents_in_range(&self) -> bool {
        &&& match self.terms {
            Terms::Fixed(t) => t.apy.exponents_in_range(),
            Terms::Flexible(t) => t.apy.exponents_in_range(),
            Terms::ScoreBased(_) => true,
        }
        &&& match self.withdrawal_fee {
            Some(WithdrawalFee::Percent(p)) => p.exponent_in_range(),
            _ => true,
        }
    }

    /// `Ok` exactly when every decimal of the product has an exponent in range.
    pub fn check_udecimal_exponents(&self) -> (r: Result<(), ProductError>)
        ensures
            r is Ok <==> self.exponents_in_range(),
            r is Err ==> r == Err::<(), ProductError>(ProductError::ExponentOutOfRange),
    {
        let apy_ok = match &self.terms {
            Terms::Fixed(t) => t.apy.has_exponents_in_range(),
            Terms::Flexible(t) => t.apy.has_exponents_in_range(),
            Terms::ScoreBased(_) => true,
        };
        let fee_ok = match &self.withdrawal_fee {
            Some(WithdrawalFee::Percent(p)) => p.is_exponent_in_range(),
            _ => true,
        };
        if apy_ok && fee_ok {
            Ok(())
        } else {
            Err(ProductError::ExponentOutOfRange)
        }
    }

    /// `Ok` exactly when the product has no public key or a well-formed ed25519 key.
    pub fn check_public_key(&self) -> (r: Result<(), ProductError>)
        ensures
            r is Ok <==> self.public_key_ok(),
            r matches Err(e) ==> (e == ProductError::PublicKeyLength <==> self.public_key.unwrap()@.len()
                != PUBLIC_KEY_LENGTH),
            r matches Err(e) ==> (e == ProductError::PublicKeyLength || e
                == ProductError::PublicKeyInvalid),
    {
        match &self.public_key {
            None => Ok(()),
            Some(pk) => {
                if pk.len() != PUBLIC_KEY_LENGTH {
                    Err(ProductError::PublicKeyLength)
                } else if ed25519_public_key_is_valid(pk.as_slice()) {
                    Ok(())
                } else {
                    Err(ProductError::PublicKeyInvalid)
                }
            },
        }
    }

    /// The product in the current layout that a legacy product becomes: a fixed
    /// product with a score cap becomes score-based, a flexible one stays flexible
    /// and may always be restaked.
    pub fn from_legacy(value: Product) -> (p: ProductV2)
        ensures
            p.id == value.id,
            p.cap == value.cap,
            p.withdrawal_fee == value.withdrawal_fee,
            p.public_key == value.public_key,
            p.is_enabled == value.is_enabled,
            match value.terms {
                product::Terms::Fixed(t) => {
                    &&& p.is_restakable == t.allows_restaking
                    &&& if value.score_cap > 0 {
                        p.terms == Terms::ScoreBased(
                            ScoreBasedProductTerms { lockup_term: t.lockup_term, score_cap: value.score_cap },
                        )
                    } else {
                        p.terms == Terms::Fixed(FixedProductTerms { lockup_term: t.lockup_term, apy: value.apy })
                    }
                },
                product::Terms::Flexible => {
                    &&& p.is_restakable
                    &&& p.terms == Terms::Flexible(FlexibleProductTerms { apy: value.apy })
                },
            },
    {
        let (terms, is_restakable) = match value.terms {
            product::Terms::Fixed(t) => (
                if value.score_cap > 0 {
                    Terms::ScoreBased(
                        ScoreBasedProductTerms { lockup_term: t.lockup_term, score_cap: value.score_cap },
                    )
                } else {
                    Terms::Fixed(FixedProductTerms { lockup_term: t.lockup_term, apy: value.apy })
                },
                t.allows_restaking,
            ),
            product::Terms::Flexible => (Terms::Flexible(FlexibleProductTerms { apy: value.apy }), true),
        };
        ProductV2 {
            id: value.id,
            cap: value.cap,
            terms,
            withdrawal_fee: value.withdrawal_fee,
            public_key: value.public_key,
            is_enabled: value.is_enabled,
            is_restakable,
        }
    }
}

/// The liquid deposits of a jar form a prefix (deposits are in order and a
/// deposit stays liquid once it is): their number and principal.
pub open spec fn liquid_prefix(terms: Terms, deposits: Seq<Deposit>, now: u64, p: int) -> bool {
    &&& 0 <= p <= deposits.len()
    &&& forall|i: int| 0 <= i < p ==> terms.spec_is_liquid(#[trigger] deposits[i], now)
    &&& forall|i: int| p <= i < deposits.len() ==> !terms.spec_is_liquid(#[trigger] deposits[i], now)
}

/// The number of liquid deposits.
pub open spec fn liquid_count(terms: Terms, deposits: Seq<Deposit>, now: u64) -> int {
    choose|p: int| liquid_prefix(terms, deposits, now, p)
}

/// The principal of the liquid deposits.
pub open spec fn liquid_balance(terms: Terms, deposits: Seq<Deposit>, now: u64) -> nat {
    principal_sum(deposits.take(liquid_count(terms, deposits, now)))
}

/// The liquid prefix has one length.
pub proof fn lemma_liquid_prefix_unique(terms: Terms, deposits: Seq<Deposit>, now: u64, p: int)
    requires
        liquid_prefix(terms, deposits, now, p),
    ensures
        liquid_count(terms, deposits, now) == p,
{
    let q = liquid_count(terms, deposits, now);
    assert(liquid_prefix(terms, deposits, now, q));
    if q < p {
        assert(terms.spec_is_liquid(deposits[q], now));
    } else if p < q {
        assert(terms.spec_is_liquid(deposits[p], now));
    }
}

/// The principal that can be withdrawn from `jar` at `now` and the number of
/// deposits it comes from; under flexible terms, everything.
pub fn get_liquid_balance(jar: &JarV2, terms: &Terms, now: u64) -> (r: (u128, usize))
    requires
        deposits_sorted(jar.deposits@),
        deposits_before(jar.deposits@, now),
        jar.total() <= u128::MAX,
    ensures
        liquid_prefix(*terms, jar.deposits@, now, r.1 as int),
        r.1 == liquid_count(*terms, jar.deposits@, now),
        r.0 == liquid_balance(*terms, jar.deposits@, now),
        r.0 <= jar.total(),
        terms is Flexible ==> r.1 == jar.deposits@.len(),
{
    if terms.allows_early_withdrawal() {
        assert(jar.deposits@.take(jar.deposits@.len() as int) =~= jar.deposits@);
        let sum = sum_prefix(&jar.deposits, jar.deposits.len());
        proof {
            lemma_liquid_prefix_unique(*terms, jar.deposits@, now, jar.deposits@.len() as int);
        }
        return (sum, jar.deposits.len());
    }
    let mut p: usize = 0;
    while p < jar.deposits.len() && terms.is_liquid(&jar.deposits[p], now)
        invariant
            p <= jar.deposits@.len(),
            deposits_before(jar.deposits@, now),
            forall|i: int| 0 <= i < p ==> terms.spec_is_liquid(#[trigger] jar.deposits@[i], now),
        decreases jar.deposits@.len() - p,
    {
        p = p + 1;
    }
    assert forall|i: int| p <= i < jar.deposits@.len() implies !terms.spec_is_liquid(
        #[trigger] jar.deposits@[i],
        now,
    ) by {
        assert(jar.deposits@[p as int].created_at <= jar.deposits@[i].created_at);
    }
    proof {
        assert(jar.deposits@.take(jar.deposits@.len() as int) =~= jar.deposits@);
        lemma_principal_sum_monotone(jar.deposits@, p as int, jar.deposits@.len() as int);
        lemma_liquid_prefix_unique(*terms, jar.deposits@, now, p as int);
    }
    let sum = sum_prefix(&jar.deposits, p);
    (sum, p)
}

/// A product that stands only for a score cap, for computing a score's APY.
fn score_cap_product(score_cap: u16) -> (p: Product)
    ensures
        p.score_cap == score_cap,
{
    Product {
        id: String::new(),
        apy: Apy::Constant(UDecimal::zero()),
        cap: Cap { min: 0, max: 0 },
        terms: product::Terms::Flexible,
        withdrawal_fee: None,
        public_key: None,
        is_enabled: false,
        score_cap,
    }
}

} // verus!
