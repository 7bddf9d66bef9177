use vstd::prelude::*;

use crate::common::{accrue, accrue_term, MS_IN_DAY, MS_IN_YEAR};
use crate::decimal::UDecimal;
use crate::product::{capped_score_sum, Apy, Product, Terms};

verus! {

/// Interest computed at `updated_at` and stored so that later computations start there.
#[derive(Copy, Clone, Debug, PartialEq, Eq)]
pub struct JarCache {
    pub updated_at: u64,
    pub interest: u128,
}

/// Whether a jar is active or closed.
#[derive(Copy, Clone, Debug, PartialEq, Eq)]
pub enum JarState {
    Active,
    Closed,
}

/// The daily scores that a score-based jar earns on, and when they were last updated.
#[derive(Clone, Debug)]
pub struct ScoreRecord {
    pub score: Vec<u16>,
    pub updated: u64,
}

impl View for ScoreRecord {
    type V = (Seq<u16>, u64);

    open spec fn view(&self) -> (Seq<u16>, u64) {
        (self.score@, self.updated)
    }
}

/// The record of a jar with no score: nothing scored, never updated.
pub open spec fn no_score() -> (Seq<u16>, u64) {
    (Seq::empty(), 0)
}

impl ScoreRecord {
    pub fn new() -> (r: ScoreRecord)
        ensures
            r.score@ == Seq::<u16>::empty(),
            r.updated == 0,
    {
        ScoreRecord { score: Vec::new(), updated: 0 }
    }

    /// A copy of the record.
    pub fn copy(&self) -> (r: ScoreRecord)
        ensures
            r@ == self@,
    {
        let mut score: Vec<u16> = Vec::new();
        let mut i: usize = 0;
        while i < self.score.len()
            invariant
                i <= self.score@.len(),
                score@ == self.score@.take(i as int),
            decreases self.score@.len() - i,
        {
            score.push(self.score[i]);
            assert(score@ =~= self.score@.take(i + 1));
            i = i + 1;
        }
        assert(score@ =~= self.score@);
        ScoreRecord { score, updated: self.updated }
    }
}

/// A deposit jar: one principal under the terms of one product.
#[derive(Clone, Debug)]
pub struct Jar {
    pub id: u32,
    pub account_id: String,
    pub product_id: String,
    /// Milliseconds since the Unix epoch.
    pub created_at: u64,
    pub principal: u128,
    pub cache: Option<JarCache>,
    pub claimed_balance: u128,
    /// A cross-contract operation on the jar is in progress.
    pub is_pending_withdraw: bool,
    /// Whether the jar is active or closed.
    pub state: JarState,
    pub is_penalty_applied: bool,
    /// Interest below one token, in 1/MS_IN_YEAR units, kept so that frequent
    /// claims lose nothing to rounding.
    pub claim_remainder: u64,
}

/// The state that a jar of `product` has after `withdrawn_amount` of `principal` leaves it:
/// a flexible jar, or one with principal left, stays active.
pub open spec fn final_state(product: Product, principal: u128, withdrawn_amount: u128) -> JarState {
    if product.terms == Terms::Flexible || principal - withdrawn_amount > 0 {
        JarState::Active
    } else {
        JarState::Closed
    }
}

/// The state a jar is left in by a withdrawal.
pub fn get_final_state(product: &Product, principal: u128, withdrawn_amount: u128) -> (s: JarState)
    requires
        withdrawn_amount <= principal,
    ensures
        s == final_state(*product, principal, withdrawn_amount),
{
    if product.is_flexible() || principal - withdrawn_amount > 0 {
        JarState::Active
    } else {
        JarState::Closed
    }
}

/// The jar layout in use.
pub type JarLastVersion = Jar;

/// The stored form of a jar, one variant per layout version.
#[derive(Clone, Debug)]
pub enum JarVersioned {
    V1(JarLastVersion),
}

impl JarVersioned {
    /// The jar in its latest layout.
    pub open spec fn spec_last(&self) -> JarLastVersion {
        match self {
            JarVersioned::V1(j) => *j,
        }
    }

    /// The jar in its latest layout.
    pub fn last(&self) -> (j: &JarLastVersion)
        ensures
            *j == self.spec_last(),
    {
        match self {
            JarVersioned::V1(j) => j,
        }
    }
}

impl JarLastVersion {
    /// Marks a cross-contract operation as in progress.
    pub fn lock(&mut self)
        ensures
            *final(self) == (Jar { is_pending_withdraw: true, ..*old(self) }),
    {
        self.is_pending_withdraw = true;
    }

    /// Clears the in-progress mark.
    pub fn unlock(&mut self)
        ensures
            *final(self) == (Jar { is_pending_withdraw: false, ..*old(self) }),
    {
        self.is_pending_withdraw = false;
    }

    pub fn is_empty(&self) -> (b: bool)
        ensures
            b == (self.principal == 0),
    {
        self.principal == 0
    }
}

impl Jar {
    /// The jar's carried remainder leaves room in `u64` for one more year of it.
    pub open spec fn wf(&self) -> bool {
        self.claim_remainder + MS_IN_YEAR <= u64::MAX
    }

    /// Where interest starts and how much is cached there.
    pub open spec fn base(&self) -> (u64, u128) {
        match self.cache {
            Some(c) => (c.updated_at, c.interest),
            None => (self.created_at, 0),
        }
    }

    pub open spec fn cached_interest(&self) -> u128 {
        match self.cache {
            Some(c) => c.interest,
            None => 0,
        }
    }

    /// Interest accrues until `now`, and not past the end of a fixed term.
    pub open spec fn until_date(&self, product: Product, now: u64) -> int {
        match product.terms {
            Terms::Fixed(t) => if now <= self.created_at + t.lockup_term {
                now as int
            } else {
                self.created_at + t.lockup_term
            },
            Terms::Flexible => now as int,
        }
    }

    pub open spec fn term_end_fits(&self, product: Product) -> bool {
        match product.terms {
            Terms::Fixed(t) => self.created_at + t.lockup_term <= u64::MAX,
            Terms::Flexible => true,
        }
    }

    pub open spec fn apy(&self, product: Product) -> UDecimal {
        product.apy.effective(self.is_penalty_applied)
    }

    /// Interest at a given APY: what is cached, plus what accrued since the cache
    /// until the end date; with nothing to accrue the remainder is dropped.
    pub open spec fn interest_with_apy(&self, apy: UDecimal, product: Product, now: u64) -> (nat, nat) {
        let (base_date, cached) = self.base();
        let until = self.until_date(product, now);
        if until > base_date {
            accrue(
                cached as nat,
                self.claim_remainder as nat,
                ((until - base_date) as nat) * apy.apply(self.principal as nat),
            )
        } else {
            (cached as nat, 0)
        }
    }

    pub open spec fn interest_with_apy_fits(&self, apy: UDecimal, product: Product, now: u64) -> bool {
        let (base_date, cached) = self.base();
        let until = self.until_date(product, now);
        &&& self.term_end_fits(product)
        &&& until > base_date ==> {
            &&& apy.can_apply(self.principal as nat)
            &&& ((until - base_date) as nat) * apy.apply(self.principal as nat) <= u128::MAX
            &&& self.interest_with_apy(apy, product, now).0 <= u128::MAX
        }
    }

    /// Whether a score-based jar earns on its score today: the score must have been
    /// updated after the jar was created, and a fixed term must not have ended.
    pub open spec fn earns_on_score(&self, score: (Seq<u16>, u64), product: Product, now: u64) -> bool {
        &&& score.1 >= self.created_at
        &&& match product.terms {
            Terms::Fixed(t) => now < self.created_at + t.lockup_term,
            Terms::Flexible => true,
        }
    }

    /// Interest of a score-based jar: what is cached, plus one day of interest at
    /// the APY that the score earns.
    pub open spec fn score_interest(&self, score: (Seq<u16>, u64), product: Product, now: u64) -> (nat, nat) {
        let cached = self.cached_interest() as nat;
        if self.earns_on_score(score, product, now) {
            let apy = UDecimal {
                significand: capped_score_sum(score.0, product.score_cap) as u128,
                exponent: 5,
            };
            accrue(
                cached,
                self.claim_remainder as nat,
                (MS_IN_DAY as nat) * apy.apply(self.principal as nat),
            )
        } else {
            (cached, 0)
        }
    }

    pub open spec fn score_interest_fits(&self, score: (Seq<u16>, u64), product: Product, now: u64) -> bool {
        &&& self.term_end_fits(product)
        &&& self.earns_on_score(score, product, now) ==> {
            let apy = UDecimal {
                significand: capped_score_sum(score.0, product.score_cap) as u128,
                exponent: 5,
            };
            &&& capped_score_sum(score.0, product.score_cap) <= u32::MAX
            &&& apy.can_apply(self.principal as nat)
            &&& (MS_IN_DAY as nat) * apy.apply(self.principal as nat) <= u128::MAX
            &&& self.score_interest(score, product, now).0 <= u128::MAX
        }
    }

    /// The jar's interest and carried remainder at `now`.
    pub open spec fn interest(&self, score: (Seq<u16>, u64), product: Product, now: u64) -> (nat, nat) {
        if product.score_cap > 0 {
            self.score_interest(score, product, now)
        } else {
            self.interest_with_apy(self.apy(product), product, now)
        }
    }

    /// The interest can be computed without leaving the machine integers.
    pub open spec fn interest_fits(&self, score: (Seq<u16>, u64), product: Product, now: u64) -> bool {
        &&& self.wf()
        &&& if product.score_cap > 0 {
            self.score_interest_fits(score, product, now)
        } else {
            self.interest_with_apy_fits(self.apy(product), product, now)
        }
    }

    /// A new active jar with nothing cached or claimed.
    pub fn create(
        id: u32,
        account_id: String,
        product_id: String,
        principal: u128,
        created_at: u64,
    ) -> (jar: Jar)
        ensures
            jar.id == id,
            jar.account_id == account_id,
            jar.product_id == product_id,
            jar.principal == principal,
            jar.created_at == created_at,
            jar.cache is None,
            jar.claimed_balance == 0,
            !jar.is_pending_withdraw,
            jar.state == JarState::Active,
            !jar.is_penalty_applied,
            jar.claim_remainder == 0,
            jar.wf(),
    {
        Jar {
            id,
            account_id,
            product_id,
            created_at,
            principal,
            cache: None,
            claimed_balance: 0,
            is_pending_withdraw: false,
            state: JarState::Active,
            is_penalty_applied: false,
            claim_remainder: 0,
        }
    }

    /// A copy of the jar with the in-progress mark.
    pub fn locked(&self) -> (jar: Jar)
        ensures
            jar == (Jar { is_pending_withdraw: true, ..*self }),
    {
        let mut jar = self.clone_jar();
        jar.is_pending_withdraw = true;
        jar
    }

    /// A copy of the jar with the penalty set or cleared.
    pub fn with_penalty_applied(&self, is_applied: bool) -> (jar: Jar)
        ensures
            jar == (Jar { is_penalty_applied: is_applied, ..*self }),
    {
        let mut jar = self.clone_jar();
        jar.is_penalty_applied = is_applied;
        jar
    }

    /// A copy of the jar with `amount` more principal and its interest so far cached.
    pub fn topped_up(&self, amount: u128, product: &Product, now: u64) -> (jar: Jar)
        requires
            self.interest_fits(no_score(), *product, now),
            self.principal + amount <= u128::MAX,
        ensures
            jar == (Jar {
                principal: (self.principal + amount) as u128,
                cache: Some(JarCache { updated_at: now, interest: self.interest(no_score(), *product, now).0 as u128 }),
                ..*self
            }),
    {
        let (current_interest, _) = self.get_interest(&ScoreRecord::new(), product, now);
        let mut jar = self.clone_jar();
        jar.principal = self.principal + amount;
        jar.cache = Some(JarCache { updated_at: now, interest: current_interest });
        jar
    }

    /// A copy of the jar after `claimed_amount` of `available_yield` was claimed at
    /// `now`: the rest stays cached.
    pub fn claimed(&self, available_yield: u128, claimed_amount: u128, now: u64) -> (jar: Jar)
        requires
            claimed_amount <= available_yield,
            self.claimed_balance + claimed_amount <= u128::MAX,
        ensures
            jar == (Jar {
                claimed_balance: (self.claimed_balance + claimed_amount) as u128,
                cache: Some(JarCache { updated_at: now, interest: (available_yield - claimed_amount) as u128 }),
                ..*self
            }),
    {
        let mut jar = self.clone_jar();
        jar.claimed_balance = self.claimed_balance + claimed_amount;
        jar.cache = Some(JarCache { updated_at: now, interest: available_yield - claimed_amount });
        jar
    }

    /// A copy of the jar without the in-progress mark.
    pub fn unlocked(&self) -> (jar: Jar)
        ensures
            jar == (Jar { is_pending_withdraw: false, ..*self }),
    {
        let mut jar = self.clone_jar();
        jar.is_pending_withdraw = false;
        jar
    }

    /// The jar under another id.
    pub fn with_id(self, id: u32) -> (jar: Jar)
        ensures
            jar == (Jar { id, ..self }),
    {
        let mut jar = self;
        jar.id = id;
        jar
    }

    /// A field-by-field copy.
    pub fn clone_jar(&self) -> (jar: Jar)
        ensures
            jar == *self,
    {
        Jar {
            id: self.id,
            account_id: self.account_id.clone(),
            product_id: self.product_id.clone(),
            created_at: self.created_at,
            principal: self.principal,
            cache: self.cache,
            claimed_balance: self.claimed_balance,
            is_pending_withdraw: self.is_pending_withdraw,
            state: self.state,
            is_penalty_applied: self.is_penalty_applied,
            claim_remainder: self.claim_remainder,
        }
    }

    /// Whether the principal may be withdrawn now: always for a flexible product,
    /// after the lockup term for a fixed one.
    pub fn is_liquidable(&self, product: &Product, now: u64) -> (b: bool)
        requires
            now >= self.created_at,
        ensures
            b == match product.terms {
                Terms::Fixed(t) => now - self.created_at > t.lockup_term,
                Terms::Flexible => true,
            },
    {
        match &product.terms {
            Terms::Fixed(t) => now - self.created_at > t.lockup_term,
            Terms::Flexible => true,
        }
    }

    /// The APY that applies to the jar.
    pub fn get_apy(&self, product: &Product) -> (apy: UDecimal)
        ensures
            apy == self.apy(*product),
    {
        product.apy.get_effective(self.is_penalty_applied)
    }

    fn get_interest_until_date(&self, product: &Product, now: u64) -> (d: u64)
        requires
            self.term_end_fits(*product),
        ensures
            d == self.until_date(*product, now),
    {
        match &product.terms {
            Terms::Fixed(t) => {
                let end = self.created_at + t.lockup_term;
                if now <= end {
                    now
                } else {
                    end
                }
            },
            Terms::Flexible => now,
        }
    }

    /// `cache` plus the interest of `term` milliseconds at `apy`, carrying the remainder.
    pub fn get_interest_for_term(&self, cache: u128, apy: UDecimal, term: u64) -> (r: (u128, u64))
        requires
            self.wf(),
            apy.can_apply(self.principal as nat),
            term as nat * apy.apply(self.principal as nat) <= u128::MAX,
            accrue(cache as nat, self.claim_remainder as nat, term as nat * apy.apply(self.principal as nat)).0
                <= u128::MAX,
        ensures
            r.0 == accrue(cache as nat, self.claim_remainder as nat, term as nat * apy.apply(self.principal as nat)).0,
            r.1 == accrue(cache as nat, self.claim_remainder as nat, term as nat * apy.apply(self.principal as nat)).1,
    {
        let yearly = apy.mul(self.principal);
        accrue_term(cache, self.claim_remainder, yearly, term)
    }

    fn get_interest_with_apy(&self, apy: UDecimal, product: &Product, now: u64) -> (r: (u128, u64))
        requires
            self.wf(),
            self.interest_with_apy_fits(apy, *product, now),
        ensures
            r.0 == self.interest_with_apy(apy, *product, now).0,
            r.1 == self.interest_with_apy(apy, *product, now).1,
    {
        let (base_date, cache_interest) = match &self.cache {
            Some(cache) => (cache.updated_at, cache.interest),
            None => (self.created_at, 0),
        };
        let until_date = self.get_interest_until_date(product, now);
        if until_date > base_date {
            self.get_interest_for_term(cache_interest, apy, until_date - base_date)
        } else {
            (cache_interest, 0)
        }
    }

    fn get_score_interest(&self, score: &ScoreRecord, product: &Product, now: u64) -> (r: (u128, u64))
        requires
            self.wf(),
            self.score_interest_fits(score@, *product, now),
        ensures
            r.0 == self.score_interest(score@, *product, now).0,
            r.1 == self.score_interest(score@, *product, now).1,
    {
        let cache = match &self.cache {
            Some(c) => c.interest,
            None => 0,
        };
        if score.updated < self.created_at {
            return (cache, 0);
        }
        match &product.terms {
            Terms::Fixed(t) => {
                let term_end = self.created_at + t.lockup_term;
                let end_term = if now >= term_end {
                    now
                } else {
                    term_end
                };
                if now >= end_term {
                    return (cache, 0);
                }
            },
            Terms::Flexible => {},
        }
        let apy = product.apy_for_score(&score.score);
        self.get_interest_for_term(cache, apy, MS_IN_DAY)
    }

    /// The jar's interest and carried remainder at `now`: for a score-based
    /// product from the score, otherwise from the jar's APY.
    pub fn get_interest(&self, score: &ScoreRecord, product: &Product, now: u64) -> (r: (u128, u64))
        requires
            self.interest_fits(score@, *product, now),
        ensures
            r.0 == self.interest(score@, *product, now).0,
            r.1 == self.interest(score@, *product, now).1,
            r.1 < MS_IN_YEAR,
    {
        if product.is_score_product() {
            self.get_score_interest(score, product, now)
        } else {
            let apy = self.get_apy(product);
            self.get_interest_with_apy(apy, product, now)
        }
    }

    /// Caches the interest so far and sets or clears the penalty.
    pub fn apply_penalty(&mut self, product: &Product, is_applied: bool, now: u64)
        requires
            product.score_cap == 0,
            old(self).interest_fits(no_score(), *product, now),
        ensures
            *final(self) == (Jar {
                claim_remainder: old(self).interest(no_score(), *product, now).1 as u64,
                cache: Some(
                    JarCache {
                        updated_at: now,
                        interest: old(self).interest(no_score(), *product, now).0 as u128,
                    },
                ),
                is_penalty_applied: is_applied,
                ..*old(self)
            }),
            final(self).wf(),
    {
        let (interest, remainder) = self.get_interest(&ScoreRecord::new(), product, now);
        self.claim_remainder = remainder;
        self.cache = Some(JarCache { updated_at: now, interest });
        self.is_penalty_applied = is_applied;
    }

    /// Adds `amount` to the principal, caching the interest so far.
    pub fn top_up(&mut self, amount: u128, product: &Product, now: u64)
        requires
            product.score_cap == 0,
            old(self).interest_fits(no_score(), *product, now),
            old(self).principal + amount <= u128::MAX,
        ensures
            *final(self) == (Jar {
                principal: (old(self).principal + amount) as u128,
                cache: Some(
                    JarCache {
                        updated_at: now,
                        interest: old(self).interest(no_score(), *product, now).0 as u128,
                    },
                ),
                ..*old(self)
            }),
            final(self).wf(),
    {
        let (current_interest, _) = self.get_interest(&ScoreRecord::new(), product, now);
        self.principal = self.principal + amount;
        self.cache = Some(JarCache { updated_at: now, interest: current_interest });
    }

    /// Records a claim of `claimed_amount`; the cached interest starts again from zero.
    pub fn claim(&mut self, claimed_amount: u128, now: u64)
        requires
            old(self).claimed_balance + claimed_amount <= u128::MAX,
        ensures
            *final(self) == (Jar {
                claimed_balance: (old(self).claimed_balance + claimed_amount) as u128,
                cache: Some(JarCache { updated_at: now, interest: 0 }),
                ..*old(self)
            }),
    {
        self.claimed_balance = self.claimed_balance + claimed_amount;
        self.cache = Some(JarCache { updated_at: now, interest: 0 });
    }

    /// A jar closes when it is not flexible, holds no principal and has no interest left.
    pub fn should_be_closed(&self, score: &ScoreRecord, product: &Product, now: u64) -> (b: bool)
        requires
            !product.spec_is_flexible() && self.principal == 0 ==> self.interest_fits(score@, *product, now),
        ensures
            b == (!product.spec_is_flexible() && self.principal == 0 && self.interest(score@, *product, now).0
                == 0),
    {
        !product.is_flexible() && self.principal == 0 && self.get_interest(score, product, now).0 == 0
    }

    /// The jar after `withdrawn_amount` leaves it, with the interest so far cached;
    /// a fixed jar left without principal closes.
    pub fn withdrawn(&self, product: &Product, withdrawn_amount: u128, now: u64) -> (jar: Jar)
        requires
            withdrawn_amount <= self.principal,
            self.interest_fits(no_score(), *product, now),
        ensures
            jar == (Jar {
                principal: (self.principal - withdrawn_amount) as u128,
                cache: Some(
                    JarCache {
                        updated_at: now,
                        interest: self.interest(no_score(), *product, now).0 as u128,
                    },
                ),
                state: final_state(*product, self.principal, withdrawn_amount),
                ..*self
            }),
    {
        let (interest, _) = self.get_interest(&ScoreRecord::new(), product, now);
        let state = get_final_state(product, self.principal, withdrawn_amount);
        let mut jar = self.clone_jar();
        jar.principal = self.principal - withdrawn_amount;
        jar.cache = Some(JarCache { updated_at: now, interest });
        jar.state = state;
        jar
    }
}

} // verus!
