use vstd::prelude::*;

use crate::jar::{no_score, Jar, JarCache};
use crate::product::{Apy, Product};

verus! {

/// The timezone of an account that has never set one.
pub const INVALID_TIMEZONE: i64 = i64::MIN;

/// The daily scores of an account: today and yesterday, with their history.
#[derive(Copy, Clone, Debug, PartialEq, Eq)]
pub struct AccountScore {
    /// Milliseconds since the Unix epoch of the last update.
    pub updated: u64,
    /// Shift from UTC in milliseconds; `INVALID_TIMEZONE` when never set.
    pub timezone: i64,
    pub scores: [u16; 2],
    pub scores_history: [u16; 2],
}

impl AccountScore {
    pub open spec fn spec_is_valid(&self) -> bool {
        self.timezone != INVALID_TIMEZONE
    }

    /// A score is in use once the account has a timezone.
    #[verifier::when_used_as_spec(spec_is_valid)]
    pub fn is_valid(&self) -> (b: bool)
        ensures
            b == self.spec_is_valid(),
    {
        self.timezone != INVALID_TIMEZONE
    }

    pub open spec fn new_spec(timezone: i64, now: u64) -> AccountScore {
        AccountScore { updated: now, timezone, scores: [0, 0], scores_history: [0, 0] }
    }

    /// A fresh score in `timezone`, updated at `now`.
    pub fn new(timezone: i64, now: u64) -> (s: AccountScore)
        ensures
            s == Self::new_spec(timezone, now),
    {
        AccountScore { updated: now, timezone, scores: [0, 0], scores_history: [0, 0] }
    }

    pub open spec fn invalid_spec() -> AccountScore {
        AccountScore { updated: 0, timezone: INVALID_TIMEZONE, scores: [0, 0], scores_history: [0, 0] }
    }

    /// The score of an account without score jars.
    pub fn invalid() -> (s: AccountScore)
        ensures
            s == Self::invalid_spec(),
            !s.spec_is_valid(),
    {
        AccountScore { updated: 0, timezone: INVALID_TIMEZONE, scores: [0, 0], scores_history: [0, 0] }
    }
}

/// The jars of one account, the id of its last jar and its score.
#[derive(Clone, Debug)]
pub struct AccountJars {
    pub last_id: u32,
    pub jars: Vec<Jar>,
    pub score: AccountScore,
}

impl AccountJars {
    /// An account without jars or score.
    pub fn new() -> (a: AccountJars)
        ensures
            a.last_id == 0,
            a.jars@ == Seq::<Jar>::empty(),
            !a.score.spec_is_valid(),
    {
        AccountJars { last_id: 0, jars: Vec::new(), score: AccountScore::invalid() }
    }

    /// The jar with id `jar_id`.
    pub fn get_jar(&self, jar_id: u32) -> (r: Result<&Jar, JarsError>)
        ensures
            match first_jar(self.jars@, jar_id) {
                None => r == Err::<&Jar, JarsError>(JarsError::JarNotFound(jar_id)),
                Some(k) => r == Ok::<&Jar, JarsError>(&self.jars@[k]),
            },
    {
        match self.find_jar(jar_id) {
            None => Err(JarsError::JarNotFound(jar_id)),
            Some(k) => {
                proof {
                    self.lemma_first_jar(jar_id, k as int);
                }
                Ok(&self.jars[k])
            },
        }
    }

    /// The first jar with id `jar_id` is the one `find_jar` finds.
    proof fn lemma_first_jar(&self, jar_id: u32, k: int)
        requires
            0 <= k < self.jars@.len(),
            self.jars@[k].id == jar_id,
            forall|m: int| 0 <= m < k ==> self.jars@[m].id != jar_id,
        ensures
            first_jar(self.jars@, jar_id) == Some(k),
    {
        let c = choose|c: int|
            0 <= c < self.jars@.len() && self.jars@[c].id == jar_id && forall|m: int| 0 <= m < c ==> self.jars@[m].id != jar_id;
        assert(c == k) by {
            if c < k {
                assert(self.jars@[c].id != jar_id);
            } else if c > k {
                assert(self.jars@[k].id != jar_id);
            }
        }
    }

    /// Removes the jar `jar_id`; the last jar takes its place.
    pub fn delete_jar(&mut self, jar_id: u32) -> (r: Result<(), JarsError>)
        ensures
            r is Err ==> *final(self) == *old(self),
            old(self).jars@.len() == 0 ==> r == Err::<(), JarsError>(JarsError::NoJars),
            old(self).jars@.len() > 0 ==> match first_jar(old(self).jars@, jar_id) {
                None => r == Err::<(), JarsError>(JarsError::JarNotFound(jar_id)),
                Some(k) => {
                    &&& r is Ok
                    &&& final(self).jars@ == old(self).jars@.update(k, old(self).jars@.last()).drop_last()
                    &&& final(self).last_id == old(self).last_id
                    &&& final(self).score == old(self).score
                },
            },
    {
        if self.jars.len() == 0 {
            return Err(JarsError::NoJars);
        }
        match self.find_jar(jar_id) {
            None => Err(JarsError::JarNotFound(jar_id)),
            Some(k) => {
                proof {
                    self.lemma_first_jar(jar_id, k as int);
                }
                let _ = self.jars.swap_remove(k);
                Ok(())
            },
        }
    }

    /// Adds `amount` to the principal of the jar `jar_id`, caching its interest so
    /// far; its product must take top-ups, have no score, and hold the new principal
    /// within its cap. Gives the new principal.
    pub fn top_up(&mut self, products: &Vec<Product>, jar_id: u32, amount: u128, now: u64) -> (r: Result<u128, JarsError>)
        requires
            forall|k: int|
                0 <= k < old(self).jars@.len() && old(self).jars@[k].id == jar_id ==> old(self).jars@[k].principal
                    + amount <= u128::MAX,
            forall|k: int, p: int|
                0 <= k < old(self).jars@.len() && 0 <= p < products@.len() && old(self).jars@[k].id == jar_id
                    && products@[p].id@ == old(self).jars@[k].product_id@ && products@[p].score_cap == 0
                    ==> old(self).jars@[k].interest_fits(no_score(), products@[p], now),
        ensures
            r is Err ==> *final(self) == *old(self),
            match first_jar(old(self).jars@, jar_id) {
                None => r == Err::<u128, JarsError>(JarsError::JarNotFound(jar_id)),
                Some(k) => {
                    let jar = old(self).jars@[k];
                    match first_product(products@, jar.product_id@) {
                        None => r == Err::<u128, JarsError>(JarsError::ProductNotFound(jar.product_id)),
                        Some(p) => {
                            let product = products@[p];
                            let principal = (jar.principal + amount) as u128;
                            if !product.spec_allows_top_up() {
                                r == Err::<u128, JarsError>(JarsError::TopUpNotAllowed)
                            } else if !product.cap_contains(principal) {
                                r == Err::<u128, JarsError>(
                                    JarsError::OutOfBounds { min: product.cap.min, max: product.cap.max },
                                )
                            } else if product.score_cap != 0 {
                                r == Err::<u128, JarsError>(JarsError::ScoreBased)
                            } else {
                                &&& r == Ok::<u128, JarsError>(principal)
                                &&& final(self).last_id == old(self).last_id
                                &&& final(self).score == old(self).score
                                &&& final(self).jars@ == old(self).jars@.update(
                                    k,
                                    Jar {
                                        principal,
                                        cache: Some(
                                            JarCache {
                                                updated_at: now,
                                                interest: jar.interest(no_score(), product, now).0 as u128,
                                            },
                                        ),
                                        ..jar
                                    },
                                )
                            }
                        },
                    }
                },
            },
    {
        let k = match self.find_jar(jar_id) {
            None => return Err(JarsError::JarNotFound(jar_id)),
            Some(k) => k,
        };
        proof {
            self.lemma_first_jar(jar_id, k as int);
        }
        let p = match find_legacy_product(products, &self.jars[k].product_id) {
            None => return Err(JarsError::ProductNotFound(self.jars[k].product_id.clone())),
            Some(p) => p,
        };
        let product = &products[p];
        if !product.allows_top_up() {
            return Err(JarsError::TopUpNotAllowed);
        }
        let principal = self.jars[k].principal + amount;
        if product.check_cap(principal).is_err() {
            return Err(JarsError::OutOfBounds { min: product.cap.min, max: product.cap.max });
        }
        if product.is_score_product() {
            return Err(JarsError::ScoreBased);
        }
        self.jars[k].top_up(amount, product, now);
        Ok(principal)
    }

    /// Sets or clears the penalty of the jar `jar_id`, caching its interest so far;
    /// its product must have a downgradable APY and no score.
    pub fn set_penalty(&mut self, products: &Vec<Product>, jar_id: u32, value: bool, now: u64) -> (r: Result<(), JarsError>)
        requires
            forall|k: int, p: int|
                0 <= k < old(self).jars@.len() && 0 <= p < products@.len() && old(self).jars@[k].id == jar_id
                    && products@[p].id@ == old(self).jars@[k].product_id@ && products@[p].score_cap == 0
                    ==> old(self).jars@[k].interest_fits(no_score(), products@[p], now),
        ensures
            r is Err ==> *final(self) == *old(self),
            match first_jar(old(self).jars@, jar_id) {
                None => r == Err::<(), JarsError>(JarsError::JarNotFound(jar_id)),
                Some(k) => {
                    let jar = old(self).jars@[k];
                    match first_product(products@, jar.product_id@) {
                        None => r == Err::<(), JarsError>(JarsError::ProductNotFound(jar.product_id)),
                        Some(p) => {
                            let product = products@[p];
                            if product.apy is Constant {
                                r == Err::<(), JarsError>(JarsError::ConstantApy)
                            } else if product.score_cap != 0 {
                                r == Err::<(), JarsError>(JarsError::ScoreBased)
                            } else {
                                &&& r is Ok
                                &&& final(self).last_id == old(self).last_id
                                &&& final(self).score == old(self).score
                                &&& final(self).jars@ == old(self).jars@.update(
                                    k,
                                    Jar {
                                        claim_remainder: jar.interest(no_score(), product, now).1 as u64,
                                        cache: Some(
                                            JarCache {
                                                updated_at: now,
                                                interest: jar.interest(no_score(), product, now).0 as u128,
                                            },
                                        ),
                                        is_penalty_applied: value,
                                        ..jar
                                    },
                                )
                            }
                        },
                    }
                },
            },
    {
        let k = match self.find_jar(jar_id) {
            None => return Err(JarsError::JarNotFound(jar_id)),
            Some(k) => k,
        };
        proof {
            self.lemma_first_jar(jar_id, k as int);
        }
        let p = match find_legacy_product(products, &self.jars[k].product_id) {
            None => return Err(JarsError::ProductNotFound(self.jars[k].product_id.clone())),
            Some(p) => p,
        };
        let product = &products[p];
        if let Apy::Constant(_) = product.apy {
            return Err(JarsError::ConstantApy);
        }
        if product.is_score_product() {
            return Err(JarsError::ScoreBased);
        }
        self.jars[k].apply_penalty(product, value, now);
        Ok(())
    }

    /// The position of the jar with id `id`, the first one if several share it.
    pub fn find_jar(&self, id: u32) -> (r: Option<usize>)
        ensures
            r matches Some(i) ==> i < self.jars@.len() && self.jars@[i as int].id == id && forall|k: int|
                0 <= k < i ==> self.jars@[k].id != id,
            r is None ==> forall|k: int| 0 <= k < self.jars@.len() ==> self.jars@[k].id != id,
    {
        let mut i: usize = 0;
        while i < self.jars.len()
            invariant
                i <= self.jars@.len(),
                forall|k: int| 0 <= k < i ==> self.jars@[k].id != id,
            decreases self.jars@.len() - i,
        {
            if self.jars[i].id == id {
                return Some(i);
            }
            i = i + 1;
        }
        None
    }
}

/// Why an operation on the jars of an account is refused.
#[derive(Clone, Debug, PartialEq, Eq)]
pub enum JarsError {
    JarNotFound(u32),
    ProductNotFound(String),
    /// A constant APY has nothing to fall back to.
    ConstantApy,
    /// Score-based jars take no penalty and no top-up.
    ScoreBased,
    /// The account has no jars at all.
    NoJars,
    /// The product does not take top-ups.
    TopUpNotAllowed,
    /// The principal would leave `[min..max]`.
    OutOfBounds { min: u128, max: u128 },
    /// No store holds the account.
    AccountNotFound(String),
}

/// The position of the first product with id `id`.
pub open spec fn first_product(products: Seq<Product>, id: Seq<char>) -> Option<int> {
    if exists|i: int| 0 <= i < products.len() && products[i].id@ == id {
        Some(choose|i: int| 0 <= i < products.len() && products[i].id@ == id && forall|k: int| 0 <= k < i ==> products[k].id@ != id)
    } else {
        None
    }
}

/// The position of the first jar with id `id`.
pub open spec fn first_jar(jars: Seq<Jar>, id: u32) -> Option<int> {
    if exists|i: int| 0 <= i < jars.len() && jars[i].id == id {
        Some(choose|i: int| 0 <= i < jars.len() && jars[i].id == id && forall|k: int| 0 <= k < i ==> jars[k].id != id)
    } else {
        None
    }
}

/// The first product with id `id`.
pub fn find_legacy_product(products: &Vec<Product>, id: &String) -> (r: Option<usize>)
    ensures
        r matches Some(i) ==> first_product(products@, id@) == Some(i as int) && i < products@.len()
            && products@[i as int].id@ == id@,
        r is None ==> first_product(products@, id@) is None,
{
    let mut i: usize = 0;
    while i < products.len()
        invariant
            i <= products@.len(),
            forall|k: int| 0 <= k < i ==> products@[k].id@ != id@,
        decreases products@.len() - i,
    {
        if products[i].id == *id {
            proof {
                let c = choose|c: int| 0 <= c < products@.len() && products@[c].id@ == id@ && forall|k: int| 0 <= k < c ==> products@[k].id@ != id@;
                assert(c == i) by {
                    if c < i {
                        assert(products@[c].id@ != id@);
                    } else if c > i {
                        assert(products@[i as int].id@ != id@);
                    }
                }
            }
            return Some(i);
        }
        i = i + 1;
    }
    None
}

/// The stored form of an account's jars, one variant per layout version.
#[derive(Clone, Debug)]
pub enum AccountJarsVersioned {
    V1(AccountJars),
}

impl AccountJarsVersioned {
    /// The account in its latest layout.
    pub open spec fn inner(&self) -> AccountJars {
        match self {
            AccountJarsVersioned::V1(a) => *a,
        }
    }

    pub open spec fn spec_has_score_jars(&self) -> bool {
        self.inner().score.spec_is_valid()
    }

    /// An account has score jars once its score has a timezone.
    #[verifier::when_used_as_spec(spec_has_score_jars)]
    pub fn has_score_jars(&self) -> (b: bool)
        ensures
            b == self.spec_has_score_jars(),
    {
        match self {
            AccountJarsVersioned::V1(a) => a.score.is_valid(),
        }
    }

    /// The score, for an account with score jars.
    pub fn score(&self) -> (r: Option<&AccountScore>)
        ensures
            r is Some <==> self.spec_has_score_jars(),
            r matches Some(s) ==> *s == self.inner().score,
    {
        match self {
            AccountJarsVersioned::V1(a) => if a.score.is_valid() {
                Some(&a.score)
            } else {
                None
            },
        }
    }

    /// The score to update, for an account with score jars.
    pub fn score_mut(&mut self) -> (r: Option<&mut AccountScore>)
        ensures
            r is Some <==> old(self).spec_has_score_jars(),
            r matches Some(s) ==> *s == old(self).inner().score,
            r matches Some(s) ==> *final(self) == AccountJarsVersioned::V1(
                AccountJars { score: *final(s), ..old(self).inner() },
            ),
            r is None ==> *final(self) == *old(self),
    {
        match self {
            AccountJarsVersioned::V1(a) => if a.score.is_valid() {
                Some(&mut a.score)
            } else {
                None
            },
        }
    }

    /// The account in its latest layout.
    pub fn account(&self) -> (a: &AccountJars)
        ensures
            *a == self.inner(),
    {
        match self {
            AccountJarsVersioned::V1(a) => a,
        }
    }

    /// The account in its latest layout, for change.
    pub fn account_mut(&mut self) -> (a: &mut AccountJars)
        ensures
            *a == old(self).inner(),
            *final(self) == AccountJarsVersioned::V1(*final(a)),
    {
        match self {
            AccountJarsVersioned::V1(a) => a,
        }
    }
}

} // verus!
