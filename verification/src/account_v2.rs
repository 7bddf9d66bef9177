use vstd::prelude::*;

use crate::account::AccountScore;
use crate::jar::JarCache;
use crate::jar::ScoreRecord;
use crate::jar_v2::{Deposit, JarV2, JarV2Companion};
use crate::product_v2::{InterestContext, Terms};

verus! {

/// The jar of one product in an account.
#[derive(Clone, Debug)]
pub struct ProductJar {
    pub product_id: String,
    pub jar: JarV2,
}

/// An account: its jars, one per product, a nonce that signed tickets carry,
/// its score and whether a penalty applies to it.
#[derive(Clone, Debug)]
pub struct AccountV1 {
    pub nonce: u32,
    pub jars: Vec<ProductJar>,
    pub score: AccountScore,
    pub is_penalty_applied: bool,
}

/// The fields of an account to overwrite, each where present; jars are matched
/// by product.
#[derive(Clone, Debug)]
pub struct AccountV1Companion {
    pub nonce: Option<u32>,
    pub jars: Option<Vec<(String, JarV2Companion)>>,
    pub score: Option<AccountScore>,
    pub is_penalty_applied: Option<bool>,
}

/// Why an account refuses an operation.
#[derive(Clone, Debug, PartialEq, Eq)]
pub enum AccountError {
    /// No jar of this product.
    JarNotFound(String),
    /// A score-based jar needs the account's timezone.
    TimezoneRequired,
    /// Another operation on a jar is in progress.
    JarLocked,
}

/// The position of the jar of `product_id` in `jars`, if there is one.
pub open spec fn jar_position(jars: Seq<ProductJar>, product_id: Seq<char>) -> Option<int> {
    if exists|i: int| 0 <= i < jars.len() && jars[i].product_id@ == product_id {
        Some(choose|i: int| 0 <= i < jars.len() && jars[i].product_id@ == product_id)
    } else {
        None
    }
}

/// `new` is `old` (or an empty jar, if there was none) with `deposit` added.
pub open spec fn deposited(old: Option<JarV2>, new: JarV2, deposit: Deposit) -> bool {
    match old {
        Some(o) => {
            &&& new.deposits@ == o.deposits@.push(deposit)
            &&& new.cache == o.cache
            &&& new.claimed_balance == o.claimed_balance
            &&& new.is_pending_withdraw == o.is_pending_withdraw
            &&& new.claim_remainder == o.claim_remainder
        },
        None => {
            &&& new.deposits@ == seq![deposit]
            &&& new.cache is None
            &&& new.claimed_balance == 0
            &&& !new.is_pending_withdraw
            &&& new.claim_remainder == 0
        },
    }
}

/// The products of the jars, in their order.
pub open spec fn product_ids(jars: Seq<ProductJar>) -> Seq<Seq<char>> {
    jars.map_values(|pj: ProductJar| pj.product_id@)
}

/// An account has a jar of a product exactly when the product is among the
/// products of its jars.
pub proof fn lemma_position_contains(jars: Seq<ProductJar>, product_id: Seq<char>)
    ensures
        jar_position(jars, product_id) is Some <==> product_ids(jars).contains(product_id),
{
    if product_ids(jars).contains(product_id) {
        let k = choose|k: int| 0 <= k < product_ids(jars).len() && product_ids(jars)[k] == product_id;
        assert(jars[k].product_id@ == product_id);
    }
    if jar_position(jars, product_id) is Some {
        let k = jar_position(jars, product_id).unwrap();
        assert(product_ids(jars)[k] == product_id);
    }
}

/// A deposit keeps the products of the jars in order and adds that of a new jar
/// at the end.
pub proof fn lemma_ids_after_deposit(before: AccountV1, after: AccountV1, product_id: Seq<char>)
    requires
        match jar_position(before.jars@, product_id) {
            Some(_) => after.jars@.len() == before.jars@.len(),
            None => after.jars@.len() == before.jars@.len() + 1 && after.jars@.last().product_id@ == product_id,
        },
        forall|i: int|
            0 <= i < before.jars@.len() ==> (#[trigger] after.jars@[i]).product_id == before.jars@[i].product_id,
    ensures
        product_ids(after.jars@) == if product_ids(before.jars@).contains(product_id) {
            product_ids(before.jars@)
        } else {
            product_ids(before.jars@).push(product_id)
        },
{
    lemma_position_contains(before.jars@, product_id);
    if jar_position(before.jars@, product_id) is Some {
        assert(product_ids(after.jars@) =~= product_ids(before.jars@));
    } else {
        assert(product_ids(after.jars@) =~= product_ids(before.jars@).push(product_id));
    }
}

/// No product has two jars.
pub open spec fn unique_products(jars: Seq<ProductJar>) -> bool {
    forall|i: int, j: int|
        0 <= i < jars.len() && 0 <= j < jars.len() && i != j ==> jars[i].product_id@ != jars[j].product_id@
}

impl AccountV1 {
    pub open spec fn wf(&self) -> bool {
        unique_products(self.jars@)
    }

    /// The jar of a product, if the account has one.
    pub open spec fn jar_of(&self, product_id: Seq<char>) -> Option<JarV2> {
        match jar_position(self.jars@, product_id) {
            Some(i) => Some(self.jars@[i].jar),
            None => None,
        }
    }

    /// An account without jars, penalty or score.
    pub fn new() -> (a: AccountV1)
        ensures
            a.nonce == 0,
            a.jars@ == Seq::<ProductJar>::empty(),
            a.score == AccountScore::invalid_spec(),
            !a.is_penalty_applied,
            a.wf(),
    {
        AccountV1 { nonce: 0, jars: Vec::new(), score: AccountScore::invalid(), is_penalty_applied: false }
    }

    /// The position of the jar of `product_id`.
    pub fn find_jar(&self, product_id: &String) -> (r: Option<usize>)
        requires
            self.wf(),
        ensures
            r matches Some(i) ==> jar_position(self.jars@, product_id@) == Some(i as int),
            r is None ==> jar_position(self.jars@, product_id@) is None,
    {
        let mut i: usize = 0;
        while i < self.jars.len()
            invariant
                i <= self.jars@.len(),
                unique_products(self.jars@),
                forall|k: int| 0 <= k < i ==> self.jars@[k].product_id@ != product_id@,
            decreases self.jars@.len() - i,
        {
            if self.jars[i].product_id == *product_id {
                assert(jar_position(self.jars@, product_id@) == Some(i as int)) by {
                    let c = choose|k: int| 0 <= k < self.jars@.len() && self.jars@[k].product_id@ == product_id@;
                    assert(c == i);
                }
                return Some(i);
            }
            i = i + 1;
        }
        None
    }

    /// The jar of `product_id`.
    pub fn get_jar(&self, product_id: &String) -> (r: Result<&JarV2, AccountError>)
        requires
            self.wf(),
        ensures
            r matches Ok(j) ==> self.jar_of(product_id@) == Some(*j),
            r is Err ==> self.jar_of(product_id@) is None && r == Err::<&JarV2, AccountError>(
                AccountError::JarNotFound(*product_id),
            ),
    {
        match self.find_jar(product_id) {
            Some(i) => Ok(&self.jars[i].jar),
            None => Err(AccountError::JarNotFound(product_id.clone())),
        }
    }

    /// Adds `deposit` to the jar of `product_id`, opening the jar if there is none.
    pub fn push(&mut self, product_id: &String, deposit: Deposit)
        requires
            old(self).wf(),
        ensures
            final(self).wf(),
            final(self).nonce == old(self).nonce,
            final(self).score == old(self).score,
            final(self).is_penalty_applied == old(self).is_penalty_applied,
            match jar_position(old(self).jars@, product_id@) {
                Some(i) => final(self).jars@ == old(self).jars@.update(
                    i,
                    ProductJar {
                        jar: JarV2 {
                            deposits: final(self).jars@[i].jar.deposits,
                            ..old(self).jars@[i].jar
                        },
                        ..old(self).jars@[i]
                    },
                ) && final(self).jars@[i].jar.deposits@ == old(self).jars@[i].jar.deposits@.push(deposit),
                None => final(self).jars@.len() == old(self).jars@.len() + 1 && final(self).jars@.drop_last()
                    == old(self).jars@ && final(self).jars@.last().product_id@ == product_id@
                    && final(self).jars@.last().jar.deposits@ == seq![deposit]
                    && final(self).jars@.last().jar.cache is None
                    && final(self).jars@.last().jar.claimed_balance == 0
                    && !final(self).jars@.last().jar.is_pending_withdraw
                    && final(self).jars@.last().jar.claim_remainder == 0,
            },
    {
        match self.find_jar(product_id) {
            Some(i) => {
                self.jars[i].jar.deposits.push(deposit);
            },
            None => {
                let mut jar = JarV2::new();
                jar.deposits.push(deposit);
                self.jars.push(ProductJar { product_id: product_id.clone(), jar });
                assert(self.jars@.drop_last() =~= old(self).jars@);
            },
        }
    }

    /// A deposit of `principal` at `now` into the jar of `product_id`.
    pub fn deposit(&mut self, product_id: &String, principal: u128, now: u64)
        requires
            old(self).wf(),
        ensures
            final(self).wf(),
            final(self).nonce == old(self).nonce,
            final(self).score == old(self).score,
            final(self).is_penalty_applied == old(self).is_penalty_applied,
            final(self).jar_of(product_id@) matches Some(j) && deposited(
                old(self).jar_of(product_id@),
                j,
                Deposit { created_at: now, principal },
            ),
            forall|q: Seq<char>| q != product_id@ ==> final(self).jar_of(q) == old(self).jar_of(q),
            match jar_position(old(self).jars@, product_id@) {
                Some(_) => final(self).jars@.len() == old(self).jars@.len(),
                None => final(self).jars@.len() == old(self).jars@.len() + 1 && final(self).jars@.last().product_id@
                    == product_id@,
            },
            forall|i: int| 0 <= i < old(self).jars@.len() ==> (#[trigger] final(self).jars@[i]).product_id == old(self).jars@[i].product_id,
            forall|i: int| 0 <= i < final(self).jars@.len() ==> (#[trigger] final(self).jars@[i]).product_id@ == product_id@ || (i < old(self).jars@.len() && final(self).jars@[i] == old(self).jars@[i]),
    {
        self.push(product_id, Deposit::new(now, principal));
        proof {
            lemma_position_after_push(old(self).jars@, self.jars@, product_id@);
            assert forall|q: Seq<char>| q != product_id@ implies self.jar_of(q) == old(self).jar_of(q) by {
                lemma_position_other_after_push(old(self).jars@, self.jars@, product_id@, q);
            }
        }
    }

    /// Sets the timezone of an account that has none; an account with a timezone
    /// keeps it, and one without must be given one.
    pub fn try_set_timezone(&mut self, timezone: Option<i64>, now: u64) -> (r: Result<(), AccountError>)
        ensures
            r is Err <==> (timezone is None && !old(self).score.spec_is_valid()),
            r is Err ==> r == Err::<(), AccountError>(AccountError::TimezoneRequired),
            r is Err || old(self).score.spec_is_valid() ==> *final(self) == *old(self),
            r is Ok && !old(self).score.spec_is_valid() ==> *final(self) == (AccountV1 {
                score: AccountScore::new_spec(timezone.unwrap(), now),
                ..*old(self)
            }),
    {
        if self.score.is_valid() {
            return Ok(());
        }
        match timezone {
            Some(tz) => {
                self.score = AccountScore::new(tz, now);
                Ok(())
            },
            None => Err(AccountError::TimezoneRequired),
        }
    }

    /// Caches the interest that the jar of `product_id` has earned by `now` under
    /// `terms`, with the account's penalty and `score`.
    pub fn update_cache_for(&mut self, product_id: &String, terms: &Terms, score: &ScoreRecord, now: u64)
        requires
            old(self).wf(),
            old(self).jar_of(product_id@) matches Some(j) && terms.jar_interest_fits(
                old(self).is_penalty_applied,
                score@,
                j,
                now,
            ),
        ensures
            jar_replaced(*old(self), *final(self), jar_position(old(self).jars@, product_id@).unwrap()),
            final(self).jar_of(product_id@) == Some(
                cached_jar(*terms, old(self).is_penalty_applied, score@, old(self).jar_of(product_id@).unwrap(), now),
            ),
    {
        let k = self.find_jar(product_id).unwrap();
        let context = InterestContext { is_penalty_applied: self.is_penalty_applied, score: score.copy() };
        let (interest, remainder) = terms.get_interest(&context, &self.jars[k].jar, now);
        self.jars[k].jar.update_cache(interest, remainder, now);
        proof {
            lemma_jar_replaced(*old(self), *self, k as int);
            assert(self.jars@[k as int].jar == cached_jar(*terms, old(self).is_penalty_applied, score@, old(self).jars@[k as int].jar, now));
        }
    }

    /// Sets or clears the in-progress mark of the jar of `product_id`.
    pub fn set_jar_locked(&mut self, product_id: &String, locked: bool)
        requires
            old(self).wf(),
            old(self).jar_of(product_id@) is Some,
        ensures
            jar_replaced(*old(self), *final(self), jar_position(old(self).jars@, product_id@).unwrap()),
            final(self).jar_of(product_id@) == Some(
                JarV2 { is_pending_withdraw: locked, ..old(self).jar_of(product_id@).unwrap() },
            ),
    {
        let k = self.find_jar(product_id).unwrap();
        if locked {
            self.jars[k].jar.lock();
        } else {
            self.jars[k].jar.unlock();
        }
        proof {
            lemma_jar_replaced(*old(self), *self, k as int);
        }
    }

    /// Drops the first `partition_index` deposits of the jar of `product_id`.
    pub fn clean_up_jar(&mut self, product_id: &String, partition_index: usize)
        requires
            old(self).wf(),
            old(self).jar_of(product_id@) matches Some(j) && partition_index <= j.deposits@.len(),
        ensures
            jar_replaced(*old(self), *final(self), jar_position(old(self).jars@, product_id@).unwrap()),
            final(self).jar_of(product_id@) matches Some(j) && cleaned_jar(
                old(self).jar_of(product_id@).unwrap(),
                j,
                partition_index as int,
            ),
    {
        let k = self.find_jar(product_id).unwrap();
        self.jars[k].jar.clean_up_deposits(partition_index);
        proof {
            lemma_jar_replaced(*old(self), *self, k as int);
        }
    }

    /// Stores interest computed at `now` in the jar of `product_id`.
    pub fn update_jar_cache(&mut self, product_id: &String, interest: u128, remainder: u64, now: u64) -> (r:
        Result<(), AccountError>)
        requires
            old(self).wf(),
        ensures
            final(self).wf(),
            r is Err <==> old(self).jar_of(product_id@) is None,
            r is Err ==> *final(self) == *old(self),
            r is Ok ==> {
                let i = jar_position(old(self).jars@, product_id@).unwrap();
                final(self).jars@ == old(self).jars@.update(
                    i,
                    ProductJar {
                        jar: JarV2 {
                            cache: Some(JarCache { updated_at: now, interest }),
                            claim_remainder: remainder,
                            ..old(self).jars@[i].jar
                        },
                        ..old(self).jars@[i]
                    },
                )
            },
            final(self).nonce == old(self).nonce,
            final(self).score == old(self).score,
            final(self).is_penalty_applied == old(self).is_penalty_applied,
    {
        match self.find_jar(product_id) {
            Some(i) => {
                self.jars[i].jar.update_cache(interest, remainder, now);
                proof {
                    assert(self.jars@ =~= old(self).jars@.update(
                        i as int,
                        ProductJar {
                            jar: JarV2 {
                                cache: Some(JarCache { updated_at: now, interest }),
                                claim_remainder: remainder,
                                ..old(self).jars@[i as int].jar
                            },
                            ..old(self).jars@[i as int]
                        },
                    ));
                }
                Ok(())
            },
            None => Err(AccountError::JarNotFound(product_id.clone())),
        }
    }
}

/// The jar with its interest up to `now` cached and its remainder carried.
pub open spec fn cached_jar(terms: Terms, is_penalty_applied: bool, score: (Seq<u16>, u64), jar: JarV2, now: u64) -> JarV2 {
    let (interest, remainder) = terms.jar_interest(is_penalty_applied, score, jar, now);
    JarV2 {
        cache: Some(JarCache { updated_at: now, interest: interest as u128 }),
        claim_remainder: remainder as u64,
        ..jar
    }
}

/// The jar without its first `n` deposits.
pub open spec fn cleaned_jar(old: JarV2, new: JarV2, n: int) -> bool {
    &&& new.deposits@ == old.deposits@.skip(n)
    &&& new.cache == old.cache
    &&& new.claimed_balance == old.claimed_balance
    &&& new.is_pending_withdraw == old.is_pending_withdraw
    &&& new.claim_remainder == old.claim_remainder
}

/// `after` is `before` with the jar at position `k` replaced by another jar of the
/// same product.
pub open spec fn jar_replaced(before: AccountV1, after: AccountV1, k: int) -> bool {
    &&& 0 <= k < before.jars@.len()
    &&& after.jars@.len() == before.jars@.len()
    &&& after.jars@[k].product_id == before.jars@[k].product_id
    &&& forall|j: int| 0 <= j < before.jars@.len() && j != k ==> after.jars@[j] == before.jars@[j]
    &&& after.nonce == before.nonce
    &&& after.score == before.score
    &&& after.is_penalty_applied == before.is_penalty_applied
}

/// Replacing one jar by another of the same product keeps the account well formed
/// and leaves the jars of the other products as they were.
pub proof fn lemma_jar_replaced(before: AccountV1, after: AccountV1, k: int)
    requires
        before.wf(),
        jar_replaced(before, after, k),
    ensures
        after.wf(),
        jar_position(before.jars@, before.jars@[k].product_id@) == Some(k),
        jar_position(after.jars@, before.jars@[k].product_id@) == Some(k),
        after.jar_of(before.jars@[k].product_id@) == Some(after.jars@[k].jar),
        forall|q: Seq<char>| q != before.jars@[k].product_id@ ==> #[trigger] after.jar_of(q) == before.jar_of(q),
{
    let pid = before.jars@[k].product_id@;
    assert forall|i: int, j: int|
        0 <= i < after.jars@.len() && 0 <= j < after.jars@.len() && i != j implies after.jars@[i].product_id@
        != after.jars@[j].product_id@ by {
        assert(after.jars@[i].product_id@ == before.jars@[i].product_id@);
        assert(after.jars@[j].product_id@ == before.jars@[j].product_id@);
    }
    assert(jar_position(before.jars@, pid) == Some(k)) by {
        let c = choose|i: int| 0 <= i < before.jars@.len() && before.jars@[i].product_id@ == pid;
        assert(c == k);
    }
    assert(jar_position(after.jars@, pid) == Some(k)) by {
        assert(after.jars@[k].product_id@ == pid);
        let c = choose|i: int| 0 <= i < after.jars@.len() && after.jars@[i].product_id@ == pid;
        assert(c == k);
    }
    assert forall|q: Seq<char>| q != pid implies #[trigger] after.jar_of(q) == before.jar_of(q) by {
        if exists|i: int| 0 <= i < before.jars@.len() && before.jars@[i].product_id@ == q {
            let a = choose|i: int| 0 <= i < before.jars@.len() && before.jars@[i].product_id@ == q;
            assert(a != k);
            assert(after.jars@[a].product_id@ == q);
            let b = choose|i: int| 0 <= i < after.jars@.len() && after.jars@[i].product_id@ == q;
            assert(b == a);
        } else {
            if exists|i: int| 0 <= i < after.jars@.len() && after.jars@[i].product_id@ == q {
                let b = choose|i: int| 0 <= i < after.jars@.len() && after.jars@[i].product_id@ == q;
                assert(b != k);
                assert(before.jars@[b].product_id@ == q);
            }
        }
    }
}

/// Jars that hold the same products at the same positions are found at the same
/// positions.
pub proof fn lemma_same_products(before: Seq<ProductJar>, after: Seq<ProductJar>)
    requires
        unique_products(before),
        after.len() == before.len(),
        forall|i: int| 0 <= i < before.len() ==> #[trigger] after[i].product_id@ == before[i].product_id@,
    ensures
        unique_products(after),
        forall|q: Seq<char>| #[trigger] jar_position(after, q) == jar_position(before, q),
{
    assert forall|q: Seq<char>| #[trigger] jar_position(after, q) == jar_position(before, q) by {
        if exists|i: int| 0 <= i < before.len() && before[i].product_id@ == q {
            let a = choose|i: int| 0 <= i < before.len() && before[i].product_id@ == q;
            assert(after[a].product_id@ == q);
            let b = choose|i: int| 0 <= i < after.len() && after[i].product_id@ == q;
            assert(before[b].product_id@ == q);
            assert(b == a);
        } else {
            if exists|i: int| 0 <= i < after.len() && after[i].product_id@ == q {
                let b = choose|i: int| 0 <= i < after.len() && after[i].product_id@ == q;
                assert(before[b].product_id@ == q);
            }
        }
    }
    assert forall|i: int, j: int| 0 <= i < after.len() && 0 <= j < after.len() && i != j implies after[i].product_id@
        != after[j].product_id@ by {
        assert(after[i].product_id@ == before[i].product_id@);
        assert(after[j].product_id@ == before[j].product_id@);
    }
}

/// A push leaves the jars of other products where they were.
proof fn lemma_position_other_after_push(
    before: Seq<ProductJar>,
    after: Seq<ProductJar>,
    product_id: Seq<char>,
    other: Seq<char>,
)
    requires
        other != product_id,
        unique_products(after),
        after.len() >= before.len(),
        forall|i: int| 0 <= i < before.len() ==> after[i].product_id == before[i].product_id,
        forall|i: int|
            0 <= i < after.len() ==> after[i].product_id@ == product_id || (i < before.len() && after[i]
                == before[i]),
    ensures
        jar_position(after, other) == jar_position(before, other),
        match jar_position(before, other) {
            Some(i) => after[i] == before[i],
            None => true,
        },
{
    if exists|i: int| 0 <= i < before.len() && before[i].product_id@ == other {
        let i = choose|i: int| 0 <= i < before.len() && before[i].product_id@ == other;
        assert(after[i].product_id@ == other);
        let c = choose|k: int| 0 <= k < after.len() && after[k].product_id@ == other;
        assert(c == i);
    } else {
        if exists|i: int| 0 <= i < after.len() && after[i].product_id@ == other {
            let k = choose|i: int| 0 <= i < after.len() && after[i].product_id@ == other;
            assert(after[k].product_id@ != product_id);
            assert(before[k].product_id@ == other);
        }
    }
}

/// After a push the jar of a product is found where it was, or at the end.
proof fn lemma_position_after_push(before: Seq<ProductJar>, after: Seq<ProductJar>, product_id: Seq<char>)
    requires
        unique_products(after),
        match jar_position(before, product_id) {
            Some(i) => after.len() == before.len() && after[i].product_id == before[i].product_id,
            None => after.len() == before.len() + 1 && after.drop_last() == before && after.last().product_id@
                == product_id,
        },
    ensures
        match jar_position(before, product_id) {
            Some(i) => jar_position(after, product_id) == Some(i),
            None => jar_position(after, product_id) == Some(before.len() as int),
        },
{
    match jar_position(before, product_id) {
        Some(i) => {
            assert(0 <= i < after.len() && after[i].product_id@ == product_id);
        },
        None => {
            let n = before.len() as int;
            assert(0 <= n < after.len() && after[n].product_id@ == product_id);
        },
    }
}

} // verus!
