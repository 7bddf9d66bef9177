use vstd::prelude::*;
use vstd::arithmetic::div_mod::{lemma_div_is_ordered, lemma_fundamental_div_mod, lemma_fundamental_div_mod_converse};

use crate::account::AccountScore;
use crate::account_v2::{cached_jar, AccountError, AccountV1};
use crate::common::MS_IN_DAY;
use crate::contract::{lemma_account_replaced, Contract, ContractError};
use crate::jar::ScoreRecord;

verus! {

/// Days of scores that an account keeps: today and yesterday.
pub const DAYS_STORED: u64 = 2;

/// Days added to every local day so that it counts from a positive origin.
const SHIFT_DAYS: u128 = 1_000_000_000_000;

/// The day, in the account's timezone, of the moment `t` (milliseconds since the
/// Unix epoch, UTC).
pub open spec fn local_day(t: u64, timezone: i64) -> int {
    (t + timezone) / (MS_IN_DAY as int)
}

/// How many days before `now`, in the account's timezone, the moment `t` lies.
pub open spec fn days_ago(t: u64, now: u64, timezone: i64) -> int {
    local_day(now, timezone) - local_day(t, timezone)
}

/// The walk data of a chain, each entry a score and when it was walked, as scores
/// by days ago: entries of days that are no longer kept are dropped.
pub open spec fn converted_chain(chain: Seq<(u16, u64)>, timezone: i64, now: u64) -> Seq<(u16, u64)>
    decreases chain.len(),
{
    if chain.len() == 0 {
        Seq::empty()
    } else {
        let rest = converted_chain(chain.drop_last(), timezone, now);
        let d = days_ago(chain.last().1, now, timezone);
        if 0 <= d < DAYS_STORED {
            rest.push((chain.last().0, d as u64))
        } else {
            rest
        }
    }
}

/// The first entry of a chain walked after `now`, if there is one.
pub open spec fn first_from_future(chain: Seq<(u16, u64)>, now: u64) -> Option<(u16, u64)>
    decreases chain.len(),
{
    if chain.len() == 0 {
        None
    } else if chain[0].1 > now {
        Some(chain[0])
    } else {
        first_from_future(chain.drop_first(), now)
    }
}

/// Why walk data is refused.
#[derive(Clone, Debug, PartialEq, Eq)]
pub enum ScoreError {
    /// An entry was walked after the present moment.
    FromFuture { score: u16, timestamp: u64, now: u64 },
    /// The stored scores are newer than the present moment.
    NotClaimed,
}

/// The local day of `t`, moved forward by a fixed number of days.
fn shifted_local_day(t: u64, timezone: i64) -> (d: u128)
    ensures
        d == local_day(t, timezone) + SHIFT_DAYS,
{
    let day: u128 = MS_IN_DAY as u128;
    let base: i128 = (timezone as i128) + 86_400_000_000_000_000_000i128;
    let x: u128 = (t as u128) + (base as u128);
    proof {
        let m = MS_IN_DAY as int;
        let v = t + timezone;
        lemma_fundamental_div_mod(v, m);
        let q = v / m;
        let r = v % m;
        assert(x == v + SHIFT_DAYS * m);
        assert(x == m * (q + SHIFT_DAYS) + r) by (nonlinear_arith)
            requires
                v == m * q + r,
                x == v + SHIFT_DAYS * m,
        ;
        lemma_fundamental_div_mod_converse(x as int, m, q + SHIFT_DAYS, r);
    }
    x / day
}

/// Converts walk data to scores by days ago, or refuses the first entry walked
/// after `now`.
pub fn convert_chain(chain: &Vec<(u16, u64)>, timezone: i64, now: u64) -> (r: Result<Vec<(u16, u64)>, ScoreError>)
    ensures
        match first_from_future(chain@, now) {
            Some(e) => r == Err::<Vec<(u16, u64)>, ScoreError>(
                ScoreError::FromFuture { score: e.0, timestamp: e.1, now },
            ),
            None => r matches Ok(v) && v@ == converted_chain(chain@, timezone, now),
        },
{
    let today = shifted_local_day(now, timezone);
    let mut out: Vec<(u16, u64)> = Vec::new();
    proof {
        assert(chain@.skip(0) =~= chain@);
        assert(chain@.take(0) =~= Seq::<(u16, u64)>::empty());
    }
    let mut i: usize = 0;
    while i < chain.len()
        invariant
            i <= chain@.len(),
            today == local_day(now, timezone) + SHIFT_DAYS,
            first_from_future(chain@, now) == first_from_future(chain@.skip(i as int), now),
            out@ == converted_chain(chain@.take(i as int), timezone, now),
        decreases chain@.len() - i,
    {
        let (score, timestamp) = chain[i];
        proof {
            assert(chain@.skip(i as int)[0] == chain@[i as int]);
            assert(chain@.skip(i as int).drop_first() =~= chain@.skip(i + 1));
            assert(chain@.take(i + 1).drop_last() =~= chain@.take(i as int));
            assert(chain@.take(i + 1).last() == chain@[i as int]);
        }
        if timestamp > now {
            return Err(ScoreError::FromFuture { score, timestamp, now });
        }
        let day = shifted_local_day(timestamp, timezone);
        proof {
            lemma_div_is_ordered(timestamp + timezone, now + timezone, MS_IN_DAY as int);
        }
        if today - day < DAYS_STORED as u128 {
            out.push((score, (today - day) as u64));
        }
        i = i + 1;
    }
    proof {
        assert(chain@.take(chain@.len() as int) =~= chain@);
        assert(chain@.skip(chain@.len() as int).len() == 0);
    }
    Ok(out)
}

/// Every converted entry lies within the days kept.
proof fn lemma_converted_days(chain: Seq<(u16, u64)>, timezone: i64, now: u64)
    ensures
        forall|i: int|
            0 <= i < converted_chain(chain, timezone, now).len() ==> (#[trigger] converted_chain(
                chain,
                timezone,
                now,
            )[i]).1 < DAYS_STORED,
    decreases chain.len(),
{
    if chain.len() > 0 {
        lemma_converted_days(chain.drop_last(), timezone, now);
        let rest = converted_chain(chain.drop_last(), timezone, now);
        let c = converted_chain(chain, timezone, now);
        assert forall|i: int| 0 <= i < c.len() implies (#[trigger] c[i]).1 < DAYS_STORED by {
            if i < rest.len() {
                assert(c[i] == rest[i]);
            }
        }
    }
}

/// The score walked `d` days ago according to converted walk data.
pub open spec fn walked_on(converted: Seq<(u16, u64)>, d: u64) -> nat
    decreases converted.len(),
{
    if converted.len() == 0 {
        0
    } else {
        walked_on(converted.drop_last(), d) + if converted.last().1 == d {
            converted.last().0 as nat
        } else {
            0
        }
    }
}

/// The stored scores of today and yesterday, seen at `now`: they move back one
/// place for each day since the last update, and nothing older than yesterday
/// stays.
pub open spec fn rotated_scores(score: AccountScore, now: u64) -> Seq<u16> {
    let days = days_ago(score.updated, now, score.timezone);
    if days <= 0 {
        score.scores@
    } else if days == 1 {
        seq![0u16, score.scores[0]]
    } else {
        seq![0u16, 0u16]
    }
}

/// Today's and yesterday's scores once walk data `chain` is recorded at `now`:
/// the rotated scores with the walk data of each day added.
pub open spec fn recorded_scores(score: AccountScore, chain: Seq<(u16, u64)>, now: u64) -> Seq<int> {
    let converted = converted_chain(chain, score.timezone, now);
    let rotated = rotated_scores(score, now);
    seq![rotated[0] + walked_on(converted, 0), rotated[1] + walked_on(converted, 1)]
}

/// Why recording walk data into a score is refused, if it is: an entry from the
/// future, or stored scores newer than `now`.
pub open spec fn walk_refusal(score: AccountScore, chain: Seq<(u16, u64)>, now: u64) -> Option<ScoreError> {
    match first_from_future(chain, now) {
        Some(e) => Some(ScoreError::FromFuture { score: e.0, timestamp: e.1, now }),
        None => if days_ago(score.updated, now, score.timezone) < 0 {
            Some(ScoreError::NotClaimed)
        } else {
            None
        },
    }
}

/// `x`, or the largest `u16` where `x` is larger.
pub open spec fn saturated(x: int) -> int {
    if x > u16::MAX {
        u16::MAX as int
    } else {
        x
    }
}

/// Records walk data at `now`: the stored scores roll over to today, and each
/// kept entry adds its score to its day, up to the largest `u16`.
pub fn record_walk(score: &mut AccountScore, chain: &Vec<(u16, u64)>, now: u64) -> (r: Result<(), ScoreError>)
    ensures
        match walk_refusal(*old(score), chain@, now) {
            Some(e) => r == Err::<(), ScoreError>(e) && *final(score) == *old(score),
            None => {
                &&& r is Ok
                &&& final(score).updated == now
                &&& final(score).timezone == old(score).timezone
                &&& final(score).scores_history == old(score).scores_history
                &&& final(score).scores[0] == saturated(recorded_scores(*old(score), chain@, now)[0])
                &&& final(score).scores[1] == saturated(recorded_scores(*old(score), chain@, now)[1])
            },
        },
{
    let converted = match convert_chain(chain, score.timezone, now) {
        Err(e) => return Err(e),
        Ok(v) => v,
    };
    let today_day = shifted_local_day(now, score.timezone);
    let updated_day = shifted_local_day(score.updated, score.timezone);
    if today_day < updated_day {
        return Err(ScoreError::NotClaimed);
    }
    let (mut today, mut yesterday): (u16, u16) = if today_day == updated_day {
        (score.scores[0], score.scores[1])
    } else if today_day - updated_day == 1 {
        (0, score.scores[0])
    } else {
        (0, 0)
    };
    let ghost rotated = rotated_scores(*score, now);
    let ghost conv = converted@;
    proof {
        lemma_converted_days(chain@, score.timezone, now);
        assert(conv.take(0) =~= Seq::<(u16, u64)>::empty());
    }
    let mut k: usize = 0;
    while k < converted.len()
        invariant
            k <= conv.len(),
            conv == converted@,
            conv == converted_chain(chain@, score.timezone, now),
            forall|i: int| 0 <= i < conv.len() ==> (#[trigger] conv[i]).1 < DAYS_STORED,
            today == saturated(rotated[0] + walked_on(conv.take(k as int), 0)),
            yesterday == saturated(rotated[1] + walked_on(conv.take(k as int), 1)),
        decreases conv.len() - k,
    {
        let (walked, d) = converted[k];
        proof {
            assert(conv.take(k + 1).drop_last() =~= conv.take(k as int));
            assert(conv.take(k + 1).last() == conv[k as int]);
        }
        if d == 0 {
            today = if today as u32 + walked as u32 > u16::MAX as u32 {
                u16::MAX
            } else {
                today + walked
            };
        } else {
            yesterday = if yesterday as u32 + walked as u32 > u16::MAX as u32 {
                u16::MAX
            } else {
                yesterday + walked
            };
        }
        k = k + 1;
    }
    proof {
        assert(conv.take(conv.len() as int) =~= conv);
    }
    score.scores = [today, yesterday];
    score.updated = now;
    Ok(())
}

/// The record of the scores that interest is computed on: today's and
/// yesterday's scores, and when they were updated.
pub open spec fn score_record(score: AccountScore) -> (Seq<u16>, u64) {
    (score.scores@, score.updated)
}

/// The record of the scores of `score`.
pub fn to_record(score: &AccountScore) -> (r: ScoreRecord)
    ensures
        r@ == score_record(*score),
{
    let r = ScoreRecord { score: vec![score.scores[0], score.scores[1]], updated: score.updated };
    assert(r.score@ =~= score.scores@);
    r
}

/// Why a batch of walk data is refused, if it is: for the first entry that
/// cannot be recorded, its account is unknown, has no timezone, or refuses the
/// walk data.
pub open spec fn batch_refusal(c: Contract, batch: Seq<(String, Vec<(u16, u64)>)>, now: u64) -> Option<ContractError>
    decreases batch.len(),
{
    if batch.len() == 0 {
        None
    } else {
        match c.account(batch[0].0@) {
            None => Some(ContractError::AccountNotFound(batch[0].0)),
            Some(a) => if !a.score.spec_is_valid() {
                Some(ContractError::Account(AccountError::TimezoneRequired))
            } else {
                match walk_refusal(a.score, batch[0].1@, now) {
                    Some(e) => Some(ContractError::Score(e)),
                    None => batch_refusal(c, batch.drop_first(), now),
                }
            },
        }
    }
}

/// No account is named twice in a batch.
pub open spec fn distinct_accounts(batch: Seq<(String, Vec<(u16, u64)>)>) -> bool {
    forall|i: int, j: int| 0 <= i < batch.len() && 0 <= j < batch.len() && i != j ==> batch[i].0@ != batch[j].0@
}

impl Contract {
    /// What recording walk data `chain` at `now` makes of the account `a`: the
    /// interest of its score-based jars is cached on the score it had, and the
    /// score takes the walk data.
    pub open spec fn scored(&self, a: AccountV1, b: AccountV1, chain: Seq<(u16, u64)>, now: u64) -> bool {
        &&& b.nonce == a.nonce
        &&& b.is_penalty_applied == a.is_penalty_applied
        &&& b.score.updated == now
        &&& b.score.timezone == a.score.timezone
        &&& b.score.scores_history == a.score.scores_history
        &&& b.score.scores[0] == saturated(recorded_scores(a.score, chain, now)[0])
        &&& b.score.scores[1] == saturated(recorded_scores(a.score, chain, now)[1])
        &&& forall|q: Seq<char>|
            #[trigger] b.jar_of(q) == match a.jar_of(q) {
                Some(j) => if self.cache_selected(q, true) {
                    Some(cached_jar(self.product(q).unwrap().terms, a.is_penalty_applied, score_record(a.score), j, now))
                } else {
                    Some(j)
                },
                None => None,
            }
    }

    /// The walk data of the batch can be recorded within the machine integers: the
    /// interest of each account's score-based jars on its score can be computed.
    pub open spec fn batch_fits(&self, batch: Seq<(String, Vec<(u16, u64)>)>, now: u64) -> bool {
        forall|k: int|
            0 <= k < batch.len() ==> (self.account((#[trigger] batch[k]).0@) matches Some(a) ==> forall|q: Seq<char>|
                #![trigger a.jar_of(q)]
                self.cache_selected(q, true) ==> (a.jar_of(q) matches Some(j) ==> self.product(
                    q,
                ).unwrap().terms.jar_interest_fits(a.is_penalty_applied, score_record(a.score), j, now)))
    }

    /// Tells whether the walk data `chain` of `account_id` can be recorded at `now`
    /// within the machine integers.
    pub fn is_score_computable(&self, account_id: &String, chain: &Vec<(u16, u64)>, now: u64) -> (b: bool)
        requires
            self.wf(),
        ensures
            b == self.batch_fits(seq![(*account_id, *chain)], now),
    {
        let ghost batch = seq![(*account_id, *chain)];
        let ai = match self.find_account(account_id) {
            None => return true,
            Some(i) => i,
        };
        let a = &self.accounts[ai].account;
        proof {
            assert(batch[0] == (*account_id, *chain));
            assert(self.account(account_id@) == Some(*a));
        }
        let context = crate::product_v2::InterestContext { is_penalty_applied: a.is_penalty_applied, score: to_record(&a.score) };
        let mut j: usize = 0;
        while j < a.jars.len()
            invariant
                j <= a.jars@.len(),
                batch == seq![(*account_id, *chain)],
                self.wf(),
                *a == self.accounts@[ai as int].account,
                0 <= ai < self.accounts@.len(),
                self.account(account_id@) == Some(*a),
                context.is_penalty_applied == a.is_penalty_applied,
                context.score@ == score_record(a.score),
                forall|x: int|
                    0 <= x < j ==> (self.cache_selected((#[trigger] a.jars@[x]).product_id@, true) ==> self.product(
                        a.jars@[x].product_id@,
                    ).unwrap().terms.jar_interest_fits(a.is_penalty_applied, score_record(a.score), a.jars@[x].jar, now)),
            decreases a.jars@.len() - j,
        {
            let pj = &a.jars[j];
            proof {
                assert(crate::contract::product_position(self.products@, self.accounts@[ai as int].account.jars@[j as int].product_id@) is Some);
            }
            let pi = self.find_product(&pj.product_id).unwrap();
            let selected = match self.products[pi].terms {
                crate::product_v2::Terms::ScoreBased(_) => true,
                _ => false,
            };
            if selected && !self.products[pi].terms.is_interest_computable(&context, &pj.jar, now) {
                proof {
                    let q = pj.product_id@;
                    assert(a.jar_of(q) == Some(pj.jar)) by {
                        let c = choose|c: int| 0 <= c < a.jars@.len() && a.jars@[c].product_id@ == q;
                        assert(c == j);
                    }
                    assert(self.product(q) == Some(self.products@[pi as int]));
                    assert(self.cache_selected(q, true));
                    assert(batch[0] == (*account_id, *chain));
                    assert(self.account(batch[0].0@) == Some(*a));
                    assert(!self.products@[pi as int].terms.jar_interest_fits(
                        a.is_penalty_applied,
                        score_record(a.score),
                        pj.jar,
                        now,
                    ));
                    if self.batch_fits(batch, now) {
                        assert(0 <= 0 < batch.len());
                        let entry = batch[0];
                        assert(self.account(entry.0@) matches Some(aa) && aa == *a);
                        assert(self.cache_selected(q, true) ==> (a.jar_of(q) matches Some(jq) ==> self.product(
                            q,
                        ).unwrap().terms.jar_interest_fits(a.is_penalty_applied, score_record(a.score), jq, now)));
                    }
                }
                return false;
            }
            j = j + 1;
        }
        proof {
            assert forall|q: Seq<char>|
                #![trigger a.jar_of(q)]
                self.cache_selected(q, true) implies (a.jar_of(q) matches Some(jq) ==> self.product(
                    q,
                ).unwrap().terms.jar_interest_fits(a.is_penalty_applied, score_record(a.score), jq, now)) by {
                if a.jar_of(q) is Some {
                    let c = crate::account_v2::jar_position(a.jars@, q).unwrap();
                    assert(a.jars@[c].product_id@ == q);
                }
            }
        }
        true
    }

    /// Records a batch of walk data, each entry an account and its walk data:
    /// the interest of the account's score-based jars is cached on its score so
    /// far, then the score rolls over to today and takes the walk data. A batch
    /// with an entry that cannot be recorded is refused whole.
    #[verifier::spinoff_prover]
    pub fn record_score(&mut self, batch: Vec<(String, Vec<(u16, u64)>)>, now: u64) -> (r: Result<(), ContractError>)
        requires
            old(self).wf(),
            old(self).all_before(now),
            distinct_accounts(batch@),
            old(self).batch_fits(batch@, now),
        ensures
            final(self).wf(),
            final(self).all_before(now),
            match batch_refusal(*old(self), batch@, now) {
                Some(e) => r == Err::<(), ContractError>(e) && *final(self) == *old(self),
                None => {
                    &&& r is Ok
                    &&& final(self).products == old(self).products
                    &&& final(self).fee_amount == old(self).fee_amount
                    &&& final(self).token_account_id == old(self).token_account_id
                    &&& final(self).fee_account_id == old(self).fee_account_id
                    &&& final(self).previous_version_account_id == old(self).previous_version_account_id
                    &&& final(self).archive == old(self).archive
                    &&& forall|q: Seq<char>|
                        (forall|k: int| 0 <= k < batch@.len() ==> (#[trigger] batch@[k]).0@ != q)
                            ==> #[trigger] final(self).account(q) == old(self).account(q)
                    &&& forall|k: int|
                        0 <= k < batch@.len() ==> (old(self).account((#[trigger] batch@[k]).0@) matches Some(a)
                            && final(self).account(batch@[k].0@) matches Some(b)
                            && old(self).scored(a, b, batch@[k].1@, now))
                },
            },
    {
        let ghost entries = batch@;
        proof {
            assert(entries.skip(0) =~= entries);
        }
        let mut k: usize = 0;
        while k < batch.len()
            invariant
                k <= entries.len(),
                entries == batch@,
                self.wf(),
                self.all_before(now),
                *self == *old(self),
                self.batch_fits(entries, now),
                batch_refusal(*self, entries, now) == batch_refusal(*self, entries.skip(k as int), now),
                forall|x: int|
                    0 <= x < k ==> (self.account((#[trigger] entries[x]).0@) matches Some(a) && a.score.spec_is_valid()
                        && walk_refusal(a.score, entries[x].1@, now) is None),
            decreases entries.len() - k,
        {
            proof {
                assert(entries.skip(k as int)[0] == entries[k as int]);
                assert(entries.skip(k as int).drop_first() =~= entries.skip(k + 1));
            }
            let ai = match self.find_account(&batch[k].0) {
                None => return Err(ContractError::AccountNotFound(batch[k].0.clone())),
                Some(i) => i,
            };
            let score = self.accounts[ai].account.score;
            proof {
                assert(self.account(entries[k as int].0@) == Some(self.accounts@[ai as int].account));
            }
            if !score.is_valid() {
                return Err(ContractError::Account(AccountError::TimezoneRequired));
            }
            let mut probe = score;
            match record_walk(&mut probe, &batch[k].1, now) {
                Err(e) => return Err(ContractError::Score(e)),
                Ok(()) => {},
            }
            k = k + 1;
        }
        proof {
            assert(entries.skip(entries.len() as int).len() == 0);
        }
        let ghost c0 = *self;
        let mut k: usize = 0;
        while k < batch.len()
            invariant
                k <= entries.len(),
                entries == batch@,
                distinct_accounts(entries),
                c0.batch_fits(entries, now),
                forall|x: int|
                    0 <= x < entries.len() ==> (c0.account((#[trigger] entries[x]).0@) matches Some(a)
                        && a.score.spec_is_valid() && walk_refusal(a.score, entries[x].1@, now) is None),
                self.wf(),
                self.all_before(now),
                self.products == c0.products,
                self.fee_amount == c0.fee_amount,
                self.token_account_id == c0.token_account_id,
                self.fee_account_id == c0.fee_account_id,
                self.previous_version_account_id == c0.previous_version_account_id,
                self.archive == c0.archive,
                forall|q: Seq<char>|
                    (forall|x: int| 0 <= x < k ==> (#[trigger] entries[x]).0@ != q) ==> #[trigger] self.account(q)
                        == c0.account(q),
                forall|x: int|
                    0 <= x < k ==> (c0.account((#[trigger] entries[x]).0@) matches Some(a) && self.account(
                        entries[x].0@,
                    ) matches Some(b) && c0.scored(a, b, entries[x].1@, now)),
            decreases entries.len() - k,
        {
            let ghost id = entries[k as int].0@;
            let ghost a = c0.account(id).unwrap();
            proof {
                assert(forall|x: int| 0 <= x < k ==> (#[trigger] entries[x]).0@ != id);
                assert(self.account(id) == c0.account(id));
            }
            let ai0 = self.find_account(&batch[k].0).unwrap();
            let record = to_record(&self.accounts[ai0].account.score);
            let ghost c1_before = *self;
            let _ = self.update_account_cache(&batch[k].0, true, &record, now);
            let ghost c1 = *self;
            let ai = self.find_account(&batch[k].0).unwrap();
            let mut acc = AccountV1::new();
            std::mem::swap(&mut acc, &mut self.accounts[ai].account);
            let ghost b1 = acc;
            let _ = record_walk(&mut acc.score, &batch[k].1, now);
            std::mem::swap(&mut acc, &mut self.accounts[ai].account);
            proof {
                assert(c1.jars_ok(b1, now)) by {
                    assert forall|j: int| 0 <= j < b1.jars@.len() implies {
                        &&& crate::contract::product_position(c1.products@, #[trigger] b1.jars@[j].product_id@) is Some
                        &&& crate::jar_v2::deposits_sorted(b1.jars@[j].jar.deposits@)
                        &&& crate::jar_v2::deposits_before(b1.jars@[j].jar.deposits@, now)
                    } by {
                        assert(b1 == c1.accounts@[ai as int].account);
                    }
                }
                lemma_account_replaced(c1, *self, ai as int, now);
                let b = self.accounts@[ai as int].account;
                assert forall|q: Seq<char>| #[trigger] b.jar_of(q) == b1.jar_of(q) by {}
                assert(c0.scored(a, b, entries[k as int].1@, now));
                assert forall|q: Seq<char>|
                    (forall|x: int| 0 <= x < k + 1 ==> (#[trigger] entries[x]).0@ != q) implies #[trigger] self.account(q)
                    == c0.account(q) by {
                    assert(entries[k as int].0@ != q);
                }
                assert forall|x: int|
                    0 <= x < k + 1 implies (c0.account((#[trigger] entries[x]).0@) matches Some(a2) && self.account(
                    entries[x].0@,
                ) matches Some(b2) && c0.scored(a2, b2, entries[x].1@, now)) by {
                    if x < k {
                        assert(entries[x].0@ != id);
                    }
                }
            }
            k = k + 1;
        }
        Ok(())
    }
}

} // verus!
