use vstd::prelude::*;

use crate::account_v2::{AccountV1, ProductJar};
use crate::contract::{product_position, unique_product_ids, Contract, ContractError};
use crate::jar::{Jar, ScoreRecord};
use crate::legacy::{find_stored, legacy_claimed, migrated_account, migrating_account, stored_jars};
use crate::jar_v2::{deposits_before, deposits_sorted, Deposit, JarV2};
use crate::text::{decimal, push_decimal};

verus! {

/// One deposit of an account, shown as a jar of its own.
#[derive(Clone, Debug)]
pub struct JarView {
    pub id: String,
    pub product_id: String,
    pub created_at: u64,
    pub principal: u128,
}

/// The interest an account has earned: per product, in the order of its jars,
/// and in total, as of `timestamp`.
#[derive(Clone, Debug)]
pub struct InterestView {
    pub detailed: Vec<(String, u128)>,
    pub total: u128,
    pub timestamp: u64,
}

/// The id under which a deposit is shown: its product and its creation time,
/// joined by an underscore.
pub open spec fn synthetic_jar_id(product_id: Seq<char>, created_at: u64) -> Seq<char> {
    product_id + seq!['_'] + decimal(created_at as nat)
}

fn underscore() -> (s: &'static str)
    ensures
        s@ == seq!['_'],
{
    proof {
        reveal_strlit("_");
    }
    let s = "_";
    assert(s@ =~= seq!['_']);
    s
}

/// The id under which a deposit made at `created_at` into `product_id` is shown.
pub fn create_synthetic_jar_id(product_id: &String, created_at: u64) -> (id: String)
    ensures
        id@ == synthetic_jar_id(product_id@, created_at),
{
    let mut s = String::new();
    s.append(product_id.as_str());
    s.append(underscore());
    push_decimal(&mut s, created_at as u128);
    assert(s@ =~= synthetic_jar_id(product_id@, created_at));
    s
}

/// A view as plain values: id, product, creation time and principal.
pub open spec fn view_of(v: JarView) -> (Seq<char>, Seq<char>, u64, u128) {
    (v.id@, v.product_id@, v.created_at, v.principal)
}

/// The views of the deposits of one jar.
pub open spec fn deposit_views(product_id: Seq<char>, deposits: Seq<Deposit>) -> Seq<(Seq<char>, Seq<char>, u64, u128)> {
    deposits.map_values(
        |d: Deposit| (synthetic_jar_id(product_id, d.created_at), product_id, d.created_at, d.principal),
    )
}

/// The views of the deposits of all jars, jar after jar.
pub open spec fn account_views(jars: Seq<ProductJar>) -> Seq<(Seq<char>, Seq<char>, u64, u128)>
    decreases jars.len(),
{
    if jars.len() == 0 {
        Seq::empty()
    } else {
        account_views(jars.drop_last()) + deposit_views(jars.last().product_id@, jars.last().jar.deposits@)
    }
}

/// The view of a jar that an earlier version of the contract kept: its id in
/// decimal, its product, creation time and principal.
pub open spec fn legacy_view(jar: Jar) -> (Seq<char>, Seq<char>, u64, u128) {
    (decimal(jar.id as nat), jar.product_id@, jar.created_at, jar.principal)
}

/// The views of the jars that an earlier version of the contract kept.
fn legacy_views(jars: &Vec<Jar>) -> (r: Vec<JarView>)
    ensures
        r@.map_values(|v: JarView| view_of(v)) == jars@.map_values(|j: Jar| legacy_view(j)),
{
    let mut out: Vec<JarView> = Vec::new();
    let mut i: usize = 0;
    while i < jars.len()
        invariant
            i <= jars@.len(),
            out@.map_values(|v: JarView| view_of(v)) == jars@.take(i as int).map_values(|j: Jar| legacy_view(j)),
        decreases jars@.len() - i,
    {
        let jar = &jars[i];
        let mut id = String::new();
        push_decimal(&mut id, jar.id as u128);
        let ghost before = out@;
        out.push(JarView { id, product_id: jar.product_id.clone(), created_at: jar.created_at, principal: jar.principal });
        proof {
            assert(id@ =~= decimal(jar.id as nat));
            assert(jars@.take(i + 1) =~= jars@.take(i as int).push(*jar));
            assert(out@.map_values(|v: JarView| view_of(v)) =~= before.map_values(|v: JarView| view_of(v)).push(
                view_of(out@.last()),
            ));
            assert(jars@.take(i + 1).map_values(|j: Jar| legacy_view(j)) =~= jars@.take(i as int).map_values(
                |j: Jar| legacy_view(j),
            ).push(legacy_view(*jar)));
        }
        i = i + 1;
    }
    proof {
        assert(jars@.take(jars@.len() as int) =~= jars@);
    }
    out
}

/// Appends a view of each deposit of `jar` to `out`.
fn push_jar_views(out: &mut Vec<JarView>, product_id: &String, jar: &JarV2)
    ensures
        final(out)@.map_values(|v: JarView| view_of(v)) == old(out)@.map_values(|v: JarView| view_of(v))
            + deposit_views(product_id@, jar.deposits@),
{
    let ghost start = old(out)@.map_values(|v: JarView| view_of(v));
    let mut i: usize = 0;
    while i < jar.deposits.len()
        invariant
            i <= jar.deposits@.len(),
            start == old(out)@.map_values(|v: JarView| view_of(v)),
            out@.map_values(|v: JarView| view_of(v)) == start + deposit_views(
                product_id@,
                jar.deposits@.take(i as int),
            ),
        decreases jar.deposits@.len() - i,
    {
        let d = jar.deposits[i];
        let ghost before = out@;
        out.push(
            JarView {
                id: create_synthetic_jar_id(product_id, d.created_at),
                product_id: product_id.clone(),
                created_at: d.created_at,
                principal: d.principal,
            },
        );
        proof {
            assert(jar.deposits@.take(i + 1) =~= jar.deposits@.take(i as int).push(d));
            assert(out@.map_values(|v: JarView| view_of(v)) =~= before.map_values(|v: JarView| view_of(v)).push(
                view_of(out@.last()),
            ));
            assert(deposit_views(product_id@, jar.deposits@.take(i + 1)) =~= deposit_views(
                product_id@,
                jar.deposits@.take(i as int),
            ).push(view_of(out@.last())));
        }
        i = i + 1;
    }
    proof {
        assert(jar.deposits@.take(jar.deposits@.len() as int) =~= jar.deposits@);
    }
}

impl Contract {
    /// A view of each deposit of the account, jar after jar; for an account that
    /// only the archive holds, a view of each of its archived jars; none for an
    /// unknown account.
    #[verifier::spinoff_prover]
    pub fn get_jars_for_account(&self, account_id: &String) -> (r: Vec<JarView>)
        requires
            self.wf(),
        ensures
            r@.map_values(|v: JarView| view_of(v)) == match self.account(account_id@) {
                Some(a) => account_views(a.jars@),
                None => match stored_jars(self.archive@, account_id@) {
                    Some(archived) => archived.jars@.map_values(|j: Jar| legacy_view(j)),
                    None => Seq::empty(),
                },
            },
    {
        let mut out: Vec<JarView> = Vec::new();
        match self.find_account(account_id) {
            None => match find_stored(&self.archive, account_id) {
                Some(k) => legacy_views(&self.archive[k].1.jars),
                None => {
                    assert(out@.map_values(|v: JarView| view_of(v)) =~= Seq::empty());
                    out
                },
            },
            Some(ai) => {
                let account = &self.accounts[ai].account;
                let mut i: usize = 0;
                assert(out@.map_values(|v: JarView| view_of(v)) =~= account_views(account.jars@.take(0)));
                while i < account.jars.len()
                    invariant
                        i <= account.jars@.len(),
                        out@.map_values(|v: JarView| view_of(v)) == account_views(account.jars@.take(i as int)),
                    decreases account.jars@.len() - i,
                {
                    push_jar_views(&mut out, &account.jars[i].product_id, &account.jars[i].jar);
                    proof {
                        assert(account.jars@.take(i + 1).drop_last() =~= account.jars@.take(i as int));
                    }
                    i = i + 1;
                }
                proof {
                    assert(account.jars@.take(account.jars@.len() as int) =~= account.jars@);
                }
                out
            },
        }
    }
}

/// The interest of each jar of `a` at `now`, in the order of its jars.
pub open spec fn jar_interests(c: Contract, a: AccountV1, score: (Seq<u16>, u64), now: u64) -> Seq<nat> {
    a.jars@.map_values(
        |pj: ProductJar| c.product(pj.product_id@).unwrap().terms.jar_interest(a.is_penalty_applied, score, pj.jar, now).0,
    )
}

/// The sum of a sequence of amounts.
pub open spec fn amount_sum(s: Seq<nat>) -> nat
    decreases s.len(),
{
    if s.len() == 0 {
        0
    } else {
        amount_sum(s.drop_last()) + s.last()
    }
}

/// Whether `r` shows the interest `interests` of the jars of `a`: per product, in
/// the order of its jars, and in total, as of `now`.
pub open spec fn shows_interest(r: InterestView, a: AccountV1, interests: Seq<nat>, now: u64) -> bool {
    &&& r.detailed@.len() == a.jars@.len()
    &&& forall|i: int|
        0 <= i < a.jars@.len() ==> (#[trigger] r.detailed@[i]).0@ == a.jars@[i].product_id@ && r.detailed@[i].1
            == interests[i]
    &&& r.total == amount_sum(interests)
    &&& r.timestamp == now
}

impl Contract {
    /// The interest of every jar of `a` can be computed at `now`, and so can their
    /// sum.
    pub open spec fn interest_fits_for(&self, a: AccountV1, score: (Seq<u16>, u64), now: u64) -> bool {
        &&& forall|j: int|
            0 <= j < a.jars@.len() ==> {
                &&& self.product((#[trigger] a.jars@[j]).product_id@) is Some
                &&& self.product(a.jars@[j].product_id@).unwrap().terms.jar_interest_fits(
                    a.is_penalty_applied,
                    score,
                    a.jars@[j].jar,
                    now,
                )
            }
        &&& amount_sum(jar_interests(*self, a, score, now)) <= u128::MAX
    }

    /// The interest of the account can be computed at `now`; for an account that
    /// only the archive holds, its jars are unlocked and the account they make can
    /// be computed on.
    pub open spec fn total_interest_fits(&self, account_id: Seq<char>, score: (Seq<u16>, u64), now: u64) -> bool {
        match self.account(account_id) {
            Some(a) => self.interest_fits_for(a, score, now),
            None => stored_jars(self.archive@, account_id) matches Some(l) ==> {
                &&& forall|i: int| 0 <= i < l.jars@.len() ==> !(#[trigger] l.jars@[i]).is_pending_withdraw
                &&& forall|q: Seq<char>| #[trigger] legacy_claimed(l.jars@, q) <= u128::MAX
                &&& forall|b: AccountV1| #[trigger] migrated_account(b, l) ==> self.interest_fits_for(b, score, now)
            },
        }
    }

    /// Tells whether the interest of every jar of `a` at `now`, and their sum, can
    /// be computed.
    pub fn is_interest_computable_for(&self, a: &AccountV1, score: &ScoreRecord, now: u64) -> (b: bool)
        requires
            unique_product_ids(self.products@),
        ensures
            b == self.interest_fits_for(*a, score@, now),
    {
        let ghost interests = jar_interests(*self, *a, score@, now);
        let context = crate::product_v2::InterestContext { is_penalty_applied: a.is_penalty_applied, score: score.copy() };
        let mut total: u128 = 0;
        let mut i: usize = 0;
        while i < a.jars.len()
            invariant
                i <= a.jars@.len(),
                unique_product_ids(self.products@),
                context.is_penalty_applied == a.is_penalty_applied,
                context.score@ == score@,
                interests == jar_interests(*self, *a, score@, now),
                interests.len() == a.jars@.len(),
                forall|j: int|
                    0 <= j < i ==> {
                        &&& self.product((#[trigger] a.jars@[j]).product_id@) is Some
                        &&& self.product(a.jars@[j].product_id@).unwrap().terms.jar_interest_fits(
                            a.is_penalty_applied,
                            score@,
                            a.jars@[j].jar,
                            now,
                        )
                    },
                total == amount_sum(interests.take(i as int)),
            decreases a.jars@.len() - i,
        {
            let pj = &a.jars[i];
            let pi = match self.find_product(&pj.product_id) {
                Some(pi) => pi,
                None => return false,
            };
            if !self.products[pi].terms.is_interest_computable(&context, &pj.jar, now) {
                return false;
            }
            let (interest, _) = self.products[pi].terms.get_interest(&context, &pj.jar, now);
            proof {
                assert(interests.take(i + 1).drop_last() =~= interests.take(i as int));
                lemma_amount_sum_prefix(interests, i + 1);
            }
            total = match total.checked_add(interest) {
                Some(t) => t,
                None => return false,
            };
            i = i + 1;
        }
        proof {
            assert(interests.take(a.jars@.len() as int) =~= interests);
        }
        true
    }

    /// The interest of the jars of `a` at `now`.
    fn interest_view(&self, a: &AccountV1, score: &ScoreRecord, now: u64) -> (r: InterestView)
        requires
            unique_product_ids(self.products@),
            self.interest_fits_for(*a, score@, now),
        ensures
            shows_interest(r, *a, jar_interests(*self, *a, score@, now), now),
    {
        let ghost interests = jar_interests(*self, *a, score@, now);
        let context = crate::product_v2::InterestContext { is_penalty_applied: a.is_penalty_applied, score: score.copy() };
        let mut detailed: Vec<(String, u128)> = Vec::new();
        let mut total: u128 = 0;
        let mut i: usize = 0;
        while i < a.jars.len()
            invariant
                i <= a.jars@.len(),
                unique_product_ids(self.products@),
                self.interest_fits_for(*a, score@, now),
                context.is_penalty_applied == a.is_penalty_applied,
                context.score@ == score@,
                interests == jar_interests(*self, *a, score@, now),
                interests.len() == a.jars@.len(),
                detailed@.len() == i,
                forall|k: int|
                    0 <= k < i ==> (#[trigger] detailed@[k]).0@ == a.jars@[k].product_id@ && detailed@[k].1
                        == interests[k],
                total == amount_sum(interests.take(i as int)),
            decreases a.jars@.len() - i,
        {
            let pj = &a.jars[i];
            proof {
                assert(self.product(a.jars@[i as int].product_id@) is Some);
            }
            let pi = self.find_product(&pj.product_id).unwrap();
            let (interest, _) = self.products[pi].terms.get_interest(&context, &pj.jar, now);
            proof {
                assert(interests.take(i + 1).drop_last() =~= interests.take(i as int));
                lemma_amount_sum_prefix(interests, i + 1);
            }
            total = total + interest;
            detailed.push((pj.product_id.clone(), interest));
            i = i + 1;
        }
        proof {
            assert(interests.take(a.jars@.len() as int) =~= interests);
        }
        InterestView { detailed, total, timestamp: now }
    }

    /// The interest the account has earned by `now`: per product, in the order of its
    /// jars, and in total. An account that only the archive holds is shown as the
    /// account that migration makes of it; an unknown account has nothing, at time
    /// zero.
    #[verifier::spinoff_prover]
    pub fn get_total_interest(&self, account_id: &String, score: &ScoreRecord, now: u64) -> (r: InterestView)
        requires
            self.wf(),
            self.total_interest_fits(account_id@, score@, now),
        ensures
            match self.account(account_id@) {
                Some(a) => shows_interest(r, a, jar_interests(*self, a, score@, now), now),
                None => match stored_jars(self.archive@, account_id@) {
                    Some(l) => exists|b: AccountV1|
                        #[trigger] migrated_account(b, l) && shows_interest(r, b, jar_interests(*self, b, score@, now), now),
                    None => r.detailed@.len() == 0 && r.total == 0 && r.timestamp == 0,
                },
            },
    {
        match self.find_account(account_id) {
            Some(ai) => self.interest_view(&self.accounts[ai].account, score, now),
            None => match find_stored(&self.archive, account_id) {
                None => InterestView { detailed: Vec::new(), total: 0, timestamp: 0 },
                Some(k) => {
                    let legacy = &self.archive[k].1;
                    match migrating_account(legacy) {
                        Ok((b, _)) => {
                            proof {
                                assert(migrated_account(b, *legacy));
                            }
                            self.interest_view(&b, score, now)
                        },
                        Err(_) => InterestView { detailed: Vec::new(), total: 0, timestamp: 0 },
                    }
                },
            },
        }
    }
}

/// A prefix sums to no more than the whole.
pub proof fn lemma_amount_sum_prefix(s: Seq<nat>, n: int)
    requires
        0 <= n <= s.len(),
    ensures
        amount_sum(s.take(n)) <= amount_sum(s),
    decreases s.len(),
{
    if n == s.len() {
        assert(s.take(n) =~= s);
    } else {
        lemma_amount_sum_prefix(s.drop_last(), n);
        assert(s.drop_last().take(n) =~= s.take(n));
    }
}

} // verus!
