use vstd::prelude::*;

use crate::account_v2::{cached_jar, AccountV1};
use crate::common::MS_IN_YEAR;
use crate::contract::{batch_error, migration_refusal, product_position, Contract, ContractError};
use crate::decimal::{lemma_pow10_monotone, pow10, UDecimal};
use crate::jar::Jar;
use crate::product::{Product, WithdrawalFee};
use crate::product::Terms as LegacyTerms;
use crate::jar_v2::{principal_sum, Deposit, JarV2};
use crate::product::Apy;
use crate::product_v2::{liquid_balance, liquid_count, liquid_prefix, FixedProductTerms, ProductV2, ScoreBasedProductTerms, Terms};
use crate::restake::{
    all_plan, distinct_parts, in_parts, jar_moved, part_index, restake_all_plan, restake_plan, RestakeOutcome,
};

verus! {

/// The principal a jar holds; nothing for a missing jar.
pub open spec fn jar_total(jar: Option<JarV2>) -> nat {
    match jar {
        Some(j) => j.total(),
        None => 0,
    }
}

/// A sequence of deposits holds what its first `n` deposits and the rest hold.
pub proof fn lemma_principal_sum_split(deposits: Seq<Deposit>, n: int)
    requires
        0 <= n <= deposits.len(),
    ensures
        principal_sum(deposits) == principal_sum(deposits.take(n)) + principal_sum(deposits.skip(n)),
    decreases deposits.len(),
{
    if n == deposits.len() {
        assert(deposits.take(n) =~= deposits);
        assert(deposits.skip(n).len() == 0);
    } else {
        let rest = deposits.drop_last();
        lemma_principal_sum_split(rest, n);
        assert(rest.take(n) =~= deposits.take(n));
        assert(deposits.skip(n).drop_last() =~= rest.skip(n));
        assert(deposits.skip(n).last() == deposits.last());
    }
}

/// Appending a deposit adds its principal.
pub proof fn lemma_principal_sum_push(deposits: Seq<Deposit>, d: Deposit)
    ensures
        principal_sum(deposits.push(d)) == principal_sum(deposits) + d.principal,
{
    assert(deposits.push(d).drop_last() =~= deposits);
}

/// Ordered deposits have a liquid prefix: a deposit made no later than a liquid one
/// is liquid too.
pub proof fn lemma_liquid_prefix_exists(terms: Terms, deposits: Seq<Deposit>, now: u64)
    requires
        crate::jar_v2::deposits_sorted(deposits),
    ensures
        exists|p: int| liquid_prefix(terms, deposits, now, p),
        liquid_prefix(terms, deposits, now, liquid_count(terms, deposits, now)),
    decreases deposits.len(),
{
    if deposits.len() == 0 {
        assert(liquid_prefix(terms, deposits, now, 0));
    } else {
        let rest = deposits.drop_last();
        assert(crate::jar_v2::deposits_sorted(rest));
        lemma_liquid_prefix_exists(terms, rest, now);
        let q = liquid_count(terms, rest, now);
        let n = deposits.len() - 1;
        if q < n {
            assert(!terms.spec_is_liquid(rest[q], now));
            assert(!terms.spec_is_liquid(deposits[n], now)) by {
                assert(deposits[q].created_at <= deposits[n].created_at);
            }
            assert forall|i: int| 0 <= i < q implies terms.spec_is_liquid(#[trigger] deposits[i], now) by {
                assert(rest[i] == deposits[i]);
            }
            assert forall|i: int| q <= i < deposits.len() implies !terms.spec_is_liquid(#[trigger] deposits[i], now) by {
                if i < n {
                    assert(rest[i] == deposits[i]);
                }
            }
            assert(liquid_prefix(terms, deposits, now, q));
        } else {
            assert forall|i: int| 0 <= i < n implies terms.spec_is_liquid(#[trigger] deposits[i], now) by {
                assert(rest[i] == deposits[i]);
            }
            if terms.spec_is_liquid(deposits[n], now) {
                assert(liquid_prefix(terms, deposits, now, n + 1));
            } else {
                assert(liquid_prefix(terms, deposits, now, n));
            }
        }
    }
}

/// Interest is exact to the millisecond: at an APY of one, a principal of one year's
/// milliseconds earns one token per millisecond, with nothing left over, until its
/// lockup ends.
pub proof fn lemma_interest_precision(
    lockup_term: u64,
    is_penalty_applied: bool,
    score: (Seq<u16>, u64),
    jar: JarV2,
    now: u64,
)
    requires
        jar.deposits@ == seq![Deposit { created_at: 0, principal: MS_IN_YEAR as u128 }],
        jar.cache is None,
        jar.claim_remainder == 0,
        now <= lockup_term,
    ensures
        Terms::Fixed(
            FixedProductTerms { lockup_term, apy: Apy::Constant(UDecimal { significand: 1, exponent: 0 }) },
        ).jar_interest(is_penalty_applied, score, jar, now) == (now as nat, 0nat),
{
    let apy = UDecimal { significand: 1, exponent: 0 };
    let terms = Terms::Fixed(FixedProductTerms { lockup_term, apy: Apy::Constant(apy) });
    let m = MS_IN_YEAR as nat;
    let d = jar.deposits@[0];
    assert(apy.scale() == 1) by {
        reveal_with_fuel(crate::decimal::pow10, 1);
    }
    assert(apy.apply(m) == m);
    assert(terms.term(score.1, None, d, now) == now);
    assert(jar.deposits@.drop_last().len() == 0);
    assert(terms.scaled_interest(apy, score.1, None, jar.deposits@.drop_last(), now) == 0);
    assert(jar.deposits@.last() == d);
    assert(terms.scaled_interest(apy, score.1, None, jar.deposits@, now) == now * m);
    vstd::arithmetic::div_mod::lemma_fundamental_div_mod_converse((now * m) as int, m as int, now as int, 0);
}

/// A product that registers without error is found under its id afterwards.
pub proof fn lemma_register_then_get(before: Contract, after: Contract, product: ProductV2)
    requires
        before.wf(),
        before.registration_error(product) is None,
        after.products@ == before.products@.push(product),
    ensures
        after.product(product.id@) == Some(product),
{
    let n = before.products@.len() as int;
    assert(after.products@[n] == product);
    let c = choose|i: int| 0 <= i < after.products@.len() && after.products@[i].id@ == product.id@;
    if c < n {
        assert(before.products@[c].id@ == product.id@);
        assert(product_position(before.products@, product.id@) is Some);
    }
}

/// Once migration is disabled, every batch of products from any caller but the
/// reserved `system` account, which no transaction comes from, is refused.
pub proof fn lemma_disabled_migration_refuses(
    before: Contract,
    after: Contract,
    caller: Seq<char>,
    batch: Seq<ProductV2>,
)
    requires
        after == (Contract { previous_version_account_id: after.previous_version_account_id, ..before }),
        after.previous_version_account_id@ == "system"@,
        caller != "system"@,
    ensures
        migration_refusal(after, caller, batch) == Some(ContractError::MigrationNotAllowed),
{
}

/// Enabling migration from the account that was the previous version before
/// migration was disabled undoes the disabling: the contract is as it was, and a
/// batch from that account is refused only for a product that cannot join.
pub proof fn lemma_enable_undoes_disable(c: Contract, disabled: Contract, enabled: Contract, batch: Seq<ProductV2>)
    requires
        disabled == (Contract { previous_version_account_id: disabled.previous_version_account_id, ..c }),
        disabled.previous_version_account_id@ == "system"@,
        enabled == (Contract { previous_version_account_id: c.previous_version_account_id, ..disabled }),
    ensures
        enabled == c,
        migration_refusal(enabled, c.previous_version_account_id@, batch) == match batch_error(c.products@, batch) {
            Some(e) => Some(ContractError::Product(e)),
            None => None,
        },
{
}

/// Restaking with nothing paid out loses no principal: the jar drawn on and the
/// target product together hold what they held before, and every other jar holds
/// what it held.
pub proof fn lemma_restake_keeps_principal(
    c: Contract,
    account_id: String,
    from: String,
    target: Seq<char>,
    target_amount: Option<u128>,
    score: (Seq<u16>, u64),
    now: u64,
    b: AccountV1,
)
    requires
        c.wf(),
        c.restake_fits(account_id@, from@, target_amount, now),
        restake_plan(c, account_id, from, target_amount, now) matches Ok(plan) && plan.1 is None
            && c.restaked(
            c.account(account_id@).unwrap(),
            b,
            plan.2,
            target,
            plan.0 as u128,
            plan.1,
            score,
            now,
            RestakeOutcome::Done,
        ),
    ensures
        ({
            let a = c.account(account_id@).unwrap();
            &&& from@ == target ==> jar_total(b.jar_of(from@)) == jar_total(a.jar_of(from@))
            &&& from@ != target ==> jar_total(b.jar_of(from@)) + jar_total(b.jar_of(target)) == jar_total(
                a.jar_of(from@),
            ) + jar_total(a.jar_of(target))
            &&& forall|q: Seq<char>|
                q != from@ && q != target ==> #[trigger] jar_total(b.jar_of(q)) == jar_total(a.jar_of(q))
        }),
{
    let a = c.account(account_id@).unwrap();
    let plan = restake_plan(c, account_id, from, target_amount, now).unwrap();
    let parts = plan.2;
    let j = a.jar_of(from@).unwrap();
    let p = c.product(from@).unwrap();
    let count = liquid_count(p.terms, j.deposits@, now);
    let balance = liquid_balance(p.terms, j.deposits@, now);
    let d = Deposit { created_at: now, principal: plan.0 as u128 };
    let jar_fn = |q: Seq<char>| c.cached_part(a, parts, q, score, now);
    assert(parts == seq![(from@, count)]);
    assert(in_parts(parts, from@)) by {
        assert(parts[0].0 == from@);
    }
    assert(part_index(parts, from@) == count);
    assert(plan.0 == balance);
    assert(0 <= count <= j.deposits@.len()) by {
        let k = crate::account_v2::jar_position(a.jars@, from@).unwrap();
        let i = crate::contract::account_position(c.accounts@, account_id@).unwrap();
        assert(crate::jar_v2::deposits_sorted(c.accounts@[i].account.jars@[k].jar.deposits@));
        lemma_liquid_prefix_exists(p.terms, j.deposits@, now);
    }
    assert(balance <= j.total()) by {
        lemma_principal_sum_split(j.deposits@, count);
    }
    assert(d.principal == balance);
    lemma_principal_sum_split(j.deposits@, count);
    let cached = cached_jar(p.terms, a.is_penalty_applied, score, j, now);
    assert(jar_fn(from@) == Some(cached));
    assert(jar_moved(jar_fn(from@), b.jar_of(from@), count, if from@ == target { Some(d) } else { None }));
    assert(cached.deposits == j.deposits);
    if from@ == target {
        lemma_principal_sum_push(j.deposits@.skip(count), d);
        let nb = b.jar_of(from@).unwrap();
        assert(nb.deposits@ == j.deposits@.skip(count).push(d));
        assert(jar_total(b.jar_of(from@)) == principal_sum(j.deposits@.skip(count)) + d.principal);
        assert(jar_total(b.jar_of(from@)) == jar_total(a.jar_of(from@)));
    } else {
        assert(jar_moved(jar_fn(target), b.jar_of(target), part_index(parts, target), Some(d)));
        assert(!in_parts(parts, target)) by {
            if in_parts(parts, target) {
                let k = choose|k: int| 0 <= k < parts.len() && k < parts.len() && parts[k].0 == target;
                assert(k == 0);
            }
        }
        assert(part_index(parts, target) == 0);
        match a.jar_of(target) {
            Some(t) => {
                assert(t.deposits@.skip(0) =~= t.deposits@);
                lemma_principal_sum_push(t.deposits@, d);
            },
            None => {
                assert(seq![d] =~= Seq::<Deposit>::empty().push(d));
                lemma_principal_sum_push(Seq::<Deposit>::empty(), d);
            },
        }
        let nb = b.jar_of(from@).unwrap();
        assert(nb.deposits@ == j.deposits@.skip(count));
        assert(jar_total(b.jar_of(from@)) + plan.0 == jar_total(a.jar_of(from@)));
        assert(jar_total(b.jar_of(target)) == jar_total(a.jar_of(target)) + plan.0);
    }
    assert forall|q: Seq<char>| q != from@ && q != target implies #[trigger] jar_total(b.jar_of(q)) == jar_total(
        a.jar_of(q),
    ) by {
        assert(jar_moved(jar_fn(q), b.jar_of(q), part_index(parts, q), None));
        assert(!in_parts(parts, q)) by {
            if in_parts(parts, q) {
                let k = choose|k: int| 0 <= k < parts.len() && k < parts.len() && parts[k].0 == q;
                assert(k == 0);
            }
        }
        match a.jar_of(q) {
            Some(t) => {
                assert(t.deposits@.skip(0) =~= t.deposits@);
            },
            None => {},
        }
    }
}

/// A deposit's interest term splits at any time after its start.
pub proof fn lemma_term_split(terms: Terms, score_updated: u64, cached_at: Option<u64>, d: Deposit, t1: u64, t2: u64)
    requires
        !(terms is ScoreBased),
        d.created_at <= t1 <= t2,
        cached_at matches Some(c) ==> c <= t1,
    ensures
        terms.term(score_updated, cached_at, d, t2) == terms.term(score_updated, cached_at, d, t1) + terms.term(
            score_updated,
            Some(t1),
            d,
            t2,
        ),
{
}

/// The scaled interest of deposits splits at any time after they were all made.
pub proof fn lemma_scaled_interest_split(
    terms: Terms,
    apy: UDecimal,
    score_updated: u64,
    cached_at: Option<u64>,
    deposits: Seq<Deposit>,
    t1: u64,
    t2: u64,
)
    requires
        !(terms is ScoreBased),
        t1 <= t2,
        crate::jar_v2::deposits_before(deposits, t1),
        cached_at matches Some(c) ==> c <= t1,
    ensures
        terms.scaled_interest(apy, score_updated, cached_at, deposits, t2) == terms.scaled_interest(
            apy,
            score_updated,
            cached_at,
            deposits,
            t1,
        ) + terms.scaled_interest(apy, score_updated, Some(t1), deposits, t2),
    decreases deposits.len(),
{
    if deposits.len() > 0 {
        let rest = deposits.drop_last();
        let d = deposits.last();
        assert(crate::jar_v2::deposits_before(rest, t1));
        lemma_scaled_interest_split(terms, apy, score_updated, cached_at, rest, t1, t2);
        lemma_term_split(terms, score_updated, cached_at, d, t1, t2);
        let p = apy.apply(d.principal as nat);
        let a = terms.term(score_updated, cached_at, d, t1);
        let b = terms.term(score_updated, Some(t1), d, t2);
        assert((a + b) * p == a * p + b * p) by (nonlinear_arith);
    }
}

/// Caching interest part-way changes nothing: a jar whose interest was cached at
/// `t1` earns by `t2` what it would have earned uncached, for fixed and flexible
/// terms.
pub proof fn lemma_cache_keeps_interest(
    terms: Terms,
    is_penalty_applied: bool,
    score: (Seq<u16>, u64),
    jar: JarV2,
    t1: u64,
    t2: u64,
)
    requires
        !(terms is ScoreBased),
        t1 <= t2,
        crate::jar_v2::deposits_before(jar.deposits@, t1),
        jar.cache matches Some(c) ==> c.updated_at <= t1,
        terms.jar_interest(is_penalty_applied, score, jar, t1).0 <= u128::MAX,
    ensures
        terms.jar_interest(is_penalty_applied, score, cached_jar(terms, is_penalty_applied, score, jar, t1), t2)
            == terms.jar_interest(is_penalty_applied, score, jar, t2),
{
    let apy = terms.apy(is_penalty_applied, score.0);
    let cached_at = match jar.cache {
        Some(c) => Some(c.updated_at),
        None => None,
    };
    let cached = match jar.cache {
        Some(c) => c.interest,
        None => 0,
    };
    lemma_scaled_interest_split(terms, apy, score.1, cached_at, jar.deposits@, t1, t2);
    let s1 = terms.scaled_interest(apy, score.1, cached_at, jar.deposits@, t1);
    let s2 = terms.scaled_interest(apy, score.1, Some(t1), jar.deposits@, t2);
    crate::common::lemma_accrue_additive(cached as nat, jar.claim_remainder as nat, s1, s2);
    crate::common::lemma_accrue_exact(cached as nat, jar.claim_remainder as nat, s1);
}

/// The share of the fees that a partial restake of everything pays never exceeds
/// the whole fee.
pub proof fn lemma_fee_share_bounded(fee: nat, rest: nat, total: nat)
    requires
        0 < total,
        rest <= total,
    ensures
        (fee * rest + total - 1) / (total as int) <= fee,
{
    assert(fee * rest <= fee * total) by (nonlinear_arith)
        requires
            rest <= total,
    ;
    assert(fee * rest + total - 1 < (fee + 1) * total) by (nonlinear_arith)
        requires
            fee * rest <= fee * total,
            0 < total,
    ;
    assert((fee + 1) * total == fee * total + total) by (nonlinear_arith);
    vstd::arithmetic::div_mod::lemma_div_is_ordered((fee * rest + total - 1) as int, ((fee + 1) * total - 1) as int, total as int);
    vstd::arithmetic::div_mod::lemma_fundamental_div_mod_converse(((fee + 1) * total - 1) as int, total as int, fee as int, (total - 1) as int);
}

/// A restake whose payout fails leaves the account as the restake found it, except
/// that the jars it drew on have their interest cached.
pub proof fn lemma_failed_payout_reverts(
    c: Contract,
    a: AccountV1,
    b: AccountV1,
    d: AccountV1,
    parts: Seq<(Seq<char>, int)>,
    target: Seq<char>,
    amount: u128,
    withdrawal: Option<crate::restake::WithdrawalDto>,
    score: (Seq<u16>, u64),
    now: u64,
    request: crate::restake::RestakeRequest,
)
    requires
        c.restaked(a, b, parts, target, amount, withdrawal, score, now, RestakeOutcome::TransferRemainder(request)),
        forall|q: Seq<char>|
            #![trigger a.jar_of(q)]
            in_parts(parts, q) ==> (a.jar_of(q) matches Some(j) && !j.is_pending_withdraw),
        d.nonce == b.nonce,
        d.score == b.score,
        d.is_penalty_applied == b.is_penalty_applied,
        forall|q: Seq<char>| #[trigger] d.jar_of(q) == c.locked_part(b, parts, q, false),
    ensures
        d.nonce == a.nonce,
        d.score == a.score,
        d.is_penalty_applied == a.is_penalty_applied,
        forall|q: Seq<char>| #[trigger] d.jar_of(q) == c.cached_part(a, parts, q, score, now),
{
    assert forall|q: Seq<char>| #[trigger] d.jar_of(q) == c.cached_part(a, parts, q, score, now) by {
        assert(d.jar_of(q) == c.locked_part(b, parts, q, false));
        assert(b.jar_of(q) == if in_parts(parts, q) {
            Some(JarV2 { is_pending_withdraw: true, ..c.cached_part(a, parts, q, score, now).unwrap() })
        } else {
            a.jar_of(q)
        });
        if in_parts(parts, q) {
            assert(a.jar_of(q) is Some);
        }
    }
}

/// Unlocking a jar that was locked from an unlocked state restores it.
pub proof fn lemma_unlock_undoes_lock(jar: JarV2)
    requires
        !jar.is_pending_withdraw,
    ensures
        (JarV2 { is_pending_withdraw: false, ..JarV2 { is_pending_withdraw: true, ..jar } }) == jar,
{
}

/// The mature balances of the jars that `parts` draws on.
pub open spec fn parts_balance(c: Contract, a: AccountV1, parts: Seq<(Seq<char>, int)>, now: u64) -> nat
    decreases parts.len(),
{
    if parts.len() == 0 {
        0
    } else {
        let q = parts.last().0;
        parts_balance(c, a, parts.drop_last(), now) + liquid_balance(
            c.product(q).unwrap().terms,
            a.jar_of(q).unwrap().deposits@,
            now,
        )
    }
}

/// What planning a restake of everything over the first `n` jars of an account
/// draws on: distinct unlocked jars, each up to its mature deposits, whose mature
/// balances make up the planned total.
pub proof fn lemma_all_plan_parts(c: Contract, a: AccountV1, n: int, now: u64)
    requires
        a.wf(),
        0 <= n <= a.jars@.len(),
    ensures
        distinct_parts(all_plan(c, a.jars@.take(n), now).2),
        forall|i: int|
            #![trigger all_plan(c, a.jars@.take(n), now).2[i]]
            0 <= i < all_plan(c, a.jars@.take(n), now).2.len() ==> exists|k: int|
                0 <= k < n && (#[trigger] a.jars@[k]).product_id@ == all_plan(c, a.jars@.take(n), now).2[i].0
                    && all_plan(c, a.jars@.take(n), now).2[i].1 == liquid_count(
                    c.product(a.jars@[k].product_id@).unwrap().terms,
                    a.jars@[k].jar.deposits@,
                    now,
                ),
        all_plan(c, a.jars@.take(n), now).0 == parts_balance(c, a, all_plan(c, a.jars@.take(n), now).2, now),
    decreases n,
{
    let jars = a.jars@;
    if n == 0 {
        assert(jars.take(0).len() == 0);
    } else {
        lemma_all_plan_parts(c, a, n - 1, now);
        assert(jars.take(n).drop_last() =~= jars.take(n - 1));
        assert(jars.take(n).last() == jars[n - 1]);
        let prev = all_plan(c, jars.take(n - 1), now);
        let cur = all_plan(c, jars.take(n), now);
        let pj = jars[n - 1];
        assert(a.jar_of(pj.product_id@) == Some(pj.jar)) by {
            let k = choose|k: int| 0 <= k < jars.len() && jars[k].product_id@ == pj.product_id@;
            assert(k == n - 1);
        }
        if cur.2.len() > prev.2.len() {
            assert(cur.2 == prev.2.push((pj.product_id@, cur.2.last().1)));
            assert(cur.2.drop_last() =~= prev.2);
            assert forall|x: int, y: int|
                0 <= x < cur.2.len() && 0 <= y < cur.2.len() && x != y implies cur.2[x].0 != cur.2[y].0 by {
                if x == prev.2.len() {
                    let k = choose|k: int|
                        0 <= k < n - 1 && (#[trigger] jars[k]).product_id@ == prev.2[y].0 && prev.2[y].1 == liquid_count(
                            c.product(jars[k].product_id@).unwrap().terms,
                            jars[k].jar.deposits@,
                            now,
                        );
                    assert(jars[k].product_id@ != jars[n - 1].product_id@);
                } else if y == prev.2.len() {
                    let k = choose|k: int|
                        0 <= k < n - 1 && (#[trigger] jars[k]).product_id@ == prev.2[x].0 && prev.2[x].1 == liquid_count(
                            c.product(jars[k].product_id@).unwrap().terms,
                            jars[k].jar.deposits@,
                            now,
                        );
                    assert(jars[k].product_id@ != jars[n - 1].product_id@);
                }
            }
            assert forall|i: int| #![trigger cur.2[i]] 0 <= i < cur.2.len() implies exists|k: int|
                0 <= k < n && (#[trigger] jars[k]).product_id@ == cur.2[i].0 && cur.2[i].1 == liquid_count(
                    c.product(jars[k].product_id@).unwrap().terms,
                    jars[k].jar.deposits@,
                    now,
                ) by {
                if i < prev.2.len() {
                    assert(cur.2[i] == prev.2[i]);
                    let k = choose|k: int|
                        0 <= k < n - 1 && (#[trigger] jars[k]).product_id@ == prev.2[i].0 && prev.2[i].1 == liquid_count(
                            c.product(jars[k].product_id@).unwrap().terms,
                            jars[k].jar.deposits@,
                            now,
                        );
                    assert(jars[k].product_id@ == cur.2[i].0);
                } else {
                    assert(jars[n - 1].product_id@ == cur.2[i].0);
                }
            }
        } else {
            assert(cur == prev);
        }
    }
}

/// Restaking everything with nothing paid out moves exactly the mature deposits
/// of each jar drawn on into the target product: every jar loses its mature
/// balance if drawn on, the target gains the planned amount, and that amount is the
/// sum of the balances taken.
pub proof fn lemma_restake_all_moves_balances(
    c: Contract,
    account_id: String,
    target: Seq<char>,
    target_amount: Option<u128>,
    score: (Seq<u16>, u64),
    now: u64,
    b: AccountV1,
)
    requires
        c.wf(),
        c.restake_all_fits(account_id@, target_amount, now),
        restake_all_plan(c, account_id, target_amount, now) matches Ok(plan) && plan.1 is None && c.restaked(
            c.account(account_id@).unwrap(),
            b,
            plan.2,
            target,
            plan.0 as u128,
            plan.1,
            score,
            now,
            RestakeOutcome::Done,
        ),
    ensures
        ({
            let a = c.account(account_id@).unwrap();
            let plan = restake_all_plan(c, account_id, target_amount, now).unwrap();
            &&& plan.0 == parts_balance(c, a, plan.2, now)
            &&& forall|q: Seq<char>|
                #[trigger] jar_total(b.jar_of(q)) + (if in_parts(plan.2, q) {
                    liquid_balance(c.product(q).unwrap().terms, a.jar_of(q).unwrap().deposits@, now)
                } else {
                    0
                }) == jar_total(a.jar_of(q)) + (if q == target {
                    plan.0
                } else {
                    0
                })
        }),
{
    let a = c.account(account_id@).unwrap();
    let ai = crate::contract::account_position(c.accounts@, account_id@).unwrap();
    let plan = restake_all_plan(c, account_id, target_amount, now).unwrap();
    let parts = plan.2;
    let jars = a.jars@;
    assert(jars.take(jars.len() as int) =~= jars);
    lemma_all_plan_parts(c, a, jars.len() as int, now);
    let total = all_plan(c, jars, now).0;
    assert(plan.0 == total);
    let d = Deposit { created_at: now, principal: plan.0 as u128 };
    assert(d.principal == plan.0);
    let jar_fn = |q: Seq<char>| c.cached_part(a, parts, q, score, now);
    assert forall|q: Seq<char>|
        #[trigger] jar_total(b.jar_of(q)) + (if in_parts(parts, q) {
            liquid_balance(c.product(q).unwrap().terms, a.jar_of(q).unwrap().deposits@, now)
        } else {
            0
        }) == jar_total(a.jar_of(q)) + (if q == target {
            plan.0
        } else {
            0
        }) by {
        let added: Option<Deposit> = if q == target {
            Some(d)
        } else {
            None
        };
        assert(jar_moved(jar_fn(q), b.jar_of(q), part_index(parts, q), added));
        if in_parts(parts, q) {
            let i = choose|i: int| 0 <= i < parts.len() && i < parts.len() && parts[i].0 == q;
            crate::restake::lemma_part_index(parts, i);
            let k = choose|k: int|
                0 <= k < jars.len() && (#[trigger] jars[k]).product_id@ == parts[i].0 && parts[i].1 == liquid_count(
                    c.product(jars[k].product_id@).unwrap().terms,
                    jars[k].jar.deposits@,
                    now,
                );
            assert(a.jar_of(q) == Some(jars[k].jar)) by {
                let x = choose|x: int| 0 <= x < jars.len() && jars[x].product_id@ == q;
                assert(x == k);
            }
            let j = jars[k].jar;
            let terms = c.product(q).unwrap().terms;
            let count = liquid_count(terms, j.deposits@, now);
            assert(crate::jar_v2::deposits_sorted(c.accounts@[ai].account.jars@[k].jar.deposits@));
            lemma_liquid_prefix_exists(terms, j.deposits@, now);
            lemma_principal_sum_split(j.deposits@, count);
            let cached = cached_jar(terms, a.is_penalty_applied, score, j, now);
            assert(jar_fn(q) == Some(cached));
            assert(cached.deposits == j.deposits);
            if q == target {
                lemma_principal_sum_push(j.deposits@.skip(count), d);
            }
        } else {
            assert(part_index(parts, q) == 0);
            assert(jar_fn(q) == a.jar_of(q));
            match a.jar_of(q) {
                Some(t) => {
                    assert(t.deposits@.skip(0) =~= t.deposits@);
                    if q == target {
                        lemma_principal_sum_push(t.deposits@, d);
                    }
                },
                None => {
                    if q == target {
                        assert(seq![d] =~= Seq::<Deposit>::empty().push(d));
                        lemma_principal_sum_push(Seq::<Deposit>::empty(), d);
                    }
                },
            }
        }
    }
}

/// A score-based deposit earns one day of interest per scored day only while its
/// lockup runs: once `now` reaches the end of the lockup it earns nothing, and it
/// earns nothing on a score older than itself.
pub proof fn lemma_score_term_ends_with_lockup(
    t: ScoreBasedProductTerms,
    score_updated: u64,
    cached_at: Option<u64>,
    d: Deposit,
    now: u64,
)
    ensures
        now >= d.created_at + t.lockup_term ==> Terms::ScoreBased(t).term(score_updated, cached_at, d, now) == 0,
        score_updated < d.created_at ==> Terms::ScoreBased(t).term(score_updated, cached_at, d, now) == 0,
        now < d.created_at + t.lockup_term && score_updated >= d.created_at ==> Terms::ScoreBased(t).term(
            score_updated,
            cached_at,
            d,
            now,
        ) == crate::common::MS_IN_DAY,
{
}

/// Deposits that all earn nothing add nothing to a jar's interest.
proof fn lemma_scaled_interest_zero(
    terms: Terms,
    apy: UDecimal,
    score_updated: u64,
    cached_at: Option<u64>,
    deposits: Seq<Deposit>,
    now: u64,
)
    requires
        forall|i: int| 0 <= i < deposits.len() ==> terms.term(score_updated, cached_at, #[trigger] deposits[i], now) == 0,
    ensures
        terms.scaled_interest(apy, score_updated, cached_at, deposits, now) == 0,
    decreases deposits.len(),
{
    if deposits.len() > 0 {
        let rest = deposits.drop_last();
        assert forall|i: int| 0 <= i < rest.len() implies terms.term(score_updated, cached_at, #[trigger] rest[i], now)
            == 0 by {
            assert(rest[i] == deposits[i]);
        }
        lemma_scaled_interest_zero(terms, apy, score_updated, cached_at, rest, now);
        assert(terms.term(score_updated, cached_at, deposits[deposits.len() - 1], now) == 0);
        assert(0 * apy.apply(deposits.last().principal as nat) == 0);
    }
}

/// The interest of a score-based jar stops growing once the lockup of every
/// deposit has ended: it is what the jar had cached, with its remainder carried.
pub proof fn lemma_score_jar_stops_after_lockup(
    t: ScoreBasedProductTerms,
    is_penalty_applied: bool,
    score: (Seq<u16>, u64),
    jar: JarV2,
    now: u64,
)
    requires
        forall|i: int| 0 <= i < jar.deposits@.len() ==> now >= (#[trigger] jar.deposits@[i]).created_at + t.lockup_term,
    ensures
        ({
            let cached = match jar.cache {
                Some(c) => c.interest as nat,
                None => 0,
            };
            let r = Terms::ScoreBased(t).jar_interest(is_penalty_applied, score, jar, now);
            &&& r.0 * (MS_IN_YEAR as nat) + r.1 == cached * (MS_IN_YEAR as nat) + jar.claim_remainder
            &&& r.1 < MS_IN_YEAR
        }),
{
    let terms = Terms::ScoreBased(t);
    let cached_at = match jar.cache {
        Some(c) => Some(c.updated_at),
        None => None,
    };
    let cached = match jar.cache {
        Some(c) => c.interest as nat,
        None => 0,
    };
    let apy = terms.apy(is_penalty_applied, score.0);
    assert forall|i: int| 0 <= i < jar.deposits@.len() implies terms.term(score.1, cached_at, #[trigger] jar.deposits@[i], now)
        == 0 by {
        lemma_score_term_ends_with_lockup(t, score.1, cached_at, jar.deposits@[i], now);
    }
    lemma_scaled_interest_zero(terms, apy, score.1, cached_at, jar.deposits@, now);
    crate::common::lemma_accrue_exact(cached, jar.claim_remainder as nat, 0);
}

/// A withdrawal fee is what its terms say: a fixed fee is its amount whatever is
/// withdrawn, and a percent fee is the amount times the decimal
/// `significand / 10^exponent`, rounded down, so a percent below one never exceeds
/// the amount it is charged on.
pub proof fn lemma_fee_of_terms(product: ProductV2, principal: u128)
    ensures
        product.withdrawal_fee is None ==> product.fee(principal) == 0,
        product.withdrawal_fee matches Some(WithdrawalFee::Fix(a)) ==> product.fee(principal) == a,
        product.withdrawal_fee matches Some(WithdrawalFee::Percent(p)) ==> {
            &&& product.fee(principal) == (principal as nat * p.significand as nat) / pow10(p.exponent as nat)
            &&& (p.significand < pow10(p.exponent as nat) ==> product.fee(principal) <= principal)
        },
{
    match product.withdrawal_fee {
        Some(WithdrawalFee::Percent(p)) => {
            let s = pow10(p.exponent as nat);
            lemma_pow10_monotone(0, p.exponent as nat);
            if p.significand < s {
                assert(principal as nat * p.significand as nat <= principal as nat * s) by (nonlinear_arith)
                    requires
                        p.significand < s,
                ;
                vstd::arithmetic::div_mod::lemma_div_is_ordered(
                    (principal as nat * p.significand as nat) as int,
                    (principal as nat * s) as int,
                    s as int,
                );
                vstd::arithmetic::div_mod::lemma_div_by_multiple(principal as int, s as int);
            }
        },
        _ => {},
    }
}

/// A legacy jar of a flexible product with nothing cached earns from its creation
/// until `now`: at the product's APY for the jar, `significand / 10^exponent` of
/// its principal, rounded down, per year, exact to the millisecond with the
/// carried remainder.
pub proof fn lemma_flexible_legacy_interest(jar: Jar, product: Product, score: (Seq<u16>, u64), now: u64)
    requires
        product.terms == LegacyTerms::Flexible,
        product.score_cap == 0,
        jar.cache is None,
        jar.created_at < now,
    ensures
        ({
            let apy = match product.apy {
                Apy::Constant(a) => a,
                Apy::Downgradable(d) => if jar.is_penalty_applied {
                    d.fallback
                } else {
                    d.default
                },
            };
            let yearly = (jar.principal as nat * apy.significand as nat) / pow10(apy.exponent as nat);
            let r = jar.interest(score, product, now);
            &&& r.0 * (MS_IN_YEAR as nat) + r.1 == jar.claim_remainder + (now - jar.created_at) * yearly
            &&& r.1 < MS_IN_YEAR
        }),
{
    let apy = jar.apy(product);
    let scaled = ((now - jar.created_at) as nat) * apy.apply(jar.principal as nat);
    crate::common::lemma_accrue_exact(0, jar.claim_remainder as nat, scaled);
}

/// An enabled flexible legacy product always takes top-ups; a fixed one takes them
/// when enabled and its terms allow them; a disabled product never does.
pub proof fn lemma_top_up_allowed(product: Product)
    ensures
        product.terms == LegacyTerms::Flexible && product.is_enabled ==> product.spec_allows_top_up(),
        !product.is_enabled ==> !product.spec_allows_top_up(),
        product.terms matches LegacyTerms::Fixed(t) ==> (product.spec_allows_top_up() <==> product.is_enabled
            && t.allows_top_up),
{
}

/// A fixed deposit earns from the later of its creation and the last cache until
/// `now`, but never past the end of its lockup: with nothing cached, the time since
/// it was made, capped at the lockup term.
pub proof fn lemma_fixed_term(t: FixedProductTerms, score_updated: u64, cached_at: Option<u64>, d: Deposit, now: u64)
    ensures
        Terms::Fixed(t).term(score_updated, cached_at, d, now) <= t.lockup_term,
        d.created_at <= now ==> Terms::Fixed(t).term(score_updated, cached_at, d, now) <= now - d.created_at,
        cached_at is None && d.created_at <= now ==> Terms::Fixed(t).term(score_updated, cached_at, d, now) == if now
            - d.created_at <= t.lockup_term {
            now - d.created_at
        } else {
            t.lockup_term as int
        },
        cached_at matches Some(c) ==> (d.created_at <= c && c <= now && now <= d.created_at + t.lockup_term
            ==> Terms::Fixed(t).term(score_updated, cached_at, d, now) == now - c),
{
}

/// A flexible deposit earns from the later of its creation and the last cache
/// until `now`, without end.
pub proof fn lemma_flexible_term(
    t: crate::product_v2::FlexibleProductTerms,
    score_updated: u64,
    cached_at: Option<u64>,
    d: Deposit,
    now: u64,
)
    requires
        d.created_at <= now,
    ensures
        cached_at is None ==> Terms::Flexible(t).term(score_updated, cached_at, d, now) == now - d.created_at,
        cached_at matches Some(c) ==> (d.created_at <= c && c <= now ==> Terms::Flexible(t).term(
            score_updated,
            cached_at,
            d,
            now,
        ) == now - c),
{
}

/// A deposit may be withdrawn under flexible terms at any time, and under fixed or
/// score-based terms once more than its lockup term has passed since it was made.
pub proof fn lemma_liquid_after_lockup(terms: Terms, d: Deposit, now: u64)
    requires
        d.created_at <= now,
    ensures
        terms is Flexible ==> terms.spec_is_liquid(d, now),
        terms matches Terms::Fixed(t) ==> (terms.spec_is_liquid(d, now) <==> now - d.created_at > t.lockup_term),
        terms matches Terms::ScoreBased(t) ==> (terms.spec_is_liquid(d, now) <==> now - d.created_at > t.lockup_term),
{
}

/// A constant APY applies whatever the penalty; a downgradable one falls back
/// while a penalty applies and is its default otherwise.
pub proof fn lemma_apy_under_penalty(apy: Apy, is_penalty_applied: bool)
    ensures
        apy matches Apy::Constant(a) ==> apy.effective(is_penalty_applied) == a,
        apy matches Apy::Downgradable(d) ==> apy.effective(is_penalty_applied) == if is_penalty_applied {
            d.fallback
        } else {
            d.default
        },
{
}

/// Each day's score counts at most up to the cap: the capped sum of the scores
/// never exceeds the cap times the number of days, and equals the plain sum of
/// scores that all stay below the cap.
pub proof fn lemma_capped_score_bounded(scores: Seq<u16>, cap: u16)
    ensures
        crate::product::capped_score_sum(scores, cap) <= scores.len() * cap,
        (forall|i: int| 0 <= i < scores.len() ==> #[trigger] scores[i] < cap) ==> crate::product::capped_score_sum(
            scores,
            cap,
        ) == scores.fold_left(0nat, |acc: nat, x: u16| acc + x as nat),
    decreases scores.len(),
{
    if scores.len() > 0 {
        let rest = scores.drop_last();
        lemma_capped_score_bounded(rest, cap);
        assert((rest.len() + 1) * cap == rest.len() * cap + cap) by (nonlinear_arith);
        if forall|i: int| 0 <= i < scores.len() ==> #[trigger] scores[i] < cap {
            assert forall|i: int| 0 <= i < rest.len() implies #[trigger] rest[i] < cap by {
                assert(rest[i] == scores[i]);
            }
            assert(scores[scores.len() - 1] < cap);
        }
    }
}

/// A legacy jar of a fixed product with nothing cached earns from its creation
/// until `now`, but not past the end of its lockup.
pub proof fn lemma_fixed_legacy_interest(jar: Jar, product: Product, score: (Seq<u16>, u64), now: u64)
    requires
        product.terms matches LegacyTerms::Fixed(_),
        product.score_cap == 0,
        jar.cache is None,
        jar.created_at < now,
    ensures
        ({
            let lockup = match product.terms {
                LegacyTerms::Fixed(t) => t.lockup_term,
                LegacyTerms::Flexible => 0,
            };
            let end = if now <= jar.created_at + lockup {
                now as int
            } else {
                jar.created_at + lockup
            };
            let apy = product.apy.effective(jar.is_penalty_applied);
            let yearly = (jar.principal as nat * apy.significand as nat) / pow10(apy.exponent as nat);
            let r = jar.interest(score, product, now);
            &&& lockup > 0 ==> r.0 * (MS_IN_YEAR as nat) + r.1 == jar.claim_remainder + (end - jar.created_at) * yearly
            &&& lockup == 0 ==> r == (0nat, 0nat)
        }),
{
    let apy = jar.apy(product);
    let until = jar.until_date(product, now);
    if until > jar.created_at {
        let scaled = ((until - jar.created_at) as nat) * apy.apply(jar.principal as nat);
        crate::common::lemma_accrue_exact(0, jar.claim_remainder as nat, scaled);
    }
}

} // verus!
