use vstd::prelude::*;

use crate::account_v2::{
    cached_jar, deposited, jar_position, jar_replaced, lemma_jar_replaced, AccountError, AccountV1, ProductJar,
};
use crate::contract::{Contract, ContractError};
use crate::product::ProductError;
use crate::jar_v2::{deposits_before, deposits_sorted, Deposit, JarV2};
use crate::contract::{lemma_account_replaced, product_position, unique_product_ids};
use crate::jar::ScoreRecord;
use crate::contract::DepositTicket;
use crate::signature::{bytes_view, get_signature_material, ticket_check, verify_ticket, TicketError};
use crate::product_v2::{get_liquid_balance, liquid_balance, liquid_count, ProductV2, Terms};

verus! {

/// The part of a restake that leaves the contract, and the fee on it.
#[derive(Copy, Clone, Debug, PartialEq, Eq)]
pub struct WithdrawalDto {
    pub amount: u128,
    pub fee: u128,
}

/// The part of a restake that goes into a product.
#[derive(Clone, Debug)]
pub struct DepositDto {
    pub product_id: String,
    pub amount: u128,
}

/// A jar that a restake draws from, and how many of its deposits it takes.
#[derive(Clone, Debug)]
pub struct Partition {
    pub product_id: String,
    pub index: usize,
}

/// A restake: what is deposited again, what is paid out, and from which jars.
#[derive(Clone, Debug)]
pub struct RestakeRequest {
    pub account_id: String,
    pub withdrawal: Option<WithdrawalDto>,
    pub deposit: DepositDto,
    pub partitions: Vec<Partition>,
}

/// Why a restake is refused.
#[derive(Copy, Clone, Debug, PartialEq, Eq)]
pub enum RestakeError {
    /// The target amount exceeds the mature balance.
    NotEnoughFunds,
    /// Nothing would be deposited.
    NothingToRestake,
    /// Another operation on the jar is in progress.
    Locked,
}

impl DepositDto {
    /// A deposit of `target_amount`, or of the whole mature balance when no
    /// target is given; more than the mature balance is refused.
    pub fn new(product_id: String, mature_balance: u128, target_amount: Option<u128>) -> (r: Result<
        DepositDto,
        RestakeError,
    >)
        ensures
            r is Err <==> (target_amount matches Some(t) && t > mature_balance),
            r is Err ==> r == Err::<DepositDto, RestakeError>(RestakeError::NotEnoughFunds),
            r matches Ok(d) ==> d.product_id == product_id && d.amount == match target_amount {
                Some(t) => t,
                None => mature_balance,
            },
    {
        let amount = match target_amount {
            Some(t) => t,
            None => mature_balance,
        };
        if amount > mature_balance {
            return Err(RestakeError::NotEnoughFunds);
        }
        Ok(DepositDto { product_id, amount })
    }
}

/// `x / d` rounded up.
pub fn div_ceil(x: u128, d: u128) -> (r: u128)
    requires
        d > 0,
    ensures
        r == (x as int + d - 1) / d as int,
{
    let q = x / d;
    let rem = x % d;
    proof {
        let xi = x as int;
        let di = d as int;
        let qi = q as int;
        let ri = rem as int;
        vstd::arithmetic::div_mod::lemma_fundamental_div_mod(xi, di);
        assert(xi == qi * di + ri) by (nonlinear_arith)
            requires
                xi == di * qi + ri,
        ;
        assert((qi + 1) * di == qi * di + di) by (nonlinear_arith);
        if ri == 0 {
            vstd::arithmetic::div_mod::lemma_fundamental_div_mod_converse(xi + di - 1, di, qi, di - 1);
        } else {
            vstd::arithmetic::div_mod::lemma_fundamental_div_mod_converse(xi + di - 1, di, qi + 1, ri - 1);
            assert(qi + 1 <= xi) by (nonlinear_arith)
                requires
                    xi == qi * di + ri,
                    0 < ri < di,
                    qi >= 0,
            ;
        }
    }
    if rem == 0 {
        q
    } else {
        q + 1
    }
}

/// The withdrawal that a restake of `amount` out of `balance` leaves, with its fee.
pub open spec fn withdrawal_of(balance: nat, amount: nat, fee: nat) -> Option<WithdrawalDto> {
    if balance - amount > 0 {
        Some(WithdrawalDto { amount: (balance - amount) as u128, fee: fee as u128 })
    } else {
        None
    }
}

/// The plan of restaking everything mature in `jars`: the total mature balance,
/// the total fee on it, and the jars it comes from with their liquid counts;
/// locked jars and jars with nothing mature are left out.
pub open spec fn all_plan(c: Contract, jars: Seq<ProductJar>, now: u64) -> (nat, nat, Seq<(Seq<char>, int)>)
    decreases jars.len(),
{
    if jars.len() == 0 {
        (0, 0, Seq::empty())
    } else {
        let (total, fee, parts) = all_plan(c, jars.drop_last(), now);
        let pj = jars.last();
        let product = c.product(pj.product_id@).unwrap();
        let balance = liquid_balance(product.terms, pj.jar.deposits@, now);
        if pj.jar.is_pending_withdraw || balance == 0 {
            (total, fee, parts)
        } else {
            (
                total + balance,
                fee + product.fee(balance as u128),
                parts.push((pj.product_id@, liquid_count(product.terms, pj.jar.deposits@, now))),
            )
        }
    }
}

/// The plan of restaking the mature deposits of the jar `from`: `target_amount`
/// of them, or all, with the rest paid out less the product's fee; an unknown
/// account or jar, a locked jar, or a target above the mature balance is refused.
pub open spec fn restake_plan(
    c: Contract,
    account_id: String,
    from: String,
    target_amount: Option<u128>,
    now: u64,
) -> Result<(nat, Option<WithdrawalDto>, Seq<(Seq<char>, int)>), ContractError> {
    match c.account(account_id@) {
        None => Err(ContractError::AccountNotFound(account_id)),
        Some(a) => match a.jar_of(from@) {
            None => Err(ContractError::Account(AccountError::JarNotFound(from))),
            Some(j) => if j.is_pending_withdraw {
                Err(ContractError::Restake(RestakeError::Locked))
            } else {
                let p = c.product(from@).unwrap();
                let balance = liquid_balance(p.terms, j.deposits@, now);
                let amount: nat = match target_amount {
                    Some(t) => t as nat,
                    None => balance,
                };
                if amount > balance {
                    Err(ContractError::Restake(RestakeError::NotEnoughFunds))
                } else {
                    Ok(
                        (
                            amount,
                            withdrawal_of(balance, amount, p.fee((balance - amount) as u128)),
                            seq![(from@, liquid_count(p.terms, j.deposits@, now))],
                        ),
                    )
                }
            },
        },
    }
}

/// What is paid out when `target_amount` of a mature `balance` is restaked: the
/// rest of the balance, or nothing when all of it is restaked.
pub open spec fn paid_out(balance: nat, target_amount: Option<u128>) -> int {
    match target_amount {
        Some(t) => balance - t,
        None => 0,
    }
}

/// Views of the partitions of a request.
pub open spec fn partitions_view(parts: Seq<Partition>) -> Seq<(Seq<char>, int)> {
    parts.map_values(|p: Partition| (p.product_id@, p.index as int))
}

/// Whether one of the first `k` partitions draws on the jar of `q`.
pub open spec fn in_parts_before(parts: Seq<(Seq<char>, int)>, k: int, q: Seq<char>) -> bool {
    exists|i: int| 0 <= i < k && i < parts.len() && parts[i].0 == q
}

/// Whether a partition draws on the jar of `q`.
pub open spec fn in_parts(parts: Seq<(Seq<char>, int)>, q: Seq<char>) -> bool {
    in_parts_before(parts, parts.len() as int, q)
}

/// No two partitions draw on the same jar.
pub open spec fn distinct_parts(parts: Seq<(Seq<char>, int)>) -> bool {
    forall|i: int, j: int| 0 <= i < parts.len() && 0 <= j < parts.len() && i != j ==> parts[i].0 != parts[j].0
}

/// How many deposits the partition of `q` takes.
pub open spec fn part_index(parts: Seq<(Seq<char>, int)>, q: Seq<char>) -> int {
    if in_parts(parts, q) {
        parts[choose|i: int| 0 <= i < parts.len() && parts[i].0 == q].1
    } else {
        0
    }
}

/// `new` is `old` without its first `skip` deposits and with `added` appended; a
/// jar that did not exist is opened for the added deposit.
pub open spec fn jar_moved(old: Option<JarV2>, new: Option<JarV2>, skip: int, added: Option<Deposit>) -> bool {
    match old {
        None => match added {
            None => new is None,
            Some(d) => new matches Some(n) && deposited(None, n, d),
        },
        Some(o) => new matches Some(n) && {
            &&& n.deposits@ == match added {
                Some(d) => o.deposits@.skip(skip).push(d),
                None => o.deposits@.skip(skip),
            }
            &&& n.cache == o.cache
            &&& n.claimed_balance == o.claimed_balance
            &&& n.is_pending_withdraw == o.is_pending_withdraw
            &&& n.claim_remainder == o.claim_remainder
        },
    }
}

impl Contract {
    /// The jar of `q` in `a` with its interest cached at `now` if a partition draws
    /// on it.
    pub open spec fn cached_part(
        &self,
        a: AccountV1,
        parts: Seq<(Seq<char>, int)>,
        q: Seq<char>,
        score: (Seq<u16>, u64),
        now: u64,
    ) -> Option<JarV2> {
        if in_parts(parts, q) {
            Some(cached_jar(self.product(q).unwrap().terms, a.is_penalty_applied, score, a.jar_of(q).unwrap(), now))
        } else {
            a.jar_of(q)
        }
    }

    /// `after` is `a` with the partitions' deposits taken out and `amount`
    /// deposited at `now` into `target`, whose signed tickets then use up a nonce.
    pub open spec fn moved_account(
        &self,
        a: AccountV1,
        jar: spec_fn(Seq<char>) -> Option<JarV2>,
        after: AccountV1,
        parts: Seq<(Seq<char>, int)>,
        target: Seq<char>,
        amount: u128,
        now: u64,
    ) -> bool {
        &&& after.score == a.score
        &&& after.is_penalty_applied == a.is_penalty_applied
        &&& after.nonce == a.nonce + if self.product(target).unwrap().public_key is Some {
            1int
        } else {
            0
        }
        &&& forall|q: Seq<char>|
            jar_moved(
                jar(q),
                #[trigger] after.jar_of(q),
                part_index(parts, q),
                if q == target {
                    Some(Deposit { created_at: now, principal: amount })
                } else {
                    None
                },
            )
    }
}

/// The partitions keep their order in the view.
pub proof fn lemma_partitions_view(parts: Seq<Partition>, i: int)
    requires
        0 <= i < parts.len(),
    ensures
        partitions_view(parts).len() == parts.len(),
        partitions_view(parts)[i] == (parts[i].product_id@, parts[i].index as int),
{
}

/// The partition at `i` is the one that `part_index` finds for its jar.
pub proof fn lemma_part_index(parts: Seq<(Seq<char>, int)>, i: int)
    requires
        distinct_parts(parts),
        0 <= i < parts.len(),
    ensures
        in_parts(parts, parts[i].0),
        part_index(parts, parts[i].0) == parts[i].1,
{
    let q = parts[i].0;
    assert(in_parts_before(parts, parts.len() as int, q));
    let c = choose|j: int| 0 <= j < parts.len() && parts[j].0 == q;
    assert(c == i);
}

/// Skipping deposits keeps them ordered and made by `now`.
pub proof fn lemma_skip_ordered(deposits: Seq<Deposit>, n: int, now: u64)
    requires
        0 <= n <= deposits.len(),
        deposits_sorted(deposits),
        deposits_before(deposits, now),
    ensures
        deposits_sorted(deposits.skip(n)),
        deposits_before(deposits.skip(n), now),
{
    let s = deposits.skip(n);
    assert forall|i: int, j: int| 0 <= i <= j < s.len() implies s[i].created_at <= s[j].created_at by {
        assert(s[i] == deposits[i + n]);
        assert(s[j] == deposits[j + n]);
    }
    assert forall|i: int| 0 <= i < s.len() implies s[i].created_at <= now by {
        assert(s[i] == deposits[i + n]);
    }
}

/// Appending a deposit made at `now` keeps deposits ordered and made by `now`.
pub proof fn lemma_push_ordered(deposits: Seq<Deposit>, d: Deposit, now: u64)
    requires
        deposits_sorted(deposits),
        deposits_before(deposits, now),
        d.created_at == now,
    ensures
        deposits_sorted(deposits.push(d)),
        deposits_before(deposits.push(d), now),
{
    let s = deposits.push(d);
    assert forall|i: int, j: int| 0 <= i <= j < s.len() implies s[i].created_at <= s[j].created_at by {
        if j == deposits.len() {
            if i < deposits.len() {
                assert(s[i] == deposits[i]);
            }
        } else {
            assert(s[i] == deposits[i]);
            assert(s[j] == deposits[j]);
        }
    }
    assert forall|i: int| 0 <= i < s.len() implies s[i].created_at <= now by {
        if i < deposits.len() {
            assert(s[i] == deposits[i]);
        }
    }
}

/// Replacing a jar by one of the same product with ordered deposits made by `now`
/// keeps the account's jars in order.
pub proof fn lemma_jars_ok_replaced(c: Contract, before: AccountV1, after: AccountV1, k: int, now: u64)
    requires
        c.jars_ok(before, now),
        jar_replaced(before, after, k),
        deposits_sorted(after.jars@[k].jar.deposits@),
        deposits_before(after.jars@[k].jar.deposits@, now),
    ensures
        c.jars_ok(after, now),
{
    assert forall|j: int| 0 <= j < after.jars@.len() implies {
        &&& product_position(c.products@, #[trigger] after.jars@[j].product_id@) is Some
        &&& deposits_sorted(after.jars@[j].jar.deposits@)
        &&& deposits_before(after.jars@[j].jar.deposits@, now)
    } by {
        assert(product_position(c.products@, before.jars@[j].product_id@) is Some);
        if j != k {
            assert(after.jars@[j] == before.jars@[j]);
        }
    }
}

impl Contract {
    /// Restaking `target_amount` from the jar can be computed within `u128`: the
    /// jar's principal, and the fee on what is paid out, if anything is.
    pub open spec fn restake_fits(
        &self,
        account_id: Seq<char>,
        from: Seq<char>,
        target_amount: Option<u128>,
        now: u64,
    ) -> bool {
        self.account(account_id) matches Some(a) ==> (a.jar_of(from) matches Some(j) ==> {
            let p = self.product(from).unwrap();
            let out = paid_out(liquid_balance(p.terms, j.deposits@, now), target_amount);
            &&& j.total() <= u128::MAX
            &&& 0 < out <= u128::MAX ==> p.fee_fits(out as u128)
        })
    }

    /// Restaking `target_amount` of everything mature can be computed within
    /// `u128`: each jar's principal and the fee on its mature balance, the sums of
    /// balances and fees, and the total fee times what is paid out, if anything is.
    pub open spec fn restake_all_fits(&self, account_id: Seq<char>, target_amount: Option<u128>, now: u64) -> bool {
        self.account(account_id) matches Some(a) ==> {
            let total = all_plan(*self, a.jars@, now).0;
            let fee = all_plan(*self, a.jars@, now).1;
            &&& forall|j: int|
                0 <= j < a.jars@.len() ==> {
                    let p = self.product((#[trigger] a.jars@[j]).product_id@).unwrap();
                    let balance = liquid_balance(p.terms, a.jars@[j].jar.deposits@, now);
                    &&& a.jars@[j].jar.total() <= u128::MAX
                    &&& !a.jars@[j].jar.is_pending_withdraw && 0 < balance <= u128::MAX ==> p.fee_fits(balance as u128)
                }
            &&& total <= u128::MAX
            &&& fee <= u128::MAX
            &&& 0 < paid_out(total, target_amount) ==> fee * paid_out(total, target_amount) <= u128::MAX
        }
    }

    /// Each partition of the request draws on a jar of its account, at most on all
    /// of its deposits.
    pub open spec fn parts_fit(&self, request: RestakeRequest) -> bool {
        self.account(request.account_id@) matches Some(a) && forall|i: int|
            0 <= i < request.partitions@.len() ==> (a.jar_of(#[trigger] request.partitions@[i].product_id@) matches Some(
                j,
            ) && request.partitions@[i].index <= j.deposits@.len())
    }

    /// What a restake whose plan is `plan` gives: nothing to restake is refused, then
    /// the ticket for the restaked amount is checked, and a request that passes is
    /// carried out.
    pub open spec fn restake_result(
        &self,
        account_id: String,
        plan: (nat, Option<WithdrawalDto>, Seq<(Seq<char>, int)>),
        ticket: DepositTicket,
        signature: Option<Vec<u8>>,
        score: (Seq<u16>, u64),
        now: u64,
        contract_account_id: Seq<char>,
        after: Contract,
        r: Result<RestakeOutcome, ContractError>,
    ) -> bool {
        if plan.0 == 0 {
            r == Err::<RestakeOutcome, ContractError>(ContractError::Restake(RestakeError::NothingToRestake))
        } else {
            match self.restake_ticket(account_id@, plan.0 as u128, ticket, signature, now, contract_account_id) {
                Err(f) => r matches Err(ContractError::Ticket(e)) && ticket_error_like(
                    e,
                    f,
                    self.ticket_material(contract_account_id, account_id@, ticket, plan.0 as u128),
                ),
                Ok(_) => r matches Ok(o) && {
                    &&& after.same_except(*self, account_id@)
                    &&& after.account(account_id@) matches Some(b) && self.restaked(
                        self.account(account_id@).unwrap(),
                        b,
                        plan.2,
                        ticket.product_id@,
                        plan.0 as u128,
                        plan.1,
                        score,
                        now,
                        o,
                    )
                    &&& o matches RestakeOutcome::TransferRemainder(req) ==> plan_matches(
                        req,
                        account_id,
                        ticket.product_id,
                        plan,
                    )
                },
            }
        }
    }

    /// Restakes the mature deposits of the account's jar `from` into the ticket's
    /// product: `amount` of them, or all, the rest being paid out less the fee.
    /// The ticket must name an enabled product and pass for the restaked amount.
    pub fn restake(
        &mut self,
        account_id: &String,
        from: &String,
        ticket: &DepositTicket,
        signature: &Option<Vec<u8>>,
        amount: Option<u128>,
        score: &ScoreRecord,
        now: u64,
        contract_account_id: &String,
    ) -> (r: Result<RestakeOutcome, ContractError>)
        requires
            old(self).wf(),
            old(self).all_before(now),
            old(self).restake_fits(account_id@, from@, amount, now),
            old(self).account(account_id@) matches Some(a) ==> {
                &&& a.nonce < u32::MAX
                &&& a.jar_of(from@) matches Some(j) ==> old(self).product(
                    from@,
                ).unwrap().terms.jar_interest_fits(a.is_penalty_applied, score@, j, now)
            },
        ensures
            final(self).wf(),
            final(self).all_before(now),
            r is Err ==> *final(self) == *old(self),
            match old(self).product(ticket.product_id@) {
                None => r == Err::<RestakeOutcome, ContractError>(
                    ContractError::ProductNotFound(ticket.product_id),
                ),
                Some(p) => if !p.is_enabled {
                    r == Err::<RestakeOutcome, ContractError>(ContractError::Product(ProductError::Disabled))
                } else {
                    match restake_plan(*old(self), *account_id, *from, amount, now) {
                        Err(e) => r == Err::<RestakeOutcome, ContractError>(e),
                        Ok(plan) => old(self).restake_result(
                            *account_id,
                            plan,
                            *ticket,
                            *signature,
                            score@,
                            now,
                            contract_account_id@,
                            *final(self),
                            r,
                        ),
                    }
                },
            },
    {
        let pi = match self.find_product(&ticket.product_id) {
            Some(i) => i,
            None => return Err(ContractError::ProductNotFound(ticket.product_id.clone())),
        };
        if let Err(e) = self.products[pi].check_enabled() {
            return Err(ContractError::Product(e));
        }
        let request = match self.build_restake_request(account_id, from, &ticket.product_id, amount, now) {
            Ok(r) => r,
            Err(e) => return Err(e),
        };
        if let Err(e) = self.check_request(&request, ticket, signature, now, contract_account_id) {
            return Err(e);
        }
        proof {
            let pv = partitions_view(request.partitions@);
            assert(pv.len() == 1);
            lemma_partitions_view(request.partitions@, 0);
            assert(self.request_interest_fits(request, score@, now));
        }
        Ok(self.execute_restake(request, score, now))
    }

    /// The request to restake the mature deposits of the jar `from` into `target`:
    /// `target_amount` of them, or all, with the rest paid out less the product's fee.
    pub fn build_restake_request(
        &self,
        account_id: &String,
        from: &String,
        target: &String,
        target_amount: Option<u128>,
        now: u64,
    ) -> (r: Result<RestakeRequest, ContractError>)
        requires
            self.wf(),
            self.all_before(now),
            self.restake_fits(account_id@, from@, target_amount, now),
        ensures
            match restake_plan(*self, *account_id, *from, target_amount, now) {
                Err(e) => r == Err::<RestakeRequest, ContractError>(e),
                Ok(plan) => r matches Ok(req) && plan_matches(req, *account_id, *target, plan),
            },
            r matches Ok(req) ==> self.parts_fit(req),
    {
        let ai = match self.find_account(account_id) {
            Some(i) => i,
            None => return Err(ContractError::AccountNotFound(account_id.clone())),
        };
        let account = &self.accounts[ai].account;
        let jar = match account.get_jar(from) {
            Ok(j) => j,
            Err(e) => return Err(ContractError::Account(e)),
        };
        if jar.is_pending_withdraw {
            return Err(ContractError::Restake(RestakeError::Locked));
        }
        let ghost k = jar_position(account.jars@, from@).unwrap();
        proof {
            assert(account.jars@[k].product_id@ == from@);
            assert(deposits_sorted(self.accounts@[ai as int].account.jars@[k].jar.deposits@));
            assert(deposits_before(self.accounts@[ai as int].account.jars@[k].jar.deposits@, now));
        }
        let product = match self.get_product(from) {
            Ok(p) => p,
            Err(e) => return Err(e),
        };
        let (mature_balance, partition_index) = get_liquid_balance(jar, &product.terms, now);
        let deposit = match DepositDto::new(target.clone(), mature_balance, target_amount) {
            Ok(d) => d,
            Err(e) => return Err(ContractError::Restake(e)),
        };
        let withdrawal_amount = mature_balance - deposit.amount;
        let withdrawal = if withdrawal_amount > 0 {
            Some(WithdrawalDto { amount: withdrawal_amount, fee: product.calculate_fee(withdrawal_amount) })
        } else {
            None
        };
        let partitions = vec![Partition { product_id: from.clone(), index: partition_index }];
        proof {
            assert(partitions_view(partitions@) =~= seq![(from@, partition_index as int)]);
        }
        Ok(RestakeRequest { account_id: account_id.clone(), withdrawal, deposit, partitions })
    }
}

impl Contract {
    /// The position of the product of a jar that `acc` holds.
    fn product_of_jar(&self, acc: &AccountV1, product_id: &String, now: u64) -> (pi: usize)
        requires
            unique_product_ids(self.products@),
            acc.wf(),
            self.jars_ok(*acc, now),
            acc.jar_of(product_id@) is Some,
        ensures
            product_position(self.products@, product_id@) == Some(pi as int),
            self.product(product_id@) == Some(self.products@[pi as int]),
    {
        let ghost k = jar_position(acc.jars@, product_id@).unwrap();
        proof {
            assert(acc.jars@[k].product_id@ == product_id@);
            assert(product_position(self.products@, acc.jars@[k].product_id@) is Some);
        }
        self.find_product(product_id).unwrap()
    }

    /// Caches the interest of the jars that the partitions draw on.
    #[verifier::spinoff_prover]
    fn cache_partitions(&self, acc: &mut AccountV1, parts: &Vec<Partition>, score: &ScoreRecord, now: u64)
        requires
            unique_product_ids(self.products@),
            old(acc).wf(),
            self.jars_ok(*old(acc), now),
            distinct_parts(partitions_view(parts@)),
            forall|i: int|
                0 <= i < parts@.len() ==> (old(acc).jar_of(#[trigger] parts@[i].product_id@) matches Some(j)
                    && self.product(parts@[i].product_id@).unwrap().terms.jar_interest_fits(
                    old(acc).is_penalty_applied,
                    score@,
                    j,
                    now,
                )),
        ensures
            final(acc).wf(),
            self.jars_ok(*final(acc), now),
            final(acc).nonce == old(acc).nonce,
            final(acc).score == old(acc).score,
            final(acc).is_penalty_applied == old(acc).is_penalty_applied,
            forall|q: Seq<char>|
                #[trigger] final(acc).jar_of(q) == self.cached_part(*old(acc), partitions_view(parts@), q, score@, now),
    {
        let ghost a0 = *acc;
        let ghost pv = partitions_view(parts@);
        let mut i: usize = 0;
        while i < parts.len()
            invariant
                i <= parts@.len(),
                pv == partitions_view(parts@),
                pv.len() == parts@.len(),
                unique_product_ids(self.products@),
                acc.wf(),
                self.jars_ok(*acc, now),
                acc.nonce == a0.nonce,
                acc.score == a0.score,
                acc.is_penalty_applied == a0.is_penalty_applied,
                distinct_parts(pv),
                forall|k: int|
                    0 <= k < parts@.len() ==> (a0.jar_of(#[trigger] parts@[k].product_id@) matches Some(j)
                        && self.product(parts@[k].product_id@).unwrap().terms.jar_interest_fits(
                        a0.is_penalty_applied,
                        score@,
                        j,
                        now,
                    )),
                forall|q: Seq<char>|
                    #[trigger] acc.jar_of(q) == if in_parts_before(pv, i as int, q) {
                        Some(cached_jar(self.product(q).unwrap().terms, a0.is_penalty_applied, score@, a0.jar_of(q).unwrap(), now))
                    } else {
                        a0.jar_of(q)
                    },
            decreases parts@.len() - i,
        {
            let pid = &parts[i].product_id;
            proof {
                lemma_partitions_view(parts@, i as int);
                if in_parts_before(pv, i as int, pid@) {
                    let k = choose|k: int| 0 <= k < i && k < pv.len() && pv[k].0 == pid@;
                    assert(pv[k].0 == pv[i as int].0);
                }
                assert(acc.jar_of(pid@) == a0.jar_of(pid@));
            }
            let pi = self.product_of_jar(acc, pid, now);
            let ghost before = *acc;
            acc.update_cache_for(pid, &self.products[pi].terms, score, now);
            proof {
                let k = jar_position(before.jars@, pid@).unwrap();
                lemma_jar_replaced(before, *acc, k);
                lemma_jars_ok_replaced(*self, before, *acc, k, now);
                assert forall|q: Seq<char>|
                    #[trigger] acc.jar_of(q) == if in_parts_before(pv, i + 1, q) {
                        Some(cached_jar(self.product(q).unwrap().terms, a0.is_penalty_applied, score@, a0.jar_of(q).unwrap(), now))
                    } else {
                        a0.jar_of(q)
                    } by {
                    if q == pid@ {
                        assert(in_parts_before(pv, i + 1, q));
                    } else {
                        if in_parts_before(pv, i + 1, q) {
                            let k = choose|k: int| 0 <= k < i + 1 && k < pv.len() && pv[k].0 == q;
                            assert(k != i);
                            assert(in_parts_before(pv, i as int, q));
                        }
                        if in_parts_before(pv, i as int, q) {
                            let k = choose|k: int| 0 <= k < i && k < pv.len() && pv[k].0 == q;
                            assert(in_parts_before(pv, i + 1, q));
                        }
                    }
                }
            }
            i = i + 1;
        }
    }

    /// Sets or clears the in-progress mark of the jars that the partitions draw on.
    #[verifier::spinoff_prover]
    fn lock_partitions(&self, acc: &mut AccountV1, parts: &Vec<Partition>, locked: bool, now: u64)
        requires
            old(acc).wf(),
            self.jars_ok(*old(acc), now),
            forall|i: int| 0 <= i < parts@.len() ==> old(acc).jar_of(#[trigger] parts@[i].product_id@) is Some,
        ensures
            final(acc).wf(),
            self.jars_ok(*final(acc), now),
            final(acc).nonce == old(acc).nonce,
            final(acc).score == old(acc).score,
            final(acc).is_penalty_applied == old(acc).is_penalty_applied,
            forall|q: Seq<char>|
                #[trigger] final(acc).jar_of(q) == if in_parts(partitions_view(parts@), q) {
                    Some(JarV2 { is_pending_withdraw: locked, ..old(acc).jar_of(q).unwrap() })
                } else {
                    old(acc).jar_of(q)
                },
    {
        let ghost a0 = *acc;
        let ghost pv = partitions_view(parts@);
        let mut i: usize = 0;
        while i < parts.len()
            invariant
                i <= parts@.len(),
                pv == partitions_view(parts@),
                pv.len() == parts@.len(),
                acc.wf(),
                self.jars_ok(*acc, now),
                acc.nonce == a0.nonce,
                acc.score == a0.score,
                acc.is_penalty_applied == a0.is_penalty_applied,
                forall|k: int| 0 <= k < parts@.len() ==> a0.jar_of(#[trigger] parts@[k].product_id@) is Some,
                forall|q: Seq<char>|
                    #[trigger] acc.jar_of(q) == if in_parts_before(pv, i as int, q) {
                        Some(JarV2 { is_pending_withdraw: locked, ..a0.jar_of(q).unwrap() })
                    } else {
                        a0.jar_of(q)
                    },
            decreases parts@.len() - i,
        {
            let pid = &parts[i].product_id;
            proof {
                lemma_partitions_view(parts@, i as int);
                assert(a0.jar_of(parts@[i as int].product_id@) is Some);
            }
            let ghost before = *acc;
            acc.set_jar_locked(pid, locked);
            proof {
                let k = jar_position(before.jars@, pid@).unwrap();
                lemma_jar_replaced(before, *acc, k);
                lemma_jars_ok_replaced(*self, before, *acc, k, now);
                assert forall|q: Seq<char>|
                    #[trigger] acc.jar_of(q) == if in_parts_before(pv, i + 1, q) {
                        Some(JarV2 { is_pending_withdraw: locked, ..a0.jar_of(q).unwrap() })
                    } else {
                        a0.jar_of(q)
                    } by {
                    if q == pid@ {
                        assert(in_parts_before(pv, i + 1, q));
                    } else {
                        if in_parts_before(pv, i + 1, q) {
                            let k = choose|k: int| 0 <= k < i + 1 && k < pv.len() && pv[k].0 == q;
                            assert(k != i);
                            assert(in_parts_before(pv, i as int, q));
                        }
                        if in_parts_before(pv, i as int, q) {
                            let k = choose|k: int| 0 <= k < i && k < pv.len() && pv[k].0 == q;
                            assert(in_parts_before(pv, i + 1, q));
                        }
                    }
                }
            }
            i = i + 1;
        }
    }

    /// Takes out of each jar the deposits that its partition draws on.
    #[verifier::spinoff_prover]
    fn clean_up_partitions(&self, acc: &mut AccountV1, parts: &Vec<Partition>, now: u64)
        requires
            old(acc).wf(),
            self.jars_ok(*old(acc), now),
            distinct_parts(partitions_view(parts@)),
            forall|i: int|
                0 <= i < parts@.len() ==> (old(acc).jar_of(#[trigger] parts@[i].product_id@) matches Some(j)
                    && parts@[i].index <= j.deposits@.len()),
        ensures
            final(acc).wf(),
            self.jars_ok(*final(acc), now),
            final(acc).nonce == old(acc).nonce,
            final(acc).score == old(acc).score,
            final(acc).is_penalty_applied == old(acc).is_penalty_applied,
            forall|q: Seq<char>|
                jar_moved(
                    old(acc).jar_of(q),
                    #[trigger] final(acc).jar_of(q),
                    part_index(partitions_view(parts@), q),
                    None,
                ),
    {
        let ghost a0 = *acc;
        let ghost pv = partitions_view(parts@);
        let mut i: usize = 0;
        while i < parts.len()
            invariant
                i <= parts@.len(),
                pv == partitions_view(parts@),
                pv.len() == parts@.len(),
                acc.wf(),
                self.jars_ok(*acc, now),
                acc.nonce == a0.nonce,
                acc.score == a0.score,
                acc.is_penalty_applied == a0.is_penalty_applied,
                distinct_parts(pv),
                forall|k: int|
                    0 <= k < parts@.len() ==> (a0.jar_of(#[trigger] parts@[k].product_id@) matches Some(j)
                        && parts@[k].index <= j.deposits@.len()),
                forall|q: Seq<char>|
                    #![trigger acc.jar_of(q)]
                    in_parts_before(pv, i as int, q) ==> jar_moved(a0.jar_of(q), acc.jar_of(q), part_index(pv, q), None),
                forall|q: Seq<char>|
                    #![trigger acc.jar_of(q)]
                    !in_parts_before(pv, i as int, q) ==> acc.jar_of(q) == a0.jar_of(q),
            decreases parts@.len() - i,
        {
            let pid = &parts[i].product_id;
            let index = parts[i].index;
            proof {
                lemma_partitions_view(parts@, i as int);
                lemma_part_index(pv, i as int);
                if in_parts_before(pv, i as int, pid@) {
                    let k = choose|k: int| 0 <= k < i && k < pv.len() && pv[k].0 == pid@;
                    assert(pv[k].0 == pv[i as int].0);
                }
                assert(acc.jar_of(pid@) == a0.jar_of(pid@));
            }
            let ghost before = *acc;
            acc.clean_up_jar(pid, index);
            proof {
                let k = jar_position(before.jars@, pid@).unwrap();
                lemma_jar_replaced(before, *acc, k);
                assert(before.jar_of(pid@) == Some(before.jars@[k].jar));
                lemma_skip_ordered(before.jars@[k].jar.deposits@, index as int, now);
                lemma_jars_ok_replaced(*self, before, *acc, k, now);
                assert forall|q: Seq<char>|
                    #![trigger acc.jar_of(q)]
                    in_parts_before(pv, i + 1, q) ==> jar_moved(a0.jar_of(q), acc.jar_of(q), part_index(pv, q), None) by {
                    if q != pid@ && in_parts_before(pv, i + 1, q) {
                        let k = choose|k: int| 0 <= k < i + 1 && k < pv.len() && pv[k].0 == q;
                        assert(k != i);
                        assert(in_parts_before(pv, i as int, q));
                    }
                }
                assert forall|q: Seq<char>|
                    #![trigger acc.jar_of(q)]
                    !in_parts_before(pv, i + 1, q) ==> acc.jar_of(q) == a0.jar_of(q) by {
                    if q != pid@ && in_parts_before(pv, i as int, q) {
                        let k = choose|k: int| 0 <= k < i && k < pv.len() && pv[k].0 == q;
                        assert(in_parts_before(pv, i + 1, q));
                    }
                    if q == pid@ {
                        assert(in_parts_before(pv, i + 1, q));
                    }
                }
            }
            i = i + 1;
        }
        proof {
            assert forall|q: Seq<char>|
                jar_moved(a0.jar_of(q), #[trigger] acc.jar_of(q), part_index(pv, q), None) by {
                if !in_parts_before(pv, pv.len() as int, q) {
                    match a0.jar_of(q) {
                        Some(o) => {
                            assert(o.deposits@.skip(0) =~= o.deposits@);
                        },
                        None => {},
                    }
                }
            }
        }
    }
}

/// Taking deposits out of a jar and then depositing into it is one move.
pub proof fn lemma_moved_then_deposited(x: Option<JarV2>, m: Option<JarV2>, n: JarV2, skip: int, d: Deposit)
    requires
        jar_moved(x, m, skip, None),
        deposited(m, n, d),
    ensures
        jar_moved(x, Some(n), skip, Some(d)),
{
}

/// What a restake leaves to do: nothing, or paying out the remainder of the
/// request, after which `after_transfer_remainder` reports how that went.
#[derive(Clone, Debug)]
pub enum RestakeOutcome {
    Done,
    TransferRemainder(RestakeRequest),
}

/// A refused ticket is reported with the reason that `ticket_check` gives; a
/// signature that does not match carries the material it was checked against.
pub open spec fn ticket_error_like(e: TicketError, f: TicketError, material: Seq<char>) -> bool {
    if f is NotMatchingSignature {
        e matches TicketError::NotMatchingSignature(m) && m@ == material
    } else {
        e == f
    }
}

impl Contract {
    /// The jar of `q` in `a`, with its in-progress mark set to `locked` if a
    /// partition draws on it.
    pub open spec fn locked_part(&self, a: AccountV1, parts: Seq<(Seq<char>, int)>, q: Seq<char>, locked: bool) -> Option<
        JarV2,
    > {
        if in_parts(parts, q) {
            Some(JarV2 { is_pending_withdraw: locked, ..a.jar_of(q).unwrap() })
        } else {
            a.jar_of(q)
        }
    }

    /// The request can be carried out: its account exists, its target product is
    /// registered, each partition draws on a distinct jar of the account and at most
    /// on all of its deposits, and a signed target leaves a nonce to use up.
    pub open spec fn request_fits(&self, request: RestakeRequest) -> bool {
        &&& self.account(request.account_id@) matches Some(a) && {
            &&& distinct_parts(partitions_view(request.partitions@))
            &&& forall|i: int|
                0 <= i < request.partitions@.len() ==> (a.jar_of(#[trigger] request.partitions@[i].product_id@) matches Some(
                    j,
                ) && request.partitions@[i].index <= j.deposits@.len())
            &&& a.nonce < u32::MAX
        }
        &&& self.product(request.deposit.product_id@) is Some
    }

    /// Tells whether the request's account, jars and target product are there for
    /// it to be finished.
    pub fn is_request_current(&self, request: &RestakeRequest) -> (b: bool)
        requires
            self.wf(),
        ensures
            b == self.request_fits(*request),
    {
        if self.find_product(&request.deposit.product_id).is_none() {
            return false;
        }
        let ai = match self.find_account(&request.account_id) {
            None => return false,
            Some(i) => i,
        };
        let a = &self.accounts[ai].account;
        proof {
            assert(self.account(request.account_id@) == Some(*a));
        }
        if a.nonce == u32::MAX {
            return false;
        }
        let parts = &request.partitions;
        let ghost pv = partitions_view(parts@);
        let mut i: usize = 0;
        while i < parts.len()
            invariant
                i <= parts@.len(),
                self.wf(),
                *a == self.accounts@[ai as int].account,
                0 <= ai < self.accounts@.len(),
                self.account(request.account_id@) == Some(*a),
                *parts == request.partitions,
                pv == partitions_view(parts@),
                forall|x: int|
                    0 <= x < i ==> (a.jar_of(#[trigger] parts@[x].product_id@) matches Some(j) && parts@[x].index
                        <= j.deposits@.len()),
                forall|x: int, y: int| 0 <= x < i && 0 <= y < parts@.len() && x != y ==> pv[x].0 != pv[y].0,
            decreases parts@.len() - i,
        {
            proof {
                lemma_partitions_view(parts@, i as int);
            }
            match a.get_jar(&parts[i].product_id) {
                Err(_) => return false,
                Ok(j) => if parts[i].index > j.deposits.len() {
                    return false;
                },
            }
            let mut k: usize = 0;
            while k < parts.len()
                invariant
                    k <= parts@.len(),
                    i < parts@.len(),
                    *parts == request.partitions,
                    pv == partitions_view(parts@),
                    forall|y: int| 0 <= y < k && y != i ==> pv[i as int].0 != pv[y].0,
                decreases parts@.len() - k,
            {
                proof {
                    lemma_partitions_view(parts@, i as int);
                    lemma_partitions_view(parts@, k as int);
                }
                if k != i && parts[k].product_id == parts[i].product_id {
                    return false;
                }
                k = k + 1;
            }
            i = i + 1;
        }
        proof {
            assert(self.account(request.account_id@) == Some(*a));
        }
        true
    }

    /// The interest of every jar that the request draws on can be cached at `now`.
    pub open spec fn request_interest_fits(&self, request: RestakeRequest, score: (Seq<u16>, u64), now: u64) -> bool {
        self.account(request.account_id@) matches Some(a) && forall|i: int|
            0 <= i < request.partitions@.len() ==> (a.jar_of(#[trigger] request.partitions@[i].product_id@) matches Some(
                j,
            ) && self.product(request.partitions@[i].product_id@).unwrap().terms.jar_interest_fits(
                a.is_penalty_applied,
                score,
                j,
                now,
            ))
    }

    /// What checking the ticket of a restake of `amount` gives.
    pub open spec fn restake_ticket(
        &self,
        account_id: Seq<char>,
        amount: u128,
        ticket: DepositTicket,
        signature: Option<Vec<u8>>,
        now: u64,
        contract_account_id: Seq<char>,
    ) -> Result<(), TicketError> {
        ticket_check(
            bytes_view(self.product(ticket.product_id@).unwrap().public_key),
            bytes_view(signature),
            now,
            ticket.valid_until,
            self.ticket_material(contract_account_id, account_id, ticket, amount),
        )
    }

    /// Refuses a request that restakes nothing or whose ticket does not pass.
    fn check_request(
        &self,
        request: &RestakeRequest,
        ticket: &DepositTicket,
        signature: &Option<Vec<u8>>,
        now: u64,
        contract_account_id: &String,
    ) -> (r: Result<(), ContractError>)
        requires
            self.wf(),
            self.product(ticket.product_id@) is Some,
        ensures
            request.deposit.amount == 0 ==> r == Err::<(), ContractError>(
                ContractError::Restake(RestakeError::NothingToRestake),
            ),
            request.deposit.amount != 0 ==> {
                let t = self.restake_ticket(
                    request.account_id@,
                    request.deposit.amount,
                    *ticket,
                    *signature,
                    now,
                    contract_account_id@,
                );
                &&& r is Ok <==> t is Ok
                &&& r matches Err(e) ==> e matches ContractError::Ticket(te) && t matches Err(f) && ticket_error_like(
                    te,
                    f,
                    self.ticket_material(contract_account_id@, request.account_id@, *ticket, request.deposit.amount),
                )
            },
    {
        if request.deposit.amount == 0 {
            return Err(ContractError::Restake(RestakeError::NothingToRestake));
        }
        let pi = self.find_product(&ticket.product_id).unwrap();
        let nonce = match self.find_account(&request.account_id) {
            Some(i) => Some(self.accounts[i].account.nonce),
            None => None,
        };
        let material = get_signature_material(
            contract_account_id,
            &request.account_id,
            &ticket.product_id,
            request.deposit.amount,
            nonce,
            ticket.valid_until,
        );
        match verify_ticket(&self.products[pi].public_key, signature, now, ticket.valid_until, &material) {
            Ok(()) => Ok(()),
            Err(e) => Err(ContractError::Ticket(e)),
        }
    }

    /// Deposits `amount` at `now` into the jar of `target`; a signed product's
    /// deposit uses up a nonce.
    fn deposit_into(&self, acc: &mut AccountV1, target: &String, amount: u128, now: u64)
        requires
            unique_product_ids(self.products@),
            old(acc).wf(),
            self.jars_ok(*old(acc), now),
            product_position(self.products@, target@) is Some,
            old(acc).nonce < u32::MAX,
        ensures
            final(acc).wf(),
            self.jars_ok(*final(acc), now),
            final(acc).score == old(acc).score,
            final(acc).is_penalty_applied == old(acc).is_penalty_applied,
            final(acc).nonce == old(acc).nonce + if self.product(target@).unwrap().public_key is Some {
                1int
            } else {
                0
            },
            final(acc).jar_of(target@) matches Some(j) && deposited(
                old(acc).jar_of(target@),
                j,
                Deposit { created_at: now, principal: amount },
            ),
            forall|q: Seq<char>| q != target@ ==> #[trigger] final(acc).jar_of(q) == old(acc).jar_of(q),
    {
        let ghost a0 = *acc;
        acc.deposit(target, amount, now);
        proof {
            let a1 = *acc;
            let d = Deposit { created_at: now, principal: amount };
            assert forall|j: int| 0 <= j < a1.jars@.len() implies {
                &&& product_position(self.products@, #[trigger] a1.jars@[j].product_id@) is Some
                &&& deposits_sorted(a1.jars@[j].jar.deposits@)
                &&& deposits_before(a1.jars@[j].jar.deposits@, now)
            } by {
                if a1.jars@[j].product_id@ == target@ {
                    assert(a1.jar_of(target@) == Some(a1.jars@[j].jar)) by {
                        let c = choose|k: int| 0 <= k < a1.jars@.len() && a1.jars@[k].product_id@ == target@;
                        assert(c == j);
                    }
                    match a0.jar_of(target@) {
                        Some(o) => {
                            let k = jar_position(a0.jars@, target@).unwrap();
                            assert(product_position(self.products@, a0.jars@[k].product_id@) is Some);
                            lemma_push_ordered(o.deposits@, d, now);
                        },
                        None => {},
                    }
                } else {
                    assert(j < a0.jars@.len() && a1.jars@[j] == a0.jars@[j]);
                    assert(product_position(self.products@, a0.jars@[j].product_id@) is Some);
                }
            }
        }
        let pi = self.find_product(target).unwrap();
        if self.products[pi].is_protected() {
            acc.nonce = acc.nonce + 1;
        }
    }

    /// Takes the partitions' deposits out of their jars and deposits the restaked
    /// amount into the target product.
    fn clean_up_and_deposit(&self, acc: &mut AccountV1, request: &RestakeRequest, now: u64)
        requires
            unique_product_ids(self.products@),
            old(acc).wf(),
            self.jars_ok(*old(acc), now),
            distinct_parts(partitions_view(request.partitions@)),
            forall|i: int|
                0 <= i < request.partitions@.len() ==> (old(acc).jar_of(
                    #[trigger] request.partitions@[i].product_id@,
                ) matches Some(j) && request.partitions@[i].index <= j.deposits@.len()),
            product_position(self.products@, request.deposit.product_id@) is Some,
            old(acc).nonce < u32::MAX,
        ensures
            final(acc).wf(),
            self.jars_ok(*final(acc), now),
            self.moved_account(
                *old(acc),
                |q: Seq<char>| old(acc).jar_of(q),
                *final(acc),
                partitions_view(request.partitions@),
                request.deposit.product_id@,
                request.deposit.amount,
                now,
            ),
    {
        let ghost a0 = *acc;
        self.clean_up_partitions(acc, &request.partitions, now);
        let ghost a1 = *acc;
        self.deposit_into(acc, &request.deposit.product_id, request.deposit.amount, now);
        proof {
            let pv = partitions_view(request.partitions@);
            let t = request.deposit.product_id@;
            let d = Deposit { created_at: now, principal: request.deposit.amount };
            assert forall|q: Seq<char>|
                jar_moved(
                    a0.jar_of(q),
                    #[trigger] acc.jar_of(q),
                    part_index(pv, q),
                    if q == t {
                        Some(d)
                    } else {
                        None
                    },
                ) by {
                assert(jar_moved(a0.jar_of(q), a1.jar_of(q), part_index(pv, q), None));
                if q == t {
                    lemma_moved_then_deposited(a0.jar_of(q), a1.jar_of(q), acc.jar_of(q).unwrap(), part_index(pv, q), d);
                }
            }
        }
    }
}

/// The fee of an optional withdrawal.
pub open spec fn fee_of(withdrawal: Option<WithdrawalDto>) -> nat {
    match withdrawal {
        Some(w) => w.fee as nat,
        None => 0,
    }
}

/// A plan of a restake: the amount deposited again, the withdrawal of the rest,
/// and the jars drawn on with how many deposits each.
pub open spec fn plan_matches(
    req: RestakeRequest,
    account_id: String,
    target: String,
    plan: (nat, Option<WithdrawalDto>, Seq<(Seq<char>, int)>),
) -> bool {
    &&& req.account_id == account_id
    &&& req.deposit.product_id == target
    &&& req.deposit.amount == plan.0
    &&& req.withdrawal == plan.1
    &&& partitions_view(req.partitions@) == plan.2
}

impl Contract {
    /// `self` differs from `before` at most in the account `id`.
    pub open spec fn same_except(&self, before: Contract, id: Seq<char>) -> bool {
        &&& self.products == before.products
        &&& self.fee_amount == before.fee_amount
        &&& self.token_account_id == before.token_account_id
        &&& self.fee_account_id == before.fee_account_id
        &&& self.previous_version_account_id == before.previous_version_account_id
        &&& self.archive == before.archive
        &&& forall|q: Seq<char>| q != id ==> #[trigger] self.account(q) == before.account(q)
    }

    /// What carrying out a restake makes of the account `a`: the partitions' jars get
    /// their interest cached; then, with nothing to pay out, their deposits move into
    /// the target product, and otherwise they are locked until the payout is done.
    pub open spec fn restaked(
        &self,
        a: AccountV1,
        b: AccountV1,
        parts: Seq<(Seq<char>, int)>,
        target: Seq<char>,
        amount: u128,
        withdrawal: Option<WithdrawalDto>,
        score: (Seq<u16>, u64),
        now: u64,
        r: RestakeOutcome,
    ) -> bool {
        match r {
            RestakeOutcome::Done => withdrawal is None && self.moved_account(
                a,
                |q: Seq<char>| self.cached_part(a, parts, q, score, now),
                b,
                parts,
                target,
                amount,
                now,
            ),
            RestakeOutcome::TransferRemainder(_) => {
                &&& withdrawal is Some
                &&& b.nonce == a.nonce
                &&& b.score == a.score
                &&& b.is_penalty_applied == a.is_penalty_applied
                &&& forall|q: Seq<char>|
                    #[trigger] b.jar_of(q) == if in_parts(parts, q) {
                        Some(JarV2 { is_pending_withdraw: true, ..self.cached_part(a, parts, q, score, now).unwrap() })
                    } else {
                        a.jar_of(q)
                    }
            },
        }
    }

    /// Carries out a checked request: caches the interest of the jars it draws on,
    /// then moves their deposits into the target product or, with a remainder to pay
    /// out, locks them and hands the request back.
    #[verifier::spinoff_prover]
    fn execute_restake(&mut self, request: RestakeRequest, score: &ScoreRecord, now: u64) -> (r: RestakeOutcome)
        requires
            old(self).wf(),
            old(self).all_before(now),
            old(self).request_fits(request),
            old(self).request_interest_fits(request, score@, now),
        ensures
            final(self).wf(),
            final(self).all_before(now),
            final(self).same_except(*old(self), request.account_id@),
            final(self).account(request.account_id@) matches Some(b) && old(self).restaked(
                old(self).account(request.account_id@).unwrap(),
                b,
                partitions_view(request.partitions@),
                request.deposit.product_id@,
                request.deposit.amount,
                request.withdrawal,
                score@,
                now,
                r,
            ),
            r matches RestakeOutcome::TransferRemainder(req) ==> req == request,
    {
        let ai = self.find_account(&request.account_id).unwrap();
        let ghost a0 = self.accounts@[ai as int].account;
        let ghost pv = partitions_view(request.partitions@);
        proof {
            assert(self.jars_ok(a0, now)) by {
                assert forall|j: int| 0 <= j < a0.jars@.len() implies {
                    &&& product_position(self.products@, #[trigger] a0.jars@[j].product_id@) is Some
                    &&& deposits_sorted(a0.jars@[j].jar.deposits@)
                    &&& deposits_before(a0.jars@[j].jar.deposits@, now)
                } by {
                    assert(deposits_sorted(self.accounts@[ai as int].account.jars@[j].jar.deposits@));
                    assert(deposits_before(self.accounts@[ai as int].account.jars@[j].jar.deposits@, now));
                }
            }
        }
        let mut acc = AccountV1::new();
        std::mem::swap(&mut acc, &mut self.accounts[ai].account);
        proof {
            assert(self.products == old(self).products);
        }
        self.cache_partitions(&mut acc, &request.partitions, score, now);
        let ghost a1 = acc;
        let outcome = if request.withdrawal.is_none() {
            proof {
                assert forall|i: int|
                    0 <= i < request.partitions@.len() implies (a1.jar_of(
                    #[trigger] request.partitions@[i].product_id@,
                ) matches Some(j) && request.partitions@[i].index <= j.deposits@.len()) by {
                    lemma_partitions_view(request.partitions@, i);
                    assert(in_parts_before(pv, pv.len() as int, request.partitions@[i].product_id@));
                }
            }
            self.clean_up_and_deposit(&mut acc, &request, now);
            proof {
                assert forall|q: Seq<char>|
                    jar_moved(
                        self.cached_part(a0, pv, q, score@, now),
                        #[trigger] acc.jar_of(q),
                        part_index(pv, q),
                        if q == request.deposit.product_id@ {
                            Some(Deposit { created_at: now, principal: request.deposit.amount })
                        } else {
                            None
                        },
                    ) by {
                    assert(a1.jar_of(q) == self.cached_part(a0, pv, q, score@, now));
                }
            }
            RestakeOutcome::Done
        } else {
            proof {
                assert forall|i: int|
                    0 <= i < request.partitions@.len() implies a1.jar_of(
                    #[trigger] request.partitions@[i].product_id@,
                ) is Some by {
                    lemma_partitions_view(request.partitions@, i);
                    assert(in_parts_before(pv, pv.len() as int, request.partitions@[i].product_id@));
                }
            }
            self.lock_partitions(&mut acc, &request.partitions, true, now);
            proof {
                assert forall|q: Seq<char>|
                    #[trigger] acc.jar_of(q) == if in_parts(pv, q) {
                        Some(JarV2 { is_pending_withdraw: true, ..self.cached_part(a0, pv, q, score@, now).unwrap() })
                    } else {
                        a0.jar_of(q)
                    } by {
                    assert(a1.jar_of(q) == self.cached_part(a0, pv, q, score@, now));
                }
            }
            RestakeOutcome::TransferRemainder(request)
        };
        let ghost a2 = acc;
        std::mem::swap(&mut acc, &mut self.accounts[ai].account);
        proof {
            lemma_account_replaced(*old(self), *self, ai as int, now);
        }
        outcome
    }

    /// Finishes a restake whose remainder was being paid out: unlocks the jars it
    /// drew on and, if the payout went through, collects its fee and moves the
    /// deposits into the target product.
    #[verifier::spinoff_prover]
    pub fn after_transfer_remainder(&mut self, request: RestakeRequest, success: bool, now: u64)
        requires
            old(self).wf(),
            old(self).all_before(now),
            old(self).request_fits(request),
            success ==> old(self).fee_amount + fee_of(request.withdrawal) <= u128::MAX,
        ensures
            final(self).wf(),
            final(self).all_before(now),
            final(self).fee_amount == old(self).fee_amount + if success {
                fee_of(request.withdrawal)
            } else {
                0
            },
            (Contract { fee_amount: old(self).fee_amount, ..*final(self) }).same_except(*old(self), request.account_id@),
            final(self).account(request.account_id@) matches Some(b) && {
                let a = old(self).account(request.account_id@).unwrap();
                let pv = partitions_view(request.partitions@);
                if success {
                    old(self).moved_account(
                        a,
                        |q: Seq<char>| old(self).locked_part(a, pv, q, false),
                        b,
                        pv,
                        request.deposit.product_id@,
                        request.deposit.amount,
                        now,
                    )
                } else {
                    &&& b.nonce == a.nonce
                    &&& b.score == a.score
                    &&& b.is_penalty_applied == a.is_penalty_applied
                    &&& forall|q: Seq<char>| #[trigger] b.jar_of(q) == old(self).locked_part(a, pv, q, false)
                }
            },
    {
        let ai = self.find_account(&request.account_id).unwrap();
        let ghost a0 = self.accounts@[ai as int].account;
        let ghost pv = partitions_view(request.partitions@);
        proof {
            assert(self.jars_ok(a0, now)) by {
                assert forall|j: int| 0 <= j < a0.jars@.len() implies {
                    &&& product_position(self.products@, #[trigger] a0.jars@[j].product_id@) is Some
                    &&& deposits_sorted(a0.jars@[j].jar.deposits@)
                    &&& deposits_before(a0.jars@[j].jar.deposits@, now)
                } by {
                    assert(deposits_sorted(self.accounts@[ai as int].account.jars@[j].jar.deposits@));
                    assert(deposits_before(self.accounts@[ai as int].account.jars@[j].jar.deposits@, now));
                }
            }
        }
        let mut acc = AccountV1::new();
        std::mem::swap(&mut acc, &mut self.accounts[ai].account);
        self.lock_partitions(&mut acc, &request.partitions, false, now);
        let ghost a1 = acc;
        if success {
            let fee = match request.withdrawal {
                Some(w) => w.fee,
                None => 0,
            };
            self.fee_amount = self.fee_amount + fee;
            proof {
                assert forall|i: int|
                    0 <= i < request.partitions@.len() implies (a1.jar_of(
                    #[trigger] request.partitions@[i].product_id@,
                ) matches Some(j) && request.partitions@[i].index <= j.deposits@.len()) by {
                    lemma_partitions_view(request.partitions@, i);
                    assert(in_parts_before(pv, pv.len() as int, request.partitions@[i].product_id@));
                }
            }
            self.clean_up_and_deposit(&mut acc, &request, now);
            proof {
                assert forall|q: Seq<char>|
                    jar_moved(
                        self.locked_part(a0, pv, q, false),
                        #[trigger] acc.jar_of(q),
                        part_index(pv, q),
                        if q == request.deposit.product_id@ {
                            Some(Deposit { created_at: now, principal: request.deposit.amount })
                        } else {
                            None
                        },
                    ) by {
                    assert(a1.jar_of(q) == self.locked_part(a0, pv, q, false));
                }
            }
        }
        std::mem::swap(&mut acc, &mut self.accounts[ai].account);
        proof {
            let plain = Contract { fee_amount: old(self).fee_amount, ..*self };
            lemma_account_replaced(*old(self), *self, ai as int, now);
            lemma_account_replaced(*old(self), plain, ai as int, now);
        }
    }
}

/// Planning over more jars never lowers the total or the fee.
pub proof fn lemma_all_plan_monotone(c: Contract, jars: Seq<ProductJar>, i: int, now: u64)
    requires
        0 <= i <= jars.len(),
    ensures
        all_plan(c, jars.take(i), now).0 <= all_plan(c, jars, now).0,
        all_plan(c, jars.take(i), now).1 <= all_plan(c, jars, now).1,
    decreases jars.len(),
{
    if i == jars.len() {
        assert(jars.take(i) =~= jars);
    } else {
        let rest = jars.drop_last();
        lemma_all_plan_monotone(c, rest, i, now);
        assert(rest.take(i) =~= jars.take(i));
    }
}

/// The plan of restaking everything mature in the account: `target_amount` of it,
/// or all, with the rest paid out less its share of the fees, rounded up.
pub open spec fn restake_all_plan(c: Contract, account_id: String, target_amount: Option<u128>, now: u64) -> Result<
    (nat, Option<WithdrawalDto>, Seq<(Seq<char>, int)>),
    ContractError,
> {
    match c.account(account_id@) {
        None => Err(ContractError::AccountNotFound(account_id)),
        Some(a) => {
            let (total, fee, parts) = all_plan(c, a.jars@, now);
            let amount: nat = match target_amount {
                Some(t) => t as nat,
                None => total,
            };
            if amount > total {
                Err(ContractError::Restake(RestakeError::NotEnoughFunds))
            } else {
                let rest: nat = (total - amount) as nat;
                Ok(
                    (
                        amount,
                        if rest > 0 {
                            Some(WithdrawalDto { amount: rest as u128, fee: ((fee * rest + total - 1) / (total as int)) as u128 })
                        } else {
                            None
                        },
                        parts,
                    ),
                )
            }
        },
    }
}

impl Contract {
    /// Tells whether restaking `target_amount` from the jar `from` can be computed
    /// within `u128`.
    pub fn is_restake_computable(&self, account_id: &String, from: &String, target_amount: Option<u128>, now: u64) -> (b: bool)
        requires
            self.wf(),
            self.all_before(now),
        ensures
            b == self.restake_fits(account_id@, from@, target_amount, now),
    {
        let ai = match self.find_account(account_id) {
            Some(i) => i,
            None => return true,
        };
        let account = &self.accounts[ai].account;
        let jar = match account.get_jar(from) {
            Ok(j) => j,
            Err(_) => return true,
        };
        let ghost k = jar_position(account.jars@, from@).unwrap();
        proof {
            assert(account.jars@[k].product_id@ == from@);
            assert(deposits_sorted(self.accounts@[ai as int].account.jars@[k].jar.deposits@));
            assert(deposits_before(self.accounts@[ai as int].account.jars@[k].jar.deposits@, now));
            assert(product_position(self.products@, self.accounts@[ai as int].account.jars@[k].product_id@) is Some);
        }
        if jar.checked_total().is_none() {
            return false;
        }
        let pi = self.find_product(from).unwrap();
        let product = &self.products[pi];
        let (balance, _) = get_liquid_balance(jar, &product.terms, now);
        match target_amount {
            Some(t) => if t < balance {
                product.is_fee_computable(balance - t)
            } else {
                true
            },
            None => true,
        }
    }

    /// Tells whether restaking `target_amount` of everything mature in the account
    /// can be computed within `u128`.
    #[verifier::spinoff_prover]
    pub fn is_restake_all_computable(&self, account_id: &String, target_amount: Option<u128>, now: u64) -> (b: bool)
        requires
            self.wf(),
            self.all_before(now),
        ensures
            b == self.restake_all_fits(account_id@, target_amount, now),
    {
        let ai = match self.find_account(account_id) {
            Some(i) => i,
            None => return true,
        };
        let account = &self.accounts[ai].account;
        let ghost jars = account.jars@;
        let ghost c = *self;
        let mut total: u128 = 0;
        let mut fee: u128 = 0;
        let mut i: usize = 0;
        while i < account.jars.len()
            invariant
                i <= jars.len(),
                jars == account.jars@,
                c == *self,
                account == self.accounts@[ai as int].account,
                0 <= ai < self.accounts@.len(),
                self.wf(),
                self.all_before(now),
                self.account(account_id@) == Some(*account),
                total as nat == all_plan(c, jars.take(i as int), now).0,
                fee as nat == all_plan(c, jars.take(i as int), now).1,
                forall|j: int|
                    0 <= j < i ==> {
                        let p = c.product((#[trigger] jars[j]).product_id@).unwrap();
                        let balance = liquid_balance(p.terms, jars[j].jar.deposits@, now);
                        &&& jars[j].jar.total() <= u128::MAX
                        &&& !jars[j].jar.is_pending_withdraw && 0 < balance <= u128::MAX ==> p.fee_fits(balance as u128)
                    },
            decreases jars.len() - i,
        {
            proof {
                assert(jars.take(i + 1).drop_last() =~= jars.take(i as int));
                assert(jars.take(i + 1).last() == jars[i as int]);
                lemma_all_plan_monotone(c, jars, i + 1, now);
                assert(deposits_sorted(self.accounts@[ai as int].account.jars@[i as int].jar.deposits@));
                assert(deposits_before(self.accounts@[ai as int].account.jars@[i as int].jar.deposits@, now));
                assert(product_position(self.products@, self.accounts@[ai as int].account.jars@[i as int].product_id@) is Some);
            }
            let pj = &account.jars[i];
            if pj.jar.checked_total().is_none() {
                return false;
            }
            let pi = self.find_product(&pj.product_id).unwrap();
            let product = &self.products[pi];
            let (balance, _) = get_liquid_balance(&pj.jar, &product.terms, now);
            if !pj.jar.is_pending_withdraw && balance > 0 {
                if !product.is_fee_computable(balance) {
                    return false;
                }
                total = match total.checked_add(balance) {
                    Some(t) => t,
                    None => return false,
                };
                fee = match fee.checked_add(product.calculate_fee(balance)) {
                    Some(f) => f,
                    None => return false,
                };
            }
            i = i + 1;
        }
        proof {
            assert(jars.take(jars.len() as int) =~= jars);
        }
        match target_amount {
            Some(t) => if t < total {
                fee.checked_mul(total - t).is_some()
            } else {
                true
            },
            None => true,
        }
    }

    /// The request to restake everything mature in the account's unlocked jars into
    /// `target`: `target_amount` of it, or all, with the rest paid out less its share
    /// of the fees.
    #[verifier::spinoff_prover]
    pub fn build_restake_all_request(
        &self,
        account_id: &String,
        target: &String,
        target_amount: Option<u128>,
        now: u64,
    ) -> (r: Result<RestakeRequest, ContractError>)
        requires
            self.wf(),
            self.all_before(now),
            self.restake_all_fits(account_id@, target_amount, now),
        ensures
            match restake_all_plan(*self, *account_id, target_amount, now) {
                Err(e) => r == Err::<RestakeRequest, ContractError>(e),
                Ok(plan) => r matches Ok(req) && plan_matches(req, *account_id, *target, plan),
            },
            r matches Ok(req) ==> self.parts_fit(req) && distinct_parts(partitions_view(req.partitions@)),
    {
        let ai = match self.find_account(account_id) {
            Some(i) => i,
            None => return Err(ContractError::AccountNotFound(account_id.clone())),
        };
        let account = &self.accounts[ai].account;
        let ghost jars = account.jars@;
        let mut parts: Vec<Partition> = Vec::new();
        let mut total: u128 = 0;
        let mut fee: u128 = 0;
        let mut i: usize = 0;
        while i < account.jars.len()
            invariant
                i <= jars.len(),
                jars == account.jars@,
                account == self.accounts@[ai as int].account,
                0 <= ai < self.accounts@.len(),
                self.wf(),
                self.all_before(now),
                self.restake_all_fits(account_id@, target_amount, now),
                self.account(account_id@) == Some(*account),
                (total as nat, fee as nat, partitions_view(parts@)) == all_plan(*self, jars.take(i as int), now),
                distinct_parts(partitions_view(parts@)),
                forall|m: int|
                    #![trigger parts@[m]]
                    0 <= m < parts@.len() ==> exists|k: int|
                        0 <= k < i && (#[trigger] jars[k]).product_id@ == parts@[m].product_id@,
                forall|m: int|
                    0 <= m < parts@.len() ==> (account.jar_of(#[trigger] parts@[m].product_id@) matches Some(j)
                        && parts@[m].index <= j.deposits@.len()),
            decreases jars.len() - i,
        {
            proof {
                assert(jars.take(i + 1).drop_last() =~= jars.take(i as int));
                assert(jars.take(i + 1).last() == jars[i as int]);
                lemma_all_plan_monotone(*self, jars, i + 1, now);
                assert(deposits_sorted(self.accounts@[ai as int].account.jars@[i as int].jar.deposits@));
                assert(deposits_before(self.accounts@[ai as int].account.jars@[i as int].jar.deposits@, now));
                assert(jars[i as int].jar.total() <= u128::MAX);
                assert(product_position(self.products@, self.accounts@[ai as int].account.jars@[i as int].product_id@) is Some);
            }
            let pj = &account.jars[i];
            if !pj.jar.is_pending_withdraw {
                let pi = self.find_product(&pj.product_id).unwrap();
                let product = &self.products[pi];
                let (balance, index) = get_liquid_balance(&pj.jar, &product.terms, now);
                if balance > 0 {
                    proof {
                        assert(pj == jars[i as int]);
                    }
                    total = total + balance;
                    fee = fee + product.calculate_fee(balance);
                    proof {
                        assert(jar_position(jars, pj.product_id@) == Some(i as int)) by {
                            let c = choose|k: int| 0 <= k < jars.len() && jars[k].product_id@ == pj.product_id@;
                            assert(c == i);
                        }
                    }
                    let ghost before = parts@;
                    parts.push(Partition { product_id: pj.product_id.clone(), index });
                    proof {
                        assert(partitions_view(parts@) =~= partitions_view(before).push((pj.product_id@, index as int)));
                        assert forall|x: int, y: int|
                            0 <= x < parts@.len() && 0 <= y < parts@.len() && x != y implies partitions_view(
                            parts@,
                        )[x].0 != partitions_view(parts@)[y].0 by {
                            lemma_partitions_view(parts@, x);
                            lemma_partitions_view(parts@, y);
                            if x == before.len() {
                                let k = choose|k: int| 0 <= k < i && (#[trigger] jars[k]).product_id@ == before[y].product_id@;
                                assert(jars[k].product_id@ != jars[i as int].product_id@);
                            } else if y == before.len() {
                                let k = choose|k: int| 0 <= k < i && (#[trigger] jars[k]).product_id@ == before[x].product_id@;
                                assert(jars[k].product_id@ != jars[i as int].product_id@);
                            } else {
                                lemma_partitions_view(before, x);
                                lemma_partitions_view(before, y);
                            }
                        }
                        assert forall|m: int| #![trigger parts@[m]] 0 <= m < parts@.len() implies exists|k: int|
                            0 <= k < i + 1 && (#[trigger] jars[k]).product_id@ == parts@[m].product_id@ by {
                            if m == before.len() {
                                assert(jars[i as int].product_id@ == parts@[m].product_id@);
                            } else {
                                assert(parts@[m] == before[m]);
                                let k = choose|k: int| 0 <= k < i && (#[trigger] jars[k]).product_id@ == before[m].product_id@;
                                assert(jars[k].product_id@ == parts@[m].product_id@);
                            }
                        }
                        assert forall|m: int| 0 <= m < parts@.len() implies (account.jar_of(
                            #[trigger] parts@[m].product_id@,
                        ) matches Some(j) && parts@[m].index <= j.deposits@.len()) by {
                            if m < before.len() {
                                assert(parts@[m] == before[m]);
                            }
                        }
                    }
                } else {
                    proof {
                        assert forall|m: int| #![trigger parts@[m]] 0 <= m < parts@.len() implies exists|k: int|
                            0 <= k < i + 1 && (#[trigger] jars[k]).product_id@ == parts@[m].product_id@ by {
                            let k = choose|k: int| 0 <= k < i && (#[trigger] jars[k]).product_id@ == parts@[m].product_id@;
                            assert(jars[k].product_id@ == parts@[m].product_id@);
                        }
                    }
                }
            } else {
                proof {
                    assert forall|m: int| #![trigger parts@[m]] 0 <= m < parts@.len() implies exists|k: int|
                        0 <= k < i + 1 && (#[trigger] jars[k]).product_id@ == parts@[m].product_id@ by {
                        let k = choose|k: int| 0 <= k < i && (#[trigger] jars[k]).product_id@ == parts@[m].product_id@;
                        assert(jars[k].product_id@ == parts@[m].product_id@);
                    }
                }
            }
            i = i + 1;
        }
        proof {
            assert(jars.take(jars.len() as int) =~= jars);
        }
        let deposit = match DepositDto::new(target.clone(), total, target_amount) {
            Ok(d) => d,
            Err(e) => return Err(ContractError::Restake(e)),
        };
        let rest = total - deposit.amount;
        let withdrawal = if rest > 0 {
            proof {
                assert(paid_out(total as nat, target_amount) == rest);
            }
            Some(WithdrawalDto { amount: rest, fee: div_ceil(fee * rest, total) })
        } else {
            None
        };
        proof {
            assert forall|m: int| 0 <= m < parts@.len() implies (self.account(account_id@).unwrap().jar_of(
                #[trigger] parts@[m].product_id@,
            ) matches Some(j) && parts@[m].index <= j.deposits@.len()) by {}
        }
        Ok(RestakeRequest { account_id: account_id.clone(), withdrawal, deposit, partitions: parts })
    }
}

impl Contract {
    /// Restakes everything mature in the account's unlocked jars into the ticket's
    /// product: `amount` of it, or all, the rest being paid out less its share of the
    /// fees. The ticket must name an enabled product and pass for the restaked amount.
    pub fn restake_all(
        &mut self,
        account_id: &String,
        ticket: &DepositTicket,
        signature: &Option<Vec<u8>>,
        amount: Option<u128>,
        score: &ScoreRecord,
        now: u64,
        contract_account_id: &String,
    ) -> (r: Result<RestakeOutcome, ContractError>)
        requires
            old(self).wf(),
            old(self).all_before(now),
            old(self).restake_all_fits(account_id@, amount, now),
            old(self).account(account_id@) matches Some(a) ==> {
                &&& a.nonce < u32::MAX
                &&& forall|q: Seq<char>|
                    #![trigger a.jar_of(q)]
                    in_parts(all_plan(*old(self), a.jars@, now).2, q) ==> (a.jar_of(q) matches Some(j)
                        && old(self).product(q).unwrap().terms.jar_interest_fits(a.is_penalty_applied, score@, j, now))
            },
        ensures
            final(self).wf(),
            final(self).all_before(now),
            r is Err ==> *final(self) == *old(self),
            match old(self).product(ticket.product_id@) {
                None => r == Err::<RestakeOutcome, ContractError>(
                    ContractError::ProductNotFound(ticket.product_id),
                ),
                Some(p) => if !p.is_enabled {
                    r == Err::<RestakeOutcome, ContractError>(ContractError::Product(ProductError::Disabled))
                } else {
                    match restake_all_plan(*old(self), *account_id, amount, now) {
                        Err(e) => r == Err::<RestakeOutcome, ContractError>(e),
                        Ok(plan) => old(self).restake_result(
                            *account_id,
                            plan,
                            *ticket,
                            *signature,
                            score@,
                            now,
                            contract_account_id@,
                            *final(self),
                            r,
                        ),
                    }
                },
            },
    {
        let pi = match self.find_product(&ticket.product_id) {
            Some(i) => i,
            None => return Err(ContractError::ProductNotFound(ticket.product_id.clone())),
        };
        if let Err(e) = self.products[pi].check_enabled() {
            return Err(ContractError::Product(e));
        }
        let request = match self.build_restake_all_request(account_id, &ticket.product_id, amount, now) {
            Ok(r) => r,
            Err(e) => return Err(e),
        };
        if let Err(e) = self.check_request(&request, ticket, signature, now, contract_account_id) {
            return Err(e);
        }
        proof {
            let a = self.account(account_id@).unwrap();
            let pv = partitions_view(request.partitions@);
            assert forall|i: int| 0 <= i < request.partitions@.len() implies (a.jar_of(
                #[trigger] request.partitions@[i].product_id@,
            ) matches Some(j) && self.product(request.partitions@[i].product_id@).unwrap().terms.jar_interest_fits(
                a.is_penalty_applied,
                score@,
                j,
                now,
            )) by {
                lemma_partitions_view(request.partitions@, i);
                assert(in_parts_before(pv, pv.len() as int, request.partitions@[i].product_id@));
            }
        }
        Ok(self.execute_restake(request, score, now))
    }
}

impl Contract {
    /// Whether `update_account_cache` caches the jar of `q`: every jar, or only those
    /// of score-based products.
    pub open spec fn cache_selected(&self, q: Seq<char>, score_based_only: bool) -> bool {
        !score_based_only || self.product(q).unwrap().terms is ScoreBased
    }

    /// Caches at `now` the interest of the account's jars: all of them, or only those
    /// of score-based products.
    #[verifier::spinoff_prover]
    pub fn update_account_cache(
        &mut self,
        account_id: &String,
        score_based_only: bool,
        score: &ScoreRecord,
        now: u64,
    ) -> (r: Result<(), ContractError>)
        requires
            old(self).wf(),
            old(self).all_before(now),
            old(self).account(account_id@) matches Some(a) ==> forall|q: Seq<char>|
                #![trigger a.jar_of(q)]
                old(self).cache_selected(q, score_based_only) ==> (a.jar_of(q) matches Some(j) ==> old(
                    self,
                ).product(q).unwrap().terms.jar_interest_fits(a.is_penalty_applied, score@, j, now)),
        ensures
            final(self).wf(),
            final(self).all_before(now),
            match old(self).account(account_id@) {
                None => r == Err::<(), ContractError>(ContractError::AccountNotFound(*account_id))
                    && *final(self) == *old(self),
                Some(a) => r is Ok && final(self).same_except(*old(self), account_id@) && (final(self).account(
                    account_id@,
                ) matches Some(b) && {
                    &&& b.nonce == a.nonce
                    &&& b.score == a.score
                    &&& b.is_penalty_applied == a.is_penalty_applied
                    &&& forall|q: Seq<char>|
                        #[trigger] b.jar_of(q) == match a.jar_of(q) {
                            Some(j) => if old(self).cache_selected(q, score_based_only) {
                                Some(cached_jar(old(self).product(q).unwrap().terms, a.is_penalty_applied, score@, j, now))
                            } else {
                                Some(j)
                            },
                            None => None,
                        }
                }),
            },
    {
        let ai = match self.find_account(account_id) {
            None => return Err(ContractError::AccountNotFound(account_id.clone())),
            Some(i) => i,
        };
        let ghost a0 = self.accounts@[ai as int].account;
        let mut parts: Vec<Partition> = Vec::new();
        let mut k: usize = 0;
        while k < self.accounts[ai].account.jars.len()
            invariant
                0 <= ai < self.accounts@.len(),
                *self == *old(self),
                a0 == self.accounts@[ai as int].account,
                old(self).wf(),
                k <= a0.jars@.len(),
                forall|m: int|
                    #![trigger parts@[m]]
                    0 <= m < parts@.len() ==> exists|x: int|
                        0 <= x < k && (#[trigger] a0.jars@[x]).product_id@ == parts@[m].product_id@
                            && old(self).cache_selected(a0.jars@[x].product_id@, score_based_only),
                forall|x: int|
                    #![trigger a0.jars@[x]]
                    0 <= x < k && old(self).cache_selected(a0.jars@[x].product_id@, score_based_only)
                        ==> exists|m: int| 0 <= m < parts@.len() && parts@[m].product_id@ == a0.jars@[x].product_id@,
                distinct_parts(partitions_view(parts@)),
            decreases a0.jars@.len() - k,
        {
            let pid = &self.accounts[ai].account.jars[k].product_id;
            proof {
                assert(product_position(self.products@, self.accounts@[ai as int].account.jars@[k as int].product_id@) is Some);
            }
            let pi = self.find_product(pid).unwrap();
            let selected = !score_based_only || match self.products[pi].terms {
                Terms::ScoreBased(_) => true,
                _ => false,
            };
            if selected {
                let ghost before = parts@;
                parts.push(Partition { product_id: pid.clone(), index: 0 });
                proof {
                    assert(partitions_view(parts@) =~= partitions_view(before).push((pid@, 0int)));
                    assert forall|x: int, y: int|
                        0 <= x < parts@.len() && 0 <= y < parts@.len() && x != y implies partitions_view(
                        parts@,
                    )[x].0 != partitions_view(parts@)[y].0 by {
                        lemma_partitions_view(parts@, x);
                        lemma_partitions_view(parts@, y);
                        if x == before.len() {
                            let z = choose|z: int| 0 <= z < k && (#[trigger] a0.jars@[z]).product_id@ == before[y].product_id@
                                && old(self).cache_selected(a0.jars@[z].product_id@, score_based_only);
                            assert(a0.jars@[z].product_id@ != a0.jars@[k as int].product_id@);
                        } else if y == before.len() {
                            let z = choose|z: int| 0 <= z < k && (#[trigger] a0.jars@[z]).product_id@ == before[x].product_id@
                                && old(self).cache_selected(a0.jars@[z].product_id@, score_based_only);
                            assert(a0.jars@[z].product_id@ != a0.jars@[k as int].product_id@);
                        } else {
                            lemma_partitions_view(before, x);
                            lemma_partitions_view(before, y);
                        }
                    }
                    assert forall|m: int| #![trigger parts@[m]] 0 <= m < parts@.len() implies exists|x: int|
                        0 <= x < k + 1 && (#[trigger] a0.jars@[x]).product_id@ == parts@[m].product_id@
                            && old(self).cache_selected(a0.jars@[x].product_id@, score_based_only) by {
                        if m < before.len() {
                            assert(parts@[m] == before[m]);
                            let z = choose|z: int| 0 <= z < k && (#[trigger] a0.jars@[z]).product_id@ == before[m].product_id@
                                && old(self).cache_selected(a0.jars@[z].product_id@, score_based_only);
                            assert(a0.jars@[z].product_id@ == parts@[m].product_id@);
                        } else {
                            assert(a0.jars@[k as int].product_id@ == parts@[m].product_id@);
                        }
                    }
                    assert forall|x: int|
                        #![trigger a0.jars@[x]]
                        0 <= x < k + 1 && old(self).cache_selected(a0.jars@[x].product_id@, score_based_only)
                            implies exists|m: int| 0 <= m < parts@.len() && parts@[m].product_id@ == a0.jars@[x].product_id@ by {
                        if x < k {
                            let m = choose|m: int| 0 <= m < before.len() && before[m].product_id@ == a0.jars@[x].product_id@;
                            assert(parts@[m] == before[m]);
                        } else {
                            assert(parts@[before.len() as int].product_id@ == a0.jars@[x].product_id@);
                        }
                    }
                }
            } else {
                proof {
                    assert forall|m: int| #![trigger parts@[m]] 0 <= m < parts@.len() implies exists|x: int|
                        0 <= x < k + 1 && (#[trigger] a0.jars@[x]).product_id@ == parts@[m].product_id@
                            && old(self).cache_selected(a0.jars@[x].product_id@, score_based_only) by {
                        let z = choose|z: int| 0 <= z < k && (#[trigger] a0.jars@[z]).product_id@ == parts@[m].product_id@
                            && old(self).cache_selected(a0.jars@[z].product_id@, score_based_only);
                        assert(a0.jars@[z].product_id@ == parts@[m].product_id@);
                    }
                }
            }
            k = k + 1;
        }
        let ghost pv = partitions_view(parts@);
        proof {
            assert(self.jars_ok(a0, now)) by {
                assert forall|j: int| 0 <= j < a0.jars@.len() implies {
                    &&& product_position(self.products@, #[trigger] a0.jars@[j].product_id@) is Some
                    &&& deposits_sorted(a0.jars@[j].jar.deposits@)
                    &&& deposits_before(a0.jars@[j].jar.deposits@, now)
                } by {
                    assert(deposits_sorted(self.accounts@[ai as int].account.jars@[j].jar.deposits@));
                    assert(deposits_before(self.accounts@[ai as int].account.jars@[j].jar.deposits@, now));
                }
            }
            // each selected product id names a jar of the account, and the reverse
            assert forall|q: Seq<char>| #![trigger a0.jar_of(q)]
                in_parts(pv, q) <==> (a0.jar_of(q) is Some && old(self).cache_selected(q, score_based_only)) by {
                if in_parts(pv, q) {
                    let m = choose|m: int| 0 <= m < pv.len() && m < pv.len() && pv[m].0 == q;
                    lemma_partitions_view(parts@, m);
                    let x = choose|x: int| 0 <= x < a0.jars@.len() && (#[trigger] a0.jars@[x]).product_id@ == parts@[m].product_id@
                        && old(self).cache_selected(a0.jars@[x].product_id@, score_based_only);
                    assert(jar_position(a0.jars@, q) is Some);
                }
                if a0.jar_of(q) is Some && old(self).cache_selected(q, score_based_only) {
                    let x = jar_position(a0.jars@, q).unwrap();
                    assert(a0.jars@[x].product_id@ == q);
                    let m = choose|m: int| 0 <= m < parts@.len() && parts@[m].product_id@ == a0.jars@[x].product_id@;
                    lemma_partitions_view(parts@, m);
                    assert(pv[m].0 == q);
                }
            }
            assert forall|i: int| 0 <= i < parts@.len() implies (a0.jar_of(#[trigger] parts@[i].product_id@) matches Some(j)
                && self.product(parts@[i].product_id@).unwrap().terms.jar_interest_fits(a0.is_penalty_applied, score@, j, now)) by {
                lemma_partitions_view(parts@, i);
                assert(in_parts_before(pv, pv.len() as int, parts@[i].product_id@));
            }
        }
        let mut acc = AccountV1::new();
        std::mem::swap(&mut acc, &mut self.accounts[ai].account);
        self.cache_partitions(&mut acc, &parts, score, now);
        proof {
            assert forall|q: Seq<char>|
                #[trigger] acc.jar_of(q) == match a0.jar_of(q) {
                    Some(j) => if old(self).cache_selected(q, score_based_only) {
                        Some(cached_jar(old(self).product(q).unwrap().terms, a0.is_penalty_applied, score@, j, now))
                    } else {
                        Some(j)
                    },
                    None => None,
                } by {
                assert(acc.jar_of(q) == self.cached_part(a0, pv, q, score@, now));
                assert(in_parts(pv, q) <==> (a0.jar_of(q) is Some && old(self).cache_selected(q, score_based_only)));
            }
        }
        std::mem::swap(&mut acc, &mut self.accounts[ai].account);
        proof {
            lemma_account_replaced(*old(self), *self, ai as int, now);
        }
        Ok(())
    }
}

} // verus!
