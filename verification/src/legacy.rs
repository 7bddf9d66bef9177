use vstd::prelude::*;

use crate::account::{find_legacy_product, first_jar, first_product, AccountJars, AccountJarsVersioned, AccountScore, JarsError};
use crate::account_v2::{jar_position, lemma_ids_after_deposit, lemma_jar_replaced, product_ids, AccountError, AccountV1};
use crate::common::MS_IN_YEAR;
use crate::contract::ContractError;
use crate::jar::{Jar, JarCache, JarState, ScoreRecord};
use crate::jar_v2::{Deposit, JarV2};
use crate::product::Product;

verus! {

/// A jar held off-chain before the contract existed, moved in by migration.
#[derive(Clone, Debug)]
pub struct CeFiJar {
    pub id: String,
    pub account_id: String,
    pub product_id: String,
    pub principal: u128,
    pub created_at: u64,
}

/// What a migrated jar became: its original id, its index, and its owner.
#[derive(Clone, Debug)]
pub struct MigrationEventItem {
    pub original_id: String,
    pub index: u32,
    pub account_id: String,
}

/// The indices of the jars of one account.
#[derive(Clone, Debug)]
pub struct AccountJarIndices {
    pub account_id: String,
    pub indices: Vec<u32>,
}

/// The storage of the first version of the contract: products, jars by index, and
/// the jar indices of each account.
#[derive(Clone, Debug)]
pub struct LegacyContract {
    pub products: Vec<Product>,
    pub jars: Vec<Jar>,
    pub account_jars: Vec<AccountJarIndices>,
}

/// Why a migration of jars is refused.
#[derive(Clone, Debug, PartialEq, Eq)]
pub enum MigrationError {
    /// A jar names a product that is not registered.
    ProductNotRegistered(String),
    /// The tokens received differ from the principals of the jars.
    TotalMismatch,
}

/// Whether a product with id `id` is registered.
pub open spec fn registered(products: Seq<Product>, id: Seq<char>) -> bool {
    exists|k: int| 0 <= k < products.len() && products[k].id@ == id
}

/// The first jar, in order, whose product is not registered.
pub open spec fn first_unregistered(products: Seq<Product>, jars: Seq<CeFiJar>) -> Option<CeFiJar>
    decreases jars.len(),
{
    if jars.len() == 0 {
        None
    } else if !registered(products, jars[0].product_id@) {
        Some(jars[0])
    } else {
        first_unregistered(products, jars.drop_first())
    }
}

/// The principal of a batch of jars.
pub open spec fn cefi_total(jars: Seq<CeFiJar>) -> nat
    decreases jars.len(),
{
    if jars.len() == 0 {
        0
    } else {
        cefi_total(jars.drop_last()) + (jars.last().principal as nat)
    }
}

/// The jar indices of the accounts, as pairs of an account and an index.
pub open spec fn pairs_of(account_jars: Seq<AccountJarIndices>) -> Set<(Seq<char>, u32)> {
    Set::new(
        |p: (Seq<char>, u32)|
            exists|k: int, m: int|
                0 <= k < account_jars.len() && 0 <= m < account_jars[k].indices@.len() && p == (
                    account_jars[k].account_id@,
                    account_jars[k].indices@[m],
                ),
    )
}

/// The pairs that migrating the first `n` of `jars` after `first` jars adds.
pub open spec fn migrated_pairs(jars: Seq<CeFiJar>, first: nat, n: int) -> Set<(Seq<char>, u32)> {
    Set::new(|p: (Seq<char>, u32)| exists|i: int| 0 <= i < n && p == (jars[i].account_id@, (first + i) as u32))
}

/// The first jar whose product is not registered is the first refused, and the rest
/// of the batch is checked after it.
proof fn lemma_first_unregistered_step(products: Seq<Product>, jars: Seq<CeFiJar>, i: int)
    requires
        0 <= i < jars.len(),
        registered(products, jars[i].product_id@),
    ensures
        first_unregistered(products, jars.skip(i)) == first_unregistered(products, jars.skip(i + 1)),
{
    assert(jars.skip(i)[0] == jars[i]);
    assert(jars.skip(i).drop_first() =~= jars.skip(i + 1));
}

impl LegacyContract {
    /// The jar indices of the accounts, as pairs of an account and an index.
    pub open spec fn index_pairs(&self) -> Set<(Seq<char>, u32)> {
        pairs_of(self.account_jars@)
    }

    /// Records that the jar at `index` belongs to `account_id`.
    #[verifier::spinoff_prover]
    fn add_index(&mut self, account_id: &String, index: u32)
        ensures
            final(self).index_pairs() == old(self).index_pairs().insert((account_id@, index)),
            final(self).products == old(self).products,
            final(self).jars == old(self).jars,
    {
        let mut k: usize = 0;
        while k < self.account_jars.len()
            invariant
                k <= self.account_jars@.len(),
                *self == *old(self),
                forall|x: int| 0 <= x < k ==> self.account_jars@[x].account_id@ != account_id@,
            decreases self.account_jars@.len() - k,
        {
            if self.account_jars[k].account_id == *account_id {
                let ghost before = self.account_jars@;
                self.account_jars[k].indices.push(index);
                proof {
                    let after = self.account_jars@;
                    assert forall|p: (Seq<char>, u32)| pairs_of(after).contains(p) <==> pairs_of(before).insert(
                        (account_id@, index),
                    ).contains(p) by {
                        if pairs_of(after).contains(p) {
                            let (x, m) = choose|x: int, m: int|
                                0 <= x < after.len() && 0 <= m < after[x].indices@.len() && p == (
                                    after[x].account_id@,
                                    after[x].indices@[m],
                                );
                            if x != k || m < before[x].indices@.len() {
                                assert(before[x].indices@[m] == after[x].indices@[m]);
                                assert(pairs_of(before).contains(p));
                            }
                        }
                        if pairs_of(before).contains(p) {
                            let (x, m) = choose|x: int, m: int|
                                0 <= x < before.len() && 0 <= m < before[x].indices@.len() && p == (
                                    before[x].account_id@,
                                    before[x].indices@[m],
                                );
                            assert(after[x].indices@[m] == before[x].indices@[m]);
                            assert(pairs_of(after).contains(p));
                        }
                        if p == (account_id@, index) {
                            let m = before[k as int].indices@.len() as int;
                            assert(after[k as int].indices@[m] == index);
                            assert(pairs_of(after).contains(p));
                        }
                    }
                    assert(pairs_of(after) =~= pairs_of(before).insert((account_id@, index)));
                }
                return;
            }
            k = k + 1;
        }
        let ghost before = self.account_jars@;
        let mut indices: Vec<u32> = Vec::new();
        indices.push(index);
        self.account_jars.push(AccountJarIndices { account_id: account_id.clone(), indices });
        proof {
            let after = self.account_jars@;
            assert forall|p: (Seq<char>, u32)| pairs_of(after).contains(p) <==> pairs_of(before).insert(
                (account_id@, index),
            ).contains(p) by {
                if pairs_of(after).contains(p) {
                    let (x, m) = choose|x: int, m: int|
                        0 <= x < after.len() && 0 <= m < after[x].indices@.len() && p == (
                            after[x].account_id@,
                            after[x].indices@[m],
                        );
                    if x < before.len() {
                        assert(after[x] == before[x]);
                        assert(pairs_of(before).contains(p));
                    }
                }
                if pairs_of(before).contains(p) {
                    let (x, m) = choose|x: int, m: int|
                        0 <= x < before.len() && 0 <= m < before[x].indices@.len() && p == (
                            before[x].account_id@,
                            before[x].indices@[m],
                        );
                    assert(after[x] == before[x]);
                    assert(pairs_of(after).contains(p));
                }
                if p == (account_id@, index) {
                    let x = before.len() as int;
                    assert(after[x].indices@[0] == index);
                    assert(pairs_of(after).contains(p));
                }
            }
            assert(pairs_of(after) =~= pairs_of(before).insert((account_id@, index)));
        }
    }

    /// Moves jars held off-chain into the contract, each under the next index and
    /// owned by its account; every product must be registered and the tokens received
    /// must match the principals, else nothing changes.
    #[verifier::spinoff_prover]
    pub fn migrate_jars(&mut self, jars: Vec<CeFiJar>, total_received: u128) -> (r: Result<
        Vec<MigrationEventItem>,
        MigrationError,
    >)
        requires
            old(self).jars@.len() + jars@.len() <= u32::MAX,
            cefi_total(jars@) <= u128::MAX,
        ensures
            r is Err ==> *final(self) == *old(self),
            match first_unregistered(old(self).products@, jars@) {
                Some(j) => r == Err::<Vec<MigrationEventItem>, MigrationError>(
                    MigrationError::ProductNotRegistered(j.product_id),
                ),
                None => if cefi_total(jars@) != total_received {
                    r == Err::<Vec<MigrationEventItem>, MigrationError>(MigrationError::TotalMismatch)
                } else {
                    r matches Ok(events) && {
                        let first = old(self).jars@.len();
                        &&& events@.len() == jars@.len()
                        &&& forall|i: int|
                            0 <= i < jars@.len() ==> {
                                &&& (#[trigger] events@[i]).original_id@ == jars@[i].id@
                                &&& events@[i].index == first + i
                                &&& events@[i].account_id@ == jars@[i].account_id@
                            }
                        &&& final(self).products == old(self).products
                        &&& final(self).jars@.len() == first + jars@.len()
                        &&& forall|k: int| 0 <= k < first ==> #[trigger] final(self).jars@[k] == old(self).jars@[k]
                        &&& forall|i: int|
                            0 <= i < jars@.len() ==> {
                                let jar = #[trigger] final(self).jars@[first + i];
                                &&& jar.id == first + i
                                &&& jar.account_id@ == jars@[i].account_id@
                                &&& jar.product_id@ == jars@[i].product_id@
                                &&& jar.principal == jars@[i].principal
                                &&& jar.created_at == jars@[i].created_at
                                &&& jar.cache is None
                                &&& jar.claimed_balance == 0
                                &&& !jar.is_pending_withdraw
                                &&& jar.state == JarState::Active
                                &&& !jar.is_penalty_applied
                                &&& jar.claim_remainder == 0
                            }
                        &&& final(self).index_pairs() == old(self).index_pairs() + migrated_pairs(
                            jars@,
                            first,
                            jars@.len() as int,
                        )
                    }
                },
            },
    {
        let ghost batch = jars@;
        proof {
            assert(batch.skip(0) =~= batch);
        }
        let mut total: u128 = 0;
        let mut i: usize = 0;
        while i < jars.len()
            invariant
                i <= batch.len(),
                batch == jars@,
                *self == *old(self),
                cefi_total(batch) <= u128::MAX,
                total == cefi_total(batch.take(i as int)),
                first_unregistered(self.products@, batch) == first_unregistered(self.products@, batch.skip(i as int)),
            decreases batch.len() - i,
        {
            let mut k: usize = 0;
            let mut found = false;
            while k < self.products.len()
                invariant
                    k <= self.products@.len(),
                    i < batch.len(),
                    batch == jars@,
                    found == exists|x: int| 0 <= x < k && self.products@[x].id@ == batch[i as int].product_id@,
                decreases self.products@.len() - k,
            {
                if self.products[k].id == jars[i].product_id {
                    found = true;
                }
                k = k + 1;
            }
            if !found {
                proof {
                    assert(batch.skip(i as int)[0] == batch[i as int]);
                }
                return Err(MigrationError::ProductNotRegistered(jars[i].product_id.clone()));
            }
            proof {
                lemma_first_unregistered_step(self.products@, batch, i as int);
                assert(batch.take(i + 1).drop_last() =~= batch.take(i as int));
                lemma_cefi_total_prefix(batch, i + 1);
            }
            total = total + jars[i].principal;
            i = i + 1;
        }
        proof {
            assert(batch.take(batch.len() as int) =~= batch);
            assert(batch.skip(batch.len() as int).len() == 0);
        }
        if total != total_received {
            return Err(MigrationError::TotalMismatch);
        }
        let ghost first = self.jars@.len();
        let ghost old_pairs = self.index_pairs();
        let mut rest = jars;
        let mut events: Vec<MigrationEventItem> = Vec::new();
        let mut n: usize = 0;
        while rest.len() > 0
            invariant
                n <= batch.len(),
                rest@ == batch.skip(n as int),
                first + batch.len() <= u32::MAX,
                self.products == old(self).products,
                self.jars@.len() == first + n,
                first == old(self).jars@.len(),
                old_pairs == old(self).index_pairs(),
                forall|k: int| 0 <= k < first ==> #[trigger] self.jars@[k] == old(self).jars@[k],
                forall|x: int|
                    0 <= x < n ==> {
                        let jar = #[trigger] self.jars@[first + x];
                        &&& jar.id == first + x
                        &&& jar.account_id@ == batch[x].account_id@
                        &&& jar.product_id@ == batch[x].product_id@
                        &&& jar.principal == batch[x].principal
                        &&& jar.created_at == batch[x].created_at
                        &&& jar.cache is None
                        &&& jar.claimed_balance == 0
                        &&& !jar.is_pending_withdraw
                        &&& jar.state == JarState::Active
                        &&& !jar.is_penalty_applied
                        &&& jar.claim_remainder == 0
                    },
                events@.len() == n,
                forall|x: int|
                    0 <= x < n ==> {
                        &&& (#[trigger] events@[x]).original_id@ == batch[x].id@
                        &&& events@[x].index == first + x
                        &&& events@[x].account_id@ == batch[x].account_id@
                    },
                self.index_pairs() == old_pairs + migrated_pairs(batch, first, n as int),
            decreases rest@.len(),
        {
            let cefi = rest.remove(0);
            proof {
                assert(cefi == batch[n as int]);
                assert(rest@ =~= batch.skip(n + 1));
            }
            let index = self.jars.len() as u32;
            self.add_index(&cefi.account_id, index);
            events.push(
                MigrationEventItem { original_id: cefi.id, index, account_id: cefi.account_id.clone() },
            );
            self.jars.push(Jar::create(index, cefi.account_id, cefi.product_id, cefi.principal, cefi.created_at));
            proof {
                assert(self.index_pairs() =~= old_pairs + migrated_pairs(batch, first, n + 1)) by {
                    assert forall|p: (Seq<char>, u32)| migrated_pairs(batch, first, n + 1).contains(p) <==> (
                    migrated_pairs(batch, first, n as int).contains(p) || p == (batch[n as int].account_id@, index)) by {
                        if migrated_pairs(batch, first, n + 1).contains(p) {
                            let x = choose|x: int| 0 <= x < n + 1 && p == (batch[x].account_id@, (first + x) as u32);
                            if x < n {
                                assert(migrated_pairs(batch, first, n as int).contains(p));
                            }
                        }
                        if migrated_pairs(batch, first, n as int).contains(p) {
                            let x = choose|x: int| 0 <= x < n && p == (batch[x].account_id@, (first + x) as u32);
                            assert(migrated_pairs(batch, first, n + 1).contains(p));
                        }
                        if p == (batch[n as int].account_id@, index) {
                            assert(p == (batch[n as int].account_id@, (first + n) as u32));
                            assert(migrated_pairs(batch, first, n + 1).contains(p));
                        }
                    }
                }
            }
            n = n + 1;
        }
        proof {
            assert(batch.skip(n as int).len() == 0);
        }
        Ok(events)
    }
}

/// The principal of a prefix grows by the next jar, and never exceeds the whole.
proof fn lemma_cefi_total_prefix(jars: Seq<CeFiJar>, n: int)
    requires
        0 < n <= jars.len(),
    ensures
        cefi_total(jars.take(n)) == cefi_total(jars.take(n - 1)) + jars[n - 1].principal,
        cefi_total(jars.take(n)) <= cefi_total(jars),
    decreases jars.len(),
{
    assert(jars.take(n).drop_last() =~= jars.take(n - 1));
    if n < jars.len() {
        lemma_cefi_total_prefix(jars.drop_last(), n);
        assert(jars.drop_last().take(n) =~= jars.take(n));
    } else {
        assert(jars.take(n) =~= jars);
    }
}

/// The deposits that the legacy jars of product `q` become, in order.
pub open spec fn legacy_deposits(jars: Seq<Jar>, q: Seq<char>) -> Seq<Deposit>
    decreases jars.len(),
{
    if jars.len() == 0 {
        Seq::empty()
    } else {
        let rest = legacy_deposits(jars.drop_last(), q);
        if jars.last().product_id@ == q {
            rest.push(Deposit { created_at: jars.last().created_at, principal: jars.last().principal })
        } else {
            rest
        }
    }
}

/// What the legacy jars of product `q` have paid out.
pub open spec fn legacy_claimed(jars: Seq<Jar>, q: Seq<char>) -> nat
    decreases jars.len(),
{
    if jars.len() == 0 {
        0
    } else {
        legacy_claimed(jars.drop_last(), q) + if jars.last().product_id@ == q {
            jars.last().claimed_balance as nat
        } else {
            0
        }
    }
}

/// A prefix of the jars has paid out no more than all of them.
proof fn lemma_legacy_claimed_prefix(jars: Seq<Jar>, n: int, q: Seq<char>)
    requires
        0 <= n <= jars.len(),
    ensures
        legacy_claimed(jars.take(n), q) <= legacy_claimed(jars, q),
    decreases jars.len(),
{
    if n == jars.len() {
        assert(jars.take(n) =~= jars);
    } else {
        lemma_legacy_claimed_prefix(jars.drop_last(), n, q);
        assert(jars.drop_last().take(n) =~= jars.take(n));
    }
}

/// The products of legacy jars, each in the place where it first appears.
pub open spec fn product_order(jars: Seq<Jar>) -> Seq<Seq<char>>
    decreases jars.len(),
{
    if jars.len() == 0 {
        Seq::empty()
    } else {
        let before = product_order(jars.drop_last());
        if before.contains(jars.last().product_id@) {
            before
        } else {
            before.push(jars.last().product_id@)
        }
    }
}

/// One more legacy jar adds its product at the end, unless it is there already.
proof fn lemma_product_order_step(jars: Seq<Jar>, i: int)
    requires
        0 <= i < jars.len(),
    ensures
        product_order(jars.take(i + 1)) == if product_order(jars.take(i)).contains(jars[i].product_id@) {
            product_order(jars.take(i))
        } else {
            product_order(jars.take(i)).push(jars[i].product_id@)
        },
{
    assert(jars.take(i + 1).drop_last() =~= jars.take(i));
    assert(jars.take(i + 1).last() == jars[i]);
}

/// Whether `b` is what migration makes of the legacy account `value`: for every
/// product, one jar whose deposits are the legacy jars of that product, with
/// nothing cached, claimed or carried, in the order in which the products first
/// appear, and the penalty of any legacy jar.
pub open spec fn migrated_account(b: AccountV1, value: AccountJars) -> bool {
    &&& b.wf()
    &&& product_ids(b.jars@) == product_order(value.jars@)
    &&& b.is_penalty_applied == exists|i: int| 0 <= i < value.jars@.len() && (#[trigger] value.jars@[i]).is_penalty_applied
    &&& forall|q: Seq<char>|
        #![trigger b.jar_of(q)]
        (b.jar_of(q) is Some <==> legacy_deposits(value.jars@, q).len() > 0) && (b.jar_of(q) matches Some(j) ==> {
            &&& j.deposits@ == legacy_deposits(value.jars@, q)
            &&& j.cache is None
            &&& j.claimed_balance == 0
            &&& !j.is_pending_withdraw
            &&& j.claim_remainder == 0
        })
}

/// The account that a legacy account becomes, and what each of its products has
/// paid out: every legacy jar becomes a deposit into the jar of its product, the
/// last jar id becomes the nonce, and a penalty on any jar applies to the account.
/// An account with a jar in the middle of an operation is refused.
#[verifier::spinoff_prover]
pub fn migrating_account(value: &AccountJars) -> (r: Result<(AccountV1, Vec<(String, u128)>), AccountError>)
    requires
        forall|q: Seq<char>| #[trigger] legacy_claimed(value.jars@, q) <= u128::MAX,
    ensures
        r is Err <==> exists|i: int| 0 <= i < value.jars@.len() && (#[trigger] value.jars@[i]).is_pending_withdraw,
        r is Err ==> r == Err::<(AccountV1, Vec<(String, u128)>), AccountError>(AccountError::JarLocked),
        r matches Ok((account, claimed)) ==> {
            &&& account.wf()
            &&& product_ids(account.jars@) == product_order(value.jars@)
            &&& account.nonce == value.last_id
            &&& account.score == value.score
            &&& account.is_penalty_applied == exists|i: int|
                0 <= i < value.jars@.len() && (#[trigger] value.jars@[i]).is_penalty_applied
            &&& forall|q: Seq<char>|
                #![trigger account.jar_of(q)]
                (account.jar_of(q) is Some <==> legacy_deposits(value.jars@, q).len() > 0) && (account.jar_of(
                    q,
                ) matches Some(j) ==> {
                    &&& j.deposits@ == legacy_deposits(value.jars@, q)
                    &&& j.cache is None
                    &&& j.claimed_balance == 0
                    &&& !j.is_pending_withdraw
                    &&& j.claim_remainder == 0
                })
            &&& forall|i: int, k: int|
                0 <= i < claimed@.len() && 0 <= k < claimed@.len() && i != k ==> claimed@[i].0@ != claimed@[k].0@
            &&& forall|i: int|
                0 <= i < claimed@.len() ==> #[trigger] claimed@[i].1 == legacy_claimed(value.jars@, claimed@[i].0@)
                    && legacy_deposits(value.jars@, claimed@[i].0@).len() > 0
            &&& forall|q: Seq<char>|
                #![trigger legacy_deposits(value.jars@, q)]
                legacy_deposits(value.jars@, q).len() > 0 ==> exists|i: int|
                    0 <= i < claimed@.len() && claimed@[i].0@ == q
        },
{
    let ghost jars = value.jars@;
    let mut i: usize = 0;
    while i < value.jars.len()
        invariant
            i <= jars.len(),
            jars == value.jars@,
            forall|x: int| 0 <= x < i ==> !(#[trigger] jars[x]).is_pending_withdraw,
        decreases jars.len() - i,
    {
        if value.jars[i].is_pending_withdraw {
            return Err(AccountError::JarLocked);
        }
        i = i + 1;
    }
    let mut account = AccountV1::new();
    account.nonce = value.last_id;
    account.score = value.score;
    let mut claimed: Vec<(String, u128)> = Vec::new();
    proof {
        assert(jars.take(0) =~= Seq::<Jar>::empty());
    }
    let mut i: usize = 0;
    while i < value.jars.len()
        invariant
            i <= jars.len(),
            jars == value.jars@,
            forall|q: Seq<char>| #[trigger] legacy_claimed(jars, q) <= u128::MAX,
            account.wf(),
            product_ids(account.jars@) == product_order(jars.take(i as int)),
            account.nonce == value.last_id,
            account.score == value.score,
            account.is_penalty_applied == exists|x: int| 0 <= x < i && (#[trigger] jars[x]).is_penalty_applied,
            forall|q: Seq<char>|
                #![trigger account.jar_of(q)]
                (account.jar_of(q) is Some <==> legacy_deposits(jars.take(i as int), q).len() > 0) && (account.jar_of(
                    q,
                ) matches Some(j) ==> {
                    &&& j.deposits@ == legacy_deposits(jars.take(i as int), q)
                    &&& j.cache is None
                    &&& j.claimed_balance == 0
                    &&& !j.is_pending_withdraw
                    &&& j.claim_remainder == 0
                }),
            forall|x: int, k: int|
                0 <= x < claimed@.len() && 0 <= k < claimed@.len() && x != k ==> claimed@[x].0@ != claimed@[k].0@,
            forall|x: int|
                0 <= x < claimed@.len() ==> #[trigger] claimed@[x].1 == legacy_claimed(jars.take(i as int), claimed@[x].0@)
                    && legacy_deposits(jars.take(i as int), claimed@[x].0@).len() > 0,
            forall|q: Seq<char>|
                #![trigger legacy_deposits(jars.take(i as int), q)]
                legacy_deposits(jars.take(i as int), q).len() > 0 ==> exists|x: int|
                    0 <= x < claimed@.len() && claimed@[x].0@ == q,
        decreases jars.len() - i,
    {
        let jar = &value.jars[i];
        let ghost pid = jar.product_id@;
        let ghost before = jars.take(i as int);
        let ghost after = jars.take(i + 1);
        proof {
            assert(after.drop_last() =~= before);
            assert(after.last() == jars[i as int]);
        }
        let ghost a0 = account;
        account.deposit(&jar.product_id, jar.principal, jar.created_at);
        if !account.is_penalty_applied {
            account.is_penalty_applied = jar.is_penalty_applied;
        }
        proof {
            lemma_ids_after_deposit(a0, account, pid);
            lemma_product_order_step(jars, i as int);
            assert forall|q: Seq<char>|
                #![trigger account.jar_of(q)]
                (account.jar_of(q) is Some <==> legacy_deposits(after, q).len() > 0) && (account.jar_of(q) matches Some(
                    j,
                ) ==> {
                    &&& j.deposits@ == legacy_deposits(after, q)
                    &&& j.cache is None
                    &&& j.claimed_balance == 0
                    &&& !j.is_pending_withdraw
                    &&& j.claim_remainder == 0
                }) by {
                if q == pid {
                    assert(a0.jar_of(q) is Some <==> legacy_deposits(before, q).len() > 0);
                } else {
                    assert(account.jar_of(q) == a0.jar_of(q));
                }
            }
            if account.is_penalty_applied {
                if !a0.is_penalty_applied {
                    assert(jars[i as int].is_penalty_applied);
                }
            }
        }
        // what the product has paid out so far
        let mut k: usize = 0;
        while k < claimed.len() && claimed[k].0 != jar.product_id
            invariant
                k <= claimed@.len(),
                pid == jar.product_id@,
                forall|x: int| 0 <= x < k ==> claimed@[x].0@ != pid,
            decreases claimed@.len() - k,
        {
            k = k + 1;
        }
        let found = k < claimed.len();
        proof {
            lemma_legacy_claimed_prefix(jars, i + 1, pid);
        }
        let ghost c0 = claimed@;
        if found {
            let sum = claimed[k].1 + jar.claimed_balance;
            claimed.set(k, (jar.product_id.clone(), sum));
        } else {
            claimed.push((jar.product_id.clone(), jar.claimed_balance));
        }
        proof {
            assert forall|x: int, y: int|
                0 <= x < claimed@.len() && 0 <= y < claimed@.len() && x != y implies claimed@[x].0@ != claimed@[y].0@ by {
                if found {
                    if x != k && y != k {
                        assert(claimed@[x] == c0[x] && claimed@[y] == c0[y]);
                    } else if x == k {
                        assert(claimed@[y] == c0[y]);
                        assert(c0[k as int].0@ == pid);
                    } else {
                        assert(claimed@[x] == c0[x]);
                        assert(c0[k as int].0@ == pid);
                    }
                } else {
                    if x < c0.len() && y < c0.len() {
                        assert(claimed@[x] == c0[x] && claimed@[y] == c0[y]);
                    } else if x == c0.len() {
                        assert(claimed@[y] == c0[y]);
                    } else {
                        assert(claimed@[x] == c0[x]);
                    }
                }
            }
            assert forall|x: int| 0 <= x < claimed@.len() implies #[trigger] claimed@[x].1 == legacy_claimed(
                after,
                claimed@[x].0@,
            ) && legacy_deposits(after, claimed@[x].0@).len() > 0 by {
                let q = claimed@[x].0@;
                assert(legacy_claimed(after, q) == legacy_claimed(before, q) + if pid == q {
                    jars[i as int].claimed_balance as nat
                } else {
                    0
                });
                assert(legacy_deposits(after, q).len() >= legacy_deposits(before, q).len());
                if found && x == k as int {
                    assert(c0[x].0@ == pid);
                    assert(q == pid);
                    assert(c0[x].1 == legacy_claimed(before, c0[x].0@));
                    assert(claimed@[x].1 == c0[x].1 + jars[i as int].claimed_balance);
                } else if !found && x == c0.len() {
                    assert(q == pid);
                    assert(legacy_claimed(before, pid) == 0) by {
                        if legacy_claimed(before, pid) != 0 {
                            lemma_legacy_claimed_has_deposits(before, pid);
                            let y = choose|y: int| 0 <= y < c0.len() && c0[y].0@ == pid;
                        }
                    }
                } else {
                    assert(claimed@[x] == c0[x]);
                    if found {
                        assert(c0[k as int].0@ == pid);
                        assert(c0[x].0@ != pid);
                    }
                    assert(q != pid);
                    assert(c0[x].1 == legacy_claimed(before, c0[x].0@));
                    assert(legacy_deposits(before, c0[x].0@).len() > 0);
                }
            }
            assert forall|q: Seq<char>|
                #![trigger legacy_deposits(after, q)]
                legacy_deposits(after, q).len() > 0 implies exists|x: int|
                    0 <= x < claimed@.len() && claimed@[x].0@ == q by {
                if q == pid {
                    if found {
                        assert(claimed@[k as int].0@ == q);
                    } else {
                        assert(claimed@[c0.len() as int].0@ == q);
                    }
                } else {
                    assert(legacy_deposits(before, q).len() > 0);
                    let y = choose|y: int| 0 <= y < c0.len() && c0[y].0@ == q;
                    if found && y == k {
                        assert(false);
                    }
                    assert(claimed@[y].0@ == q);
                }
            }
        }
        i = i + 1;
    }
    proof {
        assert(jars.take(jars.len() as int) =~= jars);
    }
    Ok((account, claimed))
}

/// Jars that have paid something out have deposits.
proof fn lemma_legacy_claimed_has_deposits(jars: Seq<Jar>, q: Seq<char>)
    requires
        legacy_claimed(jars, q) != 0,
    ensures
        legacy_deposits(jars, q).len() > 0,
    decreases jars.len(),
{
    if jars.last().product_id@ != q {
        lemma_legacy_claimed_has_deposits(jars.drop_last(), q);
    }
}

/// The product of a legacy jar: the first one with its id.
pub open spec fn jar_product(products: Seq<Product>, jar: Jar) -> Product {
    products[first_product(products, jar.product_id@).unwrap()]
}

/// The principal that legacy jars hold together.
pub open spec fn legacy_principal(jars: Seq<Jar>) -> nat
    decreases jars.len(),
{
    if jars.len() == 0 {
        0
    } else {
        legacy_principal(jars.drop_last()) + jars.last().principal as nat
    }
}

/// Interest `interest` with remainder `remainder`, after `earned` is added to it:
/// whole years of the carried remainders become interest.
pub open spec fn merged_cache(interest: nat, remainder: nat, earned: (nat, nat)) -> (nat, nat) {
    let carried = remainder + earned.1;
    (interest + earned.0 + carried / (MS_IN_YEAR as nat), carried % (MS_IN_YEAR as nat))
}

/// The interest that the legacy jars of product `q` have earned by `now`, added up
/// jar by jar, and the remainder they carry: whole years of remainders become
/// interest.
#[verifier::opaque]
pub open spec fn legacy_cache(
    jars: Seq<Jar>,
    products: Seq<Product>,
    score: (Seq<u16>, u64),
    now: u64,
    q: Seq<char>,
) -> (nat, nat)
    decreases jars.len(),
{
    if jars.len() == 0 {
        (0, 0)
    } else {
        let before = legacy_cache(jars.drop_last(), products, score, now, q);
        let jar = jars.last();
        if jar.product_id@ == q {
            merged_cache(before.0, before.1, jar.interest(score, jar_product(products, jar), now))
        } else {
            before
        }
    }
}

/// Whether a product with id `id` is among `products`.
#[verifier::opaque]
pub open spec fn known_product(products: Seq<Product>, id: Seq<char>) -> bool {
    exists|k: int| 0 <= k < products.len() && products[k].id@ == id
}

/// Why a legacy account cannot move to the next version, if it cannot: the first
/// jar that is in the middle of an operation or whose product is unknown.
pub open spec fn legacy_refusal(jars: Seq<Jar>, products: Seq<Product>) -> Option<ContractError>
    decreases jars.len(),
{
    if jars.len() == 0 {
        None
    } else if jars[0].is_pending_withdraw {
        Some(ContractError::Account(AccountError::JarLocked))
    } else if !known_product(products, jars[0].product_id@) {
        Some(ContractError::ProductNotFound(jars[0].product_id))
    } else {
        legacy_refusal(jars.drop_first(), products)
    }
}

/// A jar that moves without error leaves the rest of the jars to decide.
proof fn lemma_legacy_refusal_step(jars: Seq<Jar>, products: Seq<Product>, i: int)
    requires
        0 <= i < jars.len(),
        !jars[i].is_pending_withdraw,
        known_product(products, jars[i].product_id@),
    ensures
        legacy_refusal(jars.skip(i), products) == legacy_refusal(jars.skip(i + 1), products),
{
    assert(jars.skip(i)[0] == jars[i]);
    assert(jars.skip(i).drop_first() =~= jars.skip(i + 1));
}

/// One more jar adds its interest to that of its product, carrying the remainders.
proof fn lemma_legacy_cache_step(
    jars: Seq<Jar>,
    products: Seq<Product>,
    score: (Seq<u16>, u64),
    now: u64,
    i: int,
    q: Seq<char>,
)
    requires
        0 <= i < jars.len(),
    ensures
        legacy_cache(jars.take(i + 1), products, score, now, q) == if jars[i].product_id@ == q {
            let before = legacy_cache(jars.take(i), products, score, now, q);
            merged_cache(before.0, before.1, jars[i].interest(score, jar_product(products, jars[i]), now))
        } else {
            legacy_cache(jars.take(i), products, score, now, q)
        },
{
    reveal(legacy_cache);
    assert(jars.take(i + 1).drop_last() =~= jars.take(i));
    assert(jars.take(i + 1).last() == jars[i]);
}

/// A prefix of the jars holds no more principal, and has earned no more interest,
/// than all of them; the carried remainder stays below a year.
proof fn lemma_legacy_prefix(
    jars: Seq<Jar>,
    products: Seq<Product>,
    score: (Seq<u16>, u64),
    now: u64,
    n: int,
    q: Seq<char>,
)
    requires
        0 <= n <= jars.len(),
    ensures
        legacy_principal(jars.take(n)) <= legacy_principal(jars),
        legacy_cache(jars.take(n), products, score, now, q).0 <= legacy_cache(jars, products, score, now, q).0,
        legacy_cache(jars, products, score, now, q).1 < MS_IN_YEAR,
    decreases jars.len(),
{
    reveal(legacy_cache);
    if jars.len() > 0 {
        lemma_legacy_prefix(jars.drop_last(), products, score, now, if n == jars.len() { 0 } else { n }, q);
    }
    if n == jars.len() {
        assert(jars.take(n) =~= jars);
    } else {
        assert(jars.drop_last().take(n) =~= jars.take(n));
    }
}

/// Every jar is unlocked and of a known product, or the first that is not refuses
/// the account.
#[verifier::rlimit(60)]
fn check_legacy_jars(jars: &Vec<Jar>, products: &Vec<Product>) -> (r: Result<(), ContractError>)
    ensures
        match legacy_refusal(jars@, products@) {
            Some(e) => r == Err::<(), ContractError>(e),
            None => r is Ok,
        },
        r is Ok ==> forall|x: int|
            0 <= x < jars@.len() ==> !(#[trigger] jars@[x]).is_pending_withdraw && known_product(
                products@,
                jars@[x].product_id@,
            ),
{
    proof {
        assert(jars@.skip(0) =~= jars@);
    }
    let mut i: usize = 0;
    while i < jars.len()
        invariant
            i <= jars@.len(),
            legacy_refusal(jars@, products@) == legacy_refusal(jars@.skip(i as int), products@),
            forall|x: int|
                0 <= x < i ==> !(#[trigger] jars@[x]).is_pending_withdraw && known_product(
                    products@,
                    jars@[x].product_id@,
                ),
        decreases jars@.len() - i,
    {
        proof {
            assert(jars@.skip(i as int)[0] == jars@[i as int]);
        }
        if jars[i].is_pending_withdraw {
            return Err(ContractError::Account(AccountError::JarLocked));
        }
        match find_legacy_product(products, &jars[i].product_id) {
            None => {
                proof {
                    reveal(known_product);
                }
                return Err(ContractError::ProductNotFound(jars[i].product_id.clone()));
            },
            Some(k) => {
                proof {
                    reveal(known_product);
                    assert(products@[k as int].id@ == jars@[i as int].product_id@);
                }
            },
        }
        proof {
            lemma_legacy_refusal_step(jars@, products@, i as int);
        }
        i = i + 1;
    }
    proof {
        assert(jars@.skip(jars@.len() as int).len() == 0);
    }
    Ok(())
}

/// Whether an account holds, for every product `q`, the deposits of the legacy
/// jars of `q` with their interest cached at `now`, and no jar for a product
/// without legacy jars.
pub open spec fn holds_legacy_jars(
    account: AccountV1,
    jars: Seq<Jar>,
    products: Seq<Product>,
    score: (Seq<u16>, u64),
    now: u64,
) -> bool {
    forall|q: Seq<char>|
        #![trigger account.jar_of(q)]
        (account.jar_of(q) is Some <==> legacy_deposits(jars, q).len() > 0) && (account.jar_of(q) matches Some(j) ==> {
            let cache = legacy_cache(jars, products, score, now, q);
            &&& j.deposits@ == legacy_deposits(jars, q)
            &&& j.cache == Some(JarCache { updated_at: now, interest: cache.0 as u128 })
            &&& j.claim_remainder == cache.1
            &&& j.claimed_balance == 0
            &&& !j.is_pending_withdraw
        })
}

/// The cached interest and remainder of a jar, or nothing for no jar.
pub open spec fn cache_of(jar: Option<JarV2>) -> (nat, nat) {
    match jar {
        Some(j) => (
            match j.cache {
                Some(c) => c.interest as nat,
                None => 0,
            },
            j.claim_remainder as nat,
        ),
        None => (0, 0),
    }
}

/// `after` is `before` with the legacy `jar` moved in: its principal is a deposit
/// into the jar of its product, whose cache at `now` gained the jar's interest;
/// the jars of other products are as they were.
pub open spec fn merged_into(
    before: AccountV1,
    after: AccountV1,
    jar: Jar,
    product: Product,
    score: (Seq<u16>, u64),
    now: u64,
) -> bool {
    &&& forall|q: Seq<char>| q != jar.product_id@ ==> #[trigger] after.jar_of(q) == before.jar_of(q)
    &&& after.jar_of(jar.product_id@) matches Some(j) && {
        let old_cache = cache_of(before.jar_of(jar.product_id@));
        let merged = merged_cache(old_cache.0, old_cache.1, jar.interest(score, product, now));
        &&& j.cache == Some(JarCache { updated_at: now, interest: merged.0 as u128 })
        &&& j.claim_remainder == merged.1
        &&& match before.jar_of(jar.product_id@) {
            Some(o) => {
                &&& j.deposits@ == o.deposits@.push(Deposit { created_at: jar.created_at, principal: jar.principal })
                &&& j.claimed_balance == o.claimed_balance
                &&& j.is_pending_withdraw == o.is_pending_withdraw
            },
            None => {
                &&& j.deposits@ == seq![Deposit { created_at: jar.created_at, principal: jar.principal }]
                &&& j.claimed_balance == 0
                &&& !j.is_pending_withdraw
            },
        }
    }
}

/// Moving the next legacy jar into an account that holds the jars before it
/// gives an account that holds them all.
proof fn lemma_holds_after_merge(
    before: AccountV1,
    after: AccountV1,
    jars: Seq<Jar>,
    products: Seq<Product>,
    score: (Seq<u16>, u64),
    now: u64,
    i: int,
)
    requires
        0 <= i < jars.len(),
        holds_legacy_jars(before, jars.take(i), products, score, now),
        forall|q: Seq<char>|
            #[trigger] before.jar_of(q) is None ==> legacy_cache(jars.take(i), products, score, now, q) == (0nat, 0nat),
        merged_into(before, after, jars[i], jar_product(products, jars[i]), score, now),
        legacy_cache(jars.take(i + 1), products, score, now, jars[i].product_id@).0 <= u128::MAX,
    ensures
        holds_legacy_jars(after, jars.take(i + 1), products, score, now),
        forall|q: Seq<char>|
            #[trigger] after.jar_of(q) is None ==> legacy_cache(jars.take(i + 1), products, score, now, q) == (
                0nat,
                0nat,
            ),
{
    let pid = jars[i].product_id@;
    let prefix = jars.take(i);
    let next = jars.take(i + 1);
    assert(next.drop_last() =~= prefix);
    assert(next.last() == jars[i]);
    assert forall|q: Seq<char>|
        #![trigger after.jar_of(q)]
        (after.jar_of(q) is Some <==> legacy_deposits(next, q).len() > 0) && (after.jar_of(q) matches Some(j) ==> {
            let cache = legacy_cache(next, products, score, now, q);
            &&& j.deposits@ == legacy_deposits(next, q)
            &&& j.cache == Some(JarCache { updated_at: now, interest: cache.0 as u128 })
            &&& j.claim_remainder == cache.1
            &&& j.claimed_balance == 0
            &&& !j.is_pending_withdraw
        }) && (after.jar_of(q) is None ==> legacy_cache(next, products, score, now, q) == (0nat, 0nat)) by {
        lemma_legacy_cache_step(jars, products, score, now, i, q);
        if q == pid {
            assert(before.jar_of(q) is Some <==> legacy_deposits(prefix, q).len() > 0);
            if before.jar_of(q) is None {
                assert(legacy_cache(prefix, products, score, now, q) == (0nat, 0nat));
            }
            assert(cache_of(before.jar_of(q)) == legacy_cache(prefix, products, score, now, q));
        } else {
            assert(after.jar_of(q) == before.jar_of(q));
        }
    }
}

/// The legacy jars can be moved within the machine integers: their principal, the
/// interest of each jar of a known product, and each product's interest together.
#[verifier::opaque]
pub open spec fn legacy_jars_fit(jars: Seq<Jar>, products: Seq<Product>, score: (Seq<u16>, u64), now: u64) -> bool {
    &&& legacy_principal(jars) <= u128::MAX
    &&& forall|i: int|
        0 <= i < jars.len() && known_product(products, jars[i].product_id@) ==> (#[trigger] jars[i]).interest_fits(
            score,
            jar_product(products, jars[i]),
            now,
        )
    &&& forall|q: Seq<char>| #[trigger] legacy_cache(jars, products, score, now, q).0 <= u128::MAX
}

/// What `legacy_jars_fit` says of one jar.
proof fn lemma_legacy_jar_fits(jars: Seq<Jar>, products: Seq<Product>, score: (Seq<u16>, u64), now: u64, i: int)
    requires
        legacy_jars_fit(jars, products, score, now),
        0 <= i < jars.len(),
        known_product(products, jars[i].product_id@),
    ensures
        legacy_principal(jars) <= u128::MAX,
        jars[i].interest_fits(score, jar_product(products, jars[i]), now),
        legacy_cache(jars, products, score, now, jars[i].product_id@).0 <= u128::MAX,
{
    reveal(legacy_jars_fit);
}

/// Moves one legacy jar into the account: its principal becomes a deposit into
/// the jar of its product, whose cache at `now` gains the interest the legacy jar
/// earned, and its penalty applies to the account.
fn merge_legacy_jar(account: &mut AccountV1, jar: &Jar, product: &Product, score: &ScoreRecord, now: u64)
    requires
        old(account).wf(),
        jar.interest_fits(score@, *product, now),
        cache_of(old(account).jar_of(jar.product_id@)).1 < MS_IN_YEAR,
        merged_cache(
            cache_of(old(account).jar_of(jar.product_id@)).0,
            cache_of(old(account).jar_of(jar.product_id@)).1,
            jar.interest(score@, *product, now),
        ).0 <= u128::MAX,
    ensures
        final(account).wf(),
        final(account).nonce == old(account).nonce,
        final(account).score == old(account).score,
        final(account).is_penalty_applied == (old(account).is_penalty_applied || jar.is_penalty_applied),
        merged_into(*old(account), *final(account), *jar, *product, score@, now),
        product_ids(final(account).jars@) == if product_ids(old(account).jars@).contains(jar.product_id@) {
            product_ids(old(account).jars@)
        } else {
            product_ids(old(account).jars@).push(jar.product_id@)
        },
{
    let ghost pid = jar.product_id@;
    let ghost a0 = *account;
    account.deposit(&jar.product_id, jar.principal, jar.created_at);
    proof {
        lemma_ids_after_deposit(a0, *account, pid);
    }
    if !account.is_penalty_applied {
        account.is_penalty_applied = jar.is_penalty_applied;
    }
    let (earned, earned_remainder) = jar.get_interest(score, product, now);
    let (cached, carried_before) = match account.get_jar(&jar.product_id) {
        Ok(j) => (
            match j.cache {
                Some(c) => c.interest,
                None => 0,
            },
            j.claim_remainder,
        ),
        Err(_) => (0, 0),
    };
    proof {
        assert(jar.interest(score@, *product, now).1 < MS_IN_YEAR);
        assert(cache_of(account.jar_of(pid)) == cache_of(a0.jar_of(pid)));
    }
    let carried = carried_before + earned_remainder;
    let interest = cached + earned + (carried / MS_IN_YEAR) as u128;
    let ghost a1 = *account;
    let _ = account.update_jar_cache(&jar.product_id, interest, carried % MS_IN_YEAR, now);
    proof {
        let k = jar_position(a1.jars@, pid).unwrap();
        lemma_jar_replaced(a1, *account, k);
        assert(product_ids(account.jars@) =~= product_ids(a1.jars@));
    }
}

/// The account that a legacy account becomes in the next version of the contract,
/// and the principal it moves there: every legacy jar becomes a deposit into the
/// jar of its product, whose cache holds the interest that the product's legacy
/// jars earned by `now` on `score`; the account starts with nonce zero and the
/// migrated score, and a penalty on any jar applies to it. An account with a jar
/// in the middle of an operation, or with a jar of an unknown product, is refused.
#[verifier::rlimit(60)]
#[verifier::spinoff_prover]
pub fn map_legacy_account_with_score(
    value: &AccountJars,
    products: &Vec<Product>,
    migrated_score: AccountScore,
    score: &ScoreRecord,
    now: u64,
) -> (r: Result<(AccountV1, u128), ContractError>)
    requires
        legacy_jars_fit(value.jars@, products@, score@, now),
    ensures
        match legacy_refusal(value.jars@, products@) {
            Some(e) => r == Err::<(AccountV1, u128), ContractError>(e),
            None => r matches Ok((account, total)) && {
                &&& account.wf()
                &&& account.nonce == 0
                &&& account.score == migrated_score
                &&& account.is_penalty_applied == exists|i: int|
                    0 <= i < value.jars@.len() && (#[trigger] value.jars@[i]).is_penalty_applied
                &&& total == legacy_principal(value.jars@)
                &&& product_ids(account.jars@) == product_order(value.jars@)
                &&& holds_legacy_jars(account, value.jars@, products@, score@, now)
            },
        },
{
    match check_legacy_jars(&value.jars, products) {
        Err(e) => return Err(e),
        Ok(()) => {},
    }
    let ghost jars = value.jars@;
    let ghost ps = products@;
    let mut account = AccountV1::new();
    account.score = migrated_score;
    let mut total: u128 = 0;
    proof {
        assert(jars.take(0) =~= Seq::<Jar>::empty());
        assert forall|q: Seq<char>| legacy_cache(jars.take(0), ps, score@, now, q) == (0nat, 0nat) by {
            reveal(legacy_cache);
        }
    }
    let mut i: usize = 0;
    while i < value.jars.len()
        invariant
            i <= jars.len(),
            jars == value.jars@,
            ps == products@,
            legacy_jars_fit(jars, ps, score@, now),
            forall|x: int|
                0 <= x < jars.len() ==> !(#[trigger] jars[x]).is_pending_withdraw && known_product(ps, jars[x].product_id@),
            account.wf(),
            account.nonce == 0,
            account.score == migrated_score,
            total == legacy_principal(jars.take(i as int)),
            account.is_penalty_applied == exists|x: int| 0 <= x < i && (#[trigger] jars[x]).is_penalty_applied,
            holds_legacy_jars(account, jars.take(i as int), ps, score@, now),
            product_ids(account.jars@) == product_order(jars.take(i as int)),
            forall|q: Seq<char>|
                #[trigger] account.jar_of(q) is None ==> legacy_cache(jars.take(i as int), ps, score@, now, q) == (
                    0nat,
                    0nat,
                ),
        decreases jars.len() - i,
    {
        let jar = &value.jars[i];
        let ghost pid = jar.product_id@;
        let ghost before = jars.take(i as int);
        let ghost after = jars.take(i + 1);
        proof {
            assert(known_product(ps, pid));
            reveal(known_product);
        }
        let pi = find_legacy_product(products, &jar.product_id).unwrap();
        proof {
            lemma_legacy_jar_fits(jars, ps, score@, now, i as int);
            assert(after.drop_last() =~= before);
            assert(after.last() == jars[i as int]);
            lemma_legacy_prefix(jars, ps, score@, now, i + 1, pid);
            lemma_legacy_prefix(before, ps, score@, now, 0, pid);
            lemma_legacy_cache_step(jars, ps, score@, now, i as int, pid);
            assert(legacy_principal(after) == legacy_principal(before) + jars[i as int].principal);
            assert(jar_product(ps, jars[i as int]) == products@[pi as int]);
            assert(cache_of(account.jar_of(pid)) == legacy_cache(before, ps, score@, now, pid));
        }
        let ghost a0 = account;
        merge_legacy_jar(&mut account, jar, &products[pi], score, now);
        proof {
            if account.is_penalty_applied {
                if !a0.is_penalty_applied {
                    assert(jars[i as int].is_penalty_applied);
                }
            }
            lemma_holds_after_merge(a0, account, jars, ps, score@, now, i as int);
            lemma_product_order_step(jars, i as int);
        }
        total = total + jar.principal;
        i = i + 1;
    }
    proof {
        assert(jars.take(jars.len() as int) =~= jars);
    }
    Ok((account, total))
}

/// The jars of the accounts, as each earlier layout of the contract stored them:
/// accounts of the first layout, accounts stored without a version, and versioned
/// accounts.
pub struct LegacyJarStores {
    pub account_jars_v1: Vec<(String, AccountJars)>,
    pub account_jars_non_versioned: Vec<(String, AccountJars)>,
    pub accounts: Vec<(String, AccountJarsVersioned)>,
}

/// The jars that `store` holds for `account_id`: the first entry under that id.
pub open spec fn stored_jars(store: Seq<(String, AccountJars)>, account_id: Seq<char>) -> Option<AccountJars> {
    if exists|i: int| 0 <= i < store.len() && store[i].0@ == account_id {
        Some(
            store[choose|i: int|
                0 <= i < store.len() && store[i].0@ == account_id && forall|k: int|
                    0 <= k < i ==> store[k].0@ != account_id].1,
        )
    } else {
        None
    }
}

/// The versioned account that `store` holds for `account_id`: the first entry under that id.
pub open spec fn stored_account(store: Seq<(String, AccountJarsVersioned)>, account_id: Seq<char>) -> Option<
    AccountJars,
> {
    if exists|i: int| 0 <= i < store.len() && store[i].0@ == account_id {
        Some(
            store[choose|i: int|
                0 <= i < store.len() && store[i].0@ == account_id && forall|k: int|
                    0 <= k < i ==> store[k].0@ != account_id].1.inner(),
        )
    } else {
        None
    }
}

/// The jar `jar_id` among `jars`, or why there is none.
pub open spec fn jar_in(jars: AccountJars, jar_id: u32) -> Result<Jar, JarsError> {
    match first_jar(jars.jars@, jar_id) {
        Some(k) => Ok(jars.jars@[k]),
        None => Err(JarsError::JarNotFound(jar_id)),
    }
}

/// The position of the first entry of `store` under `account_id`.
pub fn find_stored(store: &Vec<(String, AccountJars)>, account_id: &String) -> (r: Option<usize>)
    ensures
        match stored_jars(store@, account_id@) {
            Some(a) => r matches Some(i) && i < store@.len() && store@[i as int].1 == a,
            None => r is None,
        },
{
    let mut i: usize = 0;
    while i < store.len()
        invariant
            i <= store@.len(),
            forall|k: int| 0 <= k < i ==> store@[k].0@ != account_id@,
        decreases store@.len() - i,
    {
        if store[i].0 == *account_id {
            proof {
                let c = choose|c: int|
                    0 <= c < store@.len() && store@[c].0@ == account_id@ && forall|k: int|
                        0 <= k < c ==> store@[k].0@ != account_id@;
                assert(c == i) by {
                    if c < i {
                        assert(store@[c].0@ != account_id@);
                    } else if c > i {
                        assert(store@[i as int].0@ != account_id@);
                    }
                }
            }
            return Some(i);
        }
        i = i + 1;
    }
    None
}

/// The position of the first versioned account of `store` under `account_id`.
fn find_stored_account(store: &Vec<(String, AccountJarsVersioned)>, account_id: &String) -> (r: Option<usize>)
    ensures
        match stored_account(store@, account_id@) {
            Some(a) => r matches Some(i) && i < store@.len() && store@[i as int].1.inner() == a,
            None => r is None,
        },
{
    let mut i: usize = 0;
    while i < store.len()
        invariant
            i <= store@.len(),
            forall|k: int| 0 <= k < i ==> store@[k].0@ != account_id@,
        decreases store@.len() - i,
    {
        if store[i].0 == *account_id {
            proof {
                let c = choose|c: int|
                    0 <= c < store@.len() && store@[c].0@ == account_id@ && forall|k: int|
                        0 <= k < c ==> store@[k].0@ != account_id@;
                assert(c == i) by {
                    if c < i {
                        assert(store@[c].0@ != account_id@);
                    } else if c > i {
                        assert(store@[i as int].0@ != account_id@);
                    }
                }
            }
            return Some(i);
        }
        i = i + 1;
    }
    None
}

impl LegacyJarStores {
    /// The jar `jar_id` of `account_id`, from the first store that holds the
    /// account: the first layout's, then the unversioned one, then the versioned
    /// accounts. A store that holds the account without that jar answers that the
    /// jar is missing; an account that no store holds is missing.
    pub fn get_jar_internal(&self, account_id: &String, jar_id: u32) -> (r: Result<Jar, JarsError>)
        ensures
            r == match stored_jars(self.account_jars_v1@, account_id@) {
                Some(jars) => jar_in(jars, jar_id),
                None => match stored_jars(self.account_jars_non_versioned@, account_id@) {
                    Some(jars) => jar_in(jars, jar_id),
                    None => match stored_account(self.accounts@, account_id@) {
                        Some(jars) => jar_in(jars, jar_id),
                        None => Err(JarsError::AccountNotFound(*account_id)),
                    },
                },
            },
    {
        let jars = match find_stored(&self.account_jars_v1, account_id) {
            Some(i) => &self.account_jars_v1[i].1,
            None => match find_stored(&self.account_jars_non_versioned, account_id) {
                Some(i) => &self.account_jars_non_versioned[i].1,
                None => match find_stored_account(&self.accounts, account_id) {
                    Some(i) => self.accounts[i].1.account(),
                    None => return Err(JarsError::AccountNotFound(account_id.clone())),
                },
            },
        };
        match jars.get_jar(jar_id) {
            Ok(jar) => Ok(jar.clone_jar()),
            Err(e) => Err(e),
        }
    }
}

} // verus!
