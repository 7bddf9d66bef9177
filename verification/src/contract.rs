use vstd::prelude::*;

use crate::account::{AccountJars, AccountScore};
use crate::account_v2::{jar_position, lemma_same_products, AccountError, AccountV1, ProductJar};
use crate::jar_v2::{deposits_before, deposits_sorted, Deposit, JarV2};
use crate::product::{ProductError, PUBLIC_KEY_LENGTH};
use crate::product_v2::{ProductV2, Terms};
use crate::restake::RestakeError;
use crate::signature::{
    bytes_view, ed25519_public_key_is_valid, ed25519_public_key_valid, get_signature_material,
    signature_material, ticket_check, verify_ticket, TicketError,
};

verus! {

/// An account of the contract.
#[derive(Clone, Debug)]
pub struct AccountEntry {
    pub account_id: String,
    pub account: AccountV1,
}

/// The state of the jar service: the products, the accounts and their jars, and
/// the fees collected.
#[derive(Clone, Debug)]
pub struct Contract {
    /// The fungible token that jars hold.
    pub token_account_id: String,
    /// Where fees go.
    pub fee_account_id: String,
    pub products: Vec<ProductV2>,
    pub accounts: Vec<AccountEntry>,
    pub fee_amount: u128,
    /// The only account that may migrate data into this one.
    pub previous_version_account_id: String,
    /// The accounts that an earlier version of the contract kept, under their ids,
    /// in the layout it kept them in.
    pub archive: Vec<(String, AccountJars)>,
}

/// A request to deposit into a product.
#[derive(Clone, Debug)]
pub struct DepositTicket {
    pub product_id: String,
    /// Milliseconds since the Unix epoch after which the ticket is refused.
    pub valid_until: u64,
    /// The user's timezone, needed for a first score-based jar.
    pub timezone: Option<i64>,
}

/// Why the contract refuses an operation.
#[derive(Clone, Debug, PartialEq, Eq)]
pub enum ContractError {
    ProductNotFound(String),
    AccountNotFound(String),
    Product(ProductError),
    Ticket(TicketError),
    Account(AccountError),
    Restake(RestakeError),
    Score(crate::score::ScoreError),
    /// Only the previous version of the contract may migrate data into this one.
    MigrationNotAllowed,
}

/// No two products share an id.
pub open spec fn unique_product_ids(products: Seq<ProductV2>) -> bool {
    forall|i: int, j: int|
        0 <= i < products.len() && 0 <= j < products.len() && i != j ==> products[i].id@ != products[j].id@
}

/// No two accounts share an id.
pub open spec fn unique_account_ids(accounts: Seq<AccountEntry>) -> bool {
    forall|i: int, j: int|
        0 <= i < accounts.len() && 0 <= j < accounts.len() && i != j ==> accounts[i].account_id@
            != accounts[j].account_id@
}

/// The position of the product with id `id`.
pub open spec fn product_position(products: Seq<ProductV2>, id: Seq<char>) -> Option<int> {
    if exists|i: int| 0 <= i < products.len() && products[i].id@ == id {
        Some(choose|i: int| 0 <= i < products.len() && products[i].id@ == id)
    } else {
        None
    }
}

/// The position of the account with id `id`.
pub open spec fn account_position(accounts: Seq<AccountEntry>, id: Seq<char>) -> Option<int> {
    if exists|i: int| 0 <= i < accounts.len() && accounts[i].account_id@ == id {
        Some(choose|i: int| 0 <= i < accounts.len() && accounts[i].account_id@ == id)
    } else {
        None
    }
}

/// `after` differs from `before` only in the account at position `i`, whose id stays.
pub open spec fn account_replaced(before: Contract, after: Contract, i: int) -> bool {
    &&& 0 <= i < before.accounts@.len()
    &&& after.accounts@.len() == before.accounts@.len()
    &&& after.accounts@[i].account_id == before.accounts@[i].account_id
    &&& forall|x: int| 0 <= x < before.accounts@.len() && x != i ==> after.accounts@[x] == before.accounts@[x]
    &&& after.products == before.products
}

/// Replacing one account by a well-formed one whose jars belong to registered
/// products and hold ordered deposits made by `now` keeps the contract well formed
/// and leaves the other accounts and the products as they were.
#[verifier::spinoff_prover]
pub proof fn lemma_account_replaced(before: Contract, after: Contract, i: int, now: u64)
    requires
        before.wf(),
        before.all_before(now),
        account_replaced(before, after, i),
        after.accounts@[i].account.wf(),
        after.jars_ok(after.accounts@[i].account, now),
    ensures
        after.wf(),
        after.all_before(now),
        account_position(before.accounts@, before.accounts@[i].account_id@) == Some(i),
        account_position(after.accounts@, before.accounts@[i].account_id@) == Some(i),
        before.account(before.accounts@[i].account_id@) == Some(before.accounts@[i].account),
        after.account(before.accounts@[i].account_id@) == Some(after.accounts@[i].account),
        forall|q: Seq<char>| q != before.accounts@[i].account_id@ ==> #[trigger] after.account(q) == before.account(q),
        forall|q: Seq<char>| #[trigger] after.product(q) == before.product(q),
{
    let id = before.accounts@[i].account_id@;
    let b = before.accounts@;
    let a = after.accounts@;
    assert forall|x: int, y: int| 0 <= x < a.len() && 0 <= y < a.len() && x != y implies a[x].account_id@
        != a[y].account_id@ by {
        assert(a[x].account_id == b[x].account_id);
        assert(a[y].account_id == b[y].account_id);
    }
    assert(account_position(b, id) == Some(i)) by {
        let c = choose|k: int| 0 <= k < b.len() && b[k].account_id@ == id;
        assert(c == i);
    }
    assert(account_position(a, id) == Some(i)) by {
        assert(a[i].account_id@ == id);
        let c = choose|k: int| 0 <= k < a.len() && a[k].account_id@ == id;
        assert(c == i);
    }
    assert forall|x: int| 0 <= x < a.len() implies (#[trigger] a[x]).account.wf() by {
        if x != i {
            assert(a[x] == b[x]);
        }
    }
    assert forall|x: int, j: int| 0 <= x < a.len() && 0 <= j < a[x].account.jars@.len() implies {
        &&& product_position(after.products@, a[x].account.jars@[j].product_id@) is Some
        &&& deposits_sorted(a[x].account.jars@[j].jar.deposits@)
        &&& deposits_before(a[x].account.jars@[j].jar.deposits@, now)
    } by {
        if x != i {
            assert(a[x] == b[x]);
            assert(product_position(before.products@, b[x].account.jars@[j].product_id@) is Some);
            assert(deposits_sorted(b[x].account.jars@[j].jar.deposits@));
            assert(deposits_before(b[x].account.jars@[j].jar.deposits@, now));
        } else {
            assert(product_position(after.products@, a[i].account.jars@[j].product_id@) is Some);
        }
    }
    assert(after.wf());
    assert(after.all_before(now));
    assert forall|q: Seq<char>| q != id implies #[trigger] after.account(q) == before.account(q) by {
        if exists|k: int| 0 <= k < b.len() && b[k].account_id@ == q {
            let k = choose|k: int| 0 <= k < b.len() && b[k].account_id@ == q;
            assert(k != i);
            assert(a[k].account_id@ == q);
            let c = choose|m: int| 0 <= m < a.len() && a[m].account_id@ == q;
            assert(c == k);
        } else {
            if exists|k: int| 0 <= k < a.len() && a[k].account_id@ == q {
                let k = choose|k: int| 0 <= k < a.len() && a[k].account_id@ == q;
                assert(k != i);
                assert(b[k].account_id@ == q);
            }
        }
    }
}

/// Why `product` cannot join `products`, if it cannot: its id is taken, a
/// score-based product has no public key, its fee can exceed what it holds, its
/// cap is inverted, or its public key is malformed.
pub open spec fn registration_error_in(products: Seq<ProductV2>, product: ProductV2) -> Option<ProductError> {
    if product_position(products, product.id@) is Some {
        Some(ProductError::AlreadyExists)
    } else if product.terms is ScoreBased && product.public_key is None {
        Some(ProductError::ScoreProductUnprotected)
    } else if !product.fee_ok() {
        Some(ProductError::FeeTooHigh)
    } else if !(product.cap.min < product.cap.max) {
        Some(ProductError::CapOrder)
    } else if !product.public_key_ok() {
        Some(
            if product.public_key.unwrap()@.len() != PUBLIC_KEY_LENGTH {
                ProductError::PublicKeyLength
            } else {
                ProductError::PublicKeyInvalid
            },
        )
    } else {
        None
    }
}

/// Why `product`, moved over from the previous version, cannot join `products`,
/// if it cannot: its id is taken, a score-based product has no public key, its
/// fee can exceed what it holds, its cap is inverted, or one of its decimals has
/// an exponent out of range. Its public key is taken as it comes.
pub open spec fn migration_error_in(products: Seq<ProductV2>, product: ProductV2) -> Option<ProductError> {
    if product_position(products, product.id@) is Some {
        Some(ProductError::AlreadyExists)
    } else if product.terms is ScoreBased && product.public_key is None {
        Some(ProductError::ScoreProductUnprotected)
    } else if !product.fee_ok() {
        Some(ProductError::FeeTooHigh)
    } else if !(product.cap.min < product.cap.max) {
        Some(ProductError::CapOrder)
    } else if !product.exponents_in_range() {
        Some(ProductError::ExponentOutOfRange)
    } else {
        None
    }
}

/// The first reason, in order, for which a batch of migrated products cannot
/// join `products` one after the other.
pub open spec fn batch_error(products: Seq<ProductV2>, batch: Seq<ProductV2>) -> Option<ProductError>
    decreases batch.len(),
{
    if batch.len() == 0 {
        None
    } else {
        match migration_error_in(products, batch[0]) {
            Some(e) => Some(e),
            None => batch_error(products.push(batch[0]), batch.drop_first()),
        }
    }
}

/// Why a batch of migrated products sent by `caller` is refused, if it is: the
/// caller is not the previous version of the contract, or a product cannot join.
pub open spec fn migration_refusal(c: Contract, caller: Seq<char>, batch: Seq<ProductV2>) -> Option<ContractError> {
    if caller != c.previous_version_account_id@ {
        Some(ContractError::MigrationNotAllowed)
    } else {
        match batch_error(c.products@, batch) {
            Some(e) => Some(ContractError::Product(e)),
            None => None,
        }
    }
}

/// A batch that joins one product at a time keeps the ids unique.
pub proof fn lemma_batch_unique(products: Seq<ProductV2>, batch: Seq<ProductV2>)
    requires
        unique_product_ids(products),
        batch_error(products, batch) is None,
    ensures
        unique_product_ids(products + batch),
    decreases batch.len(),
{
    if batch.len() > 0 {
        let next = products.push(batch[0]);
        assert(unique_product_ids(next)) by {
            assert forall|i: int, j: int|
                0 <= i < next.len() && 0 <= j < next.len() && i != j implies next[i].id@ != next[j].id@ by {
                if i == products.len() && j < products.len() {
                    assert(products[j].id@ == next[j].id@);
                } else if j == products.len() && i < products.len() {
                    assert(products[i].id@ == next[i].id@);
                }
            }
        }
        lemma_batch_unique(next, batch.drop_first());
        assert(next + batch.drop_first() =~= products + batch);
    }
}

/// Skipping past a prefix that joins without error leaves the rest of the batch.
pub proof fn lemma_batch_step(products: Seq<ProductV2>, batch: Seq<ProductV2>, i: int)
    requires
        0 <= i < batch.len(),
        migration_error_in(products + batch.take(i), batch[i]) is None,
    ensures
        batch_error(products + batch.take(i), batch.skip(i)) == batch_error(
            products + batch.take(i + 1),
            batch.skip(i + 1),
        ),
{
    let rest = batch.skip(i);
    assert(rest[0] == batch[i]);
    assert((products + batch.take(i)).push(batch[i]) =~= products + batch.take(i + 1));
    assert(rest.drop_first() =~= batch.skip(i + 1));
}

/// Whether one of the first `n` products has id `id`.
fn id_among(products: &Vec<ProductV2>, n: usize, id: &String) -> (b: bool)
    requires
        n <= products@.len(),
    ensures
        b == exists|k: int| 0 <= k < n && products@[k].id@ == id@,
{
    let mut k: usize = 0;
    while k < n
        invariant
            k <= n <= products@.len(),
            forall|m: int| 0 <= m < k ==> products@[m].id@ != id@,
        decreases n - k,
    {
        if products[k].id == *id {
            return true;
        }
        k = k + 1;
    }
    false
}

/// A product is registered in a concatenation exactly when it is registered in
/// one of its parts.
pub proof fn lemma_position_concat(a: Seq<ProductV2>, b: Seq<ProductV2>, id: Seq<char>)
    ensures
        product_position(a + b, id) is Some <==> (product_position(a, id) is Some || exists|k: int|
            0 <= k < b.len() && b[k].id@ == id),
{
    let c = a + b;
    if product_position(a, id) is Some {
        let k = choose|k: int| 0 <= k < a.len() && a[k].id@ == id;
        assert(c[k] == a[k]);
    }
    if exists|k: int| 0 <= k < b.len() && b[k].id@ == id {
        let k = choose|k: int| 0 <= k < b.len() && b[k].id@ == id;
        assert(c[a.len() + k] == b[k]);
    }
    if product_position(c, id) is Some {
        let k = choose|k: int| 0 <= k < c.len() && c[k].id@ == id;
        if k < a.len() {
            assert(a[k] == c[k]);
        } else {
            assert(b[k - a.len()] == c[k]);
        }
    }
}

impl Contract {
    /// Ids are unique, every jar belongs to a registered product, and deposits are
    /// kept in order.
    pub open spec fn wf(&self) -> bool {
        &&& unique_product_ids(self.products@)
        &&& unique_account_ids(self.accounts@)
        &&& forall|i: int| 0 <= i < self.accounts@.len() ==> (#[trigger] self.accounts@[i]).account.wf()
        &&& forall|i: int, j: int|
            0 <= i < self.accounts@.len() && 0 <= j < self.accounts@[i].account.jars@.len()
                ==> product_position(self.products@, #[trigger] self.accounts@[i].account.jars@[j].product_id@)
                is Some
        &&& forall|i: int, j: int|
            0 <= i < self.accounts@.len() && 0 <= j < self.accounts@[i].account.jars@.len()
                ==> deposits_sorted(#[trigger] self.accounts@[i].account.jars@[j].jar.deposits@)
    }

    /// No deposit was made after `now`: time does not run backwards.
    pub open spec fn all_before(&self, now: u64) -> bool {
        forall|i: int, j: int|
            0 <= i < self.accounts@.len() && 0 <= j < self.accounts@[i].account.jars@.len()
                ==> deposits_before(#[trigger] self.accounts@[i].account.jars@[j].jar.deposits@, now)
    }

    /// The jars of an account belong to registered products and keep their deposits
    /// in order, all made by `now`.
    pub open spec fn jars_ok(&self, a: AccountV1, now: u64) -> bool {
        forall|j: int|
            0 <= j < a.jars@.len() ==> {
                &&& product_position(self.products@, #[trigger] a.jars@[j].product_id@) is Some
                &&& deposits_sorted(a.jars@[j].jar.deposits@)
                &&& deposits_before(a.jars@[j].jar.deposits@, now)
            }
    }

    pub open spec fn product(&self, id: Seq<char>) -> Option<ProductV2> {
        match product_position(self.products@, id) {
            Some(i) => Some(self.products@[i]),
            None => None,
        }
    }

    pub open spec fn account(&self, id: Seq<char>) -> Option<AccountV1> {
        match account_position(self.accounts@, id) {
            Some(i) => Some(self.accounts@[i].account),
            None => None,
        }
    }

    /// An empty contract with no fees collected.
    pub fn new(
        token_account_id: String,
        fee_account_id: String,
        previous_version_account_id: String,
    ) -> (c: Contract)
        ensures
            c.wf(),
            c.token_account_id == token_account_id,
            c.fee_account_id == fee_account_id,
            c.previous_version_account_id == previous_version_account_id,
            c.products@ == Seq::<ProductV2>::empty(),
            c.accounts@ == Seq::<AccountEntry>::empty(),
            c.fee_amount == 0,
            c.archive@ == Seq::<(String, AccountJars)>::empty(),
    {
        Contract {
            token_account_id,
            fee_account_id,
            products: Vec::new(),
            accounts: Vec::new(),
            fee_amount: 0,
            previous_version_account_id,
            archive: Vec::new(),
        }
    }

    /// The position of the product `id`.
    pub fn find_product(&self, id: &String) -> (r: Option<usize>)
        requires
            unique_product_ids(self.products@),
        ensures
            r matches Some(i) ==> product_position(self.products@, id@) == Some(i as int),
            r is None ==> product_position(self.products@, id@) is None,
    {
        let mut i: usize = 0;
        while i < self.products.len()
            invariant
                i <= self.products@.len(),
                unique_product_ids(self.products@),
                forall|k: int| 0 <= k < i ==> self.products@[k].id@ != id@,
            decreases self.products@.len() - i,
        {
            if self.products[i].id == *id {
                assert(product_position(self.products@, id@) == Some(i as int)) by {
                    let c = choose|k: int| 0 <= k < self.products@.len() && self.products@[k].id@ == id@;
                    assert(c == i);
                }
                return Some(i);
            }
            i = i + 1;
        }
        None
    }

    /// The position of the account `id`.
    pub fn find_account(&self, id: &String) -> (r: Option<usize>)
        requires
            unique_account_ids(self.accounts@),
        ensures
            r matches Some(i) ==> account_position(self.accounts@, id@) == Some(i as int),
            r is None ==> account_position(self.accounts@, id@) is None,
    {
        let mut i: usize = 0;
        while i < self.accounts.len()
            invariant
                i <= self.accounts@.len(),
                unique_account_ids(self.accounts@),
                forall|k: int| 0 <= k < i ==> self.accounts@[k].account_id@ != id@,
            decreases self.accounts@.len() - i,
        {
            if self.accounts[i].account_id == *id {
                assert(account_position(self.accounts@, id@) == Some(i as int)) by {
                    let c = choose|k: int|
                        0 <= k < self.accounts@.len() && self.accounts@[k].account_id@ == id@;
                    assert(c == i);
                }
                return Some(i);
            }
            i = i + 1;
        }
        None
    }

    /// The product `id`.
    pub fn get_product(&self, id: &String) -> (r: Result<&ProductV2, ContractError>)
        requires
            self.wf(),
        ensures
            r matches Ok(p) ==> self.product(id@) == Some(*p),
            r is Err ==> self.product(id@) is None && r == Err::<&ProductV2, ContractError>(
                ContractError::ProductNotFound(*id),
            ),
    {
        match self.find_product(id) {
            Some(i) => Ok(&self.products[i]),
            None => Err(ContractError::ProductNotFound(id.clone())),
        }
    }

    /// The account `id`.
    pub fn get_account(&self, id: &String) -> (r: Result<&AccountV1, ContractError>)
        requires
            self.wf(),
        ensures
            r matches Ok(a) ==> self.account(id@) == Some(*a),
            r is Err ==> self.account(id@) is None && r == Err::<&AccountV1, ContractError>(
                ContractError::AccountNotFound(*id),
            ),
    {
        match self.find_account(id) {
            Some(i) => Ok(&self.accounts[i].account),
            None => Err(ContractError::AccountNotFound(id.clone())),
        }
    }

    /// Why registering `product` would be refused, checked in this order: the id is
    /// taken, a score-based product lacks a key, the fee is too high, the cap is
    /// inverted, the key is malformed.
    pub open spec fn registration_error(&self, product: ProductV2) -> Option<ProductError> {
        registration_error_in(self.products@, product)
    }

    /// Enables or disables a product; setting the status it already has is refused.
    pub fn set_enabled(&mut self, product_id: &String, is_enabled: bool) -> (r: Result<(), ContractError>)
        requires
            old(self).wf(),
        ensures
            final(self).wf(),
            final(self).token_account_id == old(self).token_account_id,
            final(self).fee_account_id == old(self).fee_account_id,
            final(self).previous_version_account_id == old(self).previous_version_account_id,
            match old(self).product(product_id@) {
                None => r == Err::<(), ContractError>(ContractError::ProductNotFound(*product_id))
                    && *final(self) == *old(self),
                Some(p) => if p.is_enabled == is_enabled {
                    r == Err::<(), ContractError>(ContractError::Product(ProductError::StatusMatches))
                        && *final(self) == *old(self)
                } else {
                    let i = product_position(old(self).products@, product_id@).unwrap();
                    r is Ok && final(self).products@ == old(self).products@.update(i, ProductV2 { is_enabled, ..p })
                        && final(self).accounts == old(self).accounts
                        && final(self).fee_amount == old(self).fee_amount
                },
            },
    {
        let i = match self.find_product(product_id) {
            Some(i) => i,
            None => return Err(ContractError::ProductNotFound(product_id.clone())),
        };
        if self.products[i].is_enabled == is_enabled {
            return Err(ContractError::Product(ProductError::StatusMatches));
        }
        self.products[i].is_enabled = is_enabled;
        proof {
            self.lemma_same_ids_keep_wf(old(self).products@);
        }
        Ok(())
    }

    /// Replaces the public key of a product with a well-formed ed25519 key.
    pub fn set_public_key(&mut self, product_id: &String, public_key: Vec<u8>) -> (r: Result<(), ContractError>)
        requires
            old(self).wf(),
        ensures
            final(self).wf(),
            final(self).token_account_id == old(self).token_account_id,
            final(self).fee_account_id == old(self).fee_account_id,
            final(self).previous_version_account_id == old(self).previous_version_account_id,
            match old(self).product(product_id@) {
                None => r == Err::<(), ContractError>(ContractError::ProductNotFound(*product_id))
                    && *final(self) == *old(self),
                Some(p) => if public_key@.len() != PUBLIC_KEY_LENGTH {
                    r == Err::<(), ContractError>(ContractError::Product(ProductError::PublicKeyLength))
                        && *final(self) == *old(self)
                } else if !ed25519_public_key_valid(public_key@) {
                    r == Err::<(), ContractError>(ContractError::Product(ProductError::PublicKeyInvalid))
                        && *final(self) == *old(self)
                } else {
                    let i = product_position(old(self).products@, product_id@).unwrap();
                    r is Ok && final(self).products@ == old(self).products@.update(
                        i,
                        ProductV2 { public_key: Some(public_key), ..p },
                    ) && final(self).accounts == old(self).accounts
                        && final(self).fee_amount == old(self).fee_amount
                },
            },
    {
        let i = match self.find_product(product_id) {
            Some(i) => i,
            None => return Err(ContractError::ProductNotFound(product_id.clone())),
        };
        if public_key.len() != PUBLIC_KEY_LENGTH {
            return Err(ContractError::Product(ProductError::PublicKeyLength));
        }
        if !ed25519_public_key_is_valid(public_key.as_slice()) {
            return Err(ContractError::Product(ProductError::PublicKeyInvalid));
        }
        self.products[i].public_key = Some(public_key);
        proof {
            self.lemma_same_ids_keep_wf(old(self).products@);
        }
        Ok(())
    }

    /// Changing products without changing their ids keeps the contract well formed.
    proof fn lemma_same_ids_keep_wf(&self, before: Seq<ProductV2>)
        requires
            (Contract { products: self.products, ..*self }).accounts == self.accounts,
            before.len() == self.products@.len(),
            forall|i: int| 0 <= i < before.len() ==> before[i].id == self.products@[i].id,
            unique_product_ids(before),
            forall|i: int, j: int|
                0 <= i < self.accounts@.len() && 0 <= j < self.accounts@[i].account.jars@.len()
                    ==> product_position(before, #[trigger] self.accounts@[i].account.jars@[j].product_id@) is Some,
            unique_account_ids(self.accounts@),
            forall|i: int| 0 <= i < self.accounts@.len() ==> (#[trigger] self.accounts@[i]).account.wf(),
            forall|i: int, j: int|
                0 <= i < self.accounts@.len() && 0 <= j < self.accounts@[i].account.jars@.len()
                    ==> deposits_sorted(#[trigger] self.accounts@[i].account.jars@[j].jar.deposits@),
        ensures
            self.wf(),
    {
        assert forall|i: int, j: int|
            0 <= i < self.products@.len() && 0 <= j < self.products@.len() && i != j implies
            self.products@[i].id@ != self.products@[j].id@ by {
            assert(before[i].id == self.products@[i].id);
            assert(before[j].id == self.products@[j].id);
        }
        assert forall|i: int, j: int|
            0 <= i < self.accounts@.len() && 0 <= j < self.accounts@[i].account.jars@.len() implies
            product_position(self.products@, #[trigger] self.accounts@[i].account.jars@[j].product_id@)
            is Some by {
            let id = self.accounts@[i].account.jars@[j].product_id@;
            let k = product_position(before, id).unwrap();
            assert(before[k].id == self.products@[k].id);
            assert(self.products@[k].id@ == id);
        }
    }

    /// The nonce that the next signed ticket of an account carries.
    pub open spec fn nonce_of(&self, account_id: Seq<char>) -> u32 {
        match self.account(account_id) {
            Some(a) => a.nonce,
            None => 0,
        }
    }

    /// The nonce that a signed ticket of an account is bound to: the account's
    /// nonce, or nothing for an account that does not exist yet.
    pub open spec fn ticket_nonce(&self, account_id: Seq<char>) -> Option<u32> {
        match self.account(account_id) {
            Some(a) => Some(a.nonce),
            None => None,
        }
    }

    /// What a ticket for `amount` into the ticket's product must sign: the
    /// contract, the receiver, the product, the amount, the account's nonce (empty
    /// without an account) and the expiry.
    pub open spec fn ticket_material(
        &self,
        contract_account_id: Seq<char>,
        account_id: Seq<char>,
        ticket: DepositTicket,
        amount: u128,
    ) -> Seq<char> {
        signature_material(
            contract_account_id,
            account_id,
            ticket.product_id@,
            amount,
            self.ticket_nonce(account_id),
            ticket.valid_until,
        )
    }

    /// Whether a deposit is refused: the product is unknown or disabled, the amount
    /// is outside its cap, the ticket does not pass, or a first score-based jar comes
    /// without a timezone.
    pub open spec fn deposit_refused(
        &self,
        account_id: Seq<char>,
        ticket: DepositTicket,
        amount: u128,
        signature: Option<Vec<u8>>,
        now: u64,
        contract_account_id: Seq<char>,
    ) -> bool {
        match self.product(ticket.product_id@) {
            None => true,
            Some(p) => {
                ||| !p.is_enabled
                ||| !p.cap_contains(amount)
                ||| ticket_check(
                    bytes_view(p.public_key),
                    bytes_view(signature),
                    now,
                    ticket.valid_until,
                    self.ticket_material(contract_account_id, account_id, ticket, amount),
                ) is Err
                ||| (p.terms is ScoreBased && ticket.timezone is None && !(self.account(account_id) matches Some(
                    a,
                ) && a.score.spec_is_valid()))
            },
        }
    }

    /// Deposits `amount` into the account's jar of the ticket's product, opening the
    /// account or the jar if needed; a signed ticket uses up the account's nonce.
    #[verifier::spinoff_prover]
    pub fn deposit(
        &mut self,
        account_id: &String,
        ticket: &DepositTicket,
        amount: u128,
        signature: &Option<Vec<u8>>,
        now: u64,
        contract_account_id: &String,
    ) -> (r: Result<(), ContractError>)
        requires
            old(self).wf(),
            old(self).all_before(now),
            old(self).nonce_of(account_id@) < u32::MAX,
        ensures
            final(self).wf(),
            final(self).token_account_id == old(self).token_account_id,
            final(self).fee_account_id == old(self).fee_account_id,
            final(self).previous_version_account_id == old(self).previous_version_account_id,
            final(self).all_before(now),
            r is Err <==> old(self).deposit_refused(
                account_id@,
                *ticket,
                amount,
                *signature,
                now,
                contract_account_id@,
            ),
            r is Err ==> *final(self) == *old(self),
            match old(self).product(ticket.product_id@) {
                None => r == Err::<(), ContractError>(ContractError::ProductNotFound(ticket.product_id)),
                Some(p) => if !p.is_enabled {
                    r == Err::<(), ContractError>(ContractError::Product(ProductError::Disabled))
                } else if !p.cap_contains(amount) {
                    r == Err::<(), ContractError>(
                        ContractError::Product(ProductError::OutOfBounds { min: p.cap.min, max: p.cap.max }),
                    )
                } else {
                    let material = old(self).ticket_material(contract_account_id@, account_id@, *ticket, amount);
                    let t = ticket_check(bytes_view(p.public_key), bytes_view(*signature), now, ticket.valid_until, material);
                    match t {
                        Err(f) => r matches Err(ContractError::Ticket(e)) && crate::restake::ticket_error_like(
                            e,
                            f,
                            material,
                        ),
                        Ok(_) => r is Err ==> r == Err::<(), ContractError>(
                            ContractError::Account(AccountError::TimezoneRequired),
                        ),
                    }
                },
            },
            r is Ok ==> {
                let p = old(self).product(ticket.product_id@).unwrap();
                let a = final(self).account(account_id@).unwrap();
                let old_jar = match old(self).account(account_id@) {
                    Some(o) => o.jar_of(ticket.product_id@),
                    None => None,
                };
                &&& final(self).account(account_id@) is Some
                &&& a.jar_of(ticket.product_id@) matches Some(j) && crate::account_v2::deposited(
                    old_jar,
                    j,
                    Deposit { created_at: now, principal: amount },
                )
                &&& forall|q: Seq<char>| q != ticket.product_id@ ==> a.jar_of(q) == match old(self).account(account_id@) {
                    Some(o) => o.jar_of(q),
                    None => None,
                }
                &&& a.nonce == old(self).nonce_of(account_id@) + if p.public_key is Some {
                    1int
                } else {
                    0
                }
                &&& a.score == match old(self).account(account_id@) {
                    Some(o) => if p.terms is ScoreBased && !o.score.spec_is_valid() {
                        AccountScore::new_spec(ticket.timezone.unwrap(), now)
                    } else {
                        o.score
                    },
                    None => if p.terms is ScoreBased {
                        AccountScore::new_spec(ticket.timezone.unwrap(), now)
                    } else {
                        AccountScore::invalid_spec()
                    },
                }
                &&& a.is_penalty_applied == match old(self).account(account_id@) {
                    Some(o) => o.is_penalty_applied,
                    None => false,
                }
                &&& forall|q: Seq<char>| q != account_id@ ==> final(self).account(q) == old(self).account(q)
                &&& final(self).products == old(self).products
                &&& final(self).fee_amount == old(self).fee_amount
            },
    {
        let pi = match self.find_product(&ticket.product_id) {
            Some(i) => i,
            None => return Err(ContractError::ProductNotFound(ticket.product_id.clone())),
        };
        if let Err(e) = self.products[pi].check_enabled() {
            return Err(ContractError::Product(e));
        }
        if let Err(e) = self.products[pi].check_cap(amount) {
            return Err(ContractError::Product(e));
        }
        let ai = self.find_account(account_id);
        let nonce = match ai {
            Some(i) => Some(self.accounts[i].account.nonce),
            None => None,
        };
        let material = get_signature_material(
            contract_account_id,
            account_id,
            &ticket.product_id,
            amount,
            nonce,
            ticket.valid_until,
        );
        if let Err(e) = verify_ticket(&self.products[pi].public_key, signature, now, ticket.valid_until, &material) {
            return Err(ContractError::Ticket(e));
        }
        let is_score = match self.products[pi].terms {
            Terms::ScoreBased(_) => true,
            _ => false,
        };
        let protected = self.products[pi].is_protected();
        let score_valid = match ai {
            Some(i) => self.accounts[i].account.score.is_valid(),
            None => false,
        };
        if is_score && !score_valid && ticket.timezone.is_none() {
            return Err(ContractError::Account(AccountError::TimezoneRequired));
        }
        let ghost before = self.accounts@;
        let i = match ai {
            Some(i) => i,
            None => {
                self.accounts.push(AccountEntry { account_id: account_id.clone(), account: AccountV1::new() });
                self.accounts.len() - 1
            },
        };
        let ghost fresh = self.accounts@;
        let ghost c_fresh = *self;
        proof {
            assert(unique_account_ids(fresh)) by {
                if ai is None {
                    assert forall|x: int, y: int|
                        0 <= x < fresh.len() && 0 <= y < fresh.len() && x != y implies fresh[x].account_id@
                        != fresh[y].account_id@ by {
                        if x == before.len() as int {
                            assert(before[y].account_id@ != account_id@);
                        } else if y == before.len() as int {
                            assert(before[x].account_id@ != account_id@);
                        }
                    }
                }
            }
            assert(account_position(fresh, account_id@) == Some(i as int)) by {
                assert(fresh[i as int].account_id@ == account_id@);
                let c = choose|k: int| 0 <= k < fresh.len() && fresh[k].account_id@ == account_id@;
                assert(c == i);
            }
        }
        let ghost a0 = self.accounts@[i as int].account;
        if is_score {
            let _ = self.accounts[i].account.try_set_timezone(ticket.timezone, now);
        }
        let ghost a1 = self.accounts@[i as int].account;
        self.accounts[i].account.deposit(&ticket.product_id, amount, now);
        let ghost a2 = self.accounts@[i as int].account;
        if protected {
            self.accounts[i].account.nonce = self.accounts[i].account.nonce + 1;
        }
        proof {
            let a3 = self.accounts@[i as int].account;
            let pid = ticket.product_id@;
            let d = Deposit { created_at: now, principal: amount };
            assert(self.accounts@ == fresh.update(i as int, AccountEntry { account: a3, ..fresh[i as int] }));
            assert(a1.jars == a0.jars);
            assert(a3.jars == a2.jars);
            // the accounts keep their ids
            assert forall|x: int, y: int|
                0 <= x < self.accounts@.len() && 0 <= y < self.accounts@.len() && x != y implies
                self.accounts@[x].account_id@ != self.accounts@[y].account_id@ by {
                assert(self.accounts@[x].account_id == fresh[x].account_id);
                assert(self.accounts@[y].account_id == fresh[y].account_id);
            }
            assert(account_position(self.accounts@, account_id@) == Some(i as int)) by {
                assert(self.accounts@[i as int].account_id@ == account_id@);
                let c = choose|k: int| 0 <= k < self.accounts@.len() && self.accounts@[k].account_id@ == account_id@;
                assert(c == i);
            }
            // jars of the changed account
            assert forall|j: int| 0 <= j < a3.jars@.len() implies {
                &&& product_position(self.products@, #[trigger] a3.jars@[j].product_id@) is Some
                &&& deposits_sorted(a3.jars@[j].jar.deposits@)
                &&& deposits_before(a3.jars@[j].jar.deposits@, now)
            } by {
                if a3.jars@[j].product_id@ == pid {
                    assert(product_position(self.products@, pid) == Some(pi as int));
                    assert(a3.jar_of(pid) == Some(a3.jars@[j].jar)) by {
                        let c = choose|k: int| 0 <= k < a3.jars@.len() && a3.jars@[k].product_id@ == pid;
                        assert(c == j);
                    }
                    match a1.jar_of(pid) {
                        Some(o) => {
                            let k = jar_position(a1.jars@, pid).unwrap();
                            if ai is Some {
                                assert(fresh[i as int] == before[i as int]);
                                assert(deposits_sorted(before[i as int].account.jars@[k].jar.deposits@));
                                assert(deposits_before(before[i as int].account.jars@[k].jar.deposits@, now));
                            } else {
                                assert(a0.jars@.len() == 0);
                            }
                        },
                        None => {},
                    }
                } else {
                    assert(j < a1.jars@.len() && a3.jars@[j] == a1.jars@[j]);
                    if ai is Some {
                        assert(fresh[i as int] == before[i as int]);
                        assert(a1.jars@[j] == before[i as int].account.jars@[j]);
                    } else {
                        assert(a0.jars@.len() == 0);
                    }
                }
            }
            assert(a3.wf());
            assert(self.accounts@[i as int].account == a3);
            assert(c_fresh.wf() && c_fresh.all_before(now)) by {
                assert forall|x: int| 0 <= x < fresh.len() implies (#[trigger] fresh[x]).account.wf() by {
                    if x < before.len() {
                        assert(fresh[x] == before[x]);
                    }
                }
                assert forall|x: int, j: int| 0 <= x < fresh.len() && 0 <= j < fresh[x].account.jars@.len() implies
                    product_position(c_fresh.products@, #[trigger] fresh[x].account.jars@[j].product_id@) is Some by {
                    assert(x < before.len() && fresh[x] == before[x]);
                }
                assert forall|x: int, j: int| 0 <= x < fresh.len() && 0 <= j < fresh[x].account.jars@.len() implies
                    deposits_sorted(#[trigger] fresh[x].account.jars@[j].jar.deposits@) by {
                    assert(x < before.len() && fresh[x] == before[x]);
                }
                assert forall|x: int, j: int| 0 <= x < fresh.len() && 0 <= j < fresh[x].account.jars@.len() implies
                    deposits_before(#[trigger] fresh[x].account.jars@[j].jar.deposits@, now) by {
                    assert(x < before.len() && fresh[x] == before[x]);
                }
            }
            assert(self.jars_ok(a3, now));
            lemma_account_replaced(c_fresh, *self, i as int, now);
            // other accounts
            assert forall|q: Seq<char>| q != account_id@ implies self.account(q) == old(self).account(q) by {
                if exists|k: int| 0 <= k < before.len() && before[k].account_id@ == q {
                    let k = choose|k: int| 0 <= k < before.len() && before[k].account_id@ == q;
                    assert(self.accounts@[k].account_id@ == q);
                    assert(k != i);
                    let c = choose|m: int| 0 <= m < self.accounts@.len() && self.accounts@[m].account_id@ == q;
                    assert(c == k);
                    assert(account_position(before, q) == Some(k));
                } else {
                    if exists|k: int| 0 <= k < self.accounts@.len() && self.accounts@[k].account_id@ == q {
                        let k = choose|k: int| 0 <= k < self.accounts@.len() && self.accounts@[k].account_id@ == q;
                        assert(k != i);
                        assert(fresh[k].account_id@ == q);
                        assert(k < before.len());
                    }
                }
            }
            if ai is Some {
                assert(old(self).account(account_id@) == Some(a0));
            } else {
                assert(old(self).account(account_id@) is None);
                assert forall|q: Seq<char>| a0.jar_of(q) is None by {}
            }
        }
        Ok(())
    }

    /// Stops taking migrated data: the previous version becomes `system`, an account
    /// that no transaction comes from.
    pub fn disable_migration(&mut self)
        ensures
            *final(self) == (Contract { previous_version_account_id: final(self).previous_version_account_id, ..*old(self) }),
            final(self).previous_version_account_id@ == "system"@,
    {
        self.previous_version_account_id = String::from_str("system");
    }

    /// Takes migrated data from `previous_version_account_id` again.
    pub fn enable_migration(&mut self, previous_version_account_id: String)
        ensures
            *final(self) == (Contract { previous_version_account_id, ..*old(self) }),
    {
        self.previous_version_account_id = previous_version_account_id;
    }

    /// Registers products moved over from the previous version of the contract, which
    /// alone may send them; a batch with a product that cannot be registered after
    /// the ones before it is refused whole. Gives the ids registered.
    #[verifier::spinoff_prover]
    pub fn migrate_products(&mut self, caller: &String, products: Vec<ProductV2>) -> (r: Result<
        Vec<String>,
        ContractError,
    >)
        requires
            old(self).wf(),
        ensures
            final(self).wf(),
            r is Err ==> *final(self) == *old(self),
            match migration_refusal(*old(self), caller@, products@) {
                Some(e) => r == Err::<Vec<String>, ContractError>(e),
                None => r matches Ok(ids) && {
                    &&& ids@.len() == products@.len()
                    &&& forall|i: int| 0 <= i < ids@.len() ==> #[trigger] ids@[i]@ == products@[i].id@
                    &&& *final(self) == (Contract { products: final(self).products, ..*old(self) })
                    &&& final(self).products@ == old(self).products@ + products@
                },
            },
    {
        if *caller != self.previous_version_account_id {
            return Err(ContractError::MigrationNotAllowed);
        }
        let ghost before = self.products@;
        proof {
            assert(before + products@.take(0) =~= before);
            assert(products@.skip(0) =~= products@);
        }
        let mut i: usize = 0;
        while i < products.len()
            invariant
                i <= products@.len(),
                *self == *old(self),
                old(self).wf(),
                caller@ == old(self).previous_version_account_id@,
                before == self.products@,
                unique_product_ids(self.products@),
                batch_error(before, products@) == batch_error(before + products@.take(i as int), products@.skip(i as int)),
            decreases products@.len() - i,
        {
            let ghost joined = before + products@.take(i as int);
            proof {
                lemma_position_concat(before, products@.take(i as int), products@[i as int].id@);
                assert(products@.skip(i as int)[0] == products@[i as int]);
                assert(products@.skip(i as int).len() > 0);
            }
            let p = &products[i];
            let taken = self.find_product(&p.id).is_some() || id_among(&products, i, &p.id);
            proof {
                if exists|k: int| 0 <= k < i && products@[k].id@ == p.id@ {
                    let k = choose|k: int| 0 <= k < i && products@[k].id@ == p.id@;
                    assert(products@.take(i as int)[k] == products@[k]);
                }
                if exists|k: int| 0 <= k < products@.take(i as int).len() && products@.take(i as int)[k].id@ == p.id@ {
                    let k = choose|k: int| 0 <= k < products@.take(i as int).len() && products@.take(i as int)[k].id@ == p.id@;
                    assert(products@.take(i as int)[k] == products@[k]);
                }
                assert(taken == (product_position(joined, p.id@) is Some));
            }
            if taken {
                return Err(ContractError::Product(ProductError::AlreadyExists));
            }
            if let Err(e) = p.check_score_based_product_is_protected() {
                return Err(ContractError::Product(e));
            }
            if let Err(e) = p.check_fee_amount() {
                return Err(ContractError::Product(e));
            }
            if let Err(e) = p.check_cap_order() {
                return Err(ContractError::Product(e));
            }
            if let Err(e) = p.check_udecimal_exponents() {
                return Err(ContractError::Product(e));
            }
            proof {
                lemma_batch_step(before, products@, i as int);
            }
            i = i + 1;
        }
        proof {
            assert(products@.take(products@.len() as int) =~= products@);
            assert(products@.skip(products@.len() as int).len() == 0);
            lemma_batch_unique(before, products@);
        }
        let mut ids: Vec<String> = Vec::new();
        let mut k: usize = 0;
        while k < products.len()
            invariant
                k <= products@.len(),
                ids@.len() == k,
                forall|m: int| 0 <= m < k ==> #[trigger] ids@[m]@ == products@[m].id@,
            decreases products@.len() - k,
        {
            ids.push(products[k].id.clone());
            k = k + 1;
        }
        let mut added = products;
        self.products.append(&mut added);
        proof {
            assert forall|x: int, j: int|
                0 <= x < self.accounts@.len() && 0 <= j < self.accounts@[x].account.jars@.len() implies
                product_position(self.products@, #[trigger] self.accounts@[x].account.jars@[j].product_id@) is Some by {
                lemma_position_concat(before, products@, self.accounts@[x].account.jars@[j].product_id@);
            }
        }
        Ok(ids)
    }

    /// Clears the in-progress mark of every jar of the account.
    #[verifier::spinoff_prover]
    pub fn unlock_jars_for_account(&mut self, account_id: &String) -> (r: Result<(), ContractError>)
        requires
            old(self).wf(),
        ensures
            final(self).wf(),
            match old(self).account(account_id@) {
                None => r == Err::<(), ContractError>(ContractError::AccountNotFound(*account_id))
                    && *final(self) == *old(self),
                Some(a) => r is Ok && final(self).same_except(*old(self), account_id@) && (final(self).account(
                    account_id@,
                ) matches Some(b) && {
                    &&& b.nonce == a.nonce
                    &&& b.score == a.score
                    &&& b.is_penalty_applied == a.is_penalty_applied
                    &&& forall|q: Seq<char>|
                        #[trigger] b.jar_of(q) == match a.jar_of(q) {
                            Some(j) => Some(JarV2 { is_pending_withdraw: false, ..j }),
                            None => None,
                        }
                }),
            },
    {
        let ai = match self.find_account(account_id) {
            None => return Err(ContractError::AccountNotFound(account_id.clone())),
            Some(i) => i,
        };
        let ghost a0 = self.accounts@[ai as int].account;
        let mut acc = AccountV1::new();
        std::mem::swap(&mut acc, &mut self.accounts[ai].account);
        let mut k: usize = 0;
        while k < acc.jars.len()
            invariant
                k <= acc.jars@.len(),
                acc.jars@.len() == a0.jars@.len(),
                acc.nonce == a0.nonce,
                acc.score == a0.score,
                acc.is_penalty_applied == a0.is_penalty_applied,
                forall|m: int|
                    0 <= m < k ==> #[trigger] acc.jars@[m] == (ProductJar {
                        jar: JarV2 { is_pending_withdraw: false, ..a0.jars@[m].jar },
                        ..a0.jars@[m]
                    }),
                forall|m: int| k <= m < acc.jars@.len() ==> #[trigger] acc.jars@[m] == a0.jars@[m],
            decreases acc.jars@.len() - k,
        {
            acc.jars[k].jar.unlock();
            k = k + 1;
        }
        proof {
            assert forall|i: int| 0 <= i < a0.jars@.len() implies #[trigger] acc.jars@[i].product_id@
                == a0.jars@[i].product_id@ by {}
            lemma_same_products(a0.jars@, acc.jars@);
            assert forall|j: int| 0 <= j < acc.jars@.len() implies {
                &&& product_position(self.products@, #[trigger] acc.jars@[j].product_id@) is Some
                &&& deposits_sorted(acc.jars@[j].jar.deposits@)
                &&& deposits_before(acc.jars@[j].jar.deposits@, u64::MAX)
            } by {
                assert(product_position(old(self).products@, old(self).accounts@[ai as int].account.jars@[j].product_id@) is Some);
                assert(deposits_sorted(old(self).accounts@[ai as int].account.jars@[j].jar.deposits@));
            }
        }
        std::mem::swap(&mut acc, &mut self.accounts[ai].account);
        proof {
            lemma_account_replaced(*old(self), *self, ai as int, u64::MAX);
        }
        Ok(())
    }

    /// Registers a new product.
    pub fn register_product(&mut self, product: ProductV2) -> (r: Result<(), ContractError>)
        requires
            old(self).wf(),
        ensures
            final(self).wf(),
            match old(self).registration_error(product) {
                Some(e) => r == Err::<(), ContractError>(ContractError::Product(e))
                    && *final(self) == *old(self),
                None => r is Ok
                    && final(self).products@ == old(self).products@.push(product)
                    && final(self).accounts == old(self).accounts
                    && final(self).fee_amount == old(self).fee_amount,
            },
            final(self).token_account_id == old(self).token_account_id,
            final(self).fee_account_id == old(self).fee_account_id,
            final(self).previous_version_account_id == old(self).previous_version_account_id,
    {
        if self.find_product(&product.id).is_some() {
            return Err(ContractError::Product(ProductError::AlreadyExists));
        }
        if let Err(e) = product.check_score_based_product_is_protected() {
            return Err(ContractError::Product(e));
        }
        if let Err(e) = product.check_fee_amount() {
            return Err(ContractError::Product(e));
        }
        if let Err(e) = product.check_cap_order() {
            return Err(ContractError::Product(e));
        }
        if let Err(e) = product.check_public_key() {
            return Err(ContractError::Product(e));
        }
        self.products.push(product);
        proof {
            assert forall|i: int, j: int|
                0 <= i < self.accounts@.len() && 0 <= j < self.accounts@[i].account.jars@.len() implies
                product_position(self.products@, #[trigger] self.accounts@[i].account.jars@[j].product_id@)
                is Some by {
                let id = self.accounts@[i].account.jars@[j].product_id@;
                let k = product_position(old(self).products@, id).unwrap();
                assert(self.products@[k].id@ == id);
            }
        }
        Ok(())
    }
}

} // verus!
