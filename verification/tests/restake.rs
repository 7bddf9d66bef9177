use crypto_hash::{digest, Algorithm};
use ed25519_dalek::{Signer, SigningKey};

use sweat_jar::account_v2::{AccountV1, ProductJar};
use sweat_jar::common::{MS_IN_DAY, MS_IN_YEAR};
use sweat_jar::contract::{AccountEntry, Contract, ContractError, DepositTicket};
use sweat_jar::decimal::UDecimal;
use sweat_jar::jar::ScoreRecord;
use sweat_jar::jar_v2::{Deposit, JarV2};
use sweat_jar::product::{Apy, Cap, ProductError, WithdrawalFee};
use sweat_jar::product_v2::{FixedProductTerms, ProductV2, Terms};
use sweat_jar::restake::{RestakeError, RestakeOutcome};
use sweat_jar::signature::{get_signature_material, TicketError};

const OWNER: &str = "owner";

struct MessageSigner {
    signing_key: SigningKey,
}

impl MessageSigner {
    fn new(seed: u8) -> Self {
        MessageSigner { signing_key: SigningKey::from_bytes(&[seed; 32]) }
    }

    fn public_key(&self) -> Vec<u8> {
        self.signing_key.verifying_key().to_bytes().to_vec()
    }

    /// Signs a deposit message: contract, receiver, product, amount, nonce and expiry.
    fn sign_deposit(&self, receiver: &str, product_id: &str, amount: u128, valid_until: u64, nonce: u32) -> Vec<u8> {
        let message = get_signature_material(
            &OWNER.to_string(),
            &receiver.to_string(),
            &product_id.to_string(),
            amount,
            Some(nonce),
            valid_until,
        );
        let hash = digest(Algorithm::SHA256, message.as_bytes());
        self.signing_key.sign(hash.as_slice()).to_bytes().to_vec()
    }
}

fn product(id: &str, apy: UDecimal) -> ProductV2 {
    ProductV2 {
        id: id.to_string(),
        cap: Cap { min: 0, max: 1_000_000_000_000 },
        terms: Terms::Fixed(FixedProductTerms { lockup_term: MS_IN_YEAR, apy: Apy::Constant(apy) }),
        withdrawal_fee: None,
        public_key: None,
        is_enabled: true,
        is_restakable: true,
    }
}

/// The product that the restake scenarios use unless they say otherwise: 20% a year,
/// locked for a year.
fn default_product() -> ProductV2 {
    product("product", UDecimal::new(20, 2))
}

fn jar(deposits: &[(u64, u128)]) -> JarV2 {
    let mut jar = JarV2::new();
    for (created_at, principal) in deposits {
        jar.deposits.push(Deposit::new(*created_at, *principal));
    }
    jar
}

fn context(products: Vec<ProductV2>, jars: Vec<(&str, JarV2)>) -> Contract {
    let mut contract = Contract::new("token".to_string(), "fee".to_string(), "previous".to_string());
    for product in products {
        contract.register_product(product).unwrap();
    }
    let mut account = AccountV1::new();
    for (product_id, jar) in jars {
        account.jars.push(ProductJar { product_id: product_id.to_string(), jar });
    }
    contract.accounts.push(AccountEntry { account_id: "alice".to_string(), account });
    contract
}

fn ticket(product_id: &str) -> DepositTicket {
    DepositTicket { product_id: product_id.to_string(), valid_until: MS_IN_YEAR * 10, timezone: None }
}

fn restake(
    contract: &mut Contract,
    account: &str,
    from: &str,
    ticket: &DepositTicket,
    signature: Option<Vec<u8>>,
    now: u64,
) -> Result<RestakeOutcome, ContractError> {
    contract.restake(
        &account.to_string(),
        &from.to_string(),
        ticket,
        &signature,
        None,
        &ScoreRecord::new(),
        now,
        &OWNER.to_string(),
    )
}

fn restake_all(
    contract: &mut Contract,
    account: &str,
    ticket: &DepositTicket,
    amount: Option<u128>,
    now: u64,
) -> Result<RestakeOutcome, ContractError> {
    contract.restake_all(&account.to_string(), ticket, &None, amount, &ScoreRecord::new(), now, &OWNER.to_string())
}

fn jar_of<'a>(contract: &'a Contract, product_id: &str) -> &'a JarV2 {
    contract.get_account(&"alice".to_string()).unwrap().get_jar(&product_id.to_string()).unwrap()
}

#[test]
fn restake_all_for_single_product() {
    let product = default_product();
    let jar = jar(&[(0, 100_000), (MS_IN_YEAR / 4, 100_000), (MS_IN_YEAR / 2, 100_000)]);
    let mut contract = context(vec![product], vec![("product", jar)]);

    let test_time = MS_IN_YEAR * 6 / 4;
    let outcome = restake_all(&mut contract, "alice", &ticket("product"), None, test_time).unwrap();
    assert!(matches!(outcome, RestakeOutcome::Done));

    let jar = jar_of(&contract, "product");
    assert_eq!(2, jar.deposits.len());
    assert_eq!(test_time, jar.deposits.last().unwrap().created_at);
    assert_eq!(200_000, jar.deposits.last().unwrap().principal);
    assert_eq!(test_time, jar.cache.unwrap().updated_at);
    assert_eq!(60_000, jar.cache.unwrap().interest);
}

#[test]
fn restake_all_for_different_products() {
    let product = product("product", UDecimal::new(10_000, 5));
    let another_product = self::product("another_product", UDecimal::new(20_000, 5));
    let jar1 = jar(&[(0, 100_000), (MS_IN_YEAR / 2, 100_000)]);
    let jar2 = jar(&[(0, 200_000), (MS_IN_YEAR / 2, 200_000)]);
    let mut contract = context(vec![product, another_product], vec![("product", jar1), ("another_product", jar2)]);

    let test_time = MS_IN_YEAR * 2;
    restake_all(&mut contract, "alice", &ticket("another_product"), None, test_time).unwrap();

    let jar = jar_of(&contract, "product");
    assert_eq!(0, jar.deposits.len());
    assert_eq!(test_time, jar.cache.unwrap().updated_at);
    assert_eq!(20_000, jar.cache.unwrap().interest);

    let another_jar = jar_of(&contract, "another_product");
    assert_eq!(1, another_jar.deposits.len());
    assert_eq!(test_time, another_jar.deposits.last().unwrap().created_at);
    assert_eq!(600_000, another_jar.deposits.last().unwrap().principal);
    assert_eq!(test_time, another_jar.cache.unwrap().updated_at);
    assert_eq!(80_000, another_jar.cache.unwrap().interest);
}

#[test]
fn restake_all_to_new_product() {
    let product = product("product", UDecimal::new(10_000, 5));
    let another_product = self::product("another_product", UDecimal::new(20_000, 5));
    let jar = jar(&[(0, 50_000), (MS_IN_YEAR / 4, 20_000)]);
    let mut contract = context(vec![product, another_product], vec![("product", jar)]);

    let test_time = MS_IN_YEAR * 3 / 2;
    restake_all(&mut contract, "alice", &ticket("another_product"), None, test_time).unwrap();

    let jar = jar_of(&contract, "product");
    assert_eq!(0, jar.deposits.len());
    assert_eq!(test_time, jar.cache.unwrap().updated_at);
    assert_eq!(7_000, jar.cache.unwrap().interest);

    let another_jar = jar_of(&contract, "another_product");
    assert_eq!(1, another_jar.deposits.len());
    assert_eq!(test_time, another_jar.deposits.last().unwrap().created_at);
    assert_eq!(70_000, another_jar.deposits.last().unwrap().principal);
    assert!(another_jar.cache.is_none());
}

#[test]
fn restake_all_to_not_existing_product() {
    let product = product("product", UDecimal::new(10_000, 5));
    let jar = jar(&[(0, 500_000), (MS_IN_YEAR / 5, 700_000)]);
    let mut contract = context(vec![product], vec![("product", jar)]);

    let result = restake_all(&mut contract, "alice", &ticket("not_existing_product"), None, MS_IN_YEAR * 3 / 2);
    assert_eq!(result.unwrap_err(), ContractError::ProductNotFound("not_existing_product".to_string()));
}

#[test]
fn restake_all_to_disabled_product() {
    let product = product("product", UDecimal::new(7_000, 5));
    let jar = jar(&[(0, 150_000), (MS_IN_YEAR / 3, 770_000)]);
    let mut contract = context(vec![product], vec![("product", jar)]);

    contract.set_enabled(&"product".to_string(), false).unwrap();

    let result = restake_all(&mut contract, "alice", &ticket("product"), None, MS_IN_YEAR * 2);
    assert_eq!(result.unwrap_err(), ContractError::Product(ProductError::Disabled));
}

#[test]
fn restake_all_with_withdrawal() {
    let product = product("product", UDecimal::new(10_000, 5));
    let jar = jar(&[(0, 200_000), (MS_IN_YEAR / 4, 800_000)]);
    let mut contract = context(vec![product], vec![("product", jar)]);

    let test_time = MS_IN_YEAR * 2;
    let outcome = restake_all(&mut contract, "alice", &ticket("product"), Some(100_000), test_time).unwrap();
    let request = match outcome {
        RestakeOutcome::TransferRemainder(request) => request,
        RestakeOutcome::Done => panic!("a remainder must be paid out"),
    };
    assert_eq!(900_000, request.withdrawal.unwrap().amount);
    assert!(jar_of(&contract, "product").is_pending_withdraw);

    contract.after_transfer_remainder(request, true, test_time);

    let jar = jar_of(&contract, "product");
    assert!(!jar.is_pending_withdraw);
    assert_eq!(1, jar.deposits.len());
    assert_eq!(test_time, jar.deposits.last().unwrap().created_at);
    assert_eq!(100_000, jar.deposits.last().unwrap().principal);
    assert_eq!(test_time, jar.cache.unwrap().updated_at);
    assert_eq!(100_000, jar.cache.unwrap().interest);
}

#[test]
fn restake_restake_by_not_owner() {
    let product = default_product();
    let mut contract = context(vec![product], vec![("product", JarV2::new())]);

    for account in ["bob.near", "carol.near"] {
        assert_eq!(
            restake(&mut contract, account, "product", &ticket("product"), None, 0).unwrap_err(),
            ContractError::AccountNotFound(account.to_string())
        );
        assert_eq!(
            restake_all(&mut contract, account, &ticket("product"), None, 0).unwrap_err(),
            ContractError::AccountNotFound(account.to_string())
        );
    }
}

#[test]
fn restake_restake_before_maturity() {
    let mut contract = context(vec![default_product()], vec![("product", JarV2::new())]);

    let result = restake(&mut contract, "alice", "product", &ticket("product"), None, 0);
    assert_eq!(result.unwrap_err(), ContractError::Restake(RestakeError::NothingToRestake));
}

#[test]
fn restake_restake_with_disabled_product() {
    let mut contract = context(vec![default_product()], vec![("product", JarV2::new())]);
    contract.set_enabled(&"product".to_string(), false).unwrap();

    let result = restake(&mut contract, "alice", "product", &ticket("product"), None, 366 * MS_IN_DAY);
    assert_eq!(result.unwrap_err(), ContractError::Product(ProductError::Disabled));
}

#[test]
fn restake_restake_empty_jar() {
    let mut contract = context(vec![default_product()], vec![("product", JarV2::new())]);

    let result = restake(&mut contract, "alice", "product", &ticket("product"), None, 366 * MS_IN_DAY);
    assert_eq!(result.unwrap_err(), ContractError::Restake(RestakeError::NothingToRestake));
}

#[test]
fn restake_after_maturity() {
    let principal = 1_000_000;
    let mut contract = context(vec![default_product()], vec![("product", jar(&[(0, principal)]))]);

    let restake_time = MS_IN_YEAR + MS_IN_DAY;
    let outcome = restake(&mut contract, "alice", "product", &ticket("product"), None, restake_time).unwrap();
    assert!(matches!(outcome, RestakeOutcome::Done));

    let jars = contract.get_jars_for_account(&"alice".to_string());
    assert_eq!(1, jars.len());
    assert_eq!(principal, jars[0].principal);
    assert_eq!(restake_time, jars[0].created_at);
}

#[test]
fn restake_for_protected_product_success() {
    let signer = MessageSigner::new(21);
    let product = ProductV2 { public_key: Some(signer.public_key()), ..default_product() };
    let principal = 1_000_000;
    let mut contract = context(vec![product], vec![("product", jar(&[(0, principal)]))]);

    let restake_time = MS_IN_YEAR + MS_IN_DAY;
    let valid_until = MS_IN_YEAR * 10;
    let signature = signer.sign_deposit("alice", "product", principal, valid_until, 0);
    restake(&mut contract, "alice", "product", &ticket("product"), Some(signature), restake_time).unwrap();

    let jars = contract.get_jars_for_account(&"alice".to_string());
    assert_eq!(1, jars.len());
    assert_eq!(principal, jars[0].principal);
    assert_eq!(restake_time, jars[0].created_at);
    assert_eq!(1, contract.get_account(&"alice".to_string()).unwrap().nonce);
}

#[test]
fn restake_for_protected_product_invalid_signature() {
    let signer = MessageSigner::new(21);
    let product = ProductV2 { public_key: Some(signer.public_key()), ..default_product() };
    let principal = 1_000_000;
    let mut contract = context(vec![product], vec![("product", jar(&[(0, principal)]))]);

    // invalid signature – wrong amount
    let signature = signer.sign_deposit("alice", "product", principal + 100, MS_IN_YEAR * 10, 0);
    let result = restake(&mut contract, "alice", "product", &ticket("product"), Some(signature), MS_IN_YEAR + MS_IN_DAY);
    assert!(matches!(result, Err(ContractError::Ticket(TicketError::NotMatchingSignature(_)))));
}

#[test]
fn restake_for_protected_product_repeated_nonce() {
    let signer_1 = MessageSigner::new(31);
    let product_1 = ProductV2 { public_key: Some(signer_1.public_key()), ..product("product_1", UDecimal::new(20, 2)) };
    let signer_2 = MessageSigner::new(32);
    let product_2 = ProductV2 { public_key: Some(signer_2.public_key()), ..product("product_2", UDecimal::new(20, 2)) };
    let principal = 1_000_000;
    let mut contract = context(
        vec![product_1, product_2],
        vec![("product_1", jar(&[(0, principal)])), ("product_2", jar(&[(0, principal)]))],
    );

    let restake_time = MS_IN_YEAR + MS_IN_DAY;
    let valid_until = MS_IN_YEAR * 10;
    let ticket = ticket("product_1");

    let signature = signer_1.sign_deposit("alice", "product_1", principal, valid_until, 0);
    restake(&mut contract, "alice", "product_1", &ticket, Some(signature), restake_time).unwrap();

    // invalid signature – repeated nonce
    let signature = signer_2.sign_deposit("alice", "product_2", principal, valid_until, 1);
    let result = restake(&mut contract, "alice", "product_2", &ticket, Some(signature), restake_time);
    assert!(matches!(result, Err(ContractError::Ticket(TicketError::NotMatchingSignature(_)))));
}

#[test]
fn restake_for_protected_product_maturity_mistiming() {
    let signer = MessageSigner::new(41);
    let product = ProductV2 { public_key: Some(signer.public_key()), ..product("product_1", UDecimal::new(20, 2)) };
    let principal_1 = 1_000_000;
    let principal_2 = 2_000;
    let mut contract =
        context(vec![product], vec![("product_1", jar(&[(0, principal_1), (MS_IN_DAY * 2, principal_2)]))]);

    // the signature covers the first deposit only, mature at this point
    let signature = signer.sign_deposit("alice", "product_1", principal_1, MS_IN_YEAR * 10, 0);

    // by the time it is used, both deposits are mature
    let restake_time = MS_IN_YEAR + 3 * MS_IN_DAY;
    let result = restake(&mut contract, "alice", "product_1", &ticket("product_1"), Some(signature), restake_time);
    assert!(matches!(result, Err(ContractError::Ticket(TicketError::NotMatchingSignature(_)))));
}

#[test]
fn restake_part_pays_out_the_rest_less_fee() {
    let product = ProductV2 {
        withdrawal_fee: Some(WithdrawalFee::Fix(100)),
        cap: Cap { min: 1_000, max: 1_000_000_000_000 },
        ..default_product()
    };
    let mut contract = context(vec![product], vec![("product", jar(&[(0, 1_000_000)]))]);

    let now = MS_IN_YEAR + MS_IN_DAY;
    let outcome = contract
        .restake(
            &"alice".to_string(),
            &"product".to_string(),
            &ticket("product"),
            &None,
            Some(400_000),
            &ScoreRecord::new(),
            now,
            &OWNER.to_string(),
        )
        .unwrap();
    let request = match outcome {
        RestakeOutcome::TransferRemainder(request) => request,
        RestakeOutcome::Done => panic!("a remainder must be paid out"),
    };
    let withdrawal = request.withdrawal.unwrap();
    assert_eq!(600_000, withdrawal.amount);
    assert_eq!(100, withdrawal.fee);

    // a failed payout leaves the deposits where they were, unlocked
    contract.after_transfer_remainder(request.clone(), false, now);
    assert_eq!(0, contract.fee_amount);
    assert!(!jar_of(&contract, "product").is_pending_withdraw);
    assert_eq!(1, jar_of(&contract, "product").deposits.len());
    assert_eq!(0, jar_of(&contract, "product").deposits[0].created_at);
}

#[test]
fn restake_more_than_mature_is_refused() {
    let mut contract = context(vec![default_product()], vec![("product", jar(&[(0, 1_000)]))]);

    let result = contract.restake(
        &"alice".to_string(),
        &"product".to_string(),
        &ticket("product"),
        &None,
        Some(1_001),
        &ScoreRecord::new(),
        MS_IN_YEAR + 1,
        &OWNER.to_string(),
    );
    assert_eq!(result.unwrap_err(), ContractError::Restake(RestakeError::NotEnoughFunds));
}

#[test]
fn restake_from_locked_jar_is_refused() {
    let mut locked = jar(&[(0, 1_000)]);
    locked.is_pending_withdraw = true;
    let mut contract = context(vec![default_product()], vec![("product", locked)]);

    let result = restake(&mut contract, "alice", "product", &ticket("product"), None, MS_IN_YEAR + 1);
    assert_eq!(result.unwrap_err(), ContractError::Restake(RestakeError::Locked));
}

#[test]
fn restake_all_shares_the_fee_rounding_up() {
    let cap = Cap { min: 100, max: 1_000_000 };
    let product_a = ProductV2 { withdrawal_fee: Some(WithdrawalFee::Fix(10)), cap, ..product("a", UDecimal::new(1, 1)) };
    let product_b = ProductV2 { withdrawal_fee: Some(WithdrawalFee::Fix(5)), cap, ..product("b", UDecimal::new(1, 1)) };
    let mut contract = context(vec![product_a, product_b], vec![("a", jar(&[(0, 600)])), ("b", jar(&[(0, 400)]))]);

    let outcome = restake_all(&mut contract, "alice", &ticket("a"), Some(667), MS_IN_YEAR + 1).unwrap();
    let request = match outcome {
        RestakeOutcome::TransferRemainder(request) => request,
        RestakeOutcome::Done => panic!("a remainder must be paid out"),
    };
    // 333 of 1000 go out: the fee is ceil(15 * 333 / 1000) = 5
    let withdrawal = request.withdrawal.unwrap();
    assert_eq!(333, withdrawal.amount);
    assert_eq!(5, withdrawal.fee);

    contract.after_transfer_remainder(request, true, MS_IN_YEAR + 1);
    assert_eq!(5, contract.fee_amount);
    assert_eq!(0, jar_of(&contract, "b").deposits.len());
    assert_eq!(667, jar_of(&contract, "a").deposits.last().unwrap().principal);
}

#[test]
fn restake_all_of_large_balances_computes_the_fee_on_the_payout_only() {
    let token: u128 = 1_000_000_000_000_000_000;
    let fee_product = ProductV2 {
        withdrawal_fee: Some(WithdrawalFee::Percent(UDecimal::new(1, 2))),
        ..default_product()
    };
    let jar = jar(&[(0, 200 * token)]);
    let contract = context(vec![fee_product], vec![("product", jar)]);
    let now = MS_IN_YEAR * 2;
    let alice = "alice".to_string();

    // a full restake pays nothing out, and the fee times the balance leaves `u128`
    assert!(contract.is_restake_all_computable(&alice, None, now));
    assert!(contract.is_restake_all_computable(&alice, Some(200 * token), now));
    // a small payout keeps the fee share within range
    assert!(contract.is_restake_all_computable(&alice, Some(199 * token), now));
    // paying all of it out multiplies the whole fee by the whole balance
    assert!(!contract.is_restake_all_computable(&alice, Some(0), now));
    assert!(contract.is_restake_computable(&alice, &"product".to_string(), Some(0), now));

    let mut contract = contract;
    let outcome = restake_all(&mut contract, "alice", &ticket("product"), None, now).unwrap();
    assert!(matches!(outcome, RestakeOutcome::Done));
    assert_eq!(200 * token, jar_of(&contract, "product").deposits.last().unwrap().principal);
}
