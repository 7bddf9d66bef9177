use crypto_hash::{digest, Algorithm};
use ed25519_dalek::{Signer, SigningKey, VerifyingKey};

use sweat_jar::common::MS_IN_DAY;
use sweat_jar::contract::{Contract, ContractError, DepositTicket};
use sweat_jar::decimal::UDecimal;
use sweat_jar::product::{Apy, Cap};
use sweat_jar::product_v2::{FixedProductTerms, ProductV2, Terms};
use sweat_jar::signature::{get_signature_material, verify_ticket, TicketError};

struct MessageSigner {
    signing_key: SigningKey,
}

impl MessageSigner {
    fn new(seed: u8) -> Self {
        MessageSigner { signing_key: SigningKey::from_bytes(&[seed; 32]) }
    }

    fn sign(&self, message: &str) -> Vec<u8> {
        let hash = digest(Algorithm::SHA256, message.as_bytes());
        self.signing_key.sign(hash.as_slice()).to_bytes().to_vec()
    }

    fn public_key(&self) -> Vec<u8> {
        self.signing_key.verifying_key().to_bytes().to_vec()
    }
}

fn material(receiver: &str, product_id: &str, amount: u128, valid_until: u64) -> String {
    get_signature_material(
        &"owner".to_string(),
        &receiver.to_string(),
        &product_id.to_string(),
        amount,
        None,
        valid_until,
    )
}

fn premium_product(id: &str, signer: &MessageSigner) -> ProductV2 {
    ProductV2 {
        id: id.to_string(),
        cap: Cap { min: 0, max: 1_000_000_000_000 },
        terms: Terms::Fixed(FixedProductTerms { lockup_term: 31_536_000_000, apy: Apy::Constant(UDecimal::new(12, 2)) }),
        withdrawal_fee: None,
        public_key: Some(signer.public_key()),
        is_enabled: true,
        is_restakable: true,
    }
}

#[test]
fn tests_verify_ticket_with_valid_signature_and_date() {
    let signer = MessageSigner::new(7);
    let amount = 14_000_000;
    let text = material("admin", "premium_product", amount, 123000000);
    let signature = signer.sign(&text);

    let result = verify_ticket(&Some(signer.public_key()), &Some(signature), 0, 123000000, &text);
    assert_eq!(result, Ok(()));
}

#[test]
fn tests_verify_ticket_with_invalid_signature() {
    let signer = MessageSigner::new(7);
    let text = material("alice", "premium_product", 1_000_000, 100000000);

    let result = verify_ticket(&Some(signer.public_key()), &Some(vec![0, 1, 2]), 0, 100000000, &text);
    assert_eq!(result, Err(TicketError::SignatureLength));
}

#[test]
fn tests_verify_ticket_with_not_matching_signature() {
    let signer = MessageSigner::new(7);
    let another_signer = MessageSigner::new(9);
    let amount = 15_000_000;
    let text = material("admin", "another_premium_product", amount, 100000000);
    // signed by the key of another product
    let signature = signer.sign(&text);

    let result = verify_ticket(&Some(another_signer.public_key()), &Some(signature), 0, 100000000, &text);
    assert_eq!(
        result,
        Err(TicketError::NotMatchingSignature("owner,admin,another_premium_product,15000000,,100000000".to_string()))
    );
}

#[test]
fn tests_verify_ticket_with_invalid_date() {
    let signer = MessageSigner::new(7);
    let text = material("alice", "premium_product", 5_000_000, 100000000);
    let signature = signer.sign(&text);

    let result = verify_ticket(&Some(signer.public_key()), &Some(signature), 365 * MS_IN_DAY, 100000000, &text);
    assert_eq!(result, Err(TicketError::Outdated));
}

#[test]
fn tests_verify_ticket_with_not_existing_product() {
    let signer = MessageSigner::new(7);
    let mut contract = Contract::new("token".to_string(), "fee".to_string(), "previous".to_string());
    let ticket = DepositTicket { product_id: "not_existing_product".to_string(), valid_until: 100000000, timezone: None };
    let text = material("admin", "not_existing_product", 500_000, 100000000);
    let signature = signer.sign(&text);

    let result = contract.deposit(&"admin".to_string(), &ticket, 500_000, &Some(signature), 0, &"owner".to_string());
    assert_eq!(result, Err(ContractError::ProductNotFound("not_existing_product".to_string())));
}

#[test]
fn tests_verify_ticket_without_signature_when_required() {
    let signer = MessageSigner::new(7);
    let text = material("admin", "premium_product", 3_000_000, 100000000);

    let result = verify_ticket(&Some(signer.public_key()), &None, 0, 100000000, &text);
    assert_eq!(result, Err(TicketError::SignatureRequired));
}

#[test]
fn tests_verify_ticket_without_signature_when_not_required() {
    let text = material("admin", "product", 4_000_000_000, 0);

    let result = verify_ticket(&None, &None, 10, 0, &text);
    assert_eq!(result, Ok(()));
}

#[test]
fn signature_material_lists_fields_in_order() {
    let text = get_signature_material(
        &"owner".to_string(),
        &"alice".to_string(),
        &"product".to_string(),
        1_000_000,
        Some(3),
        1700000000000,
    );
    assert_eq!(text, "owner,alice,product,1000000,3,1700000000000");
}

#[test]
fn malformed_public_key_is_refused() {
    let signer = MessageSigner::new(7);
    let text = material("alice", "product", 1, 10);
    let signature = signer.sign(&text);

    let result = verify_ticket(&Some(vec![1, 2, 3]), &Some(signature), 0, 10, &text);
    assert_eq!(result, Err(TicketError::PublicKeyLength));
}

#[test]
fn signed_deposit_uses_up_the_nonce() {
    let signer = MessageSigner::new(11);
    let product = premium_product("premium_product", &signer);
    let mut contract = Contract::new("token".to_string(), "fee".to_string(), "previous".to_string());
    contract.register_product(product).unwrap();

    let ticket = DepositTicket { product_id: "premium_product".to_string(), valid_until: 1_000, timezone: None };
    let signed = |nonce: Option<u32>| {
        signer.sign(&get_signature_material(
            &"owner".to_string(),
            &"alice".to_string(),
            &"premium_product".to_string(),
            500,
            nonce,
            1_000,
        ))
    };

    let owner = "owner".to_string();
    let alice = "alice".to_string();
    // an account that does not exist yet signs an empty nonce
    assert!(matches!(
        contract.deposit(&alice, &ticket, 500, &Some(signed(Some(0))), 10, &owner),
        Err(ContractError::Ticket(TicketError::NotMatchingSignature(_)))
    ));
    assert_eq!(contract.deposit(&alice, &ticket, 500, &Some(signed(None)), 10, &owner), Ok(()));
    // the same signature cannot be used twice
    assert_eq!(
        contract.deposit(&alice, &ticket, 500, &Some(signed(None)), 20, &owner),
        Err(ContractError::Ticket(TicketError::NotMatchingSignature("owner,alice,premium_product,500,1,1000".to_string())))
    );
    assert_eq!(contract.deposit(&alice, &ticket, 500, &Some(signed(Some(1))), 20, &owner), Ok(()));
}

#[test]
fn deposit_with_valid_signature_for_a_new_account() {
    let signer = MessageSigner::new(7);
    let mut contract = Contract::new("token".to_string(), "fee".to_string(), "previous".to_string());
    contract.register_product(premium_product("premium_product", &signer)).unwrap();
    let amount = 14_000_000;
    let ticket = DepositTicket { product_id: "premium_product".to_string(), valid_until: 123000000, timezone: None };
    let signature = signer.sign(&material("admin", "premium_product", amount, 123000000));

    let result = contract.deposit(&"admin".to_string(), &ticket, amount, &Some(signature), 0, &"owner".to_string());
    assert_eq!(result, Ok(()));
    assert_eq!(contract.get_account(&"admin".to_string()).unwrap().nonce, 1);
}

#[test]
fn deposit_with_not_matching_signature_reports_the_material() {
    let signer = MessageSigner::new(7);
    let mut contract = Contract::new("token".to_string(), "fee".to_string(), "previous".to_string());
    contract.register_product(premium_product("premium_product", &signer)).unwrap();
    contract.register_product(premium_product("another_premium_product", &MessageSigner::new(9))).unwrap();
    let amount = 15_000_000;
    let ticket = DepositTicket { product_id: "another_premium_product".to_string(), valid_until: 100000000, timezone: None };
    // signed for the other product's ticket, by the key of the first product
    let signature = signer.sign(&material("admin", "another_premium_product", amount, 100000000));

    let result = contract.deposit(&"admin".to_string(), &ticket, amount, &Some(signature), 0, &"owner".to_string());
    assert_eq!(
        result,
        Err(ContractError::Ticket(TicketError::NotMatchingSignature(
            "owner,admin,another_premium_product,15000000,,100000000".to_string()
        )))
    );
    assert!(contract.accounts.is_empty());
}

#[test]
fn public_key_validity_follows_the_curve() {
    let mut invalid = 0;
    for seed in 0..=255u8 {
        let bytes = [seed; 32];
        let expected = VerifyingKey::from_bytes(&bytes).is_ok();
        let product = ProductV2 { public_key: Some(bytes.to_vec()), ..premium_product("product", &MessageSigner::new(1)) };
        let mut contract = Contract::new("token".to_string(), "fee".to_string(), "previous".to_string());
        let result = contract.register_product(product);
        if expected {
            assert_eq!(result, Ok(()));
        } else {
            invalid += 1;
            assert_eq!(result, Err(ContractError::Product(sweat_jar::product::ProductError::PublicKeyInvalid)));
        }
    }
    assert!(invalid > 0);
}

#[test]
fn tests_create_jar_for_disabled_product() {
    let signer = MessageSigner::new(7);
    let product = ProductV2 { public_key: None, is_enabled: false, ..premium_product("product", &signer) };
    let mut contract = Contract::new("token".to_string(), "fee".to_string(), "previous".to_string());
    contract.register_product(product).unwrap();

    let ticket = DepositTicket { product_id: "product".to_string(), valid_until: 0, timezone: None };
    let result = contract.deposit(&"alice".to_string(), &ticket, 1_000_000, &None, 0, &"owner".to_string());
    assert_eq!(result, Err(ContractError::Product(sweat_jar::product::ProductError::Disabled)));
    assert!(contract.accounts.is_empty());
}
