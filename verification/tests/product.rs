use ed25519_dalek::SigningKey;

use sweat_jar::common::MS_IN_YEAR;
use sweat_jar::contract::{Contract, ContractError};
use sweat_jar::decimal::UDecimal;
use sweat_jar::product::{
    Apy, Cap, DowngradableApy, FixedProductTerms as LegacyFixedTerms, Product, ProductError, Terms as LegacyTerms,
    WithdrawalFee,
};
use sweat_jar::product_v2::{FixedProductTerms, FlexibleProductTerms, ProductV2, ScoreBasedProductTerms, Terms};

fn public_key(seed: u8) -> Vec<u8> {
    SigningKey::from_bytes(&[seed; 32]).verifying_key().to_bytes().to_vec()
}

fn legacy_product() -> Product {
    Product {
        id: "product".to_string(),
        apy: Apy::Constant(UDecimal::new(12, 2)),
        cap: Cap { min: 100, max: 100_000_000_000 },
        terms: LegacyTerms::Fixed(LegacyFixedTerms {
            lockup_term: 365 * 24 * 60 * 60 * 1000,
            allows_top_up: false,
            allows_restaking: false,
        }),
        withdrawal_fee: None,
        public_key: None,
        is_enabled: true,
        score_cap: 0,
    }
}

fn default_product(id: &str) -> ProductV2 {
    ProductV2 {
        id: id.to_string(),
        cap: Cap { min: 0, max: 100_000_000_000_000_000_000_000_000 },
        terms: Terms::Fixed(FixedProductTerms { lockup_term: MS_IN_YEAR, apy: Apy::Constant(UDecimal::new(12, 2)) }),
        withdrawal_fee: None,
        public_key: None,
        is_enabled: true,
        is_restakable: true,
    }
}

fn generate_product() -> ProductV2 {
    ProductV2 { cap: Cap { min: 100, max: 100_000_000_000 }, ..default_product("product") }
}

fn contract_with(products: Vec<ProductV2>) -> Contract {
    let mut contract = Contract::new("token".to_string(), "fee".to_string(), "previous".to_string());
    for product in products {
        contract.register_product(product).unwrap();
    }
    contract
}

fn register_product(product: ProductV2) -> Result<ProductV2, ContractError> {
    let mut contract = contract_with(vec![]);
    let id = product.id.clone();
    contract.register_product(product)?;
    Ok(contract.get_product(&id).unwrap().clone())
}

#[test]
fn product_assert_cap_in_bounds() {
    assert_eq!(legacy_product().check_cap(200), Ok(()));
}

#[test]
fn product_assert_cap_less_than_min() {
    assert_eq!(legacy_product().check_cap(10), Err(ProductError::OutOfBounds { min: 100, max: 100_000_000_000 }));
}

#[test]
fn product_assert_cap_more_than_max() {
    assert_eq!(
        legacy_product().check_cap(500_000_000_000),
        Err(ProductError::OutOfBounds { min: 100, max: 100_000_000_000 })
    );
}

#[test]
fn mod_disable_product_when_enabled() {
    let mut contract = contract_with(vec![ProductV2::from_legacy(legacy_product())]);
    assert!(contract.get_product(&"product".to_string()).unwrap().is_enabled);

    assert_eq!(contract.set_enabled(&"product".to_string(), false), Ok(()));
    assert!(!contract.get_product(&"product".to_string()).unwrap().is_enabled);
}

#[test]
fn mod_enable_product_when_enabled() {
    let mut contract = contract_with(vec![ProductV2::from_legacy(legacy_product())]);

    assert_eq!(
        contract.set_enabled(&"product".to_string(), true),
        Err(ContractError::Product(ProductError::StatusMatches))
    );
}

#[test]
fn mod_register_product_with_existing_id() {
    let mut contract = contract_with(vec![ProductV2::from_legacy(legacy_product())]);

    assert_eq!(
        contract.register_product(ProductV2::from_legacy(legacy_product())),
        Err(ContractError::Product(ProductError::AlreadyExists))
    );
}

#[test]
fn mod_set_public_key() {
    let product = Product { public_key: Some(public_key(1)), ..legacy_product() };
    let mut contract = contract_with(vec![ProductV2::from_legacy(product)]);

    let new_pk = public_key(2);
    assert_eq!(contract.set_public_key(&"product".to_string(), new_pk.clone()), Ok(()));
    assert_eq!(contract.get_product(&"product".to_string()).unwrap().public_key, Some(new_pk));
}

#[test]
fn mod_assert_cap_in_bounds() {
    assert_eq!(ProductV2::from_legacy(legacy_product()).check_cap(200), Ok(()));
}

#[test]
fn mod_assert_cap_less_than_min() {
    assert_eq!(
        ProductV2::from_legacy(legacy_product()).check_cap(10),
        Err(ProductError::OutOfBounds { min: 100, max: 100_000_000_000 })
    );
}

#[test]
fn mod_assert_cap_more_than_max() {
    assert_eq!(
        ProductV2::from_legacy(legacy_product()).check_cap(500_000_000_000),
        Err(ProductError::OutOfBounds { min: 100, max: 100_000_000_000 })
    );
}

#[test]
fn tests_disable_product_when_enabled() {
    let mut contract = contract_with(vec![default_product("product")]);
    assert!(contract.get_product(&"product".to_string()).unwrap().is_enabled);

    assert_eq!(contract.set_enabled(&"product".to_string(), false), Ok(()));
    assert!(!contract.get_product(&"product".to_string()).unwrap().is_enabled);
}

#[test]
fn tests_enable_product_when_enabled() {
    let mut contract = contract_with(vec![default_product("product")]);

    assert_eq!(
        contract.set_enabled(&"product".to_string(), true),
        Err(ContractError::Product(ProductError::StatusMatches))
    );
}

#[test]
fn tests_register_product_with_existing_id() {
    let mut contract = contract_with(vec![default_product("product")]);

    assert_eq!(
        contract.register_product(default_product("product")),
        Err(ContractError::Product(ProductError::AlreadyExists))
    );
}

#[test]
fn register_downgradable_product() {
    let apy = Apy::Downgradable(DowngradableApy { default: UDecimal::new(12, 2), fallback: UDecimal::new(10, 3) });
    let product = register_product(ProductV2 {
        terms: Terms::Fixed(FixedProductTerms { lockup_term: MS_IN_YEAR, apy }),
        ..default_product("downgradable_product")
    })
    .unwrap();

    assert_eq!(product.terms, Terms::Fixed(FixedProductTerms { lockup_term: MS_IN_YEAR, apy }));
}

#[test]
fn register_product_with_too_high_fixed_fee() {
    let result = register_product(ProductV2 {
        withdrawal_fee: Some(WithdrawalFee::Fix(200)),
        ..default_product("product_with_fixed_fee")
    });

    assert_eq!(result.unwrap_err(), ContractError::Product(ProductError::FeeTooHigh));
}

#[test]
fn register_product_with_too_high_percent_fee() {
    let result = register_product(ProductV2 {
        withdrawal_fee: Some(WithdrawalFee::Percent(UDecimal::new(100, 0))),
        ..default_product("product_with_fixed_fee")
    });

    assert_eq!(result.unwrap_err(), ContractError::Product(ProductError::FeeTooHigh));
}

#[test]
fn register_product_with_fee() {
    let product = register_product(ProductV2 {
        withdrawal_fee: Some(WithdrawalFee::Fix(10)),
        cap: Cap { min: 20, max: 10_000_000_000_000_000_000_000_000 },
        ..default_product("product_with_fixed_fee")
    })
    .unwrap();
    assert_eq!(product.withdrawal_fee, Some(WithdrawalFee::Fix(10)));

    let product = register_product(ProductV2 {
        withdrawal_fee: Some(WithdrawalFee::Percent(UDecimal::new(12, 2))),
        ..default_product("product_with_percent_fee")
    })
    .unwrap();
    assert_eq!(product.withdrawal_fee, Some(WithdrawalFee::Percent(UDecimal::new(12, 2))));
}

#[test]
fn register_product_with_flexible_terms() {
    let product = register_product(ProductV2 {
        terms: Terms::Flexible(FlexibleProductTerms { apy: Apy::Constant(UDecimal::new(12, 2)) }),
        ..default_product("product_with_fixed_fee")
    })
    .unwrap();

    assert!(matches!(product.terms, Terms::Flexible(_)));
}

#[test]
fn tests_set_public_key() {
    let product = ProductV2 { public_key: Some(public_key(3)), ..generate_product() };
    let mut contract = contract_with(vec![product]);

    let new_pk = public_key(4);
    assert_eq!(contract.set_public_key(&"product".to_string(), new_pk.clone()), Ok(()));
    assert_eq!(contract.get_product(&"product".to_string()).unwrap().public_key, Some(new_pk));
}

#[test]
fn tests_assert_cap_in_bounds() {
    assert_eq!(generate_product().check_cap(200), Ok(()));
}

#[test]
fn tests_assert_cap_less_than_min() {
    assert_eq!(generate_product().check_cap(10), Err(ProductError::OutOfBounds { min: 100, max: 100_000_000_000 }));
}

#[test]
fn tests_assert_cap_more_than_max() {
    assert_eq!(
        generate_product().check_cap(500_000_000_000),
        Err(ProductError::OutOfBounds { min: 100, max: 100_000_000_000 })
    );
}

#[test]
fn register_score_based_product_with_signature() {
    let mut contract = contract_with(vec![]);
    let product = ProductV2 {
        id: "score_based_product".to_string(),
        cap: Cap { min: 0, max: 1_000_000 },
        terms: Terms::ScoreBased(ScoreBasedProductTerms { lockup_term: MS_IN_YEAR, score_cap: 30_000 }),
        withdrawal_fee: None,
        public_key: Some(public_key(5)),
        is_enabled: true,
        is_restakable: true,
    };
    assert_eq!(contract.register_product(product), Ok(()));
    assert_eq!(contract.products[0].id, "score_based_product");
}

#[test]
fn register_score_based_product_without_signature() {
    let product = ProductV2 {
        id: "score_based_product".to_string(),
        cap: Cap { min: 0, max: 1_000_000 },
        terms: Terms::ScoreBased(ScoreBasedProductTerms { lockup_term: MS_IN_YEAR, score_cap: 30_000 }),
        withdrawal_fee: None,
        public_key: None,
        is_enabled: true,
        is_restakable: true,
    };

    assert_eq!(register_product(product).unwrap_err(), ContractError::Product(ProductError::ScoreProductUnprotected));
}

#[test]
fn register_product_with_inverted_cap() {
    let product = ProductV2 { cap: Cap { min: 1_000_000, max: 100 }, ..default_product("inverted_cap_product") };

    assert_eq!(register_product(product).unwrap_err(), ContractError::Product(ProductError::CapOrder));
}

#[test]
fn register_product_with_malformed_public_key() {
    let product = ProductV2 { public_key: Some(vec![1, 2, 3]), ..default_product("product") };

    assert_eq!(register_product(product).unwrap_err(), ContractError::Product(ProductError::PublicKeyLength));
}
