use sweat_jar::account::{AccountJars, AccountScore, AccountJarsVersioned, JarsError};
use sweat_jar::account_v2::{AccountError, AccountV1, ProductJar};
use sweat_jar::common::{MS_IN_DAY, MS_IN_YEAR};
use sweat_jar::contract::{AccountEntry, Contract, ContractError};
use sweat_jar::decimal::{score_to_apy, UDecimal};
use sweat_jar::jar::{Jar, JarState, JarVersioned, ScoreRecord};
use sweat_jar::jar_v2::{Deposit, JarV2};
use sweat_jar::legacy::{map_legacy_account_with_score, migrating_account, AccountJarIndices, LegacyJarStores, CeFiJar, LegacyContract, MigrationError};
use sweat_jar::product::{Apy, Cap, FixedProductTerms as LegacyFixedTerms, Product, ProductError, Terms as LegacyTerms};
use sweat_jar::product_v2::{FixedProductTerms, FlexibleProductTerms, ProductV2, ScoreBasedProductTerms, Terms};
use sweat_jar::roles::Roles;
use sweat_jar::text::decimal_string;
use sweat_jar::view::create_synthetic_jar_id;

fn product(id: &str, apy: UDecimal) -> ProductV2 {
    ProductV2 {
        id: id.to_string(),
        cap: Cap { min: 0, max: 1_000_000_000_000 },
        terms: Terms::Fixed(FixedProductTerms { lockup_term: MS_IN_YEAR, apy: Apy::Constant(apy) }),
        withdrawal_fee: None,
        public_key: None,
        is_enabled: true,
        is_restakable: true,
    }
}

fn jar(deposits: &[(u64, u128)]) -> JarV2 {
    let mut jar = JarV2::new();
    for (created_at, principal) in deposits {
        jar.deposits.push(Deposit::new(*created_at, *principal));
    }
    jar
}

fn context(products: Vec<ProductV2>, jars: Vec<(&str, JarV2)>) -> Contract {
    let mut contract = Contract::new("token".to_string(), "fee".to_string(), "previous".to_string());
    for product in products {
        contract.register_product(product).unwrap();
    }
    let mut account = AccountV1::new();
    for (product_id, jar) in jars {
        account.jars.push(ProductJar { product_id: product_id.to_string(), jar });
    }
    contract.accounts.push(AccountEntry { account_id: "alice".to_string(), account });
    contract
}

fn legacy_product(id: &str) -> Product {
    Product {
        id: id.to_string(),
        apy: Apy::Constant(UDecimal::new(12, 2)),
        cap: Cap { min: 0, max: 1_000_000 },
        terms: LegacyTerms::Fixed(LegacyFixedTerms { lockup_term: MS_IN_YEAR, allows_top_up: false, allows_restaking: false }),
        withdrawal_fee: None,
        public_key: None,
        is_enabled: true,
        score_cap: 0,
    }
}

#[test]
fn migrate_products_by_authorized_account() {
    let mut contract = Contract::new("token".to_string(), "fee".to_string(), "previous".to_string());

    let ids = contract
        .migrate_products(&"previous".to_string(), vec![product("product_1", UDecimal::new(10, 2)), product("product_2", UDecimal::new(20, 2))])
        .unwrap();

    assert_eq!(2, contract.products.len());
    assert_eq!(ids, vec!["product_1".to_string(), "product_2".to_string()]);
}

#[test]
fn migrate_products_by_unauthorized_account() {
    let mut contract = Contract::new("token".to_string(), "fee".to_string(), "previous".to_string());

    let result = contract.migrate_products(&"alice".to_string(), vec![product("product_1", UDecimal::new(10, 2))]);
    assert_eq!(result.unwrap_err(), ContractError::MigrationNotAllowed);
    assert_eq!(0, contract.products.len());
}

#[test]
fn migrate_products_rejects_existing_product() {
    let mut contract = context(vec![product("product_1", UDecimal::new(10, 2))], vec![]);

    let result = contract.migrate_products(&"previous".to_string(), vec![product("product_1", UDecimal::new(10, 2))]);
    assert_eq!(result.unwrap_err(), ContractError::Product(ProductError::AlreadyExists));
}

#[test]
fn migrate_products_rejects_invalid_cap_order() {
    let mut contract = Contract::new("token".to_string(), "fee".to_string(), "previous".to_string());
    let invalid = ProductV2 { cap: Cap { min: 1_000, max: 100 }, ..product("product_1", UDecimal::new(10, 2)) };

    let result = contract.migrate_products(&"previous".to_string(), vec![invalid]);
    assert_eq!(result.unwrap_err(), ContractError::Product(ProductError::CapOrder));
}

#[test]
fn migrate_products_refuses_the_whole_batch() {
    let mut contract = Contract::new("token".to_string(), "fee".to_string(), "previous".to_string());
    let batch = vec![product("product_1", UDecimal::new(10, 2)), product("product_1", UDecimal::new(20, 2))];

    let result = contract.migrate_products(&"previous".to_string(), batch);
    assert_eq!(result.unwrap_err(), ContractError::Product(ProductError::AlreadyExists));
    assert_eq!(0, contract.products.len());
}

#[test]
fn migrate_products_takes_the_public_key_as_it_comes() {
    let mut contract = Contract::new("token".to_string(), "fee".to_string(), "previous".to_string());
    let with_short_key = ProductV2 { public_key: Some(vec![1, 2, 3]), ..product("product_1", UDecimal::new(10, 2)) };

    contract.migrate_products(&"previous".to_string(), vec![with_short_key]).unwrap();
    assert_eq!(1, contract.products.len());
}

#[test]
fn migrate_products_rejects_exponent_out_of_range() {
    let mut contract = Contract::new("token".to_string(), "fee".to_string(), "previous".to_string());
    let huge_exponent = product("product_1", UDecimal::new(10, 39));

    let result = contract.migrate_products(&"previous".to_string(), vec![huge_exponent]);
    assert_eq!(result.unwrap_err(), ContractError::Product(ProductError::ExponentOutOfRange));
    assert_eq!(0, contract.products.len());
}

#[test]
fn migrate_products_accepts_the_largest_exponent() {
    let mut contract = Contract::new("token".to_string(), "fee".to_string(), "previous".to_string());

    contract.migrate_products(&"previous".to_string(), vec![product("product_1", UDecimal::new(10, 38))]).unwrap();
    assert_eq!(1, contract.products.len());
}

#[test]
fn disable_migration_blocks_further_migration() {
    let mut contract = Contract::new("token".to_string(), "fee".to_string(), "previous".to_string());
    contract.disable_migration();
    assert_eq!(contract.previous_version_account_id, "system");

    let result = contract.migrate_products(&"previous".to_string(), vec![product("product_1", UDecimal::new(10, 2))]);
    assert_eq!(result.unwrap_err(), ContractError::MigrationNotAllowed);
}

#[test]
fn enable_migration_reopens_migration_after_disable() {
    let mut contract = Contract::new("token".to_string(), "fee".to_string(), "previous".to_string());
    contract.disable_migration();
    contract.enable_migration("previous".to_string());
    assert_eq!(contract.previous_version_account_id, "previous");

    contract.migrate_products(&"previous".to_string(), vec![product("product_1", UDecimal::new(10, 2))]).unwrap();
    assert_eq!(1, contract.products.len());
}

#[test]
fn unlock_jars_for_account_clears_every_lock() {
    let mut locked = jar(&[(0, 100)]);
    locked.is_pending_withdraw = true;
    let mut contract = context(
        vec![product("a", UDecimal::new(10, 2)), product("b", UDecimal::new(10, 2))],
        vec![("a", locked.clone()), ("b", locked)],
    );

    assert_eq!(contract.unlock_jars_for_account(&"alice".to_string()), Ok(()));
    let account = contract.get_account(&"alice".to_string()).unwrap();
    assert!(account.jars.iter().all(|j| !j.jar.is_pending_withdraw));
    assert_eq!(100, account.get_jar(&"a".to_string()).unwrap().deposits[0].principal);

    assert_eq!(
        contract.unlock_jars_for_account(&"bob".to_string()),
        Err(ContractError::AccountNotFound("bob".to_string()))
    );
}

#[test]
fn total_interest_lists_each_product() {
    let contract = context(
        vec![product("a", UDecimal::new(10, 2)), product("b", UDecimal::new(20, 2))],
        vec![("a", jar(&[(0, 1_000_000)])), ("b", jar(&[(0, 1_000_000)]))],
    );

    let view = contract.get_total_interest(&"alice".to_string(), &ScoreRecord::new(), MS_IN_YEAR);
    assert_eq!(view.detailed, vec![("a".to_string(), 100_000), ("b".to_string(), 200_000)]);
    assert_eq!(view.total, 300_000);
    assert_eq!(view.timestamp, MS_IN_YEAR);

    let empty = contract.get_total_interest(&"bob".to_string(), &ScoreRecord::new(), MS_IN_YEAR);
    assert!(empty.detailed.is_empty());
    assert_eq!(empty.total, 0);
    assert_eq!(empty.timestamp, 0);
}

#[test]
fn jars_for_account_show_each_deposit() {
    let contract = context(
        vec![product("a", UDecimal::new(10, 2)), product("b", UDecimal::new(20, 2))],
        vec![("a", jar(&[(5, 100), (7, 200)])), ("b", jar(&[(9, 300)]))],
    );

    let views = contract.get_jars_for_account(&"alice".to_string());
    let summary: Vec<(String, String, u64, u128)> =
        views.iter().map(|v| (v.id.clone(), v.product_id.clone(), v.created_at, v.principal)).collect();
    assert_eq!(
        summary,
        vec![
            ("a_5".to_string(), "a".to_string(), 5, 100),
            ("a_7".to_string(), "a".to_string(), 7, 200),
            ("b_9".to_string(), "b".to_string(), 9, 300),
        ]
    );
    assert!(contract.get_jars_for_account(&"bob".to_string()).is_empty());
}

#[test]
fn synthetic_jar_id_joins_product_and_time() {
    assert_eq!(create_synthetic_jar_id(&"product".to_string(), 1700000000000), "product_1700000000000");
    assert_eq!(create_synthetic_jar_id(&"".to_string(), 0), "_0");
}

#[test]
fn decimal_string_of_extremes() {
    assert_eq!(decimal_string(0), "0");
    assert_eq!(decimal_string(u128::MAX), u128::MAX.to_string());
}

#[test]
fn update_account_cache_only_touches_selected_jars() {
    let score_product = ProductV2 {
        terms: Terms::ScoreBased(ScoreBasedProductTerms { score_cap: 20_000, lockup_term: MS_IN_YEAR }),
        public_key: Some(ed25519_dalek::SigningKey::from_bytes(&[3; 32]).verifying_key().to_bytes().to_vec()),
        ..product("score", UDecimal::new(0, 0))
    };
    let flexible = ProductV2 {
        terms: Terms::Flexible(FlexibleProductTerms { apy: Apy::Constant(UDecimal::new(10, 2)) }),
        ..product("flex", UDecimal::new(0, 0))
    };
    let mut contract = context(vec![score_product, flexible], vec![("score", jar(&[(0, 1_000_000)])), ("flex", jar(&[(0, 1_000_000)]))]);
    let score = ScoreRecord { score: vec![10_000], updated: MS_IN_DAY };

    contract.update_account_cache(&"alice".to_string(), true, &score, 2 * MS_IN_DAY).unwrap();
    let account = contract.get_account(&"alice".to_string()).unwrap();
    assert!(account.get_jar(&"flex".to_string()).unwrap().cache.is_none());
    let cache = account.get_jar(&"score".to_string()).unwrap().cache.unwrap();
    assert_eq!(cache.updated_at, 2 * MS_IN_DAY);
    // a score of 10000 is a 10% APY, earned for one day
    assert_eq!(cache.interest, 1_000_000 * 10 / 100 * MS_IN_DAY as u128 / MS_IN_YEAR as u128);

    contract.update_account_cache(&"alice".to_string(), false, &score, MS_IN_YEAR).unwrap();
    let account = contract.get_account(&"alice".to_string()).unwrap();
    assert_eq!(account.get_jar(&"flex".to_string()).unwrap().cache.unwrap().interest, 100_000);
}

#[test]
fn migrate_jars_assigns_next_indices() {
    let mut legacy = LegacyContract { products: vec![legacy_product("product")], jars: vec![], account_jars: vec![] };
    let cefi = |id: &str, account: &str, principal: u128| CeFiJar {
        id: id.to_string(),
        account_id: account.to_string(),
        product_id: "product".to_string(),
        principal,
        created_at: 42,
    };

    let events = legacy
        .migrate_jars(vec![cefi("x", "alice", 100), cefi("y", "bob", 200), cefi("z", "alice", 300)], 600)
        .unwrap();

    assert_eq!(events.iter().map(|e| e.index).collect::<Vec<_>>(), vec![0, 1, 2]);
    assert_eq!(events[2].original_id, "z");
    assert_eq!(legacy.jars.len(), 3);
    assert_eq!(legacy.jars[1].account_id, "bob");
    assert_eq!(legacy.jars[1].principal, 200);
    assert!(legacy.jars.iter().all(|j| j.state == JarState::Active));
    let alice: &AccountJarIndices = legacy.account_jars.iter().find(|a| a.account_id == "alice").unwrap();
    assert_eq!(alice.indices, vec![0, 2]);
}

#[test]
fn withdrawn_closes_an_emptied_fixed_jar() {
    let product = legacy_product("product");
    let jar = Jar::create(0, "alice".to_string(), "product".to_string(), 1_000, 0);

    let partly = jar.withdrawn(&product, 400, MS_IN_YEAR);
    assert_eq!(partly.principal, 600);
    assert_eq!(partly.state, JarState::Active);

    let emptied = jar.withdrawn(&product, 1_000, MS_IN_YEAR);
    assert_eq!(emptied.principal, 0);
    assert_eq!(emptied.state, JarState::Closed);

    let flexible = Product { terms: LegacyTerms::Flexible, ..legacy_product("product") };
    assert_eq!(jar.withdrawn(&flexible, 1_000, MS_IN_YEAR).state, JarState::Active);
}

#[test]
fn migrate_jars_refuses_unknown_product_and_wrong_total() {
    let mut legacy = LegacyContract { products: vec![legacy_product("product")], jars: vec![], account_jars: vec![] };
    let unknown = CeFiJar {
        id: "x".to_string(),
        account_id: "alice".to_string(),
        product_id: "other".to_string(),
        principal: 1,
        created_at: 0,
    };
    assert_eq!(
        legacy.migrate_jars(vec![unknown], 1).unwrap_err(),
        MigrationError::ProductNotRegistered("other".to_string())
    );

    let known = CeFiJar {
        id: "x".to_string(),
        account_id: "alice".to_string(),
        product_id: "product".to_string(),
        principal: 1,
        created_at: 0,
    };
    assert_eq!(legacy.migrate_jars(vec![known], 2).unwrap_err(), MigrationError::TotalMismatch);
    assert!(legacy.jars.is_empty());
}

#[test]
fn migrating_account_merges_jars_by_product() {
    let mut first = Jar::create(1, "alice".to_string(), "a".to_string(), 100, 10);
    first.claimed_balance = 5;
    let mut second = Jar::create(2, "alice".to_string(), "b".to_string(), 200, 20);
    second.is_penalty_applied = true;
    let mut third = Jar::create(3, "alice".to_string(), "a".to_string(), 300, 30);
    third.claimed_balance = 7;
    let legacy = AccountJars { last_id: 3, jars: vec![first, second, third], score: AccountScore::invalid() };

    let (account, claimed) = migrating_account(&legacy).unwrap();
    assert_eq!(account.nonce, 3);
    assert!(account.is_penalty_applied);
    let a = account.get_jar(&"a".to_string()).unwrap();
    assert_eq!(a.deposits.iter().map(|d| (d.created_at, d.principal)).collect::<Vec<_>>(), vec![(10, 100), (30, 300)]);
    assert_eq!(claimed, vec![("a".to_string(), 12), ("b".to_string(), 0)]);
}

#[test]
fn migrating_account_refuses_locked_jar() {
    let mut jar = Jar::create(1, "alice".to_string(), "a".to_string(), 100, 10);
    jar.lock();
    let legacy = AccountJars { last_id: 1, jars: vec![jar], score: AccountScore::invalid() };

    assert_eq!(migrating_account(&legacy).unwrap_err(), AccountError::JarLocked);
}

#[test]
fn legacy_jar_lock_unlock_and_versions() {
    let mut jar = Jar::create(1, "alice".to_string(), "a".to_string(), 0, 10);
    assert!(jar.is_empty());
    jar.lock();
    assert!(jar.is_pending_withdraw);
    jar.unlock();
    assert!(!jar.is_pending_withdraw);

    let versioned = JarVersioned::V1(jar);
    assert_eq!(versioned.last().id, 1);

    let account = AccountJarsVersioned::V1(AccountJars { last_id: 0, jars: vec![], score: AccountScore::invalid() });
    assert!(!account.has_score_jars());
    assert!(account.score().is_none());
}

#[test]
fn roles_are_listed_in_order() {
    assert_eq!(
        Roles::all(),
        vec![
            Roles::Oracle,
            Roles::ProductManager,
            Roles::FeeManager,
            Roles::Maintainer,
            Roles::StagingManager,
            Roles::UpgradeManager,
        ]
    );
}

#[test]
fn score_converts_to_apy() {
    let apy = score_to_apy(12_000);
    assert_eq!(apy.mul(1_000_000), 120_000);
}

#[test]
fn set_penalty_downgrades_and_caches() {
    let downgradable = Product {
        apy: Apy::Downgradable(sweat_jar::product::DowngradableApy {
            default: UDecimal::new(20, 2),
            fallback: UDecimal::new(10, 2),
        }),
        ..legacy_product("premium")
    };
    let products = vec![downgradable, legacy_product("constant")];
    let mut account = AccountJars {
        last_id: 2,
        jars: vec![
            Jar::create(1, "alice".to_string(), "premium".to_string(), 1_000_000, 0),
            Jar::create(2, "alice".to_string(), "constant".to_string(), 1_000_000, 0),
        ],
        score: AccountScore::invalid(),
    };

    assert_eq!(account.set_penalty(&products, 1, true, MS_IN_YEAR / 2), Ok(()));
    let jar = &account.jars[0];
    assert!(jar.is_penalty_applied);
    assert_eq!(jar.cache.unwrap().interest, 100_000);
    // from here on the fallback APY applies
    assert_eq!(jar.get_interest(&ScoreRecord::new(), &products[0], MS_IN_YEAR).0, 150_000);

    assert_eq!(account.set_penalty(&products, 2, true, 0), Err(sweat_jar::account::JarsError::ConstantApy));
    assert_eq!(account.set_penalty(&products, 9, true, 0), Err(sweat_jar::account::JarsError::JarNotFound(9)));
}

#[test]
fn legacy_top_up_and_delete() {
    let refillable = Product {
        terms: LegacyTerms::Fixed(LegacyFixedTerms { lockup_term: MS_IN_YEAR, allows_top_up: true, allows_restaking: false }),
        ..legacy_product("refillable")
    };
    let products = vec![refillable, legacy_product("fixed")];
    let mut account = AccountJars {
        last_id: 2,
        jars: vec![
            Jar::create(1, "alice".to_string(), "refillable".to_string(), 100_000, 0),
            Jar::create(2, "alice".to_string(), "fixed".to_string(), 100_000, 0),
        ],
        score: AccountScore::invalid(),
    };

    assert_eq!(account.top_up(&products, 1, 50_000, MS_IN_YEAR / 2), Ok(150_000));
    assert_eq!(account.get_jar(1).unwrap().cache.unwrap().interest, 6_000);
    assert_eq!(account.top_up(&products, 2, 1, 0), Err(sweat_jar::account::JarsError::TopUpNotAllowed));
    assert_eq!(
        account.top_up(&products, 1, 900_000, 0),
        Err(sweat_jar::account::JarsError::OutOfBounds { min: 0, max: 1_000_000 })
    );

    assert_eq!(account.delete_jar(1), Ok(()));
    assert_eq!(account.jars.len(), 1);
    assert_eq!(account.jars[0].id, 2);
    assert_eq!(account.delete_jar(7), Err(sweat_jar::account::JarsError::JarNotFound(7)));
    assert_eq!(account.delete_jar(2), Ok(()));
    assert_eq!(account.delete_jar(2), Err(sweat_jar::account::JarsError::NoJars));
}

#[test]
fn legacy_jar_copies() {
    let product = legacy_product("fixed");
    let jar = Jar::create(1, "alice".to_string(), "fixed".to_string(), 100_000, 0);

    assert!(jar.locked().is_pending_withdraw);
    assert!(!jar.locked().unlocked().is_pending_withdraw);
    assert!(jar.with_penalty_applied(true).is_penalty_applied);

    let topped = jar.topped_up(50_000, &product, MS_IN_YEAR / 2);
    assert_eq!(topped.principal, 150_000);
    assert_eq!(topped.cache.unwrap().interest, 6_000);

    let claimed = topped.claimed(6_000, 4_000, MS_IN_YEAR / 2);
    assert_eq!(claimed.claimed_balance, 4_000);
    assert_eq!(claimed.cache.unwrap().interest, 2_000);
}

#[test]
fn map_legacy_account_with_score_caches_interest_per_product() {
    let products = vec![legacy_product("a"), legacy_product("b")];
    let mut first = Jar::create(1, "alice".to_string(), "a".to_string(), 1_000_000, 0);
    first.is_penalty_applied = true;
    let second = Jar::create(2, "alice".to_string(), "a".to_string(), 1_000_000, 0);
    let third = Jar::create(3, "alice".to_string(), "b".to_string(), 500_000, 0);
    let value = AccountJars { last_id: 3, jars: vec![first, second, third], score: AccountScore::invalid() };
    let migrated = AccountScore::new(0, 7);

    let (account, total) =
        map_legacy_account_with_score(&value, &products, migrated, &ScoreRecord::new(), MS_IN_YEAR / 2).unwrap();

    assert_eq!(total, 2_500_000);
    assert_eq!(account.jars.iter().map(|pj| pj.product_id.as_str()).collect::<Vec<_>>(), vec!["a", "b"]);
    assert_eq!(account.nonce, 0);
    assert_eq!(account.score, migrated);
    assert!(account.is_penalty_applied);
    let a = account.get_jar(&"a".to_string()).unwrap();
    assert_eq!(a.deposits, vec![Deposit::new(0, 1_000_000), Deposit::new(0, 1_000_000)]);
    // 12% for half a year on each million
    assert_eq!(a.cache.unwrap().interest, 120_000);
    assert_eq!(a.cache.unwrap().updated_at, MS_IN_YEAR / 2);
    assert_eq!(a.claim_remainder, 0);
    let b = account.get_jar(&"b".to_string()).unwrap();
    assert_eq!(b.cache.unwrap().interest, 30_000);
}

#[test]
fn map_legacy_account_with_score_refuses_locked_or_unknown_jars() {
    let products = vec![legacy_product("a")];
    let mut locked = Jar::create(1, "alice".to_string(), "a".to_string(), 100, 0);
    locked.is_pending_withdraw = true;
    let value = AccountJars { last_id: 1, jars: vec![locked], score: AccountScore::invalid() };
    assert_eq!(
        map_legacy_account_with_score(&value, &products, AccountScore::invalid(), &ScoreRecord::new(), 10).unwrap_err(),
        ContractError::Account(AccountError::JarLocked)
    );

    let unknown = Jar::create(1, "alice".to_string(), "x".to_string(), 100, 0);
    let value = AccountJars { last_id: 1, jars: vec![unknown], score: AccountScore::invalid() };
    assert_eq!(
        map_legacy_account_with_score(&value, &products, AccountScore::invalid(), &ScoreRecord::new(), 10).unwrap_err(),
        ContractError::ProductNotFound("x".to_string())
    );
}

#[test]
fn get_jar_internal_looks_in_each_store_in_turn() {
    let holding = |ids: &[u32]| AccountJars {
        last_id: 0,
        jars: ids.iter().map(|id| Jar::create(*id, "x".to_string(), "a".to_string(), *id as u128 * 100, 0)).collect(),
        score: AccountScore::invalid(),
    };
    let stores = LegacyJarStores {
        account_jars_v1: vec![("alice".to_string(), holding(&[1]))],
        account_jars_non_versioned: vec![("alice".to_string(), holding(&[2])), ("bob".to_string(), holding(&[3]))],
        accounts: vec![
            ("bob".to_string(), AccountJarsVersioned::V1(holding(&[4]))),
            ("carol".to_string(), AccountJarsVersioned::V1(holding(&[5]))),
        ],
    };

    assert_eq!(stores.get_jar_internal(&"alice".to_string(), 1).unwrap().principal, 100);
    // the first store that holds alice answers, though it lacks the jar
    assert_eq!(stores.get_jar_internal(&"alice".to_string(), 2).unwrap_err(), JarsError::JarNotFound(2));
    assert_eq!(stores.get_jar_internal(&"bob".to_string(), 3).unwrap().principal, 300);
    assert_eq!(stores.get_jar_internal(&"carol".to_string(), 5).unwrap().principal, 500);
    assert_eq!(
        stores.get_jar_internal(&"dave".to_string(), 1).unwrap_err(),
        JarsError::AccountNotFound("dave".to_string())
    );
}

#[test]
fn jars_for_account_fall_back_to_the_archive() {
    let mut contract = context(vec![product("a", UDecimal::new(10, 2))], vec![("a", jar(&[(5, 100)]))]);
    let archived = AccountJars {
        last_id: 7,
        jars: vec![Jar::create(7, "bob".to_string(), "old".to_string(), 250, 3)],
        score: AccountScore::invalid(),
    };
    contract.archive.push(("bob".to_string(), archived.clone()));
    contract.archive.push(("alice".to_string(), archived));

    let bob = contract.get_jars_for_account(&"bob".to_string());
    assert_eq!(bob.len(), 1);
    assert_eq!((bob[0].id.as_str(), bob[0].product_id.as_str(), bob[0].created_at, bob[0].principal), ("7", "old", 3, 250));
    // an account of the current layout is shown from it, not from the archive
    let alice = contract.get_jars_for_account(&"alice".to_string());
    assert_eq!(alice.len(), 1);
    assert_eq!(alice[0].id, "a_5");
    assert!(contract.get_jars_for_account(&"carol".to_string()).is_empty());
}

#[test]
fn total_interest_falls_back_to_the_archive() {
    let mut contract = context(vec![product("a", UDecimal::new(10, 2))], vec![]);
    let archived = AccountJars {
        last_id: 2,
        jars: vec![
            Jar::create(1, "bob".to_string(), "a".to_string(), 600_000, 0),
            Jar::create(2, "bob".to_string(), "a".to_string(), 400_000, 0),
        ],
        score: AccountScore::invalid(),
    };
    contract.archive.push(("bob".to_string(), archived));

    let view = contract.get_total_interest(&"bob".to_string(), &ScoreRecord::new(), MS_IN_YEAR);
    assert_eq!(view.detailed, vec![("a".to_string(), 100_000)]);
    assert_eq!(view.total, 100_000);
    assert_eq!(view.timestamp, MS_IN_YEAR);
}

#[test]
fn interest_of_an_account_is_computable_unless_a_product_is_missing() {
    let contract = context(vec![product("a", UDecimal::new(10, 2))], vec![("a", jar(&[(0, 1_000_000)]))]);
    let account = contract.get_account(&"alice".to_string()).unwrap();
    assert!(contract.is_interest_computable_for(account, &ScoreRecord::new(), MS_IN_YEAR));

    let mut stray = AccountV1::new();
    stray.jars.push(ProductJar { product_id: "unknown".to_string(), jar: jar(&[(0, 1)]) });
    assert!(!contract.is_interest_computable_for(&stray, &ScoreRecord::new(), MS_IN_YEAR));
}
