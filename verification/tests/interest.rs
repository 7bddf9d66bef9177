use fake::Fake;

use sweat_jar::common::{MS_IN_DAY, MS_IN_YEAR};
use sweat_jar::decimal::UDecimal;
use sweat_jar::jar::{Jar, ScoreRecord};
use sweat_jar::jar_v2::{Deposit, JarV2};
use sweat_jar::product::{Apy, Cap, FixedProductTerms as LegacyFixedTerms, Product, Terms as LegacyTerms};
use sweat_jar::product_v2::{FixedProductTerms, FlexibleProductTerms, InterestContext, Terms};

fn context() -> InterestContext {
    InterestContext { is_penalty_applied: false, score: ScoreRecord::new() }
}

fn jar_with(deposits: &[(u64, u128)]) -> JarV2 {
    let mut jar = JarV2::new();
    for (created_at, principal) in deposits {
        jar.deposits.push(Deposit::new(*created_at, *principal));
    }
    jar
}

fn legacy_product(apy: Apy, lockup_term: u64) -> Product {
    Product {
        id: "product".to_string(),
        apy,
        cap: Cap { min: 0, max: 1_000_000 },
        terms: LegacyTerms::Fixed(LegacyFixedTerms { lockup_term, allows_top_up: false, allows_restaking: false }),
        withdrawal_fee: None,
        public_key: None,
        is_enabled: true,
        score_cap: 0,
    }
}

fn legacy_jar(principal: u128) -> Jar {
    Jar::create(0, "alice.near".to_string(), "product".to_string(), principal, 0)
}

#[test]
fn tests_get_interest_before_maturity() {
    let terms = Terms::Fixed(FixedProductTerms {
        apy: Apy::Constant(UDecimal::new(12, 2)),
        lockup_term: 2 * MS_IN_YEAR,
    });
    let jar = jar_with(&[(0, 100_000_000)]);

    let (interest, _) = terms.get_interest(&context(), &jar, MS_IN_YEAR);
    assert_eq!(12_000_000, interest);
}

#[test]
fn tests_get_interest_after_maturity() {
    let terms = Terms::Fixed(FixedProductTerms { apy: Apy::Constant(UDecimal::new(12, 2)), lockup_term: MS_IN_YEAR });
    let jar = jar_with(&[(0, 100_000_000)]);

    let (interest, _) = terms.get_interest(&context(), &jar, 400 * 24 * 60 * 60 * 1000);
    assert_eq!(12_000_000, interest);
}

#[test]
fn tests_interest_precision() {
    let terms = Terms::Fixed(FixedProductTerms { apy: Apy::Constant(UDecimal::new(1, 0)), lockup_term: MS_IN_YEAR });
    let jar = jar_with(&[(0, MS_IN_YEAR as u128)]);

    assert_eq!(terms.get_interest(&context(), &jar, 10000000000).0, 10000000000);
    assert_eq!(terms.get_interest(&context(), &jar, 10000000001).0, 10000000001);

    for _ in 0..100 {
        let time: u64 = (10..MS_IN_YEAR).fake();
        assert_eq!(terms.get_interest(&context(), &jar, time).0, time as u128);
    }
}

#[test]
fn legacy_jar_interest_before_maturity() {
    let product = legacy_product(Apy::Constant(UDecimal::new(12, 2)), 2 * MS_IN_YEAR);
    let jar = legacy_jar(100_000_000);

    let interest = jar.get_interest(&ScoreRecord::new(), &product, MS_IN_YEAR).0;
    assert_eq!(12_000_000, interest);
}

#[test]
fn legacy_jar_interest_after_maturity() {
    let product = legacy_product(Apy::Constant(UDecimal::new(12, 2)), MS_IN_YEAR);
    let jar = legacy_jar(100_000_000);

    let interest = jar.get_interest(&ScoreRecord::new(), &product, 400 * MS_IN_DAY).0;
    assert_eq!(12_000_000, interest);
}

#[test]
fn legacy_jar_interest_precision() {
    let product = legacy_product(Apy::Constant(UDecimal::new(1, 0)), MS_IN_YEAR);
    let jar = legacy_jar(MS_IN_YEAR as u128);

    assert_eq!(jar.get_interest(&ScoreRecord::new(), &product, 10000000000).0, 10000000000);
    assert_eq!(jar.get_interest(&ScoreRecord::new(), &product, 10000000001).0, 10000000001);
    for _ in 0..100 {
        let time: u64 = (10..MS_IN_YEAR).fake();
        assert_eq!(jar.get_interest(&ScoreRecord::new(), &product, time).0, time as u128);
    }
}

#[test]
fn flexible_interest_accrues_until_now() {
    let terms = Terms::Flexible(FlexibleProductTerms { apy: Apy::Constant(UDecimal::new(12, 2)) });
    let jar = jar_with(&[(0, 100_000_000)]);

    let (interest, remainder) = terms.get_interest(&context(), &jar, 2 * MS_IN_YEAR);
    assert_eq!(24_000_000, interest);
    assert_eq!(0, remainder);
}

#[test]
fn remainder_is_carried_between_deposits() {
    // Each deposit earns half a token over one millisecond; together they earn one.
    let terms = Terms::Flexible(FlexibleProductTerms { apy: Apy::Constant(UDecimal::new(1, 0)) });
    let half = (MS_IN_YEAR / 2) as u128;
    let jar = jar_with(&[(0, half), (0, half)]);

    let (interest, remainder) = terms.get_interest(&context(), &jar, 1);
    assert_eq!(1, interest);
    assert_eq!(0, remainder);

    let single = jar_with(&[(0, half)]);
    let (interest, remainder) = terms.get_interest(&context(), &single, 1);
    assert_eq!(0, interest);
    assert_eq!(half as u64, remainder);
}

#[test]
fn downgradable_apy_falls_back_under_penalty() {
    let apy = Apy::Downgradable(sweat_jar::product::DowngradableApy {
        default: UDecimal::new(12, 2),
        fallback: UDecimal::new(10, 3),
    });
    let terms = Terms::Fixed(FixedProductTerms { apy, lockup_term: MS_IN_YEAR });
    let jar = jar_with(&[(0, 100_000_000)]);

    let penalized = InterestContext { is_penalty_applied: true, score: ScoreRecord::new() };
    assert_eq!(12_000_000, terms.get_interest(&context(), &jar, MS_IN_YEAR).0);
    assert_eq!(1_000_000, terms.get_interest(&penalized, &jar, MS_IN_YEAR).0);
}

#[test]
fn caching_part_way_keeps_the_interest() {
    let terms = Terms::Fixed(FixedProductTerms { apy: Apy::Constant(UDecimal::new(7, 2)), lockup_term: MS_IN_YEAR });
    let mut jar = jar_with(&[(0, 123_456_789), (MS_IN_DAY, 987_654_321)]);
    let at_once = terms.get_interest(&context(), &jar, 200 * MS_IN_DAY);

    let (interest, remainder) = terms.get_interest(&context(), &jar, 77 * MS_IN_DAY + 5);
    jar.update_cache(interest, remainder, 77 * MS_IN_DAY + 5);
    let in_two_steps = terms.get_interest(&context(), &jar, 200 * MS_IN_DAY);

    assert_eq!(at_once, in_two_steps);
}

#[test]
fn interest_is_computable_until_it_leaves_u128() {
    let terms = Terms::Fixed(FixedProductTerms { apy: Apy::Constant(UDecimal::new(12, 2)), lockup_term: MS_IN_YEAR });
    assert!(terms.is_interest_computable(&context(), &jar_with(&[(0, 100_000_000)]), MS_IN_YEAR));

    let huge = Terms::Fixed(FixedProductTerms { apy: Apy::Constant(UDecimal::new(u128::MAX, 0)), lockup_term: MS_IN_YEAR });
    assert!(!huge.is_interest_computable(&context(), &jar_with(&[(0, 2)]), MS_IN_YEAR));

    let far_exponent = Terms::Fixed(FixedProductTerms { apy: Apy::Constant(UDecimal::new(1, 40)), lockup_term: MS_IN_YEAR });
    assert!(!far_exponent.is_interest_computable(&context(), &jar_with(&[(0, 1)]), MS_IN_YEAR));
}
