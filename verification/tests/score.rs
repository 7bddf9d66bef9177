use sweat_jar::account::AccountScore;
use sweat_jar::account_v2::{AccountV1, ProductJar};
use sweat_jar::common::MS_IN_DAY;
use sweat_jar::contract::{AccountEntry, Contract, ContractError};
use sweat_jar::account_v2::AccountError;
use sweat_jar::decimal::UDecimal;
use sweat_jar::jar_v2::{Deposit, JarV2};
use sweat_jar::product::{Apy, Cap};
use sweat_jar::product_v2::{FixedProductTerms, ProductV2, ScoreBasedProductTerms, Terms};
use sweat_jar::score::{convert_chain, record_walk, ScoreError};

const MS_IN_HOUR: u64 = 3_600_000;

fn score_at(updated: u64, timezone: i64, scores: [u16; 2]) -> AccountScore {
    AccountScore { updated, timezone, scores, scores_history: scores }
}

#[test]
fn convert_chain_keeps_today_and_yesterday() {
    let now = MS_IN_DAY * 10 + MS_IN_HOUR;
    let chain = vec![(6, MS_IN_DAY * 10), (5, MS_IN_DAY * 9 + MS_IN_HOUR), (7, MS_IN_DAY * 8)];
    assert_eq!(convert_chain(&chain, 0, now), Ok(vec![(6, 0), (5, 1)]));
}

#[test]
fn convert_chain_counts_days_in_the_timezone() {
    // 22:00 UTC on day 9 is already day 10 three hours east
    let now = MS_IN_DAY * 10 + MS_IN_HOUR;
    let chain = vec![(3, MS_IN_DAY * 9 + 22 * MS_IN_HOUR)];
    assert_eq!(convert_chain(&chain, 0, now), Ok(vec![(3, 1)]));
    assert_eq!(convert_chain(&chain, (3 * MS_IN_HOUR) as i64, now), Ok(vec![(3, 0)]));
}

#[test]
fn walk_data_from_the_future_is_refused() {
    let today: u64 = 1722234632000;
    let chain = vec![(1_000, today + MS_IN_DAY)];
    assert_eq!(
        convert_chain(&chain, (3 * MS_IN_HOUR) as i64, today),
        Err(ScoreError::FromFuture { score: 1_000, timestamp: today + MS_IN_DAY, now: today })
    );
    let mut score = score_at(today, (3 * MS_IN_HOUR) as i64, [0, 0]);
    assert!(record_walk(&mut score, &chain, today).is_err());
    assert_eq!(score, score_at(today, (3 * MS_IN_HOUR) as i64, [0, 0]));
}

#[test]
fn scores_recorded_on_different_days() {
    let mut score = score_at(MS_IN_DAY * 10, 0, [1000, 2000]);
    record_walk(&mut score, &vec![(6, MS_IN_DAY * 10), (5, MS_IN_DAY * 9)], MS_IN_DAY * 10).unwrap();
    assert_eq!(score.updated, MS_IN_DAY * 10);
    assert_eq!(score.scores, [1006, 2005]);
    assert_eq!(score.scores_history, [1000, 2000]);
}

#[test]
fn scores_roll_over_by_day() {
    let mut next_day = score_at(MS_IN_DAY * 10, 0, [1000, 2000]);
    record_walk(&mut next_day, &vec![], MS_IN_DAY * 11).unwrap();
    assert_eq!(next_day.scores, [0, 1000]);
    assert_eq!(next_day.updated, MS_IN_DAY * 11);

    let mut two_days_later = score_at(MS_IN_DAY * 10, 0, [1000, 2000]);
    record_walk(&mut two_days_later, &vec![], MS_IN_DAY * 12).unwrap();
    assert_eq!(two_days_later.scores, [0, 0]);

    let mut earlier = score_at(MS_IN_DAY * 10, 0, [1000, 2000]);
    assert_eq!(record_walk(&mut earlier, &vec![], MS_IN_DAY * 9), Err(ScoreError::NotClaimed));
}

#[test]
fn recorded_scores_stop_at_the_largest_score() {
    let mut score = score_at(0, (4 * MS_IN_HOUR) as i64, [0, 0]);
    for _ in 0..4 {
        record_walk(&mut score, &vec![(25_000, 0)], 0).unwrap();
    }
    assert_eq!(score.scores, [65_535, 0]);
}

fn score_product() -> ProductV2 {
    ProductV2 {
        id: "score".to_string(),
        cap: Cap { min: 0, max: 1_000_000_000_000 },
        terms: Terms::ScoreBased(ScoreBasedProductTerms { score_cap: 20_000, lockup_term: MS_IN_DAY * 365 }),
        withdrawal_fee: None,
        public_key: Some(vec![0; 32]),
        is_enabled: true,
        is_restakable: true,
    }
}

fn fixed_product() -> ProductV2 {
    ProductV2 {
        id: "fixed".to_string(),
        cap: Cap { min: 0, max: 1_000_000_000_000 },
        terms: Terms::Fixed(FixedProductTerms { lockup_term: MS_IN_DAY * 365, apy: Apy::Constant(UDecimal::new(10, 2)) }),
        withdrawal_fee: None,
        public_key: None,
        is_enabled: true,
        is_restakable: true,
    }
}

fn contract_with(accounts: Vec<(&str, AccountScore)>) -> Contract {
    let mut contract = Contract::new("token".to_string(), "fee".to_string(), "previous".to_string());
    contract.products.push(score_product());
    contract.products.push(fixed_product());
    for (id, score) in accounts {
        let mut account = AccountV1::new();
        account.score = score;
        for product in ["score", "fixed"] {
            let mut jar = JarV2::new();
            jar.deposits.push(Deposit::new(0, 1_000_000));
            account.jars.push(ProductJar { product_id: product.to_string(), jar });
        }
        contract.accounts.push(AccountEntry { account_id: id.to_string(), account });
    }
    contract
}

#[test]
fn record_score_caches_score_jars_and_takes_the_walk_data() {
    let mut contract = contract_with(vec![("alice", score_at(MS_IN_DAY, 0, [10_000, 0]))]);
    let now = MS_IN_DAY * 2;

    contract.record_score(vec![("alice".to_string(), vec![(500, now + MS_IN_HOUR), (300, now - MS_IN_HOUR)])], now + MS_IN_HOUR).unwrap();

    let account = contract.get_account(&"alice".to_string()).unwrap();
    // the scores of day one move back to yesterday; the walk data adds to each day
    assert_eq!(account.score.scores, [500, 10_300]);
    assert_eq!(account.score.updated, now + MS_IN_HOUR);
    let cache = account.get_jar(&"score".to_string()).unwrap().cache.unwrap();
    assert_eq!(cache.updated_at, now + MS_IN_HOUR);
    // a day at 10% on the scores so far
    assert_eq!(cache.interest, 1_000_000 * 10 / 100 * MS_IN_DAY as u128 / (MS_IN_DAY as u128 * 365));
    assert!(account.get_jar(&"fixed".to_string()).unwrap().cache.is_none());
}

#[test]
fn record_score_refuses_the_whole_batch() {
    let mut contract = contract_with(vec![("alice", score_at(MS_IN_DAY, 0, [10_000, 0]))]);
    let now = MS_IN_DAY * 2;
    let batch = vec![("alice".to_string(), vec![(500, now)]), ("bob".to_string(), vec![(500, now)])];

    assert_eq!(contract.record_score(batch, now), Err(ContractError::AccountNotFound("bob".to_string())));
    let account = contract.get_account(&"alice".to_string()).unwrap();
    assert_eq!(account.score.scores, [10_000, 0]);
    assert!(account.get_jar(&"score".to_string()).unwrap().cache.is_none());
}

#[test]
fn record_score_needs_a_timezone_and_no_future_data() {
    let mut contract = contract_with(vec![("alice", AccountScore::invalid()), ("bob", score_at(0, 0, [0, 0]))]);
    assert_eq!(
        contract.record_score(vec![("alice".to_string(), vec![])], 10),
        Err(ContractError::Account(AccountError::TimezoneRequired))
    );
    assert_eq!(
        contract.record_score(vec![("bob".to_string(), vec![(1, 11)])], 10),
        Err(ContractError::Score(ScoreError::FromFuture { score: 1, timestamp: 11, now: 10 }))
    );
    assert!(contract.is_score_computable(&"bob".to_string(), &vec![(1, 10)], 10));
}
