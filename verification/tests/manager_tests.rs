use prediction_market::model::MarketError;
use prediction_market::manager::MarketManager;

#[test]
fn market_manager_tests_test_instantiate_prediction_market() {
    let mut manager = MarketManager::new();
    let result = manager.instantiate_prediction_market(
        "market1".to_string(),
        "outcome1,outcome2".to_string(),
        "1.5,2.5".to_string(),
    );
    assert!(result.is_ok());
}

#[test]
fn test_retrieve_prediction_market() {
    let mut manager = MarketManager::new();
    manager
        .instantiate_prediction_market(
            "market1".to_string(),
            "outcome1,outcome2".to_string(),
            "1.5,2.5".to_string(),
        )
        .expect("valid configuration");
    let market = manager.get_market("market1".to_string());
    assert!(market.is_some());
    let market = market.unwrap();
    assert_eq!(
        market.list_outcomes(),
        vec!["outcome1".to_string(), "outcome2".to_string()]
    );
    assert!(manager.get_market("market2".to_string()).is_none());
}

#[test]
fn test_list_all_markets() {
    let mut manager = MarketManager::new();
    let market_ids: Vec<&str> = vec!["market1", "market2", "market3"];
    for market_id in &market_ids {
        manager
            .instantiate_prediction_market(
                market_id.to_string(),
                "outcome1,outcome2".to_string(),
                "1.5,2.5".to_string(),
            )
            .expect("valid configuration");
    }
    let mut returned_market_ids = manager.list_all_markets();
    let mut expected_market_ids: Vec<String> =
        market_ids.iter().map(|s| s.to_string()).collect();
    returned_market_ids.sort();
    expected_market_ids.sort();
    assert_eq!(expected_market_ids, returned_market_ids);
}

#[test]
fn test_duplicate_market_id() {
    let mut manager = MarketManager::new();
    manager
        .instantiate_prediction_market(
            "market1".to_string(),
            "outcome1,outcome2".to_string(),
            "1.5,2.5".to_string(),
        )
        .expect("valid configuration");
    let second = manager.instantiate_prediction_market(
        "market1".to_string(),
        "outcome3,outcome4".to_string(),
        "2,3".to_string(),
    );
    assert!(matches!(second, Err(MarketError::DuplicateMarketId)));
    assert_eq!(manager.list_all_markets().len(), 1);
}

#[test]
fn test_manager_rejects_bad_config() {
    let mut manager = MarketManager::new();
    let result = manager.instantiate_prediction_market(
        "market1".to_string(),
        "outcome1,outcome1".to_string(),
        "1.5,2.5".to_string(),
    );
    assert!(matches!(result, Err(MarketError::InvalidConfig)));
    assert!(manager.list_all_markets().is_empty());
}
