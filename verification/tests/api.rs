use bazaar_tui::api::client::{check_response, check_status, is_success, pick_update, ApiError};
use bazaar_tui::api::models::{BazaarResponse, OrderSummary, Product, QuickStatus};

fn product(id: &str, buy: i64, sell: i64) -> Product {
    Product {
        product_id: id.to_string(),
        sell_summary: vec![OrderSummary { amount: 1, price_per_unit: sell, orders: 1 }],
        buy_summary: Vec::new(),
        quick_status: QuickStatus {
            product_id: id.to_string(),
            sell_price: sell,
            sell_volume: 10,
            sell_moving_week: 70,
            sell_orders: 2,
            buy_price: buy,
            buy_volume: 20,
            buy_moving_week: 140,
            buy_orders: 3,
        },
    }
}

fn snapshot(success: bool, cause: Option<&str>, products: Vec<Product>) -> BazaarResponse {
    BazaarResponse {
        success,
        cause: cause.map(String::from),
        last_updated: 1_700_000_000_000,
        products: products.into_iter().map(|p| (p.product_id.clone(), p)).collect(),
    }
}

#[test]
fn successful_statuses_are_200_to_299() {
    assert!(is_success(200));
    assert!(is_success(204));
    assert!(is_success(299));
    assert!(!is_success(199));
    assert!(!is_success(300));
    assert!(!is_success(404));
    assert!(!is_success(0));
    assert!(!is_success(u16::MAX));
}

#[test]
fn check_status_refuses_other_statuses_with_their_code() {
    assert_eq!(check_status(200), Ok(()));
    assert_eq!(check_status(299), Ok(()));
    assert_eq!(check_status(404), Err(ApiError::Status(404)));
    assert_eq!(check_status(503), Err(ApiError::Status(503)));
    assert_eq!(check_status(199), Err(ApiError::Status(199)));
}

#[test]
fn check_response_hands_a_successful_snapshot_back() {
    let checked = check_response(snapshot(true, None, vec![product("A", 1, 2)])).unwrap();
    assert!(checked.success);
    assert_eq!(checked.last_updated, 1_700_000_000_000);
    assert_eq!(checked.products.len(), 1);
    assert_eq!(checked.products[0].0, "A");
    assert_eq!(checked.products[0].1.quick_status.sell_price, 2);
}

#[test]
fn check_response_reports_the_cause_of_a_failure() {
    let refused = check_response(snapshot(false, Some("Key throttle"), Vec::new()));
    assert_eq!(refused.err(), Some(ApiError::ApiUnavailable("Key throttle".to_string())));
}

#[test]
fn check_response_names_an_unknown_cause() {
    let refused = check_response(snapshot(false, None, vec![product("A", 1, 2)]));
    assert_eq!(refused.err(), Some(ApiError::ApiUnavailable("Unknown error".to_string())));
}

#[test]
fn error_messages_name_the_kind_of_failure() {
    assert_eq!(ApiError::Http("timed out".into()).message(), "HTTP error: timed out");
    assert_eq!(ApiError::Status(404).message(), "Unexpected HTTP status: 404");
    assert_eq!(ApiError::Status(0).message(), "Unexpected HTTP status: 0");
    assert_eq!(ApiError::Status(65535).message(), "Unexpected HTTP status: 65535");
    assert_eq!(ApiError::Status(500).message(), "Unexpected HTTP status: 500");
    assert_eq!(ApiError::ApiUnavailable("down".into()).message(), "API unavailable: down");
    assert_eq!(ApiError::Parse("eof".into()).message(), "Parse error: eof");
    assert_eq!(ApiError::Io("pipe".into()).message(), "IO error: pipe");
}

#[test]
fn status_messages_are_decimal_for_every_status() {
    for status in 0..=u16::MAX {
        assert_eq!(
            ApiError::Status(status).message(),
            format!("Unexpected HTTP status: {status}")
        );
    }
}

#[test]
fn pick_update_finds_the_polled_product() {
    let fetched = Ok(snapshot(true, None, vec![product("A", 1, 2), product("B", 3, 9)]));
    let update = pick_update(fetched, "B").unwrap();
    assert_eq!(update.product_id, "B");
    assert_eq!(update.quick_status.buy_price, 3);
    assert_eq!(update.quick_status.sell_price, 9);
}

#[test]
fn pick_update_takes_the_later_of_two_products_under_one_id() {
    let fetched = Ok(snapshot(true, None, vec![product("A", 1, 2), product("A", 5, 6)]));
    assert_eq!(pick_update(fetched, "A").unwrap().quick_status.buy_price, 5);
}

#[test]
fn pick_update_hands_on_nothing_without_the_product() {
    let fetched = Ok(snapshot(true, None, vec![product("A", 1, 2)]));
    assert!(pick_update(fetched, "C").is_none());
    assert!(pick_update(Ok(snapshot(true, None, Vec::new())), "A").is_none());
}

#[test]
fn pick_update_swallows_a_failed_fetch() {
    assert!(pick_update(Err(ApiError::Http("refused".into())), "A").is_none());
    assert!(pick_update(Err(ApiError::Status(500)), "A").is_none());
}

#[test]
fn take_product_compares_whole_ids() {
    let response = snapshot(true, None, vec![product("LOG", 1, 2), product("LOG:2", 3, 4)]);
    assert_eq!(response.take_product("LOG").unwrap().quick_status.buy_price, 1);
}

#[test]
fn spread_is_sell_minus_buy() {
    assert_eq!(product("A", 10, 25).quick_status.get_spread(), 15);
    assert_eq!(product("A", 25, 10).quick_status.get_spread(), -15);
    assert_eq!(
        product("A", i64::MIN, i64::MAX).quick_status.get_spread(),
        i64::MAX as i128 - i64::MIN as i128
    );
}
