use bazaar_tui::api::models::{BazaarResponse, Product, QuickStatus};
use bazaar_tui::app::state::{App, RefreshCommand, SearchMode, View, HISTORY_CAPACITY};

fn product(id: &str, buy: i64, sell: i64) -> Product {
    Product {
        product_id: id.to_string(),
        sell_summary: Vec::new(),
        buy_summary: Vec::new(),
        quick_status: QuickStatus {
            product_id: id.to_string(),
            sell_price: sell,
            sell_volume: 0,
            sell_moving_week: 0,
            sell_orders: 0,
            buy_price: buy,
            buy_volume: 0,
            buy_moving_week: 0,
            buy_orders: 0,
        },
    }
}

fn snapshot(products: Vec<Product>) -> BazaarResponse {
    BazaarResponse {
        success: true,
        cause: None,
        last_updated: 42,
        products: products.into_iter().map(|p| (p.product_id.clone(), p)).collect(),
    }
}

/// Three products; their spreads are 1, 50 and 50.
fn three() -> App {
    App::new(
        snapshot(vec![
            product("ENCHANTED_BOOK", 10, 11),
            product("BOOK", 100, 150),
            product("ENDER_PEARL", 20, 70),
        ]),
        1_000,
    )
}

fn type_text(app: &mut App, text: &str, now: u64) {
    for ch in text.chars() {
        app.on_input(ch, now);
    }
}

fn ids(app: &App) -> Vec<&str> {
    app.search.filtered_indices.iter().map(|&i| app.data.index[i].id.as_str()).collect()
}

#[test]
fn new_state_shows_the_whole_index_in_the_search_view() {
    let app = three();
    assert_eq!(app.view, View::Search);
    assert_eq!(app.status, "Loaded");
    assert_eq!(app.data.last_updated, 42);
    assert_eq!(app.search.input, "");
    assert_eq!(app.search.mode, SearchMode::Insert);
    assert_eq!(app.search.filtered_indices, [0, 1, 2]);
    assert_eq!(app.search.selected_index, 0);
    assert!(app.search.needs_filter);
    assert_eq!(app.search.last_input_change, 1_000);
    assert!(!app.search.sort_by_spread);
    assert_eq!(app.detail.product_id, None);
    assert!(app.detail.history.is_empty());
    assert!(!app.detail.show_percent);
    assert!(app.detail.show_sma);
    assert!(!app.detail.show_midline);
    assert_eq!(app.detail.refresh, None);
}

#[test]
fn new_state_indexes_the_products_in_their_order() {
    let app = three();
    let listed: Vec<(&str, &str, &str)> = app
        .data
        .index
        .iter()
        .map(|item| (item.id.as_str(), item.display.as_str(), item.norm_display.as_str()))
        .collect();
    assert_eq!(
        listed,
        [
            ("ENCHANTED_BOOK", "Enchanted Book", "enchanted book"),
            ("BOOK", "Book", "book"),
            ("ENDER_PEARL", "Ender Pearl", "ender pearl"),
        ]
    );
    assert_eq!(app.data.products.len(), 3);
    let keys: Vec<&String> = app.data.products.keys().collect();
    assert_eq!(keys, ["ENCHANTED_BOOK", "BOOK", "ENDER_PEARL"]);
    assert_eq!(app.data.products["BOOK"].quick_status.sell_price, 150);
}

#[test]
fn new_state_keeps_the_later_product_of_a_repeated_id() {
    let app = App::new(snapshot(vec![product("A", 1, 2), product("B", 3, 4), product("A", 5, 6)]), 0);
    assert_eq!(app.data.index.len(), 2);
    assert_eq!(app.data.index[0].id, "A");
    assert_eq!(app.data.index[1].id, "B");
    assert_eq!(app.data.products["A"].quick_status.buy_price, 5);
    assert_eq!(app.search.filtered_indices, [0, 1]);
}

#[test]
fn new_state_of_an_empty_snapshot_is_empty() {
    let app = App::new(snapshot(Vec::new()), 0);
    assert!(app.data.index.is_empty());
    assert!(app.search.filtered_indices.is_empty());
    assert_eq!(app.search.selected_index, 0);
}

#[test]
fn empty_query_shows_all_indices_in_order() {
    let mut app = three();
    app.recompute_filter();
    assert_eq!(app.search.filtered_indices, [0, 1, 2]);
    type_text(&mut app, "   ", 0);
    app.recompute_filter();
    assert_eq!(app.search.filtered_indices, [0, 1, 2]);
}

#[test]
fn query_eb_ranks_enchanted_book_first() {
    let mut app = App::new(
        snapshot(vec![product("BOOK", 1, 2), product("ENDER_PEARL", 1, 2), product("ENCHANTED_BOOK", 1, 2)]),
        0,
    );
    type_text(&mut app, "eb", 10);
    app.recompute_filter();
    assert_eq!(ids(&app), ["ENCHANTED_BOOK", "BOOK", "ENDER_PEARL"]);
}

#[test]
fn query_of_separators_only_matches_nothing() {
    let mut app = three();
    type_text(&mut app, "_", 0);
    app.recompute_filter();
    assert!(app.search.filtered_indices.is_empty());
    assert_eq!(app.search.selected_index, 0);
}

#[test]
fn query_is_normalized_before_ranking() {
    let mut app = three();
    type_text(&mut app, "  ENDER__pearl ", 0);
    app.recompute_filter();
    assert_eq!(ids(&app)[0], "ENDER_PEARL");
}

#[test]
fn edits_mark_the_results_as_stale_without_ranking() {
    let mut app = three();
    app.maybe_apply_filter(0, 1_000);
    assert!(!app.search.needs_filter);
    app.on_input('e', 2_000);
    assert_eq!(app.search.input, "e");
    assert!(app.search.needs_filter);
    assert_eq!(app.search.last_input_change, 2_000);
    assert_eq!(app.search.filtered_indices, [0, 1, 2]);
    app.on_input('b', 2_010);
    assert_eq!(app.search.input, "eb");
    assert_eq!(app.search.last_input_change, 2_010);
    app.on_backspace(2_020);
    assert_eq!(app.search.input, "e");
    assert_eq!(app.search.last_input_change, 2_020);
    app.on_delete(2_030);
    assert_eq!(app.search.input, "");
    assert!(app.search.needs_filter);
    assert_eq!(app.search.last_input_change, 2_030);
    app.on_backspace(2_040);
    assert_eq!(app.search.input, "");
    assert_eq!(app.search.last_input_change, 2_040);
}

#[test]
fn mark_input_changed_notes_the_time() {
    let mut app = three();
    app.maybe_apply_filter(0, 1_000);
    app.mark_input_changed(7_777);
    assert!(app.search.needs_filter);
    assert_eq!(app.search.last_input_change, 7_777);
    assert_eq!(app.search.input, "");
}

#[test]
fn filter_waits_for_the_debounce() {
    let mut app = three();
    type_text(&mut app, "pearl", 5_000);
    assert!(!app.is_filter_due(120, 5_119));
    app.maybe_apply_filter(120, 5_119);
    assert!(app.search.needs_filter);
    assert_eq!(app.search.filtered_indices, [0, 1, 2]);
    assert!(app.is_filter_due(120, 5_120));
    app.maybe_apply_filter(120, 5_120);
    assert!(!app.search.needs_filter);
    assert_eq!(ids(&app)[0], "ENDER_PEARL");
}

#[test]
fn filter_is_not_run_twice_for_one_edit() {
    let mut app = three();
    type_text(&mut app, "pearl", 5_000);
    app.maybe_apply_filter(120, 6_000);
    let shown = app.search.filtered_indices.clone();
    app.search.filtered_indices = vec![2];
    app.maybe_apply_filter(120, 7_000);
    assert_eq!(app.search.filtered_indices, [2]);
    app.recompute_filter();
    assert_eq!(app.search.filtered_indices, shown);
}

#[test]
fn a_clock_that_runs_backwards_counts_as_no_time_passed() {
    let mut app = three();
    type_text(&mut app, "pearl", 5_000);
    app.maybe_apply_filter(1, 4_000);
    assert!(app.search.needs_filter);
    app.maybe_apply_filter(0, 4_000);
    assert!(!app.search.needs_filter);
}

#[test]
fn filter_clamps_the_selection() {
    let mut app = three();
    app.jump_to_bottom();
    assert_eq!(app.search.selected_index, 2);
    type_text(&mut app, "_", 0);
    app.recompute_filter();
    assert_eq!(app.search.selected_index, 0);
    let mut app = App::new(snapshot(vec![product("A", 1, 2), product("", 1, 2), product("B", 1, 2)]), 0);
    app.jump_to_bottom();
    type_text(&mut app, "a", 0);
    app.recompute_filter();
    assert_eq!(app.search.filtered_indices, [0, 2]);
    assert_eq!(app.search.selected_index, 1);
}

#[test]
fn sort_by_spread_overrides_relevance_at_once() {
    let mut app = three();
    type_text(&mut app, "enchanted book", 9_000);
    app.recompute_filter();
    assert_eq!(ids(&app), ["ENCHANTED_BOOK", "BOOK", "ENDER_PEARL"]);
    app.search.sort_by_spread = true;
    app.recompute_filter();
    // spreads 50 and 50 come before 1; the two equal spreads keep the order of relevance
    assert_eq!(ids(&app), ["BOOK", "ENDER_PEARL", "ENCHANTED_BOOK"]);
    assert!(app.search.needs_filter);
    app.search.sort_by_spread = false;
    app.recompute_filter();
    assert_eq!(ids(&app), ["ENCHANTED_BOOK", "BOOK", "ENDER_PEARL"]);
}

#[test]
fn sort_by_spread_orders_the_whole_index_for_an_empty_query() {
    let mut app = App::new(
        snapshot(vec![product("A", 10, 5), product("B", 0, 7), product("C", 3, 3), product("D", 1, 8)]),
        0,
    );
    app.search.sort_by_spread = true;
    app.recompute_filter();
    assert_eq!(ids(&app), ["B", "D", "C", "A"]);
    assert_eq!(app.get_spread(0), -5);
    assert_eq!(app.get_spread(1), 7);
    assert_eq!(app.get_spread(99), 0);
}

#[test]
fn sort_filtered_by_spread_keeps_the_order_of_equal_spreads() {
    let mut app = three();
    app.search.filtered_indices = vec![2, 0, 1];
    app.sort_filtered_by_spread();
    assert_eq!(app.search.filtered_indices, [2, 1, 0]);
    app.search.filtered_indices = vec![1, 0, 2];
    app.sort_filtered_by_spread();
    assert_eq!(app.search.filtered_indices, [1, 2, 0]);
}

#[test]
fn a_product_missing_from_the_map_has_spread_zero() {
    let mut app = App::new(snapshot(vec![product("A", 5, 1), product("B", 1, 9)]), 0);
    app.data.products.shift_remove("B");
    assert_eq!(app.get_spread(1), 0);
    app.search.sort_by_spread = true;
    app.recompute_filter();
    assert_eq!(ids(&app), ["B", "A"]);
}

#[test]
fn move_selection_stays_inside_the_results() {
    let mut app = three();
    app.move_selection(1);
    assert_eq!(app.search.selected_index, 1);
    app.move_selection(20);
    assert_eq!(app.search.selected_index, 2);
    app.move_selection(-1);
    assert_eq!(app.search.selected_index, 1);
    app.move_selection(-20);
    assert_eq!(app.search.selected_index, 0);
    app.move_selection(isize::MAX);
    assert_eq!(app.search.selected_index, 2);
    app.move_selection(isize::MIN);
    assert_eq!(app.search.selected_index, 0);
    app.move_selection(0);
    assert_eq!(app.search.selected_index, 0);
}

#[test]
fn selection_does_not_move_in_empty_results() {
    let mut app = App::new(snapshot(Vec::new()), 0);
    app.move_selection(3);
    assert_eq!(app.search.selected_index, 0);
    app.jump_to_bottom();
    assert_eq!(app.search.selected_index, 0);
    app.jump_to_top();
    assert_eq!(app.search.selected_index, 0);
}

#[test]
fn jumps_select_the_first_and_the_last_result() {
    let mut app = three();
    app.jump_to_bottom();
    assert_eq!(app.search.selected_index, 2);
    app.jump_to_top();
    assert_eq!(app.search.selected_index, 0);
}

#[test]
fn enter_detail_on_empty_results_changes_nothing() {
    let mut app = three();
    type_text(&mut app, "_", 0);
    app.recompute_filter();
    assert!(app.search.filtered_indices.is_empty());
    let commands = app.enter_detail(50);
    assert!(commands.is_empty());
    assert_eq!(app.view, View::Search);
    assert_eq!(app.detail.product_id, None);
    assert_eq!(app.detail.refresh, None);
    assert!(app.detail.history.is_empty());
    assert_eq!(app.status, "Loaded");
}

#[test]
fn enter_detail_opens_the_selected_product() {
    let mut app = three();
    app.move_selection(1);
    let commands = app.enter_detail(1_500);
    assert_eq!(commands, [RefreshCommand::Start("BOOK".to_string())]);
    assert_eq!(app.view, View::Detail);
    assert_eq!(app.detail.product_id.as_deref(), Some("BOOK"));
    assert_eq!(app.detail.refresh.as_deref(), Some("BOOK"));
    assert_eq!(app.detail.history, [(1_500, 100, 150)]);
    assert_eq!(app.status, "Detail: BOOK (refreshing every 3s)");
    assert_eq!(app.current_product().unwrap().product_id, "BOOK");
    assert_eq!(app.search.selected_index, 1);
}

#[test]
fn enter_detail_starts_without_history_for_a_product_missing_from_the_map() {
    let mut app = three();
    app.data.products.shift_remove("ENCHANTED_BOOK");
    let commands = app.enter_detail(5);
    assert_eq!(commands, [RefreshCommand::Start("ENCHANTED_BOOK".to_string())]);
    assert_eq!(app.view, View::Detail);
    assert!(app.detail.history.is_empty());
    assert!(app.current_product().is_none());
}

#[test]
fn entering_again_stops_the_running_refresh_first() {
    let mut app = three();
    app.enter_detail(1);
    app.update_product(product("ENCHANTED_BOOK", 12, 13), 2);
    assert_eq!(app.detail.history.len(), 2);
    app.move_selection(2);
    let commands = app.enter_detail(3);
    assert_eq!(
        commands,
        [RefreshCommand::Stop, RefreshCommand::Start("ENDER_PEARL".to_string())]
    );
    assert_eq!(app.detail.refresh.as_deref(), Some("ENDER_PEARL"));
    assert_eq!(app.detail.history, [(3, 20, 70)]);
}

#[test]
fn exit_detail_stops_the_refresh_and_forgets_the_product() {
    let mut app = three();
    app.enter_detail(1);
    let commands = app.exit_detail();
    assert_eq!(commands, [RefreshCommand::Stop]);
    assert_eq!(app.view, View::Search);
    assert_eq!(app.detail.product_id, None);
    assert_eq!(app.detail.refresh, None);
    assert!(app.detail.history.is_empty());
    assert!(app.current_product().is_none());
    assert!(app.exit_detail().is_empty());
}

#[test]
fn stop_refresh_commands_a_stop_only_while_one_runs() {
    let mut app = three();
    assert!(app.stop_refresh().is_empty());
    app.enter_detail(1);
    assert_eq!(app.stop_refresh(), [RefreshCommand::Stop]);
    assert_eq!(app.detail.refresh, None);
    assert_eq!(app.view, View::Detail);
    assert!(app.stop_refresh().is_empty());
    assert!(app.exit_detail().is_empty());
}

#[test]
fn manual_refresh_fetches_the_shown_product_once() {
    let mut app = three();
    assert!(app.manual_refresh().is_empty());
    assert_eq!(app.status, "Loaded");
    app.enter_detail(1);
    assert_eq!(app.manual_refresh(), [RefreshCommand::FetchOnce("ENCHANTED_BOOK".to_string())]);
    assert_eq!(app.status, "Refreshing...");
    assert_eq!(app.detail.refresh.as_deref(), Some("ENCHANTED_BOOK"));
}

#[test]
fn update_of_the_shown_product_adds_to_the_history() {
    let mut app = three();
    app.enter_detail(1);
    app.update_product(product("ENCHANTED_BOOK", 12, 15), 3_001);
    assert_eq!(app.detail.history, [(1, 10, 11), (3_001, 12, 15)]);
    assert_eq!(app.status, "Updated");
    assert_eq!(app.current_product().unwrap().quick_status.sell_price, 15);
    assert_eq!(app.get_spread(0), 3);
}

#[test]
fn update_of_another_product_only_replaces_it() {
    let mut app = three();
    app.enter_detail(1);
    app.update_product(product("BOOK", 1, 2), 3_001);
    assert_eq!(app.detail.history, [(1, 10, 11)]);
    assert_eq!(app.status, "Detail: ENCHANTED_BOOK (refreshing every 3s)");
    assert_eq!(app.data.products["BOOK"].quick_status.sell_price, 2);
    let keys: Vec<&String> = app.data.products.keys().collect();
    assert_eq!(keys, ["ENCHANTED_BOOK", "BOOK", "ENDER_PEARL"]);
}

#[test]
fn update_in_the_search_view_leaves_history_and_status() {
    let mut app = three();
    app.update_product(product("BOOK", 1, 2), 9);
    assert!(app.detail.history.is_empty());
    assert_eq!(app.status, "Loaded");
    assert_eq!(app.get_spread(1), 1);
}

#[test]
fn update_of_an_unknown_product_adds_it_to_the_map_only() {
    let mut app = three();
    app.update_product(product("NEW_THING", 1, 2), 9);
    assert_eq!(app.data.products.len(), 4);
    assert_eq!(app.data.products.get_index(3).unwrap().0, "NEW_THING");
    assert_eq!(app.data.index.len(), 3);
    app.recompute_filter();
    assert_eq!(app.search.filtered_indices, [0, 1, 2]);
}

#[test]
fn history_keeps_the_most_recent_256_points() {
    let mut app = three();
    for i in 0..300u64 {
        app.push_history(i as i64, i as i64 + 1, i);
        assert!(app.detail.history.len() <= 256);
        assert_eq!(app.detail.history.back(), Some(&(i, i as i64, i as i64 + 1)));
    }
    assert_eq!(HISTORY_CAPACITY, 256);
    assert_eq!(app.detail.history.len(), 256);
    assert_eq!(app.detail.history.front(), Some(&(44, 44, 45)));
    assert_eq!(app.detail.history.back(), Some(&(299, 299, 300)));
    let expected: Vec<(u64, i64, i64)> = (44..300u64).map(|i| (i, i as i64, i as i64 + 1)).collect();
    assert_eq!(app.detail.history, expected);
}

#[test]
fn history_of_a_session_fed_by_updates_stays_bounded() {
    let mut app = three();
    app.enter_detail(0);
    for i in 1..300u64 {
        app.update_product(product("ENCHANTED_BOOK", i as i64, 2 * i as i64), i);
    }
    assert_eq!(app.detail.history.len(), 256);
    assert_eq!(app.detail.history.front(), Some(&(44, 44, 88)));
    assert_eq!(app.detail.history.back(), Some(&(299, 299, 598)));
}
