use order_book::book::{BookError, Order, OrderBook, OrderSide, PriceLevel};
use order_book::price::{dequantize_key, quantize_price, pow10_u128, Price};
use order_book::quantity::{quantity_units, Quantity, QUANTITY_SCALE};
use std::collections::HashMap;

fn price(units: i128, scale: u32) -> Price {
    Price { units, scale }
}

fn lots(n: u128) -> Quantity {
    Quantity { units: n, scale: 0 }
}

/// A sum of sizes as the book reports it: `n` whole lots at the finest scale.
fn total(n: u128) -> Quantity {
    Quantity { units: n * 1_000_000_000_000_000_000, scale: QUANTITY_SCALE }
}

fn order(id: &str, p: Price, quantity: u64, side: OrderSide) -> Order {
    sized_order(id, p, lots(quantity as u128), side)
}

fn sized_order(id: &str, p: Price, quantity: Quantity, side: OrderSide) -> Order {
    Order {
        id: id.to_string(),
        price: p,
        quantity,
        side,
        venue: "XNAS".to_string(),
        symbol: "ABC".to_string(),
        timestamp: 0,
        participant_type: None,
        metadata: HashMap::new(),
    }
}

fn as_f64(p: Price) -> f64 {
    p.units as f64 / 10f64.powi(p.scale as i32)
}

#[test]
fn mid_price_absent_until_both_sides_then_exact() {
    let mut book = OrderBook::new("XNAS", "ABC", 2);
    book.add_order(order("b1", price(10000, 2), 5, OrderSide::Bid)).unwrap();
    assert_eq!(book.get_mid_price(), None);
    assert_eq!(book.get_spread(), None);
    book.add_order(order("a1", price(10100, 2), 3, OrderSide::Ask)).unwrap();
    let mid = book.get_mid_price().unwrap();
    assert_eq!(mid, price(100500, 3));
    assert!((as_f64(mid) - 100.50).abs() < 1e-12);
    let spread = book.get_spread().unwrap();
    assert_eq!(spread, price(100, 2));
    assert!((as_f64(spread) - 1.00).abs() < 1e-12);
}

#[test]
fn close_prices_share_one_level() {
    let mut book = OrderBook::new("XNAS", "ABC", 2);
    book.add_order(order("b1", price(100005, 3), 4, OrderSide::Bid)).unwrap();
    book.add_order(order("b2", price(100004, 3), 6, OrderSide::Bid)).unwrap();
    let snap = book.get_snapshot(None);
    assert_eq!(snap.bids.len(), 1);
    assert_eq!(
        snap.bids[0],
        PriceLevel { price: price(10000, 2), total_quantity: total(10), order_count: 2 }
    );
    assert!(snap.asks.is_empty());
}

#[test]
fn update_moves_order_and_prunes_level() {
    let mut book = OrderBook::new("XNAS", "ABC", 2);
    book.add_order(order("b1", price(10000, 2), 5, OrderSide::Bid)).unwrap();
    book.update_order("b1", Some(price(9900, 2)), None).unwrap();
    let snap = book.get_snapshot(None);
    assert_eq!(snap.bids.len(), 1);
    assert_eq!(
        snap.bids[0],
        PriceLevel { price: price(9900, 2), total_quantity: total(5), order_count: 1 }
    );
    assert_eq!(book.get_order_count(OrderSide::Bid), 1);
}

#[test]
fn update_keeps_level_with_other_orders() {
    let mut book = OrderBook::new("XNAS", "ABC", 2);
    book.add_order(order("b1", price(10000, 2), 5, OrderSide::Bid)).unwrap();
    book.add_order(order("b2", price(10000, 2), 2, OrderSide::Bid)).unwrap();
    book.update_order("b1", Some(price(9900, 2)), Some(lots(7))).unwrap();
    let snap = book.get_snapshot(None);
    assert_eq!(snap.bids.len(), 2);
    assert_eq!(
        snap.bids[0],
        PriceLevel { price: price(10000, 2), total_quantity: total(2), order_count: 1 }
    );
    assert_eq!(
        snap.bids[1],
        PriceLevel { price: price(9900, 2), total_quantity: total(7), order_count: 1 }
    );
}

#[test]
fn update_quantity_only_stays_at_level() {
    let mut book = OrderBook::new("XNAS", "ABC", 2);
    book.add_order(order("a1", price(10100, 2), 3, OrderSide::Ask)).unwrap();
    book.update_order("a1", None, Some(lots(8))).unwrap();
    let snap = book.get_snapshot(None);
    assert_eq!(
        snap.asks,
        vec![PriceLevel { price: price(10100, 2), total_quantity: total(8), order_count: 1 }]
    );
}

#[test]
fn cancel_missing_is_not_found_and_changes_nothing() {
    let mut book = OrderBook::new("XNAS", "ABC", 2);
    book.add_order(order("b1", price(10000, 2), 5, OrderSide::Bid)).unwrap();
    let before = book.get_order_count(OrderSide::Bid);
    assert_eq!(book.cancel_order("missing"), Err(BookError::OrderNotFound));
    assert_eq!(book.get_order_count(OrderSide::Bid), before);
    assert_eq!(book.get_order_count(OrderSide::Ask), 0);
}

#[test]
fn cancel_twice_fails_the_second_time() {
    let mut book = OrderBook::new("XNAS", "ABC", 2);
    book.add_order(order("b1", price(10000, 2), 5, OrderSide::Bid)).unwrap();
    book.add_order(order("a1", price(10100, 2), 1, OrderSide::Ask)).unwrap();
    assert_eq!(book.cancel_order("b1"), Ok(()));
    let snap_before = book.get_snapshot(None);
    assert_eq!(book.cancel_order("b1"), Err(BookError::OrderNotFound));
    let snap_after = book.get_snapshot(None);
    assert_eq!(snap_before.bids, snap_after.bids);
    assert_eq!(snap_before.asks, snap_after.asks);
    assert_eq!(snap_before.timestamp, snap_after.timestamp);
    assert!(snap_after.bids.is_empty());
}

#[test]
fn update_missing_is_not_found() {
    let mut book = OrderBook::new("XNAS", "ABC", 2);
    assert_eq!(
        book.update_order("nope", Some(price(1, 0)), None),
        Err(BookError::OrderNotFound)
    );
}

#[test]
fn order_counts_follow_adds_cancels_and_updates() {
    let mut book = OrderBook::new("XNAS", "ABC", 2);
    book.add_order(order("b1", price(10000, 2), 1, OrderSide::Bid)).unwrap();
    book.add_order(order("b2", price(10000, 2), 1, OrderSide::Bid)).unwrap();
    book.add_order(order("b3", price(9950, 2), 1, OrderSide::Bid)).unwrap();
    book.add_order(order("a1", price(10100, 2), 1, OrderSide::Ask)).unwrap();
    assert_eq!(book.get_order_count(OrderSide::Bid), 3);
    assert_eq!(book.get_order_count(OrderSide::Ask), 1);
    book.cancel_order("b2").unwrap();
    assert_eq!(book.get_order_count(OrderSide::Bid), 2);
    book.update_order("b3", Some(price(9800, 2)), None).unwrap();
    assert_eq!(book.get_order_count(OrderSide::Bid), 2);
    assert_eq!(book.get_order_count(OrderSide::Ask), 1);
}

#[test]
fn same_id_at_same_level_is_overwritten() {
    let mut book = OrderBook::new("XNAS", "ABC", 2);
    book.add_order(order("b1", price(10000, 2), 5, OrderSide::Bid)).unwrap();
    book.add_order(order("b1", price(10000, 2), 9, OrderSide::Bid)).unwrap();
    assert_eq!(book.get_order_count(OrderSide::Bid), 1);
    assert_eq!(book.get_total_liquidity(OrderSide::Bid), total(9));
}

#[test]
fn liquidity_is_sum_of_quantities() {
    let mut book = OrderBook::new("XNAS", "ABC", 2);
    book.add_order(order("b1", price(10000, 2), 5, OrderSide::Bid)).unwrap();
    book.add_order(order("b2", price(10000, 2), 7, OrderSide::Bid)).unwrap();
    book.add_order(order("b3", price(9900, 2), 11, OrderSide::Bid)).unwrap();
    book.add_order(order("a1", price(10100, 2), 3, OrderSide::Ask)).unwrap();
    assert_eq!(book.get_total_liquidity(OrderSide::Bid), total(23));
    assert_eq!(book.get_total_liquidity(OrderSide::Ask), total(3));
}

#[test]
fn liquidity_handles_sizes_beyond_u64() {
    let mut book = OrderBook::new("XNAS", "ABC", 0);
    let big = lots(100_000_000_000_000_000_000);
    book.add_order(sized_order("b1", price(1, 0), big, OrderSide::Bid)).unwrap();
    book.add_order(sized_order("b2", price(1, 0), big, OrderSide::Bid)).unwrap();
    assert_eq!(book.get_total_liquidity(OrderSide::Bid), total(200_000_000_000_000_000_000));
    let snap = book.get_snapshot(None);
    assert_eq!(snap.bids[0].total_quantity, total(200_000_000_000_000_000_000));
}

#[test]
fn snapshot_orders_best_first_and_respects_depth() {
    let mut book = OrderBook::new("XNAS", "ABC", 2);
    book.add_order(order("b1", price(9900, 2), 1, OrderSide::Bid)).unwrap();
    book.add_order(order("b2", price(10000, 2), 2, OrderSide::Bid)).unwrap();
    book.add_order(order("b3", price(9800, 2), 3, OrderSide::Bid)).unwrap();
    book.add_order(order("a1", price(10200, 2), 4, OrderSide::Ask)).unwrap();
    book.add_order(order("a2", price(10100, 2), 5, OrderSide::Ask)).unwrap();
    book.add_order(order("a3", price(10300, 2), 6, OrderSide::Ask)).unwrap();
    let snap = book.get_snapshot(None);
    let bid_prices: Vec<i128> = snap.bids.iter().map(|l| l.price.units).collect();
    let ask_prices: Vec<i128> = snap.asks.iter().map(|l| l.price.units).collect();
    assert_eq!(bid_prices, vec![10000, 9900, 9800]);
    assert_eq!(ask_prices, vec![10100, 10200, 10300]);
    let top = book.get_snapshot(Some(2));
    assert_eq!(top.bids.len(), 2);
    assert_eq!(top.asks.len(), 2);
    assert_eq!(top.bids[0].total_quantity, total(2));
    assert_eq!(top.asks[0].total_quantity, total(5));
    assert_eq!(top.venue, "XNAS");
    assert_eq!(top.symbol, "ABC");
    let none = book.get_snapshot(Some(0));
    assert!(none.bids.is_empty() && none.asks.is_empty());
}

#[test]
fn crossed_book_has_negative_spread() {
    let mut book = OrderBook::new("XNAS", "ABC", 2);
    book.add_order(order("b1", price(10100, 2), 1, OrderSide::Bid)).unwrap();
    book.add_order(order("a1", price(10000, 2), 1, OrderSide::Ask)).unwrap();
    assert_eq!(book.get_spread(), Some(price(-100, 2)));
    assert_eq!(book.get_mid_price(), Some(price(100500, 3)));
}

#[test]
fn quantize_exact_values() {
    assert_eq!(quantize_price(price(100005, 3), 2), 10000);
    assert_eq!(quantize_price(price(100015, 3), 2), 10002);
    assert_eq!(quantize_price(price(100004, 3), 2), 10000);
    assert_eq!(quantize_price(price(100006, 3), 2), 10001);
    assert_eq!(quantize_price(price(-100006, 3), 2), -10001);
    assert_eq!(quantize_price(price(-100005, 3), 2), -10000);
    assert_eq!(quantize_price(price(12, 0), 2), 1200);
    assert_eq!(quantize_price(price(i128::MAX, 0), 2), i64::MAX);
    assert_eq!(quantize_price(price(i128::MIN, 0), 2), i64::MIN);
    assert_eq!(quantize_price(price(i128::MAX, 40), 2), 2);
    assert_eq!(quantize_price(price(i128::MAX, 41), 2), 0);
    assert_eq!(quantize_price(price(i128::MIN, 4), 2), i64::MIN);
    assert_eq!(pow10_u128(3), 1000);
}

#[test]
fn quantize_then_dequantize_round_trip() {
    for k in [0i64, 1, -1, 10000, -12345, i64::MAX, i64::MIN] {
        for p in [0u32, 2, 8, 18] {
            assert_eq!(quantize_price(dequantize_key(k, p), p), k);
        }
    }
    let original = price(1234500, 4);
    let back = dequantize_key(quantize_price(original, 2), 2);
    assert_eq!(back, price(12345, 2));
    assert_eq!(back.units * 100, original.units);
}

#[test]
fn timestamps_advance_on_change() {
    let mut book = OrderBook::new("XNAS", "ABC", 2);
    book.add_order(order("b1", price(10000, 2), 5, OrderSide::Bid)).unwrap();
    let snap = book.get_snapshot(None);
    assert!(snap.timestamp > 1_500_000_000_000);
}

#[test]
fn fractional_sizes_sum_exactly() {
    let mut book = OrderBook::new("XNAS", "ABC", 2);
    let half = Quantity { units: 5, scale: 1 };
    let quarter = Quantity { units: 25, scale: 2 };
    book.add_order(sized_order("b1", price(10000, 2), half, OrderSide::Bid)).unwrap();
    book.add_order(sized_order("b2", price(10000, 2), quarter, OrderSide::Bid)).unwrap();
    let expected = Quantity { units: 750_000_000_000_000_000, scale: QUANTITY_SCALE };
    assert_eq!(book.get_total_liquidity(OrderSide::Bid), expected);
    let snap = book.get_snapshot(None);
    assert_eq!(snap.bids[0].total_quantity, expected);
    assert_eq!(snap.bids[0].order_count, 2);
    book.update_order("b2", None, Some(Quantity { units: 1, scale: 18 })).unwrap();
    let expected = Quantity { units: 500_000_000_000_000_001, scale: QUANTITY_SCALE };
    assert_eq!(book.get_total_liquidity(OrderSide::Bid), expected);
}

#[test]
fn quantity_units_scale_to_finest() {
    assert_eq!(quantity_units(Quantity { units: 5, scale: 1 }), Some(500_000_000_000_000_000));
    assert_eq!(quantity_units(Quantity { units: 7, scale: 18 }), Some(7));
    assert_eq!(quantity_units(Quantity { units: 7, scale: 19 }), None);
    assert_eq!(quantity_units(Quantity { units: u128::MAX, scale: 0 }), None);
}
