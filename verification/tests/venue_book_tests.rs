use matchbook::fixed_point::{format_price, format_quantity, parse_price, parse_quantity};
use matchbook::venue_book::{BookTickerUpdate, DepthOutcome, DepthUpdate, OrderBook};

fn p(s: &str) -> i64 {
    parse_price(s).unwrap()
}

fn q(s: &str) -> u64 {
    parse_quantity(s).unwrap()
}

#[test]
fn test_new_order_book() {
    let orderbook = OrderBook::new("BNBUSDT".to_string());
    assert_eq!(orderbook.symbol, "BNBUSDT");
    assert!(orderbook.bids.is_empty());
    assert!(orderbook.asks.is_empty());
    assert_eq!(orderbook.last_update_id, 0);
}

#[test]
fn main_test_new_order_book() {
    let orderbook = OrderBook::new("BNBUSDT".to_string());
    assert_eq!(orderbook.symbol, "BNBUSDT");
    assert!(orderbook.bids.is_empty());
    assert!(orderbook.asks.is_empty());
    assert_eq!(orderbook.last_update_id, 0);
}

#[test]
fn test_update_book_ticker() {
    let mut orderbook = OrderBook::new("BNBUSDT".to_string());
    let book_ticker_update = BookTickerUpdate {
        update_id: 400900217,
        symbol: "BNBUSDT".to_string(),
        best_bid_price: p("25.3519"),
        best_bid_quantity: q("31.21"),
        best_ask_price: p("25.3652"),
        best_ask_quantity: q("40.66"),
    };
    orderbook.update_book_ticker(&book_ticker_update);
    assert_eq!(orderbook.bids.len(), 1);
    assert_eq!(orderbook.asks.len(), 1);
    assert_eq!(orderbook.bids[0], (253519, 312100));
    assert_eq!(orderbook.asks[0], (253652, 406600));
}

#[test]
fn main_test_update_book_ticker() {
    let mut orderbook = OrderBook::new("BNBUSDT".to_string());
    let book_ticker_update = BookTickerUpdate {
        update_id: 400900217,
        symbol: "BNBUSDT".to_string(),
        best_bid_price: p("25.3519"),
        best_bid_quantity: q("31.21"),
        best_ask_price: p("25.3652"),
        best_ask_quantity: q("40.66"),
    };
    orderbook.update_book_ticker(&book_ticker_update);
    assert_eq!(orderbook.bids.len(), 1);
    assert_eq!(orderbook.asks.len(), 1);
    assert_eq!(orderbook.bids[0], (253519, 312100));
    assert_eq!(orderbook.asks[0], (253652, 406600));
}

#[test]
fn test_update_depth() {
    let mut orderbook = OrderBook::new("BNBUSDT".to_string());
    let depth_update = DepthUpdate {
        last_update_id: 160,
        bids: vec![(p("0.0024"), q("10")), (p("0.0025"), q("20"))],
        asks: vec![(p("0.0026"), q("100")), (p("0.0027"), q("200"))],
    };
    orderbook.update_depth(&depth_update);
    assert_eq!(orderbook.bids.len(), 2);
    assert_eq!(orderbook.asks.len(), 2);
    assert_eq!(orderbook.bids[0], (24, 100000));
    assert_eq!(orderbook.bids[1], (25, 200000));
    assert_eq!(orderbook.asks[0], (26, 1000000));
    assert_eq!(orderbook.asks[1], (27, 2000000));
    assert_eq!(orderbook.last_update_id, 160);
}

#[test]
fn main_test_update_depth() {
    let mut orderbook = OrderBook::new("BNBUSDT".to_string());
    let depth_update = DepthUpdate {
        last_update_id: 160,
        bids: vec![(24, 100000), (25, 200000)],
        asks: vec![(26, 1000000), (27, 2000000)],
    };
    orderbook.update_depth(&depth_update);
    assert_eq!(orderbook.bids.len(), 2);
    assert_eq!(orderbook.asks.len(), 2);
    assert_eq!(orderbook.bids[0], (24, 100000));
    assert_eq!(orderbook.bids[1], (25, 200000));
    assert_eq!(orderbook.asks[0], (26, 1000000));
    assert_eq!(orderbook.asks[1], (27, 2000000));
    assert_eq!(orderbook.last_update_id, 160);
}

#[test]
fn test_update_depth_with_older_update_id() {
    let mut orderbook = OrderBook::new("BNBUSDT".to_string());
    orderbook.last_update_id = 200;
    let depth_update = DepthUpdate {
        last_update_id: 150,
        bids: vec![(p("0.0024"), q("10"))],
        asks: vec![(p("0.0026"), q("100"))],
    };
    let outcome = orderbook.update_depth(&depth_update);
    assert_eq!(outcome, DepthOutcome::Stale);
    assert!(orderbook.bids.is_empty());
    assert!(orderbook.asks.is_empty());
    assert_eq!(orderbook.last_update_id, 200);
}

#[test]
fn main_test_update_depth_with_older_update_id() {
    let mut orderbook = OrderBook::new("BNBUSDT".to_string());
    orderbook.last_update_id = 200;
    let depth_update = DepthUpdate {
        last_update_id: 150,
        bids: vec![(24, 100000)],
        asks: vec![(26, 1000000)],
    };
    orderbook.update_depth(&depth_update);
    assert!(orderbook.bids.is_empty());
    assert!(orderbook.asks.is_empty());
    assert_eq!(orderbook.last_update_id, 200);
}

#[test]
fn test_update_depth_with_zero_quantity() {
    let mut orderbook = OrderBook::new("BNBUSDT".to_string());
    let first = DepthUpdate {
        last_update_id: 159,
        bids: vec![(p("0.0024"), q("10")), (p("0.0025"), q("1"))],
        asks: vec![(p("0.0026"), q("1")), (p("0.0027"), q("200"))],
    };
    orderbook.update_depth(&first);
    let depth_update = DepthUpdate {
        last_update_id: 160,
        bids: vec![(p("0.0025"), 0)],
        asks: vec![(p("0.0026"), 0)],
    };
    orderbook.update_depth(&depth_update);

    let ((bid_price, _bid_amount), (ask_price, _ask_amount)) =
        orderbook.get_best_bid_ask().unwrap();

    assert_eq!(orderbook.bids.len(), 1);
    assert_eq!(orderbook.asks.len(), 1);
    assert_eq!(format_price(bid_price), "0.0024");
    assert_eq!(format_price(ask_price), "0.0027");
}

#[test]
fn main_test_update_depth_with_zero_quantity() {
    let mut orderbook = OrderBook::new("BNBUSDT".to_string());
    let depth_update = DepthUpdate {
        last_update_id: 160,
        bids: vec![(24, 100000), (25, 0)],
        asks: vec![(26, 0), (27, 2000000)],
    };
    orderbook.update_depth(&depth_update);

    let ((bid_price, _bid_amount), (ask_price, _ask_amount)) =
        orderbook.get_best_bid_ask().unwrap();

    assert_eq!(orderbook.bids.len(), 1);
    assert_eq!(orderbook.asks.len(), 1);
    assert_eq!(bid_price, 24);
    assert_eq!(ask_price, 27);
}

#[test]
fn test_get_best_bid_ask() {
    let mut orderbook = OrderBook::new("BNBUSDT".to_string());
    let depth_update = DepthUpdate {
        last_update_id: 160,
        bids: vec![(p("0.0024"), q("10")), (p("0.0025"), q("20"))],
        asks: vec![(p("0.0026"), q("100")), (p("0.0027"), q("200"))],
    };
    orderbook.update_depth(&depth_update);
    let best_bid_ask = orderbook.get_best_bid_ask();
    assert_eq!(best_bid_ask, Some(((25, 200000), (26, 1000000))));
}

#[test]
fn main_test_get_best_bid_ask() {
    let mut orderbook = OrderBook::new("BNBUSDT".to_string());
    let depth_update = DepthUpdate {
        last_update_id: 160,
        bids: vec![(24, 100000), (25, 200000)],
        asks: vec![(26, 1000000), (27, 2000000)],
    };
    orderbook.update_depth(&depth_update);
    let best_bid_ask = orderbook.get_best_bid_ask();
    assert_eq!(best_bid_ask, Some(((25, 200000), (26, 1000000))));
}

#[test]
fn test_get_best_bid_ask_with_empty_book() {
    let orderbook = OrderBook::new("BNBUSDT".to_string());
    let best_bid_ask = orderbook.get_best_bid_ask();
    assert_eq!(best_bid_ask, None);
}

#[test]
fn main_test_get_best_bid_ask_with_empty_book() {
    let orderbook = OrderBook::new("BNBUSDT".to_string());
    let best_bid_ask = orderbook.get_best_bid_ask();
    assert_eq!(best_bid_ask, None);
}

#[test]
fn test_get_volume_at_price() {
    let mut orderbook = OrderBook::new("BNBUSDT".to_string());
    let depth_update = DepthUpdate {
        last_update_id: 160,
        bids: vec![(p("0.0024"), q("10")), (p("0.0025"), q("20"))],
        asks: vec![(p("0.0024"), q("100")), (p("0.0027"), q("200"))],
    };
    orderbook.update_depth(&depth_update);
    assert_eq!(orderbook.get_volume_at_price(p("0.0024")), q("110"));
    assert_eq!(orderbook.get_volume_at_price(p("0.0025")), q("20"));
    assert_eq!(orderbook.get_volume_at_price(p("0.0026")), 0);
    assert_eq!(orderbook.get_volume_at_price(p("0.0027")), q("200"));
    assert_eq!(orderbook.get_volume_at_price(p("0.0028")), 0);
}

#[test]
fn main_test_get_volume_at_price() {
    let mut orderbook = OrderBook::new("BNBUSDT".to_string());
    let depth_update = DepthUpdate {
        last_update_id: 160,
        bids: vec![(24, 100000), (25, 200000)],
        asks: vec![(24, 1000000), (27, 2000000)],
    };
    orderbook.update_depth(&depth_update);
    assert_eq!(orderbook.get_volume_at_price(24), 1100000);
    assert_eq!(orderbook.get_volume_at_price(25), 200000);
    assert_eq!(orderbook.get_volume_at_price(26), 0);
    assert_eq!(orderbook.get_volume_at_price(27), 2000000);
    assert_eq!(orderbook.get_volume_at_price(28), 0);
}

#[test]
fn test_get_volume_at_price_with_empty_orderbook() {
    let orderbook = OrderBook::new("BNBUSDT".to_string());
    assert_eq!(orderbook.get_volume_at_price(parse_price("0.0024").unwrap()), 0);
}

#[test]
fn flow_test() {
    let mut orderbook = OrderBook::new("BNBUSDT".to_string());

    let book_ticker_update = BookTickerUpdate {
        update_id: 400900217,
        symbol: "BNBUSDT".to_string(),
        best_bid_price: p("25.3519"),
        best_bid_quantity: q("31.21"),
        best_ask_price: p("25.3652"),
        best_ask_quantity: q("40.66"),
    };
    orderbook.update_book_ticker(&book_ticker_update);

    let depth_update = DepthUpdate {
        last_update_id: 160,
        bids: vec![(p("0.0024"), q("10"))],
        asks: vec![(p("0.0026"), q("100"))],
    };
    orderbook.update_depth(&depth_update);

    if let Some(((bid_price, bid_qty), (ask_price, ask_qty))) = orderbook.get_best_bid_ask() {
        println!(
            "Best Bid: Price - {}, Quantity - {}",
            format_price(bid_price),
            format_quantity(bid_qty)
        );
        println!(
            "Best Ask: Price - {}, Quantity - {}",
            format_price(ask_price),
            format_quantity(ask_qty)
        );
    }

    let price = p("0.0024");
    let volume = orderbook.get_volume_at_price(price);
    println!("Volume at price {}: {}", format_price(price), format_quantity(volume));
}

// The reported best bid is the highest bid key and the best ask the
// lowest ask key, whatever order the levels arrived in.
#[test]
fn best_bid_is_max_best_ask_is_min() {
    let mut book = OrderBook::new("X".to_string());
    let depth = DepthUpdate {
        last_update_id: 1,
        bids: vec![(12, 1), (10, 2), (11, 3)],
        asks: vec![(20, 4), (22, 5), (21, 6)],
    };
    book.update_depth(&depth);
    assert_eq!(book.get_best_bid_ask(), Some(((12, 1), (20, 4))));
}

// A depth stream applied in receive order equals the same stream with the
// stale messages dropped, whatever order the venue emitted them in.
#[test]
fn depth_updates_in_arbitrary_order_drop_stale() {
    let u1 = DepthUpdate { last_update_id: 5, bids: vec![(10, 1)], asks: vec![] };
    let u2 = DepthUpdate { last_update_id: 3, bids: vec![(10, 7), (9, 2)], asks: vec![] };
    let u3 = DepthUpdate { last_update_id: 8, bids: vec![(11, 4)], asks: vec![] };

    let mut shuffled = OrderBook::new("X".to_string());
    assert_eq!(shuffled.update_depth(&u1), DepthOutcome::Applied);
    assert_eq!(shuffled.update_depth(&u2), DepthOutcome::Stale);
    assert_eq!(shuffled.update_depth(&u3), DepthOutcome::Applied);

    let mut fresh_only = OrderBook::new("X".to_string());
    assert_eq!(fresh_only.update_depth(&u1), DepthOutcome::Applied);
    assert_eq!(fresh_only.update_depth(&u3), DepthOutcome::Applied);

    assert_eq!(shuffled.bids, fresh_only.bids);
    assert_eq!(shuffled.asks, fresh_only.asks);
    assert_eq!(shuffled.last_update_id, fresh_only.last_update_id);
    assert_eq!(shuffled.last_update_id, 8);
}

// Scenario: a depth message with a lower sequence leaves the book exactly
// as the earlier one did.
#[test]
fn stale_depth_is_dropped_whole() {
    let mut book = OrderBook::new("X".to_string());
    let first = DepthUpdate { last_update_id: 100, bids: vec![(10, 1)], asks: vec![] };
    let second = DepthUpdate { last_update_id: 99, bids: vec![(10, 5)], asks: vec![] };
    book.update_depth(&first);
    let bids_before = book.bids.clone();
    let outcome = book.update_depth(&second);
    assert_eq!(outcome, DepthOutcome::Stale);
    assert_eq!(book.bids, bids_before);
    assert_eq!(book.last_update_id, 100);
}

// Scenario: a zero quantity removes its level.
#[test]
fn depth_zero_quantity_removes_level() {
    let mut book = OrderBook::new("X".to_string());
    let first = DepthUpdate { last_update_id: 1, bids: vec![(10, 5), (9, 2)], asks: vec![] };
    let second = DepthUpdate { last_update_id: 2, bids: vec![(10, 0)], asks: vec![] };
    book.update_depth(&first);
    book.update_depth(&second);
    assert_eq!(book.bids, vec![(9, 2)]);
}
