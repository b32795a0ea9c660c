use matchbook::match_core::{CancelResult, OrderBook, OrderBookError, OrderBookLevelInfos};
use matchbook::order::{Order, OrderModify, OrderType, Side};

fn bid_total(book: &OrderBook) -> u64 {
    book.get_orderbook_level_infos().get_bids().iter().map(|l| l.quantity).sum()
}

fn ask_total(book: &OrderBook) -> u64 {
    book.get_orderbook_level_infos().get_asks().iter().map(|l| l.quantity).sum()
}

#[test]
fn test_orderbook() {
    let price: i64 = 10;
    assert_eq!(price, 10);
}

#[test]
fn test_orderbooklevelinfos() {
    let orderbooklevelinfos = OrderBookLevelInfos::from_existing();

    assert_eq!(orderbooklevelinfos.bids.len(), 0);
    assert_eq!(orderbooklevelinfos.asks.len(), 0);
}

#[test]
fn test_filling_an_order() {
    let initial_quantity = 100;
    let mut order = Order::new(1, 10, initial_quantity, OrderType::GoodToCancel, Side::Buy);

    order.fill(50);

    assert_eq!(order.get_fill_quantity(), 50);
}

#[test]
fn test_orderlist_creation() {
    let mut orderlist = matchbook::level::OrderList::new();
    orderlist.push_back(Order::new(1, 10, 100, OrderType::GoodToCancel, Side::Buy));
    orderlist.push_back(Order::new(2, 20, 200, OrderType::GoodToCancel, Side::Buy));

    assert_eq!(orderlist.len(), 2);
}

#[test]
fn test_can_match() {
    let mut orderbook = OrderBook::new();

    orderbook.add_order(Order::new(1, 10, 100, OrderType::GoodToCancel, Side::Buy)).unwrap();
    orderbook.add_order(Order::new(2, 20, 100, OrderType::GoodToCancel, Side::Sell)).unwrap();

    assert_eq!(orderbook.can_match(10, Side::Buy), false);
    assert_eq!(orderbook.can_match(20, Side::Buy), true);
    assert_eq!(orderbook.can_match(10, Side::Sell), true);
    assert_eq!(orderbook.can_match(20, Side::Sell), false);
}

#[test]
fn test_add_order_to_orderbook() {
    let mut orderbook = OrderBook::new();
    let order = Order::new(1, 10, 100, OrderType::GoodToCancel, Side::Buy);

    orderbook.add_order(order).unwrap();

    assert_eq!(orderbook.orderbook_size(), 1);
}

#[test]
fn test_cancel_order() {
    let mut orderbook = OrderBook::new();
    let order = Order::new(1, 10, 100, OrderType::GoodToCancel, Side::Buy);

    orderbook.add_order(order).unwrap();
    orderbook.cancel_order(1);

    assert_eq!(orderbook.orderbook_size(), 0);
}

// Scenario: a simple cross fills the incoming sell against the resting buy
// at the resting price.
#[test]
fn simple_cross() {
    let mut book = OrderBook::new();
    let t1 = book.add_order(Order::new(1, 100, 10, OrderType::GoodToCancel, Side::Buy)).unwrap();
    assert!(t1.is_empty());
    let t2 = book.add_order(Order::new(2, 100, 4, OrderType::GoodToCancel, Side::Sell)).unwrap();
    assert_eq!(t2.len(), 1);
    assert_eq!(t2[0].bid_trade.order_id, 1);
    assert_eq!(t2[0].bid_trade.price, 100);
    assert_eq!(t2[0].bid_trade.quantity, 4);
    assert_eq!(t2[0].ask_trade.order_id, 2);
    assert_eq!(t2[0].ask_trade.price, 100);
    assert_eq!(t2[0].ask_trade.quantity, 4);

    let infos = book.get_orderbook_level_infos();
    assert_eq!(infos.get_bids().len(), 1);
    assert_eq!(infos.get_bids()[0].price, 100);
    assert_eq!(infos.get_bids()[0].quantity, 6);
    assert_eq!(infos.get_asks().len(), 0);
}

// Scenario: an incoming buy walks the ask book level by level, trading at
// each resting price.
#[test]
fn walk_the_book() {
    let mut book = OrderBook::new();
    book.add_order(Order::new(10, 100, 3, OrderType::GoodToCancel, Side::Sell)).unwrap();
    book.add_order(Order::new(11, 101, 2, OrderType::GoodToCancel, Side::Sell)).unwrap();
    let trades = book.add_order(Order::new(20, 101, 4, OrderType::GoodToCancel, Side::Buy)).unwrap();
    assert_eq!(trades.len(), 2);
    assert_eq!(trades[0].bid_trade.order_id, 20);
    assert_eq!(trades[0].bid_trade.price, 100);
    assert_eq!(trades[0].bid_trade.quantity, 3);
    assert_eq!(trades[0].ask_trade.order_id, 10);
    assert_eq!(trades[0].ask_trade.price, 100);
    assert_eq!(trades[0].ask_trade.quantity, 3);
    assert_eq!(trades[1].bid_trade.order_id, 20);
    assert_eq!(trades[1].bid_trade.price, 101);
    assert_eq!(trades[1].bid_trade.quantity, 1);
    assert_eq!(trades[1].ask_trade.order_id, 11);
    assert_eq!(trades[1].ask_trade.price, 101);
    assert_eq!(trades[1].ask_trade.quantity, 1);

    let infos = book.get_orderbook_level_infos();
    assert_eq!(infos.get_bids().len(), 0);
    assert_eq!(infos.get_asks().len(), 1);
    assert_eq!(infos.get_asks()[0].price, 101);
    assert_eq!(infos.get_asks()[0].quantity, 1);
}

// Scenario: a fill-and-kill order that cannot trade is rejected and the
// book is untouched.
#[test]
fn fak_unmarketable_rejected() {
    let mut book = OrderBook::new();
    let r = book.add_order(Order::new(7, 50, 5, OrderType::FillAndKill, Side::Buy));
    assert_eq!(r, Err(OrderBookError::NotMarketable));
    assert_eq!(book.orderbook_size(), 0);
    assert_eq!(book.get_best_bid_ask(), None);
}

// Scenario: a fill-and-kill order fills what it can, and its residue is
// cancelled inside the same call — it never rests in the index.
#[test]
fn fak_partial_fill_then_kill() {
    let mut book = OrderBook::new();
    book.add_order(Order::new(1, 10, 2, OrderType::GoodToCancel, Side::Sell)).unwrap();
    let trades = book.add_order(Order::new(2, 10, 5, OrderType::FillAndKill, Side::Buy)).unwrap();
    assert_eq!(trades.len(), 1);
    assert_eq!(trades[0].bid_trade.order_id, 2);
    assert_eq!(trades[0].bid_trade.price, 10);
    assert_eq!(trades[0].bid_trade.quantity, 2);
    assert_eq!(trades[0].ask_trade.order_id, 1);
    assert_eq!(trades[0].ask_trade.quantity, 2);
    assert_eq!(book.orderbook_size(), 0);
    assert_eq!(book.cancel_order(2), CancelResult::NotFound);
}

// Scenario: modifying an order re-queues it behind orders that kept their
// place, so the untouched order trades first.
#[test]
fn modify_loses_time_priority() {
    let mut book = OrderBook::new();
    book.add_order(Order::new(1, 10, 5, OrderType::GoodToCancel, Side::Buy)).unwrap();
    book.add_order(Order::new(2, 10, 5, OrderType::GoodToCancel, Side::Buy)).unwrap();
    let t0 = book.match_order(OrderModify::new(1, Side::Buy, 10, 5));
    assert!(t0.is_empty());
    let trades = book.add_order(Order::new(9, 10, 5, OrderType::GoodToCancel, Side::Sell)).unwrap();
    assert_eq!(trades.len(), 1);
    assert_eq!(trades[0].bid_trade.order_id, 2);
    assert_eq!(trades[0].ask_trade.order_id, 9);
    assert_eq!(trades[0].bid_trade.quantity, 5);
}

#[test]
fn duplicate_order_id_rejected() {
    let mut book = OrderBook::new();
    book.add_order(Order::new(1, 10, 5, OrderType::GoodToCancel, Side::Buy)).unwrap();
    let r = book.add_order(Order::new(1, 11, 7, OrderType::GoodToCancel, Side::Buy));
    assert_eq!(r, Err(OrderBookError::DuplicateOrderId));
    assert_eq!(book.orderbook_size(), 1);
}

#[test]
fn cancel_unknown_order_is_not_found() {
    let mut book = OrderBook::new();
    assert_eq!(book.cancel_order(42), CancelResult::NotFound);
    book.add_order(Order::new(1, 10, 5, OrderType::GoodToCancel, Side::Buy)).unwrap();
    assert_eq!(book.cancel_order(1), CancelResult::Cancelled);
    assert_eq!(book.cancel_order(1), CancelResult::NotFound);
}

#[test]
fn modify_unknown_order_changes_nothing() {
    let mut book = OrderBook::new();
    book.add_order(Order::new(1, 10, 5, OrderType::GoodToCancel, Side::Buy)).unwrap();
    let trades = book.match_order(OrderModify::new(99, Side::Buy, 12, 3));
    assert!(trades.is_empty());
    assert_eq!(book.orderbook_size(), 1);
    assert_eq!(book.get_volume_at_price(10), 5);
}

// The book is never observed crossed: after any mix of operations the best
// bid stays below the best ask.
#[test]
fn best_bid_stays_below_best_ask() {
    let mut book = OrderBook::new();
    book.add_order(Order::new(1, 98, 5, OrderType::GoodToCancel, Side::Buy)).unwrap();
    book.add_order(Order::new(2, 99, 5, OrderType::GoodToCancel, Side::Buy)).unwrap();
    book.add_order(Order::new(3, 103, 5, OrderType::GoodToCancel, Side::Sell)).unwrap();
    book.add_order(Order::new(4, 101, 5, OrderType::GoodToCancel, Side::Sell)).unwrap();
    let (bb, ba) = book.get_best_bid_ask().unwrap();
    assert_eq!((bb, ba), (99, 101));
    assert!(bb < ba);
    // A marketable buy eats the best ask and the book stays uncrossed.
    book.add_order(Order::new(5, 102, 7, OrderType::GoodToCancel, Side::Buy)).unwrap();
    let (bb2, ba2) = book.get_best_bid_ask().unwrap();
    assert_eq!((bb2, ba2), (102, 103));
    assert!(bb2 < ba2);
}

// Conservation per side: what was submitted equals what is resting plus
// what traded plus what was cancelled.
#[test]
fn quantity_is_conserved() {
    let mut book = OrderBook::new();
    book.add_order(Order::new(1, 100, 10, OrderType::GoodToCancel, Side::Buy)).unwrap();
    book.add_order(Order::new(2, 99, 4, OrderType::GoodToCancel, Side::Buy)).unwrap();
    let trades = book.add_order(Order::new(3, 99, 6, OrderType::GoodToCancel, Side::Sell)).unwrap();
    let filled: u64 = trades.iter().map(|t| t.bid_trade.quantity).sum();
    assert_eq!(filled, 6);
    // Buy side: 10 + 4 submitted, 6 filled, 8 resting, none cancelled.
    assert_eq!(bid_total(&book), 8);
    assert_eq!(filled + bid_total(&book), 14);
    // Sell side: 6 submitted, 6 filled, nothing resting.
    assert_eq!(ask_total(&book), 0);
    let cancelled = book.cancel_order(1);
    assert_eq!(cancelled, CancelResult::Cancelled);
    // Cancelling takes the resting residue out: 4 + 6 + 4 accounts for 14.
    assert_eq!(bid_total(&book), 4);
}

// Strict FIFO within a level: the order that arrived first fills first.
#[test]
fn time_priority_within_level() {
    let mut book = OrderBook::new();
    book.add_order(Order::new(1, 10, 5, OrderType::GoodToCancel, Side::Buy)).unwrap();
    book.add_order(Order::new(2, 10, 5, OrderType::GoodToCancel, Side::Buy)).unwrap();
    let trades = book.add_order(Order::new(9, 10, 7, OrderType::GoodToCancel, Side::Sell)).unwrap();
    assert_eq!(trades.len(), 2);
    assert_eq!(trades[0].bid_trade.order_id, 1);
    assert_eq!(trades[0].bid_trade.quantity, 5);
    assert_eq!(trades[1].bid_trade.order_id, 2);
    assert_eq!(trades[1].bid_trade.quantity, 2);
    assert_eq!(bid_total(&book), 3);
}

#[test]
fn volume_at_price_counts_resting_orders() {
    let mut book = OrderBook::new();
    book.add_order(Order::new(1, 10, 3, OrderType::GoodToCancel, Side::Buy)).unwrap();
    book.add_order(Order::new(2, 10, 4, OrderType::GoodToCancel, Side::Buy)).unwrap();
    book.add_order(Order::new(3, 12, 9, OrderType::GoodToCancel, Side::Sell)).unwrap();
    assert_eq!(book.get_volume_at_price(10), 7);
    assert_eq!(book.get_volume_at_price(12), 9);
    assert_eq!(book.get_volume_at_price(11), 0);
}
