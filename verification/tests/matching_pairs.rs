use matching_engine::{settle, Order, Side, Status, Trade};

fn bid(id: u64, price: u64, quantity: u64) -> Order {
    Order::open(id, "buyer".to_string(), Side::Buy, price, quantity)
}

fn ask(id: u64, price: u64, quantity: u64) -> Order {
    Order::open(id, "seller".to_string(), Side::Sell, price, quantity)
}

#[test]
fn a_bid_below_the_ask_does_not_match() {
    assert_eq!(settle(&bid(1, 99, 10), &ask(2, 100, 10)), None);
}

#[test]
fn equal_prices_cross() {
    let fill = settle(&bid(1, 100, 10), &ask(2, 100, 10)).unwrap();
    assert_eq!(fill.trade, Trade { buy_order_id: 1, sell_order_id: 2, quantity: 10, price: 100 });
}

#[test]
fn equal_quantities_fill_both_orders() {
    let fill = settle(&bid(1, 105, 10), &ask(2, 100, 10)).unwrap();
    assert_eq!(fill.buy.remaining_quantity, 0);
    assert_eq!(fill.buy.status, Status::Filled);
    assert_eq!(fill.sell.remaining_quantity, 0);
    assert_eq!(fill.sell.status, Status::Filled);
}

#[test]
fn the_trade_is_priced_at_the_ask() {
    let fill = settle(&bid(1, 105, 10), &ask(2, 100, 10)).unwrap();
    assert_eq!(fill.trade.price, 100);
    assert_ne!(fill.trade.price, 105);
}

#[test]
fn the_smaller_quantity_is_traded() {
    let fill = settle(&bid(1, 100, 10), &ask(2, 100, 4)).unwrap();
    assert_eq!(fill.trade.quantity, 4);
    assert_eq!(fill.buy.remaining_quantity, 6);
    assert_eq!(fill.buy.status, Status::Open);
    assert_eq!(fill.sell.remaining_quantity, 0);
    assert_eq!(fill.sell.status, Status::Filled);

    let fill = settle(&bid(1, 100, 3), &ask(2, 100, 8)).unwrap();
    assert_eq!(fill.trade.quantity, 3);
    assert_eq!(fill.buy.remaining_quantity, 0);
    assert_eq!(fill.buy.status, Status::Filled);
    assert_eq!(fill.sell.remaining_quantity, 5);
    assert_eq!(fill.sell.status, Status::Open);
}

#[test]
fn a_match_keeps_identity_and_original_quantity() {
    let fill = settle(&bid(7, 100, 10), &ask(8, 90, 4)).unwrap();
    assert_eq!(fill.buy.id, 7);
    assert_eq!(fill.buy.owner, "buyer");
    assert_eq!(fill.buy.side, Side::Buy);
    assert_eq!(fill.buy.limit_price, 100);
    assert_eq!(fill.buy.original_quantity, 10);
    assert_eq!(fill.sell.id, 8);
    assert_eq!(fill.sell.owner, "seller");
    assert_eq!(fill.sell.side, Side::Sell);
    assert_eq!(fill.sell.limit_price, 90);
    assert_eq!(fill.sell.original_quantity, 4);
}
