use matching_engine::{Listing, Order, OrderBook, PassReport, Receipt, Side, Status, SubmitError, Trade, Write};

fn submit(book: &mut OrderBook, owner: &str, side: Side, price: u64, quantity: u64) -> Receipt {
    book.add_order(owner.to_string(), side, price, quantity).unwrap()
}

fn after(mut order: Order, matched: u64) -> Order {
    order.reduce(matched);
    order
}

fn replay(book: &mut OrderBook, writes: Vec<Write>) {
    for write in writes {
        book.apply(write);
    }
}

fn ids(orders: &[Order]) -> Vec<u64> {
    orders.iter().map(|o| o.id).collect()
}

#[test]
fn a_new_book_lists_nothing() {
    let book = OrderBook::new();
    assert_eq!(book.get_orderbook(), Listing { bids: vec![], asks: vec![] });
    assert_eq!(book.index_range(Side::Buy), Vec::<u64>::new());
    assert_eq!(book.index_range(Side::Sell), Vec::<u64>::new());
    assert_eq!(book.get(1), None);
}

#[test]
fn the_first_order_gets_id_one() {
    let mut book = OrderBook::new();
    let receipt = submit(&mut book, "alice", Side::Buy, 100, 10);
    assert_eq!(receipt.order, Order::open(1, "alice".to_string(), Side::Buy, 100, 10));
    assert_eq!(receipt.trades, vec![]);
    assert_eq!(book.get(1), Some(&receipt.order));
    assert_eq!(book.index_range(Side::Buy), vec![1]);
    assert_eq!(book.index_range(Side::Sell), Vec::<u64>::new());
}

#[test]
fn ids_are_given_out_in_sequence_without_gaps() {
    let mut book = OrderBook::new();
    let mut seen = Vec::new();
    for n in 0..20u64 {
        let side = if n % 2 == 0 { Side::Buy } else { Side::Sell };
        seen.push(submit(&mut book, "x", side, 10 + n, 1 + n).order.id);
    }
    assert_eq!(seen, (1..=20u64).collect::<Vec<u64>>());
}

#[test]
fn a_refused_order_uses_up_no_id() {
    let mut book = OrderBook::new();
    assert_eq!(book.add_order("a".to_string(), Side::Buy, 0, 10), Err(SubmitError::Validation));
    assert_eq!(book.add_order("a".to_string(), Side::Buy, 10, 0), Err(SubmitError::Validation));
    assert_eq!(book.add_order("a".to_string(), Side::Sell, 0, 0), Err(SubmitError::Validation));
    assert_eq!(book.get_orderbook(), Listing { bids: vec![], asks: vec![] });
    assert_eq!(book.get(1), None);
    assert_eq!(submit(&mut book, "a", Side::Buy, 10, 10).order.id, 1);
}

#[test]
fn crossing_orders_of_equal_quantity_fill_each_other() {
    let mut book = OrderBook::new();
    submit(&mut book, "alice", Side::Buy, 101, 10);
    let receipt = submit(&mut book, "bob", Side::Sell, 100, 10);
    assert_eq!(receipt.trades, vec![Trade { buy_order_id: 1, sell_order_id: 2, quantity: 10, price: 100 }]);
    let buy = book.get(1).unwrap();
    assert_eq!(buy.remaining_quantity, 0);
    assert_eq!(buy.status, Status::Filled);
    let sell = book.get(2).unwrap();
    assert_eq!(sell.remaining_quantity, 0);
    assert_eq!(sell.status, Status::Filled);
    assert_eq!(book.index_range(Side::Buy), Vec::<u64>::new());
    assert_eq!(book.index_range(Side::Sell), Vec::<u64>::new());
    assert_eq!(book.get_orderbook(), Listing { bids: vec![], asks: vec![] });
}

#[test]
fn a_smaller_sell_fills_and_leaves_the_buy_open() {
    let mut book = OrderBook::new();
    submit(&mut book, "alice", Side::Buy, 100, 10);
    let receipt = submit(&mut book, "bob", Side::Sell, 100, 4);
    assert_eq!(receipt.trades, vec![Trade { buy_order_id: 1, sell_order_id: 2, quantity: 4, price: 100 }]);

    let sell = book.get(2).unwrap();
    assert_eq!(sell.remaining_quantity, 0);
    assert_eq!(sell.status, Status::Filled);
    assert_eq!(book.index_range(Side::Sell), Vec::<u64>::new());

    let buy = book.get(1).unwrap();
    assert_eq!(buy.remaining_quantity, 6);
    assert_eq!(buy.status, Status::Open);
    assert_eq!(buy.limit_price, 100);
    assert_eq!(book.index_range(Side::Buy), vec![1]);

    let listing = book.get_orderbook();
    assert_eq!(listing.asks, vec![]);
    assert_eq!(listing.bids.len(), 1);
    assert_eq!(listing.bids[0].id, 1);
    assert_eq!(listing.bids[0].remaining_quantity, 6);
}

#[test]
fn the_receipt_shows_the_order_before_the_pass() {
    let mut book = OrderBook::new();
    submit(&mut book, "alice", Side::Buy, 100, 10);
    let receipt = submit(&mut book, "bob", Side::Sell, 100, 4);
    assert_eq!(receipt.order, Order::open(2, "bob".to_string(), Side::Sell, 100, 4));
    assert_eq!(receipt.order.remaining_quantity, 4);
    assert_eq!(receipt.order.status, Status::Open);
    assert_eq!(book.get(2).unwrap().status, Status::Filled);
}

#[test]
fn a_bid_below_the_best_ask_changes_nothing() {
    let mut book = OrderBook::new();
    submit(&mut book, "alice", Side::Sell, 100, 5);
    submit(&mut book, "bob", Side::Sell, 101, 5);
    let receipt = submit(&mut book, "carol", Side::Buy, 99, 5);
    assert_eq!(receipt.trades, vec![]);
    let before = book.get_orderbook();
    assert_eq!(book.match_orders(), PassReport { trades: vec![], writes: vec![], missing: None });
    assert_eq!(book.get_orderbook(), before);
    assert_eq!(book.index_range(Side::Buy), vec![3]);
    assert_eq!(book.index_range(Side::Sell), vec![1, 2]);
    assert_eq!(book.get(1).unwrap().remaining_quantity, 5);
    assert_eq!(book.get(2).unwrap().remaining_quantity, 5);
    assert_eq!(book.get(3).unwrap().remaining_quantity, 5);
}

#[test]
fn a_pass_on_a_one_sided_book_does_nothing() {
    let mut book = OrderBook::new();
    assert_eq!(book.match_orders(), PassReport { trades: vec![], writes: vec![], missing: None });
    submit(&mut book, "alice", Side::Buy, 100, 5);
    assert_eq!(book.match_orders(), PassReport { trades: vec![], writes: vec![], missing: None });
    assert_eq!(book.index_range(Side::Buy), vec![1]);
}

#[test]
fn a_resting_ask_sets_the_price_for_a_higher_bid() {
    let mut book = OrderBook::new();
    submit(&mut book, "alice", Side::Sell, 100, 5);
    let receipt = submit(&mut book, "bob", Side::Buy, 110, 5);
    assert_eq!(receipt.trades, vec![Trade { buy_order_id: 2, sell_order_id: 1, quantity: 5, price: 100 }]);
}

#[test]
fn a_lower_ask_sets_the_price_against_a_resting_bid() {
    let mut book = OrderBook::new();
    submit(&mut book, "alice", Side::Buy, 110, 5);
    let receipt = submit(&mut book, "bob", Side::Sell, 100, 5);
    assert_eq!(receipt.trades, vec![Trade { buy_order_id: 1, sell_order_id: 2, quantity: 5, price: 100 }]);
}

#[test]
fn one_large_order_sweeps_several_resting_orders_best_first() {
    let mut book = OrderBook::new();
    submit(&mut book, "a", Side::Sell, 102, 3);
    submit(&mut book, "b", Side::Sell, 100, 2);
    submit(&mut book, "c", Side::Sell, 101, 4);
    submit(&mut book, "d", Side::Sell, 100, 1);
    let receipt = submit(&mut book, "e", Side::Buy, 101, 8);
    assert_eq!(
        receipt.trades,
        vec![
            Trade { buy_order_id: 5, sell_order_id: 2, quantity: 2, price: 100 },
            Trade { buy_order_id: 5, sell_order_id: 4, quantity: 1, price: 100 },
            Trade { buy_order_id: 5, sell_order_id: 3, quantity: 4, price: 101 },
        ]
    );
    assert_eq!(book.get(5).unwrap().remaining_quantity, 1);
    assert_eq!(book.get(5).unwrap().status, Status::Open);
    assert_eq!(book.index_range(Side::Buy), vec![5]);
    assert_eq!(book.index_range(Side::Sell), vec![1]);
    assert_eq!(book.get(1).unwrap().remaining_quantity, 3);
}

#[test]
fn a_large_resting_order_is_filled_bit_by_bit() {
    let mut book = OrderBook::new();
    submit(&mut book, "maker", Side::Buy, 100, 10);
    let first = submit(&mut book, "t1", Side::Sell, 100, 3);
    assert_eq!(first.trades, vec![Trade { buy_order_id: 1, sell_order_id: 2, quantity: 3, price: 100 }]);
    assert_eq!(book.get(1).unwrap().remaining_quantity, 7);
    let second = submit(&mut book, "t2", Side::Sell, 99, 3);
    assert_eq!(second.trades, vec![Trade { buy_order_id: 1, sell_order_id: 3, quantity: 3, price: 99 }]);
    assert_eq!(book.get(1).unwrap().remaining_quantity, 4);
    let third = submit(&mut book, "t3", Side::Sell, 100, 4);
    assert_eq!(third.trades, vec![Trade { buy_order_id: 1, sell_order_id: 4, quantity: 4, price: 100 }]);
    assert_eq!(book.get(1).unwrap().remaining_quantity, 0);
    assert_eq!(book.get(1).unwrap().status, Status::Filled);
    assert_eq!(book.get_orderbook(), Listing { bids: vec![], asks: vec![] });
}

#[test]
fn bids_are_listed_by_falling_price_then_rising_id() {
    let mut book = OrderBook::new();
    submit(&mut book, "a", Side::Buy, 10, 1);
    submit(&mut book, "b", Side::Buy, 12, 1);
    submit(&mut book, "c", Side::Buy, 11, 1);
    submit(&mut book, "d", Side::Buy, 12, 1);
    submit(&mut book, "e", Side::Buy, 10, 1);
    let listing = book.get_orderbook();
    assert_eq!(ids(&listing.bids), vec![2, 4, 3, 1, 5]);
    assert_eq!(book.index_range(Side::Buy), vec![2, 4, 3, 1, 5]);
    assert!(listing.bids.iter().all(|o| o.status == Status::Open && o.side == Side::Buy));
    assert_eq!(listing.asks, vec![]);
}

#[test]
fn asks_are_listed_by_rising_price_then_rising_id() {
    let mut book = OrderBook::new();
    submit(&mut book, "a", Side::Sell, 10, 1);
    submit(&mut book, "b", Side::Sell, 12, 1);
    submit(&mut book, "c", Side::Sell, 11, 1);
    submit(&mut book, "d", Side::Sell, 12, 1);
    submit(&mut book, "e", Side::Sell, 10, 1);
    let listing = book.get_orderbook();
    assert_eq!(ids(&listing.asks), vec![1, 5, 3, 2, 4]);
    assert_eq!(book.index_range(Side::Sell), vec![1, 5, 3, 2, 4]);
    assert!(listing.asks.iter().all(|o| o.status == Status::Open && o.side == Side::Sell));
    assert_eq!(listing.bids, vec![]);
}

#[test]
fn ids_rank_by_number_not_by_spelling() {
    let mut book = OrderBook::new();
    for _ in 0..11 {
        submit(&mut book, "a", Side::Buy, 50, 1);
    }
    assert_eq!(book.index_range(Side::Buy), (1..=11u64).collect::<Vec<u64>>());
}

#[test]
fn the_earlier_of_two_equal_bids_is_matched_first() {
    let mut book = OrderBook::new();
    submit(&mut book, "early", Side::Buy, 100, 5);
    submit(&mut book, "late", Side::Buy, 100, 5);
    let receipt = submit(&mut book, "seller", Side::Sell, 100, 5);
    assert_eq!(receipt.trades, vec![Trade { buy_order_id: 1, sell_order_id: 3, quantity: 5, price: 100 }]);
    assert_eq!(book.index_range(Side::Buy), vec![2]);
}

#[test]
fn filled_orders_are_never_listed() {
    let mut book = OrderBook::new();
    submit(&mut book, "a", Side::Buy, 100, 5);
    submit(&mut book, "b", Side::Sell, 95, 8);
    submit(&mut book, "c", Side::Buy, 96, 1);
    submit(&mut book, "d", Side::Sell, 120, 2);
    let listing = book.get_orderbook();
    assert_eq!(ids(&listing.bids), Vec::<u64>::new());
    assert_eq!(ids(&listing.asks), vec![2, 4]);
    for order in listing.bids.iter().chain(listing.asks.iter()) {
        assert_eq!(order.status, Status::Open);
        assert!(order.remaining_quantity > 0);
    }
    assert_eq!(book.get(1).unwrap().status, Status::Filled);
    assert_eq!(book.get(3).unwrap().status, Status::Filled);
    assert_eq!(book.get(2).unwrap().remaining_quantity, 2);
}

#[test]
fn no_quantity_is_made_or_lost() {
    let mut book = OrderBook::new();
    let plan: [(Side, u64, u64); 10] = [
        (Side::Buy, 100, 7),
        (Side::Sell, 103, 4),
        (Side::Sell, 99, 5),
        (Side::Buy, 104, 9),
        (Side::Sell, 100, 6),
        (Side::Buy, 98, 3),
        (Side::Sell, 97, 11),
        (Side::Buy, 101, 2),
        (Side::Buy, 97, 20),
        (Side::Sell, 1, 1),
    ];
    let mut traded = 0u64;
    let mut submitted_buy = 0u64;
    let mut submitted_sell = 0u64;
    let mut count = 0u64;
    for (side, price, quantity) in plan {
        let receipt = submit(&mut book, "x", side, price, quantity);
        traded += receipt.trades.iter().map(|t| t.quantity).sum::<u64>();
        match side {
            Side::Buy => submitted_buy += quantity,
            Side::Sell => submitted_sell += quantity,
        }
        count += 1;
        let mut left_buy = 0u64;
        let mut left_sell = 0u64;
        for id in 1..=count {
            let order = book.get(id).unwrap();
            match order.side {
                Side::Buy => left_buy += order.remaining_quantity,
                Side::Sell => left_sell += order.remaining_quantity,
            }
        }
        assert_eq!(left_buy + traded, submitted_buy);
        assert_eq!(left_sell + traded, submitted_sell);
    }
    assert_eq!(traded, 27);
}

#[test]
fn put_replaces_the_record_of_the_same_id() {
    let mut book = OrderBook::new();
    book.put(Order::open(5, "a".to_string(), Side::Buy, 10, 10));
    book.put(Order::open(2, "b".to_string(), Side::Sell, 20, 20));
    book.put(Order::open(9, "c".to_string(), Side::Buy, 30, 30));
    assert_eq!(book.get(2).unwrap().owner, "b");
    assert_eq!(book.get(5).unwrap().owner, "a");
    assert_eq!(book.get(9).unwrap().owner, "c");
    assert_eq!(book.get(1), None);
    assert_eq!(book.get(3), None);
    assert_eq!(book.get(10), None);
    book.put(Order::open(5, "d".to_string(), Side::Sell, 11, 12));
    assert_eq!(book.get(5), Some(&Order::open(5, "d".to_string(), Side::Sell, 11, 12)));
    assert_eq!(book.get(2).unwrap().owner, "b");
    assert_eq!(book.get(9).unwrap().owner, "c");
}

#[test]
fn put_alone_lists_nothing() {
    let mut book = OrderBook::new();
    book.put(Order::open(5, "a".to_string(), Side::Buy, 10, 10));
    assert_eq!(book.index_range(Side::Buy), Vec::<u64>::new());
    assert_eq!(book.get_orderbook(), Listing { bids: vec![], asks: vec![] });
}

#[test]
fn listing_an_order_again_moves_its_entry() {
    let mut book = OrderBook::new();
    book.index_insert(Side::Sell, 10, 1);
    book.index_insert(Side::Sell, 20, 2);
    book.index_insert(Side::Sell, 30, 3);
    assert_eq!(book.index_range(Side::Sell), vec![1, 2, 3]);
    book.index_insert(Side::Sell, 25, 1);
    assert_eq!(book.index_range(Side::Sell), vec![2, 1, 3]);
    assert_eq!(book.index_range(Side::Buy), Vec::<u64>::new());
}

#[test]
fn index_remove_takes_off_that_order_only() {
    let mut book = OrderBook::new();
    book.index_insert(Side::Buy, 10, 1);
    book.index_insert(Side::Buy, 20, 2);
    book.index_insert(Side::Buy, 30, 3);
    book.index_insert(Side::Sell, 40, 2);
    assert_eq!(book.index_range(Side::Buy), vec![3, 2, 1]);
    book.index_remove(Side::Buy, 2);
    assert_eq!(book.index_range(Side::Buy), vec![3, 1]);
    assert_eq!(book.index_range(Side::Sell), vec![2]);
    book.index_remove(Side::Buy, 7);
    assert_eq!(book.index_range(Side::Buy), vec![3, 1]);
}

#[test]
fn a_listing_passes_over_entries_without_a_record() {
    let mut book = OrderBook::new();
    submit(&mut book, "a", Side::Buy, 10, 1);
    book.index_insert(Side::Buy, 11, 40);
    submit(&mut book, "b", Side::Buy, 12, 1);
    book.index_insert(Side::Sell, 90, 41);
    assert_eq!(book.index_range(Side::Buy), vec![2, 40, 1]);
    let listing = book.get_orderbook();
    assert_eq!(ids(&listing.bids), vec![2, 1]);
    assert_eq!(listing.asks, vec![]);
}

#[test]
fn a_pass_is_given_up_when_the_best_bid_has_no_record() {
    let mut book = OrderBook::new();
    submit(&mut book, "a", Side::Sell, 100, 5);
    book.index_insert(Side::Buy, 200, 77);
    assert_eq!(book.match_orders(), PassReport { trades: vec![], writes: vec![], missing: Some(77) });
    assert_eq!(book.index_range(Side::Buy), vec![77]);
    assert_eq!(book.index_range(Side::Sell), vec![1]);
    assert_eq!(book.get(1).unwrap().remaining_quantity, 5);
}

#[test]
fn a_pass_is_given_up_when_the_best_ask_has_no_record() {
    let mut book = OrderBook::new();
    submit(&mut book, "a", Side::Buy, 100, 5);
    book.index_insert(Side::Sell, 1, 78);
    assert_eq!(book.match_orders(), PassReport { trades: vec![], writes: vec![], missing: Some(78) });
    assert_eq!(book.get(1).unwrap().remaining_quantity, 5);
}

#[test]
fn a_submission_reports_the_missing_record_and_the_trades_before_it() {
    let mut book = OrderBook::new();
    submit(&mut book, "a", Side::Sell, 100, 5);
    book.index_insert(Side::Sell, 101, 50);
    let outcome = book.add_order("b".to_string(), Side::Buy, 105, 8);
    assert_eq!(
        outcome,
        Err(SubmitError::NotFound {
            id: 50,
            receipt: Receipt {
                order: Order::open(2, "b".to_string(), Side::Buy, 105, 8),
                trades: vec![Trade { buy_order_id: 2, sell_order_id: 1, quantity: 5, price: 100 }],
                writes: vec![
                    Write::Put(Order::open(2, "b".to_string(), Side::Buy, 105, 8)),
                    Write::IndexInsert { side: Side::Buy, price: 105, id: 2 },
                    Write::IndexRemove { side: Side::Sell, id: 1 },
                    Write::Put(after(Order::open(2, "b".to_string(), Side::Buy, 105, 8), 5)),
                    Write::Put(after(Order::open(1, "a".to_string(), Side::Sell, 100, 5), 5)),
                ],
            },
        })
    );
    assert_eq!(book.get(2).unwrap().remaining_quantity, 3);
    assert_eq!(book.get(1).unwrap().status, Status::Filled);
    assert_eq!(book.index_range(Side::Buy), vec![2]);
    assert_eq!(book.index_range(Side::Sell), vec![50]);
}

#[test]
fn a_resting_order_is_stored_and_listed_and_nothing_else() {
    let mut book = OrderBook::new();
    let receipt = submit(&mut book, "alice", Side::Sell, 100, 10);
    assert_eq!(
        receipt.writes,
        vec![
            Write::Put(Order::open(1, "alice".to_string(), Side::Sell, 100, 10)),
            Write::IndexInsert { side: Side::Sell, price: 100, id: 1 },
        ]
    );
}

#[test]
fn a_match_stores_both_records_whether_filled_or_not() {
    let mut book = OrderBook::new();
    submit(&mut book, "alice", Side::Buy, 100, 10);
    let receipt = submit(&mut book, "bob", Side::Sell, 100, 4);
    assert_eq!(
        receipt.writes,
        vec![
            Write::Put(Order::open(2, "bob".to_string(), Side::Sell, 100, 4)),
            Write::IndexInsert { side: Side::Sell, price: 100, id: 2 },
            Write::IndexRemove { side: Side::Sell, id: 2 },
            Write::Put(after(Order::open(1, "alice".to_string(), Side::Buy, 100, 10), 4)),
            Write::Put(after(Order::open(2, "bob".to_string(), Side::Sell, 100, 4), 4)),
        ]
    );
}

#[test]
fn two_orders_filled_in_one_match_both_leave_their_index() {
    let mut book = OrderBook::new();
    submit(&mut book, "alice", Side::Buy, 100, 7);
    let receipt = submit(&mut book, "bob", Side::Sell, 90, 7);
    assert_eq!(
        receipt.writes[2..],
        [
            Write::IndexRemove { side: Side::Buy, id: 1 },
            Write::IndexRemove { side: Side::Sell, id: 2 },
            Write::Put(after(Order::open(1, "alice".to_string(), Side::Buy, 100, 7), 7)),
            Write::Put(after(Order::open(2, "bob".to_string(), Side::Sell, 90, 7), 7)),
        ]
    );
}

#[test]
fn the_reported_writes_rebuild_the_book() {
    let plan: [(Side, u64, u64); 9] = [
        (Side::Buy, 100, 7),
        (Side::Sell, 103, 4),
        (Side::Sell, 99, 5),
        (Side::Buy, 104, 9),
        (Side::Sell, 100, 6),
        (Side::Buy, 98, 3),
        (Side::Sell, 97, 11),
        (Side::Buy, 101, 2),
        (Side::Buy, 97, 20),
    ];
    let mut book = OrderBook::new();
    let mut mirror = OrderBook::new();
    for (n, (side, price, quantity)) in plan.into_iter().enumerate() {
        let receipt = submit(&mut book, "x", side, price, quantity);
        replay(&mut mirror, receipt.writes);
        assert_eq!(mirror.get_orderbook(), book.get_orderbook());
        assert_eq!(mirror.index_range(Side::Buy), book.index_range(Side::Buy));
        assert_eq!(mirror.index_range(Side::Sell), book.index_range(Side::Sell));
        for id in 0..=(n as u64 + 2) {
            assert_eq!(mirror.get(id), book.get(id));
        }
    }
}

#[test]
fn a_pass_reports_the_writes_it_made() {
    let mut book = OrderBook::new();
    book.put(Order::open(1, "a".to_string(), Side::Buy, 100, 5));
    book.index_insert(Side::Buy, 100, 1);
    book.put(Order::open(2, "b".to_string(), Side::Sell, 100, 8));
    book.index_insert(Side::Sell, 100, 2);
    let report = book.match_orders();
    assert_eq!(report.trades, vec![Trade { buy_order_id: 1, sell_order_id: 2, quantity: 5, price: 100 }]);
    assert_eq!(report.missing, None);
    assert_eq!(
        report.writes,
        vec![
            Write::IndexRemove { side: Side::Buy, id: 1 },
            Write::Put(after(Order::open(1, "a".to_string(), Side::Buy, 100, 5), 5)),
            Write::Put(after(Order::open(2, "b".to_string(), Side::Sell, 100, 8), 5)),
        ]
    );
    assert_eq!(book.index_range(Side::Buy), Vec::<u64>::new());
    assert_eq!(book.index_range(Side::Sell), vec![2]);
}

#[test]
fn a_stored_id_is_never_given_out_again() {
    let mut book = OrderBook::new();
    book.put(Order::open(7, "restored".to_string(), Side::Buy, 10, 10));
    assert_eq!(submit(&mut book, "a", Side::Buy, 10, 1).order.id, 8);
    book.put(Order::open(3, "restored".to_string(), Side::Buy, 10, 10));
    assert_eq!(submit(&mut book, "b", Side::Buy, 10, 1).order.id, 9);
    assert_eq!(book.get(7).unwrap().owner, "restored");
    assert_eq!(book.get(3).unwrap().owner, "restored");
}

#[test]
fn no_order_is_accepted_once_every_id_is_given_out() {
    let mut book = OrderBook::new();
    book.put(Order::open(u64::MAX - 2, "x".to_string(), Side::Sell, 10, 10));
    assert_eq!(submit(&mut book, "a", Side::Buy, 5, 1).order.id, u64::MAX - 1);
    assert_eq!(book.add_order("b".to_string(), Side::Buy, 5, 1), Err(SubmitError::Exhausted));
    assert_eq!(book.add_order("b".to_string(), Side::Buy, 0, 1), Err(SubmitError::Validation));
    assert_eq!(book.index_range(Side::Buy), vec![u64::MAX - 1]);
    assert_eq!(book.get(u64::MAX), None);

    let mut book = OrderBook::new();
    book.put(Order::open(u64::MAX, "x".to_string(), Side::Sell, 10, 10));
    assert_eq!(book.add_order("b".to_string(), Side::Buy, 5, 1), Err(SubmitError::Exhausted));
    assert_eq!(book.get(u64::MAX).unwrap().owner, "x");
}

#[test]
fn applying_a_write_is_making_that_change() {
    let mut book = OrderBook::new();
    book.apply(Write::Put(Order::open(4, "a".to_string(), Side::Sell, 10, 10)));
    assert_eq!(book.get(4), Some(&Order::open(4, "a".to_string(), Side::Sell, 10, 10)));
    assert_eq!(book.index_range(Side::Sell), Vec::<u64>::new());
    book.apply(Write::IndexInsert { side: Side::Sell, price: 10, id: 4 });
    book.apply(Write::IndexInsert { side: Side::Sell, price: 9, id: 6 });
    assert_eq!(book.index_range(Side::Sell), vec![6, 4]);
    assert_eq!(book.index_range(Side::Buy), Vec::<u64>::new());
    book.apply(Write::IndexRemove { side: Side::Buy, id: 4 });
    assert_eq!(book.index_range(Side::Sell), vec![6, 4]);
    book.apply(Write::IndexRemove { side: Side::Sell, id: 6 });
    assert_eq!(book.index_range(Side::Sell), vec![4]);
    assert_eq!(submit(&mut book, "b", Side::Sell, 50, 1).order.id, 5);
}
