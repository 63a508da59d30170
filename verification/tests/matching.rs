use order_book::model::{Order, OrderBook, OrderSide, Trade};

fn buy(price: u64, quantity: u64) -> Order {
    Order { side: OrderSide::Buy, price, quantity }
}

fn sell(price: u64, quantity: u64) -> Order {
    Order { side: OrderSide::Sell, price, quantity }
}

fn run(orders: &[Order]) -> OrderBook {
    let mut book = OrderBook::new();
    for order in orders {
        book.process_order(*order);
    }
    book
}

fn no_empty_level(book: &OrderBook) -> bool {
    book.bids.values().all(|queue| !queue.is_empty() && queue.iter().all(|o| o.quantity >= 1))
        && book.asks.values().all(|queue| !queue.is_empty() && queue.iter().all(|o| o.quantity >= 1))
}

#[test]
fn test_simple_match() {
    let mut order_book = OrderBook::new();

    order_book.process_order(Order {
        side: OrderSide::Buy,
        price: 100,
        quantity: 1,
    });
    order_book.process_order(Order {
        side: OrderSide::Sell,
        price: 100,
        quantity: 1,
    });

    assert_eq!(order_book.trades.len(), 1);
    assert_eq!(order_book.trades[0].price, 100);
    assert_eq!(order_book.trades[0].quantity, 1);
    assert!(order_book.bids.is_empty());
    assert!(order_book.asks.is_empty());
}

#[test]
fn test_partial_match() {
    let mut order_book = OrderBook::new();

    order_book.process_order(Order {
        side: OrderSide::Buy,
        price: 100,
        quantity: 2,
    });
    order_book.process_order(Order {
        side: OrderSide::Sell,
        price: 100,
        quantity: 1,
    });

    assert_eq!(order_book.trades.len(), 1);
    assert_eq!(order_book.trades[0].quantity, 1);
    assert_eq!(order_book.bids.get(&100).unwrap()[0].quantity, 1);
    assert!(order_book.asks.is_empty());
}

#[test]
fn test_no_match() {
    let mut order_book = OrderBook::new();

    order_book.process_order(Order {
        side: OrderSide::Buy,
        price: 100,
        quantity: 1,
    });
    order_book.process_order(Order {
        side: OrderSide::Sell,
        price: 101,
        quantity: 1,
    });

    assert_eq!(order_book.trades.len(), 0);
    assert_eq!(order_book.bids.get(&100).unwrap().len(), 1);
    assert_eq!(order_book.asks.get(&101).unwrap().len(), 1);
}

#[test]
fn test_match_across_multiple_price_levels() {
    let mut order_book = OrderBook::new();

    order_book.process_order(Order {
        side: OrderSide::Sell,
        price: 101,
        quantity: 5,
    });
    order_book.process_order(Order {
        side: OrderSide::Sell,
        price: 102,
        quantity: 5,
    });

    order_book.process_order(Order {
        side: OrderSide::Buy,
        price: 102,
        quantity: 12,
    });

    assert_eq!(order_book.trades.len(), 2);

    assert_eq!(order_book.trades[0].price, 101);
    assert_eq!(order_book.trades[0].quantity, 5);

    assert_eq!(order_book.trades[1].price, 102);
    assert_eq!(order_book.trades[1].quantity, 5);

    assert!(order_book.asks.is_empty());

    assert_eq!(order_book.bids.get(&102).unwrap()[0].quantity, 2);
}

#[test]
fn new_book_is_empty() {
    let book = OrderBook::new();
    assert!(book.bids.is_empty());
    assert!(book.asks.is_empty());
    assert!(book.trades.is_empty());
}

#[test]
fn resting_orders_keep_side_price_and_quantity() {
    let book = run(&[buy(100, 1), sell(101, 1)]);
    assert_eq!(book.bids.len(), 1);
    assert_eq!(book.asks.len(), 1);
    assert_eq!(book.bids.get(&100).unwrap(), &vec![buy(100, 1)]);
    assert_eq!(book.asks.get(&101).unwrap(), &vec![sell(101, 1)]);
}

#[test]
fn zero_quantity_buy_is_dropped() {
    let book = run(&[sell(100, 3), buy(100, 0)]);
    assert!(book.trades.is_empty());
    assert!(book.bids.is_empty());
    assert_eq!(book.asks.get(&100).unwrap(), &vec![sell(100, 3)]);
}

#[test]
fn zero_quantity_sell_is_dropped() {
    let book = run(&[buy(100, 3), sell(100, 0)]);
    assert!(book.trades.is_empty());
    assert!(book.asks.is_empty());
    assert_eq!(book.bids.get(&100).unwrap(), &vec![buy(100, 3)]);
}

#[test]
fn buy_takes_the_lowest_ask_first_whatever_the_arrival_order() {
    let book = run(&[sell(103, 4), sell(101, 4), sell(102, 4), buy(103, 9)]);
    assert_eq!(
        book.trades,
        vec![
            Trade { price: 101, quantity: 4 },
            Trade { price: 102, quantity: 4 },
            Trade { price: 103, quantity: 1 },
        ]
    );
    assert!(book.bids.is_empty());
    assert_eq!(book.asks.len(), 1);
    assert_eq!(book.asks.get(&103).unwrap(), &vec![sell(103, 3)]);
}

#[test]
fn sell_takes_the_highest_bid_first_whatever_the_arrival_order() {
    let book = run(&[buy(101, 5), buy(102, 5), buy(100, 5), sell(101, 12)]);
    assert_eq!(
        book.trades,
        vec![Trade { price: 102, quantity: 5 }, Trade { price: 101, quantity: 5 }]
    );
    assert_eq!(book.bids.len(), 1);
    assert_eq!(book.bids.get(&100).unwrap(), &vec![buy(100, 5)]);
    assert_eq!(book.asks.len(), 1);
    assert_eq!(book.asks.get(&101).unwrap(), &vec![sell(101, 2)]);
}

#[test]
fn trade_is_made_at_the_maker_price() {
    let book = run(&[sell(99, 5), buy(105, 5)]);
    assert_eq!(book.trades, vec![Trade { price: 99, quantity: 5 }]);
    let book = run(&[buy(105, 5), sell(99, 5)]);
    assert_eq!(book.trades, vec![Trade { price: 105, quantity: 5 }]);
}

#[test]
fn buy_stops_at_its_limit() {
    let book = run(&[sell(100, 2), sell(105, 2), buy(104, 5)]);
    assert_eq!(book.trades, vec![Trade { price: 100, quantity: 2 }]);
    assert_eq!(book.asks.len(), 1);
    assert_eq!(book.asks.get(&105).unwrap(), &vec![sell(105, 2)]);
    assert_eq!(book.bids.get(&104).unwrap(), &vec![buy(104, 3)]);
    assert!(book.trades.iter().all(|t| t.price <= 104));
}

#[test]
fn sell_stops_at_its_limit() {
    let book = run(&[buy(100, 2), buy(95, 2), sell(96, 5)]);
    assert_eq!(book.trades, vec![Trade { price: 100, quantity: 2 }]);
    assert_eq!(book.bids.len(), 1);
    assert_eq!(book.bids.get(&95).unwrap(), &vec![buy(95, 2)]);
    assert_eq!(book.asks.get(&96).unwrap(), &vec![sell(96, 3)]);
    assert!(book.trades.iter().all(|t| t.price >= 96));
}

#[test]
fn earlier_order_at_a_price_is_filled_first() {
    let book = run(&[sell(100, 5), sell(100, 7), sell(100, 2), buy(100, 8)]);
    assert_eq!(
        book.trades,
        vec![Trade { price: 100, quantity: 5 }, Trade { price: 100, quantity: 3 }]
    );
    assert_eq!(book.asks.get(&100).unwrap(), &vec![sell(100, 4), sell(100, 2)]);
    assert!(book.bids.is_empty());
}

#[test]
fn later_order_at_a_price_rests_behind_the_earlier() {
    let book = run(&[buy(100, 5), buy(100, 7)]);
    assert_eq!(book.bids.get(&100).unwrap(), &vec![buy(100, 5), buy(100, 7)]);
    let book = run(&[buy(100, 5), buy(100, 7), sell(100, 5)]);
    assert_eq!(book.bids.get(&100).unwrap(), &vec![buy(100, 7)]);
    assert_eq!(book.trades, vec![Trade { price: 100, quantity: 5 }]);
}

#[test]
fn exact_fill_of_a_level_removes_it() {
    let book = run(&[sell(100, 5), sell(100, 5), buy(100, 10)]);
    assert_eq!(book.trades.len(), 2);
    assert!(book.asks.is_empty());
    assert!(book.bids.is_empty());
}

#[test]
fn quantity_is_conserved() {
    let orders = [sell(101, 5), sell(102, 5), sell(102, 1), buy(102, 12)];
    let book = run(&orders);
    let matched: u64 = book.trades.iter().map(|t| t.quantity).sum();
    let resting: u64 = book.bids.get(&102).unwrap().iter().map(|o| o.quantity).sum();
    assert_eq!(matched, 11);
    assert_eq!(resting, 1);
    assert_eq!(matched + resting, 12);
}

#[test]
fn no_level_is_left_empty() {
    let orders = [
        sell(101, 5),
        sell(102, 5),
        buy(101, 5),
        buy(100, 3),
        sell(100, 3),
        buy(102, 4),
        sell(90, 1),
        buy(110, 1),
    ];
    let mut book = OrderBook::new();
    for order in orders.iter() {
        book.process_order(*order);
        assert!(no_empty_level(&book));
    }
    assert_eq!(book.asks.get(&102).unwrap(), &vec![sell(102, 1)]);
    assert!(book.bids.is_empty());
}

#[test]
fn replay_gives_the_same_book() {
    let orders = [
        sell(101, 5),
        buy(99, 2),
        sell(102, 5),
        buy(102, 7),
        sell(98, 4),
        buy(100, 1),
        sell(100, 6),
    ];
    let first = run(&orders);
    let second = run(&orders);
    assert_eq!(first.trades, second.trades);
    assert_eq!(first.bids, second.bids);
    assert_eq!(first.asks, second.asks);
    assert_eq!(
        first.trades,
        vec![
            Trade { price: 101, quantity: 5 },
            Trade { price: 102, quantity: 2 },
            Trade { price: 99, quantity: 2 },
            Trade { price: 98, quantity: 1 },
        ]
    );
}

#[test]
fn trades_are_appended_to_the_log() {
    let mut book = run(&[sell(100, 1), buy(100, 1)]);
    let earlier = book.trades.clone();
    book.process_order(sell(50, 2));
    book.process_order(buy(60, 1));
    assert_eq!(&book.trades[..earlier.len()], &earlier[..]);
    assert_eq!(book.trades.len(), 2);
    assert_eq!(book.trades[1], Trade { price: 50, quantity: 1 });
}

#[test]
fn process_buy_order_leaves_the_unmatched_quantity_in_the_order() {
    let mut book = run(&[sell(100, 4)]);
    let mut order = buy(100, 10);
    book.process_buy_order(&mut order);
    assert_eq!(order, buy(100, 6));
    assert_eq!(book.bids.get(&100).unwrap(), &vec![buy(100, 6)]);
    assert!(book.asks.is_empty());
    let mut order = buy(100, 3);
    let mut book = run(&[sell(100, 4)]);
    book.process_buy_order(&mut order);
    assert_eq!(order.quantity, 0);
    assert!(book.bids.is_empty());
    assert_eq!(book.asks.get(&100).unwrap(), &vec![sell(100, 1)]);
}

#[test]
fn process_sell_order_leaves_the_unmatched_quantity_in_the_order() {
    let mut book = run(&[buy(100, 4)]);
    let mut order = sell(100, 10);
    book.process_sell_order(&mut order);
    assert_eq!(order, sell(100, 6));
    assert_eq!(book.asks.get(&100).unwrap(), &vec![sell(100, 6)]);
    assert!(book.bids.is_empty());
}

#[test]
fn large_quantities_do_not_overflow() {
    let book = run(&[sell(u64::MAX, u64::MAX), sell(0, u64::MAX), buy(u64::MAX, u64::MAX)]);
    assert_eq!(book.trades, vec![Trade { price: 0, quantity: u64::MAX }]);
    assert_eq!(book.asks.get(&u64::MAX).unwrap(), &vec![sell(u64::MAX, u64::MAX)]);
    assert!(book.bids.is_empty());
}

#[test]
fn empty_level_put_in_by_hand_is_pruned() {
    let mut book = OrderBook::new();
    book.asks.insert(100, Vec::new());
    book.asks.insert(101, vec![sell(101, 1)]);
    book.process_order(buy(101, 1));
    assert_eq!(book.trades, vec![Trade { price: 101, quantity: 1 }]);
    assert!(book.asks.is_empty());
    assert!(book.bids.is_empty());
}

#[test]
fn buy_against_an_empty_book_rests_whole() {
    let book = run(&[buy(7, 9)]);
    assert!(book.trades.is_empty());
    assert!(book.asks.is_empty());
    assert_eq!(book.bids.len(), 1);
    assert_eq!(book.bids.get(&7).unwrap(), &vec![buy(7, 9)]);
}
