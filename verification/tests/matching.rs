use matching_engine::engine::{MatchingEngine, OrderError, Trade};
use matching_engine::order::{OrderSide, OrderType};
use matching_engine::order_book::OrderBook;

fn trade(side: OrderSide, order_type: OrderType, price: u64, quantity: u64) -> Trade {
    Trade { side, order_type, price, quantity }
}

#[test]
fn limit_buy_rests_in_empty_book() {
    // An empty book gives a limit buy nothing to match; it rests whole.
    let mut engine = MatchingEngine::new();
    let out = engine
        .submit_order(OrderType::Limit, OrderSide::Buy, Some(100), 5)
        .unwrap();
    assert!(out.trades.is_empty());
    assert_eq!(out.unfilled, None);
    assert_eq!(engine.order_book.buy_levels.len(), 1);
    assert_eq!(engine.order_book.buy_levels[0].price, 100);
    assert_eq!(engine.order_book.buy_levels[0].orders.len(), 1);
    assert_eq!(engine.order_book.buy_levels[0].orders[0].quantity, 5);
    assert!(engine.order_book.sell_levels.is_empty());
}

#[test]
fn limit_sell_crosses_resting_bid() {
    // After a limit buy 100 x 5, a limit sell 99 x 3 trades 3 at the
    // resting price 100 and leaves bid quantity 2.
    let mut engine = MatchingEngine::new();
    engine
        .submit_order(OrderType::Limit, OrderSide::Buy, Some(100), 5)
        .unwrap();
    let out = engine
        .submit_order(OrderType::Limit, OrderSide::Sell, Some(99), 3)
        .unwrap();
    assert_eq!(out.trades, vec![trade(OrderSide::Sell, OrderType::Limit, 100, 3)]);
    assert_eq!(out.unfilled, None);
    assert_eq!(engine.order_book.buy_levels.len(), 1);
    assert_eq!(engine.order_book.buy_levels[0].price, 100);
    assert_eq!(engine.order_book.buy_levels[0].orders[0].quantity, 2);
    assert!(engine.order_book.sell_levels.is_empty());
}

#[test]
fn market_sell_drains_bids_and_reports_unfilled() {
    // With bid quantity 2 resting at 100, a market sell 5 trades the 2
    // and reports the remaining 3 unfilled; the bid side empties.
    let mut engine = MatchingEngine::new();
    engine
        .submit_order(OrderType::Limit, OrderSide::Buy, Some(100), 5)
        .unwrap();
    engine
        .submit_order(OrderType::Limit, OrderSide::Sell, Some(99), 3)
        .unwrap();
    let out = engine
        .submit_order(OrderType::Market, OrderSide::Sell, None, 5)
        .unwrap();
    assert_eq!(out.trades, vec![trade(OrderSide::Sell, OrderType::Market, 100, 2)]);
    assert_eq!(out.unfilled, Some(3));
    assert!(engine.order_book.buy_levels.is_empty());
    assert!(engine.order_book.sell_levels.is_empty());
}

#[test]
fn market_buy_without_liquidity_is_unfilled() {
    // Against an empty book a market buy 10 is immediately unfilled and
    // nothing is added to the book.
    let mut engine = MatchingEngine::new();
    let out = engine
        .submit_order(OrderType::Market, OrderSide::Buy, None, 10)
        .unwrap();
    assert!(out.trades.is_empty());
    assert_eq!(out.unfilled, Some(10));
    assert!(engine.order_book.buy_levels.is_empty());
    assert!(engine.order_book.sell_levels.is_empty());
}

#[test]
fn time_priority_at_one_price() {
    // With two bids at 101 (quantities 2 then 3), a limit sell
    // 100 x 4 fills the earlier bid in full before touching the later,
    // which is left with quantity 1.
    let mut engine = MatchingEngine::new();
    engine
        .submit_order(OrderType::Limit, OrderSide::Buy, Some(101), 2)
        .unwrap();
    engine
        .submit_order(OrderType::Limit, OrderSide::Buy, Some(101), 3)
        .unwrap();
    let out = engine
        .submit_order(OrderType::Limit, OrderSide::Sell, Some(100), 4)
        .unwrap();
    assert_eq!(
        out.trades,
        vec![
            trade(OrderSide::Sell, OrderType::Limit, 101, 2),
            trade(OrderSide::Sell, OrderType::Limit, 101, 2),
        ]
    );
    assert_eq!(engine.order_book.buy_levels.len(), 1);
    assert_eq!(engine.order_book.buy_levels[0].price, 101);
    assert_eq!(engine.order_book.buy_levels[0].orders.len(), 1);
    // The remaining order is the later one (id 2), left with quantity 1.
    assert_eq!(engine.order_book.buy_levels[0].orders[0].id, 2);
    assert_eq!(engine.order_book.buy_levels[0].orders[0].quantity, 1);
    assert!(engine.order_book.sell_levels.is_empty());
}

#[test]
fn limit_without_price_is_rejected() {
    let mut engine = MatchingEngine::new();
    let r = engine.submit_order(OrderType::Limit, OrderSide::Buy, None, 5);
    assert_eq!(r.unwrap_err(), OrderError::InvalidOrderSpec);
    assert!(engine.order_book.buy_levels.is_empty());
    assert!(engine.order_book.sell_levels.is_empty());
}

#[test]
fn zero_quantity_is_rejected() {
    let mut engine = MatchingEngine::new();
    let r = engine.submit_order(OrderType::Market, OrderSide::Sell, None, 0);
    assert_eq!(r.unwrap_err(), OrderError::InvalidOrderSpec);
    let r = engine.submit_order(OrderType::Limit, OrderSide::Sell, Some(7), 0);
    assert_eq!(r.unwrap_err(), OrderError::InvalidOrderSpec);
}

#[test]
fn rejected_submissions_still_consume_ids() {
    // Ids are strictly increasing and never reused, even across
    // rejected submissions.
    let mut engine = MatchingEngine::new();
    assert_eq!(engine.next_order_id, 1);
    let _ = engine.submit_order(OrderType::Limit, OrderSide::Buy, None, 5);
    assert_eq!(engine.next_order_id, 2);
    engine
        .submit_order(OrderType::Limit, OrderSide::Buy, Some(10), 1)
        .unwrap();
    assert_eq!(engine.next_order_id, 3);
    assert_eq!(engine.order_book.buy_levels[0].orders[0].id, 2);
}

#[test]
fn popping_an_empty_side_changes_nothing() {
    let mut book = OrderBook::new();
    assert!(book.pop_best_order(OrderSide::Buy).is_none());
    assert!(book.pop_best_order(OrderSide::Sell).is_none());
    assert!(book.buy_levels.is_empty());
    assert!(book.sell_levels.is_empty());
    assert_eq!(book.get_best_price(OrderSide::Buy), None);
    assert_eq!(book.get_best_price(OrderSide::Sell), None);
}

#[test]
fn best_price_is_most_competitive() {
    // Bids answer with the highest price, asks with the lowest,
    // whatever the insertion order.
    let mut engine = MatchingEngine::new();
    for p in [100u64, 102, 101] {
        engine
            .submit_order(OrderType::Limit, OrderSide::Buy, Some(p), 1)
            .unwrap();
    }
    for p in [205u64, 203, 204] {
        engine
            .submit_order(OrderType::Limit, OrderSide::Sell, Some(p), 1)
            .unwrap();
    }
    assert_eq!(engine.order_book.get_best_price(OrderSide::Buy), Some(102));
    assert_eq!(engine.order_book.get_best_price(OrderSide::Sell), Some(203));
    // Bid levels highest first, ask levels lowest first.
    let bid_prices: Vec<u64> = engine.order_book.buy_levels.iter().map(|l| l.price).collect();
    let ask_prices: Vec<u64> = engine.order_book.sell_levels.iter().map(|l| l.price).collect();
    assert_eq!(bid_prices, vec![102, 101, 100]);
    assert_eq!(ask_prices, vec![203, 204, 205]);
}

#[test]
fn pop_returns_earliest_at_best_price() {
    let mut engine = MatchingEngine::new();
    engine
        .submit_order(OrderType::Limit, OrderSide::Buy, Some(50), 4)
        .unwrap();
    engine
        .submit_order(OrderType::Limit, OrderSide::Buy, Some(50), 6)
        .unwrap();
    let popped = engine.order_book.pop_best_order(OrderSide::Buy).unwrap();
    assert_eq!(popped.id, 1);
    assert_eq!(popped.quantity, 4);
    // The level stays for the remaining order.
    assert_eq!(engine.order_book.buy_levels[0].orders.len(), 1);
    assert_eq!(engine.order_book.buy_levels[0].orders[0].id, 2);
}

#[test]
fn partial_fill_leaves_reduced_resting_order() {
    let mut engine = MatchingEngine::new();
    engine
        .submit_order(OrderType::Limit, OrderSide::Sell, Some(100), 10)
        .unwrap();
    let out = engine
        .submit_order(OrderType::Market, OrderSide::Buy, None, 4)
        .unwrap();
    assert_eq!(out.trades, vec![trade(OrderSide::Buy, OrderType::Market, 100, 4)]);
    assert_eq!(out.unfilled, None);
    assert_eq!(engine.order_book.sell_levels[0].orders[0].quantity, 6);
}

#[test]
fn partial_remainder_reenters_at_queue_tail() {
    // A partially filled order popped from the front reenters at the
    // tail of its price level, behind later arrivals at that price.
    let mut engine = MatchingEngine::new();
    engine
        .submit_order(OrderType::Limit, OrderSide::Sell, Some(100), 5)
        .unwrap();
    engine
        .submit_order(OrderType::Limit, OrderSide::Sell, Some(100), 3)
        .unwrap();
    engine
        .submit_order(OrderType::Market, OrderSide::Buy, None, 2)
        .unwrap();
    let ids: Vec<u64> = engine.order_book.sell_levels[0].orders.iter().map(|o| o.id).collect();
    let qtys: Vec<u64> = engine.order_book.sell_levels[0]
        .orders
        .iter()
        .map(|o| o.quantity)
        .collect();
    assert_eq!(ids, vec![2, 1]);
    assert_eq!(qtys, vec![3, 3]);
}

#[test]
fn limit_order_walks_levels_only_while_crossing() {
    // Asks at 101 x 2 and 103 x 2: a limit buy at 102 for 5 takes the
    // 101 level only, then rests its remainder at 102.
    let mut engine = MatchingEngine::new();
    engine
        .submit_order(OrderType::Limit, OrderSide::Sell, Some(101), 2)
        .unwrap();
    engine
        .submit_order(OrderType::Limit, OrderSide::Sell, Some(103), 2)
        .unwrap();
    let out = engine
        .submit_order(OrderType::Limit, OrderSide::Buy, Some(102), 5)
        .unwrap();
    assert_eq!(out.trades, vec![trade(OrderSide::Buy, OrderType::Limit, 101, 2)]);
    assert_eq!(engine.order_book.buy_levels[0].price, 102);
    assert_eq!(engine.order_book.buy_levels[0].orders[0].quantity, 3);
    assert_eq!(engine.order_book.sell_levels.len(), 1);
    assert_eq!(engine.order_book.sell_levels[0].price, 103);
}

#[test]
fn market_order_walks_several_levels() {
    // Quantity conservation across levels: a market buy of 5 against
    // asks 100 x 2 and 101 x 4 trades 2 + 3 and leaves 1 resting.
    let mut engine = MatchingEngine::new();
    engine
        .submit_order(OrderType::Limit, OrderSide::Sell, Some(100), 2)
        .unwrap();
    engine
        .submit_order(OrderType::Limit, OrderSide::Sell, Some(101), 4)
        .unwrap();
    let out = engine
        .submit_order(OrderType::Market, OrderSide::Buy, None, 5)
        .unwrap();
    assert_eq!(
        out.trades,
        vec![
            trade(OrderSide::Buy, OrderType::Market, 100, 2),
            trade(OrderSide::Buy, OrderType::Market, 101, 3),
        ]
    );
    assert_eq!(out.unfilled, None);
    assert_eq!(engine.order_book.sell_levels.len(), 1);
    assert_eq!(engine.order_book.sell_levels[0].price, 101);
    assert_eq!(engine.order_book.sell_levels[0].orders[0].quantity, 1);
}

#[test]
fn market_order_ignores_any_supplied_price() {
    // A market order never carries a price; a supplied one is dropped.
    let mut engine = MatchingEngine::new();
    engine
        .submit_order(OrderType::Limit, OrderSide::Sell, Some(100), 2)
        .unwrap();
    let out = engine
        .submit_order(OrderType::Market, OrderSide::Buy, Some(1), 2)
        .unwrap();
    assert_eq!(out.trades, vec![trade(OrderSide::Buy, OrderType::Market, 100, 2)]);
    assert_eq!(out.unfilled, None);
}

#[test]
fn largest_quantity_market_order() {
    let mut engine = MatchingEngine::new();
    engine
        .submit_order(OrderType::Limit, OrderSide::Sell, Some(100), 3)
        .unwrap();
    let out = engine
        .submit_order(OrderType::Market, OrderSide::Buy, None, u64::MAX)
        .unwrap();
    assert_eq!(out.trades, vec![trade(OrderSide::Buy, OrderType::Market, 100, 3)]);
    assert_eq!(out.unfilled, Some(u64::MAX - 3));
    assert!(engine.order_book.sell_levels.is_empty());
}

#[test]
fn equal_prices_cross() {
    // A limit sell at exactly the best bid trades rather than rests.
    let mut engine = MatchingEngine::new();
    engine
        .submit_order(OrderType::Limit, OrderSide::Buy, Some(100), 2)
        .unwrap();
    let out = engine
        .submit_order(OrderType::Limit, OrderSide::Sell, Some(100), 2)
        .unwrap();
    assert_eq!(out.trades, vec![trade(OrderSide::Sell, OrderType::Limit, 100, 2)]);
    assert!(engine.order_book.buy_levels.is_empty());
    assert!(engine.order_book.sell_levels.is_empty());
}

#[test]
fn identical_runs_give_identical_outcomes() {
    // The whole outcome is a function of the submissions alone: two
    // engines fed the same sequence emit the same trades and books.
    let run = || {
        let mut engine = MatchingEngine::new();
        let mut all_trades: Vec<Trade> = Vec::new();
        let mut unfilled: Vec<Option<u64>> = Vec::new();
        let script = [
            (OrderType::Limit, OrderSide::Buy, Some(101), 2),
            (OrderType::Limit, OrderSide::Buy, Some(101), 3),
            (OrderType::Limit, OrderSide::Sell, Some(100), 4),
            (OrderType::Market, OrderSide::Sell, None, 7),
            (OrderType::Limit, OrderSide::Sell, Some(105), 1),
        ];
        for (kind, side, price, qty) in script {
            let out = engine.submit_order(kind, side, price, qty).unwrap();
            all_trades.extend(out.trades);
            unfilled.push(out.unfilled);
        }
        (all_trades, unfilled, engine)
    };
    let (trades_a, unfilled_a, engine_a) = run();
    let (trades_b, unfilled_b, engine_b) = run();
    assert_eq!(trades_a, trades_b);
    assert_eq!(unfilled_a, unfilled_b);
    let prices_a: Vec<u64> = engine_a.order_book.sell_levels.iter().map(|l| l.price).collect();
    let prices_b: Vec<u64> = engine_b.order_book.sell_levels.iter().map(|l| l.price).collect();
    assert_eq!(prices_a, prices_b);
    assert_eq!(engine_a.order_book.buy_levels.len(), engine_b.order_book.buy_levels.len());
    assert_eq!(engine_a.next_order_id, engine_b.next_order_id);
}
