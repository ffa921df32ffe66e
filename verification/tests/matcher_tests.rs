use octomatch::matcher::{MatchState, Matcher};
use octomatch::model::{Order, TradingPair};
use octomatch::orderbook::{LimitOrderBook, OrderBook};
use octomatch::types::{Asset, Long, OrderSide, OrderStatus, OrderType, Price};
use octomatch::utils::Util;

fn create_order(side: OrderSide, price: Price, order_type: OrderType, quantity: Long) -> Order {
    Order {
        orderid: uuid::Uuid::new_v4().as_u128(),
        price,
        side,
        quantity,
        order_type,
        timestamp: Util::current_time_millis(),
        trading_pair: TradingPair::from(Asset::ETH, Asset::USDC),
    }
}

fn create_orders(side: OrderSide) -> Vec<Order> {
    vec![
        create_order(side, Price::from_atoms(10000), OrderType::Limit, 100),
        create_order(side, Price::from_atoms(4000), OrderType::Limit, 50),
        create_order(side, Price::from_atoms(55000), OrderType::Limit, 50),
    ]
}

#[test]
fn an_empty_orderbook_should_have_no_executed_trades() {
    let mut orderbook = LimitOrderBook::init(TradingPair::from(Asset::ETH, Asset::USDC));

    let matcher = Matcher {};
    let order = create_order(OrderSide::Ask, Price::from_atoms(222), OrderType::Market, 100);
    let matches = matcher.match_order(order, &mut orderbook);
    assert_eq!(matches.get_state(), MatchState::NoMatch);
}

#[test]
fn a_market_bid_is_fully_matched_in_a_non_empty_orderbook_with_matching_asks() {
    let mut orderbook = LimitOrderBook::init(TradingPair::from(Asset::ETH, Asset::USDC));

    let asks = create_orders(OrderSide::Ask);
    for ask in &asks {
        let _ = orderbook.place(ask.clone());
    }

    let matcher = Matcher {};
    let bid = create_order(OrderSide::Bid, Price::from_atoms(10000), OrderType::Market, 100);
    let matches = matcher.match_order(bid, &mut orderbook);

    let trades = matches.get_matches();
    assert!(!trades.is_empty());
    assert_eq!(trades.len(), 4);
    assert_eq!(matches.get_state(), MatchState::Full);
    assert_eq!(matches.get_qty_left(), 0);

    let trade1 = &trades[0];
    assert_eq!(trade1.orderid, bid.orderid);
    assert_eq!(trade1.quantity, 50);
    assert_eq!(trade1.price, Price::from_atoms(4000));
    assert_eq!(trade1.status, OrderStatus::PartialFill);

    let trade2 = &trades[1];
    let ask1 = &asks[1];
    assert_eq!(trade2.orderid, ask1.orderid);
    assert_eq!(trade2.quantity, ask1.quantity);
    assert_eq!(trade2.price, ask1.price);
    assert_eq!(trade2.status, OrderStatus::Filled);

    let trade3 = &trades[2];
    assert_eq!(trade3.orderid, bid.orderid);
    assert_eq!(trade3.quantity, bid.quantity - trade1.quantity);
    assert_eq!(trade3.price, bid.price);
    assert_eq!(trade3.status, OrderStatus::Filled);

    let trade4 = &trades[3];
    let ask2 = &asks[0];
    assert_eq!(trade4.orderid, ask2.orderid);
    assert_eq!(trade4.quantity, 50);
    assert_eq!(trade4.price, ask2.price);
    assert_eq!(trade4.status, OrderStatus::PartialFill);
}

#[test]
fn a_limit_order_is_partially_matched_if_price_limits_are_met_with_low_volume() {
    let mut orderbook = LimitOrderBook::init(TradingPair::from(Asset::ETH, Asset::USDC));

    let bids = create_orders(OrderSide::Bid);
    for bid in &bids {
        let _ = orderbook.place(bid.clone());
    }

    let matcher = Matcher {};
    let order = create_order(OrderSide::Ask, Price::from_atoms(500), OrderType::Limit, 1000);
    let matches = matcher.match_order(order, &mut orderbook);
    assert_eq!(matches.get_state(), MatchState::Partial);
    assert_eq!(matches.get_qty_left(), 800);

    let trades = matches.get_matches();
    assert_eq!(trades.len(), 6);

    assert_eq!(order.orderid, trades[0].orderid);
    assert_eq!(trades[0].quantity, 50);

    assert!(orderbook.peek_top_bid().is_none());
    let top_ask = orderbook.peek_top_ask();
    assert!(top_ask.is_some());

    let ask = top_ask.unwrap();
    assert_eq!(ask.orderid, order.orderid);
    assert_eq!(ask.quantity, matches.get_qty_left());
}

#[test]
fn a_limit_order_rests_whole_on_an_empty_book() {
    let mut orderbook = LimitOrderBook::init(TradingPair::from(Asset::ETH, Asset::USDC));

    let matcher = Matcher {};
    let bid = create_order(OrderSide::Bid, Price::from_atoms(20000), OrderType::Limit, 7);
    let matches = matcher.match_order(bid, &mut orderbook);

    assert_eq!(matches.get_state(), MatchState::NoMatch);
    assert!(matches.get_matches().is_empty());

    let rested = orderbook.peek_top_bid().unwrap();
    assert_eq!(rested.orderid, bid.orderid);
    assert_eq!(rested.quantity, 7);
}

#[test]
fn a_market_order_residual_is_discarded_not_rested() {
    let mut orderbook = LimitOrderBook::init(TradingPair::from(Asset::ETH, Asset::USDC));

    let ask = create_order(OrderSide::Ask, Price::from_atoms(4000), OrderType::Limit, 50);
    orderbook.place(ask).unwrap();

    let matcher = Matcher {};
    let bid = create_order(OrderSide::Bid, Price::from_atoms(10000), OrderType::Market, 100);
    let matches = matcher.match_order(bid, &mut orderbook);

    assert_eq!(matches.get_state(), MatchState::Partial);
    assert_eq!(matches.get_qty_left(), 50);
    assert_eq!(matches.get_matches().len(), 2);

    // the market residual vanishes: neither side holds anything, and
    // the market order's id is not in the index either
    assert!(orderbook.peek_top_bid().is_none());
    assert!(orderbook.peek_top_ask().is_none());
    assert_eq!(
        orderbook.cancel(bid.orderid).unwrap_err(),
        octomatch::types::Failure::OrderNotFound(bid.orderid)
    );
}

#[test]
fn exactly_matching_quantities_fill_both_orders() {
    let mut orderbook = LimitOrderBook::init(TradingPair::from(Asset::ETH, Asset::USDC));

    let ask = create_order(OrderSide::Ask, Price::from_atoms(4000), OrderType::Limit, 50);
    orderbook.place(ask).unwrap();

    let matcher = Matcher {};
    let bid = create_order(OrderSide::Bid, Price::from_atoms(5000), OrderType::Limit, 50);
    let matches = matcher.match_order(bid, &mut orderbook);

    assert_eq!(matches.get_state(), MatchState::Full);
    assert_eq!(matches.get_qty_left(), 0);

    let trades = matches.get_matches();
    assert_eq!(trades.len(), 2);
    assert_eq!(trades[0].orderid, bid.orderid);
    assert_eq!(trades[0].status, OrderStatus::Filled);
    assert_eq!(trades[0].quantity, 50);
    assert_eq!(trades[0].price, ask.price);
    assert_eq!(trades[1].orderid, ask.orderid);
    assert_eq!(trades[1].status, OrderStatus::Filled);
    assert_eq!(trades[1].quantity, 50);
    assert_eq!(trades[1].price, ask.price);

    // the opposite order was popped and no residual was rested
    assert!(orderbook.peek_top_bid().is_none());
    assert!(orderbook.peek_top_ask().is_none());
}

#[test]
fn a_partial_fill_of_the_resting_order_emits_one_trade_per_party() {
    let mut orderbook = LimitOrderBook::init(TradingPair::from(Asset::ETH, Asset::USDC));

    let ask = create_order(OrderSide::Ask, Price::from_atoms(4000), OrderType::Limit, 80);
    orderbook.place(ask).unwrap();

    let matcher = Matcher {};
    let bid = create_order(OrderSide::Bid, Price::from_atoms(4000), OrderType::Limit, 30);
    let matches = matcher.match_order(bid, &mut orderbook);

    // one level partially consumed: exactly two trade records
    assert_eq!(matches.get_state(), MatchState::Full);
    let trades = matches.get_matches();
    assert_eq!(trades.len(), 2);

    // the resting order keeps its place with the reduced quantity
    let top = orderbook.peek_top_ask().unwrap();
    assert_eq!(top.orderid, ask.orderid);
    assert_eq!(top.quantity, 50);
}

#[test]
fn trade_quantities_credited_to_the_taker_sum_to_its_filled_quantity() {
    let mut orderbook = LimitOrderBook::init(TradingPair::from(Asset::ETH, Asset::USDC));

    let bids = create_orders(OrderSide::Bid);
    for bid in &bids {
        let _ = orderbook.place(bid.clone());
    }

    let matcher = Matcher {};
    let order = create_order(OrderSide::Ask, Price::from_atoms(500), OrderType::Limit, 120);
    let matches = matcher.match_order(order, &mut orderbook);

    let credited: u64 = matches
        .get_matches()
        .iter()
        .filter(|t| t.orderid == order.orderid)
        .map(|t| t.quantity)
        .sum();
    assert!(credited <= order.quantity);
    assert_eq!(credited == order.quantity, matches.get_state() == MatchState::Full);
    assert_eq!(credited, order.quantity - matches.get_qty_left());
    assert_eq!(credited, 120);
}

#[test]
fn a_limit_order_outside_the_price_limit_rests_without_trading() {
    let mut orderbook = LimitOrderBook::init(TradingPair::from(Asset::ETH, Asset::USDC));

    let ask = create_order(OrderSide::Ask, Price::from_atoms(20000), OrderType::Limit, 10);
    orderbook.place(ask).unwrap();

    let matcher = Matcher {};
    // a bid below the best ask cannot cross
    let bid = create_order(OrderSide::Bid, Price::from_atoms(10000), OrderType::Limit, 10);
    let matches = matcher.match_order(bid, &mut orderbook);

    assert_eq!(matches.get_state(), MatchState::NoMatch);
    assert!(matches.get_matches().is_empty());
    assert_eq!(orderbook.peek_top_bid().unwrap().orderid, bid.orderid);
    assert_eq!(orderbook.peek_top_ask().unwrap().orderid, ask.orderid);
}
