use octomatch::model::{Order, TradingPair};
use octomatch::orderbook::{LimitOrderBook, OrderBook};
use octomatch::types::{Asset, Failure, Long, OrderSide, OrderStatus, OrderType, Price};
use octomatch::utils::Util;

fn create_order(
    price: Price,
    side: OrderSide,
    quantity: Long,
    order_type: OrderType,
    trading_pair: TradingPair,
) -> Order {
    Order {
        orderid: uuid::Uuid::new_v4().as_u128(),
        price,
        side,
        quantity,
        order_type,
        timestamp: Util::current_time_millis(),
        trading_pair,
    }
}

#[test]
fn can_place_a_limit_order_in_the_order_book() {
    let mut orderbook = LimitOrderBook::init(TradingPair::from(Asset::BTC, Asset::ETH));

    let order = create_order(
        Price::from_atoms(20002),
        OrderSide::Bid,
        8,
        OrderType::Limit,
        TradingPair {
            order_asset: Asset::BTC,
            price_asset: Asset::ETH,
        },
    );
    let result = orderbook.place(order);

    let event = result.unwrap();
    assert_eq!(OrderStatus::Created, event.status);

    // we expect the order we placed to be at the top of the book
    let order_placed = orderbook.peek_top_bid();
    assert_eq!(*order_placed.unwrap(), order);
}

#[test]
fn market_orders_cannot_be_inserted_into_the_orderbook() {
    let mut orderbook = LimitOrderBook::init(TradingPair::from(Asset::BTC, Asset::USDT));

    let result = orderbook.place(create_order(
        Price::from_atoms(20002),
        OrderSide::Bid,
        8,
        OrderType::Market,
        TradingPair {
            order_asset: Asset::BTC,
            price_asset: Asset::USDT,
        },
    ));

    let failure = result.unwrap_err();
    assert_eq!(
        Failure::OrderRejected(String::from(
            "Only limit orders can be placed in the orderbook"
        )),
        failure
    );
}

#[test]
fn canceling_a_limit_order_is_should_be_allowed() {
    let mut orderbook = LimitOrderBook::init(TradingPair::from(Asset::BTC, Asset::USDT));

    let result = orderbook.place(create_order(
        Price::from_atoms(20002),
        OrderSide::Bid,
        8,
        OrderType::Limit,
        TradingPair::from(Asset::BTC, Asset::USDT),
    ));

    let event = result.unwrap();
    let result = orderbook.cancel(event.orderid);

    let event = result.unwrap();
    assert_eq!(OrderStatus::Canceled, event.status);
}

#[test]
fn an_empty_orderbook_should_have_no_spread() {
    let orderbook = LimitOrderBook::init(TradingPair::from(Asset::BTC, Asset::USDT));

    let spread = orderbook.get_spread();
    assert_eq!(spread, None)
}

#[test]
fn an_orderbook_with_a_single_bid_or_ask_has_no_spread() {
    let mut orderbook = LimitOrderBook::init(TradingPair::from(Asset::ETH, Asset::USDC));

    let result = orderbook.place(create_order(
        Price::from_atoms(20002),
        OrderSide::Bid,
        8,
        OrderType::Limit,
        TradingPair::from(Asset::ETH, Asset::USDC),
    ));

    let _event = result.unwrap();

    let spread = orderbook.get_spread();
    assert_eq!(spread, None)
}

#[test]
fn the_spread_can_be_gotten_for_a_book_with_both_sides() {
    let mut orderbook = LimitOrderBook::init(TradingPair::from(Asset::ETH, Asset::USDC));

    let orders = vec![
        create_order(
            Price::from_atoms(20002),
            OrderSide::Ask,
            8,
            OrderType::Limit,
            TradingPair::from(Asset::ETH, Asset::USDC),
        ),
        create_order(
            Price::from_atoms(10002),
            OrderSide::Bid,
            8,
            OrderType::Limit,
            TradingPair::from(Asset::ETH, Asset::USDC),
        ),
    ];

    for order in orders.iter() {
        let _res = orderbook.place(*order);
    }

    // top ask 200.02 minus top bid 100.02: a spread of 100.00
    let spread = orderbook.get_spread().unwrap();
    assert_eq!(spread, 10000i128);
}

#[test]
fn a_crossed_book_has_a_negative_spread() {
    let mut orderbook = LimitOrderBook::init(TradingPair::from(Asset::ETH, Asset::USDC));
    let pair = TradingPair::from(Asset::ETH, Asset::USDC);

    orderbook
        .place(create_order(
            Price::from_atoms(30000),
            OrderSide::Bid,
            1,
            OrderType::Limit,
            pair,
        ))
        .unwrap();
    orderbook
        .place(create_order(
            Price::from_atoms(20000),
            OrderSide::Ask,
            1,
            OrderType::Limit,
            pair,
        ))
        .unwrap();

    assert_eq!(orderbook.get_spread(), Some(-10000i128));
}

#[test]
fn placing_an_order_of_another_pair_fails() {
    let mut orderbook = LimitOrderBook::init(TradingPair::from(Asset::BTC, Asset::USDT));

    let result = orderbook.place(create_order(
        Price::from_atoms(20002),
        OrderSide::Bid,
        8,
        OrderType::Limit,
        TradingPair::from(Asset::ETH, Asset::USDC),
    ));

    assert_eq!(result.unwrap_err(), Failure::InvalidOrderForBook);
}

#[test]
fn canceling_an_unknown_id_is_a_no_op_that_fails() {
    let pair = TradingPair::from(Asset::BTC, Asset::USDT);
    let mut orderbook = LimitOrderBook::init(pair);

    let resting = create_order(Price::from_atoms(20002), OrderSide::Bid, 8, OrderType::Limit, pair);
    orderbook.place(resting).unwrap();

    let unknown = resting.orderid.wrapping_add(1);
    let result = orderbook.cancel(unknown);
    assert_eq!(result.unwrap_err(), Failure::OrderNotFound(unknown));

    // the book is untouched: the resting order is still the top bid
    assert_eq!(*orderbook.peek_top_bid().unwrap(), resting);
}

#[test]
fn place_then_cancel_restores_the_book() {
    let pair = TradingPair::from(Asset::BTC, Asset::ETH);
    let mut orderbook = LimitOrderBook::init(pair);

    let order = create_order(Price::from_atoms(20002), OrderSide::Bid, 8, OrderType::Limit, pair);
    let created = orderbook.place(order).unwrap();
    assert_eq!(created.status, OrderStatus::Created);

    let canceled = orderbook.cancel(order.orderid).unwrap();
    assert_eq!(canceled.status, OrderStatus::Canceled);

    assert!(orderbook.peek_top_bid().is_none());
    assert!(orderbook.peek_top_ask().is_none());
}

#[test]
fn canceling_twice_fails_the_second_time() {
    let pair = TradingPair::from(Asset::ETH, Asset::USDC);
    let mut orderbook = LimitOrderBook::init(pair);

    let bid = create_order(Price::from_atoms(10000), OrderSide::Bid, 3, OrderType::Limit, pair);
    let ask = create_order(Price::from_atoms(20000), OrderSide::Ask, 3, OrderType::Limit, pair);
    orderbook.place(bid).unwrap();
    orderbook.place(ask).unwrap();

    // each resting order is cancelable exactly once, on its own side
    assert!(orderbook.cancel(bid.orderid).is_ok());
    assert_eq!(
        orderbook.cancel(bid.orderid).unwrap_err(),
        Failure::OrderNotFound(bid.orderid)
    );
    assert!(orderbook.cancel(ask.orderid).is_ok());
    assert_eq!(
        orderbook.cancel(ask.orderid).unwrap_err(),
        Failure::OrderNotFound(ask.orderid)
    );
}
