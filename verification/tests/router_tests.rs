use octomatch::model::TradingPair;
use octomatch::orderbook::LimitOrderBook;
use octomatch::router::{CancelOrder, PlaceOrder, Request, Router};
use octomatch::types::{Asset, Failure, OrderSide, OrderType, Price};

#[test]
fn placing_an_order_in_an_empty_book_should_fail() {
    let request = Request::PlaceOrder(PlaceOrder {
        price: Price::from_atoms(30000),
        quantity: 2,
        side: OrderSide::Bid,
        order_type: OrderType::Limit,
        trading_pair: TradingPair::from(Asset::BTC, Asset::USDC),
    });

    let mut router: Router<LimitOrderBook> = Router::new();
    let result = router.handle(request);
    assert!(result.is_err());
    assert_eq!(
        result.err().unwrap(),
        Failure::BookNotFound(TradingPair::from(Asset::BTC, Asset::USDC))
    )
}

#[test]
fn an_invalid_order_should_fail_placement() {
    let request = Request::PlaceOrder(PlaceOrder {
        price: Price::from_atoms(30000),
        quantity: 0,
        side: OrderSide::Bid,
        order_type: OrderType::Limit,
        trading_pair: TradingPair::from(Asset::BTC, Asset::USDC),
    });

    let mut router: Router<LimitOrderBook> = Router::new();
    let result = router.handle(request);
    assert!(result.is_err());
    assert_eq!(
        result.err().unwrap(),
        Failure::OrderRejected(String::from("Quantity must be greater than zero"))
    )
}

#[test]
fn a_valid_order_should_be_routed_successfully() {
    let trading_pair = TradingPair::from(Asset::BTC, Asset::USDC);

    let request = Request::PlaceOrder(PlaceOrder {
        price: Price::from_atoms(30000),
        quantity: 10,
        side: OrderSide::Bid,
        order_type: OrderType::Limit,
        trading_pair,
    });

    let mut router = Router::with_books(vec![(
        TradingPair::from(Asset::BTC, Asset::USDC),
        LimitOrderBook::init(trading_pair),
    )]);
    let result = router.handle(request);
    assert!(result.is_ok())
}

#[test]
fn a_pair_of_one_asset_is_rejected_before_any_book_is_consulted() {
    let request = Request::PlaceOrder(PlaceOrder {
        price: Price::from_atoms(30000),
        quantity: 2,
        side: OrderSide::Bid,
        order_type: OrderType::Limit,
        trading_pair: TradingPair::from(Asset::BTC, Asset::BTC),
    });

    // no book exists at all, yet validation answers first
    let mut router: Router<LimitOrderBook> = Router::new();
    let result = router.handle(request);
    assert!(matches!(
        result.unwrap_err(),
        Failure::InvalidTradingPair(_)
    ));
}

#[test]
fn a_stop_order_is_unsupported() {
    let trading_pair = TradingPair::from(Asset::BTC, Asset::USDC);
    let request = Request::PlaceOrder(PlaceOrder::from(
        Price::from_atoms(30000),
        2,
        OrderSide::Bid,
        OrderType::Stop,
        trading_pair,
    ));

    let mut router = Router::with_books(vec![(
        trading_pair,
        LimitOrderBook::init(trading_pair),
    )]);
    let result = router.handle(request);
    assert!(matches!(
        result.unwrap_err(),
        Failure::UnsupportedOperation(_)
    ));
}

#[test]
fn canceling_an_unknown_order_reports_order_not_found() {
    let trading_pair = TradingPair::from(Asset::BTC, Asset::USDC);
    let mut router = Router::with_books(vec![(
        trading_pair,
        LimitOrderBook::init(trading_pair),
    )]);

    let unknown = uuid::Uuid::new_v4().as_u128();
    let result = router.handle(Request::Cancel(CancelOrder::from(unknown, trading_pair)));
    assert_eq!(result.unwrap_err(), Failure::OrderNotFound(unknown));
}

#[test]
fn canceling_on_an_unknown_pair_reports_book_not_found() {
    let mut router: Router<LimitOrderBook> = Router::new();
    let pair = TradingPair::from(Asset::DOT, Asset::USDT);

    let result = router.handle(Request::Cancel(CancelOrder::from(7, pair)));
    assert_eq!(result.unwrap_err(), Failure::BookNotFound(pair));
}
