use octomatch::model::TradingPair;
use octomatch::router::{PlaceOrder, Request};
use octomatch::types::{Asset, Failure, OrderSide, OrderType, Price};
use octomatch::{Engine, EngineConfig};

#[test]
fn the_engine_dispatches_orders_to_its_configured_books() {
    let mut engine = Engine::new(EngineConfig::build(vec![
        TradingPair::from(Asset::BTC, Asset::USDC),
        TradingPair::from(Asset::BTC, Asset::USDT),
    ]));

    let result = engine.dispatch(Request::PlaceOrder(PlaceOrder::from(
        Price::from_atoms(2000),
        10,
        OrderSide::Bid,
        OrderType::Limit,
        TradingPair::from(Asset::BTC, Asset::USDC),
    )));
    assert!(result.is_ok());
}

#[test]
fn the_engine_rejects_orders_for_unconfigured_pairs() {
    let mut engine = Engine::new(EngineConfig::build(vec![TradingPair::from(
        Asset::BTC,
        Asset::USDC,
    )]));

    let pair = TradingPair::from(Asset::ETH, Asset::USDC);
    let result = engine.dispatch(Request::PlaceOrder(PlaceOrder::from(
        Price::from_atoms(2000),
        10,
        OrderSide::Bid,
        OrderType::Limit,
        pair,
    )));
    assert_eq!(result.unwrap_err(), Failure::BookNotFound(pair));
}

#[test]
fn a_pair_configured_twice_gets_a_single_book() {
    let pair = TradingPair::from(Asset::DOT, Asset::USDT);
    let mut engine = Engine::new(EngineConfig::build(vec![pair, pair]));

    let result = engine.dispatch(Request::PlaceOrder(PlaceOrder::from(
        Price::from_atoms(700),
        3,
        OrderSide::Ask,
        OrderType::Limit,
        pair,
    )));
    assert!(result.is_ok());
}
