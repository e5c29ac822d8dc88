use h1_trading_engine::engine::{EngineError, MachiningEngine, TradingPair};
use h1_trading_engine::orderbook::{BidOrAsk, MatchEvent};

#[test]
fn pair_label() {
    let pair = TradingPair::new("BTC".to_string(), "USD".to_string());
    assert_eq!(pair.to_string(), "BTC_USD");
}

#[test]
fn registration_is_idempotent() {
    let mut engine = MachiningEngine::new();
    let a = engine.add_new_market(TradingPair::new("BTC".to_string(), "USD".to_string()));
    let b = engine.add_new_market(TradingPair::new("ETH".to_string(), "USD".to_string()));
    let c = engine.add_new_market(TradingPair::new("BTC".to_string(), "USD".to_string()));
    assert_eq!(a, 0);
    assert_eq!(b, 1);
    assert_eq!(c, a);
    assert!(engine.orderbook(2).is_none());
}

#[test]
fn registration_keeps_existing_book() {
    let mut engine = MachiningEngine::new();
    let id = engine.add_new_market(TradingPair::new("RHM".to_string(), "EUR".to_string()));
    engine.place_limit_order(id, BidOrAsk::Ask, 10, 3).unwrap();
    let again = engine.add_new_market(TradingPair::new("RHM".to_string(), "EUR".to_string()));
    assert_eq!(again, id);
    let book = engine.orderbook(id).unwrap();
    assert_eq!(book.level(BidOrAsk::Ask, 10).unwrap().orders()[0].size, 3);
}

#[test]
fn orders_route_to_their_market() {
    let mut engine = MachiningEngine::new();
    let btc = engine.add_new_market(TradingPair::new("BTC".to_string(), "USD".to_string()));
    let eth = engine.add_new_market(TradingPair::new("ETH".to_string(), "USD".to_string()));
    engine.place_limit_order(btc, BidOrAsk::Ask, 100, 5).unwrap();
    let r = engine.place_limit_order(eth, BidOrAsk::Bid, 100, 5).unwrap();
    assert_eq!(
        r.events,
        vec![MatchEvent::Maker { id: 1, price: 100, qty: 5, side: BidOrAsk::Bid }]
    );
    let r = engine.place_limit_order(btc, BidOrAsk::Bid, 100, 2).unwrap();
    assert_eq!(
        r.events,
        vec![MatchEvent::Trade { maker_id: 1, taker_id: 2, price: 100, qty: 2 }]
    );
}

#[test]
fn unknown_market_is_refused() {
    let mut engine = MachiningEngine::new();
    assert_eq!(
        engine.place_limit_order(0, BidOrAsk::Bid, 10, 1).err(),
        Some(EngineError::MarketNotFound)
    );
}

#[test]
fn zero_price_and_quantity_are_refused() {
    let mut engine = MachiningEngine::new();
    let id = engine.add_new_market(TradingPair::new("BTC".to_string(), "USD".to_string()));
    assert_eq!(
        engine.place_limit_order(id, BidOrAsk::Bid, 0, 1).err(),
        Some(EngineError::ZeroPrice)
    );
    assert_eq!(
        engine.place_limit_order(id, BidOrAsk::Bid, 10, 0).err(),
        Some(EngineError::ZeroQuantity)
    );
    assert_eq!(engine.orderbook(id).unwrap().next_order_id(), 1);
}
