use h1_trading_engine::orderbook::{BidOrAsk, Limit, MatchEvent, Order, Orderbook};

fn resting_qty(ob: &Orderbook, side: BidOrAsk, prices: &[u64]) -> u64 {
    let mut total = 0;
    for p in prices {
        if let Some(l) = ob.level(side, *p) {
            for o in l.orders() {
                total += o.size;
            }
        }
    }
    total
}

fn traded_qty(events: &[MatchEvent]) -> u64 {
    let mut total = 0;
    for e in events {
        if let MatchEvent::Trade { qty, .. } = e {
            total += qty;
        }
    }
    total
}

#[test]
fn test_simple_match() {
    let mut ob = Orderbook::new();
    let res1 = ob.execute_limit_order(BidOrAsk::Ask, 10, 100);
    assert!(matches!(res1.events[0], MatchEvent::Maker { .. }));
    let res2 = ob.execute_limit_order(BidOrAsk::Bid, 10, 50);

    match res2.events[0] {
        MatchEvent::Trade {
            qty,
            price,
            maker_id,
            ..
        } => {
            assert_eq!(qty, 50);
            assert_eq!(price, 10);
            assert_eq!(maker_id, 1);
        }
        _ => panic!("Expected a Trade event!"),
    }
    let limit = ob.level(BidOrAsk::Ask, 10).unwrap();
    assert_eq!(limit.orders()[0].size, 50);
}

#[test]
fn test_price_priority() {
    let mut ob = Orderbook::new();

    ob.execute_limit_order(BidOrAsk::Ask, 200, 100);
    ob.execute_limit_order(BidOrAsk::Ask, 100, 100);

    let res = ob.execute_limit_order(BidOrAsk::Bid, 200, 50);

    match res.events[0] {
        MatchEvent::Trade { price, .. } => {
            assert_eq!(
                price, 100,
                "Engine chose the wrong price! Should be 100 (Best Execution)."
            );
        }
        _ => panic!("No trade occurred"),
    }
}

#[test]
fn test_time_priority() {
    let mut ob = Orderbook::new();
    let res_a = ob.execute_limit_order(BidOrAsk::Ask, 100, 10);
    let id_a = if let MatchEvent::Maker { id, .. } = res_a.events[0] {
        id
    } else {
        0
    };

    let res_b = ob.execute_limit_order(BidOrAsk::Ask, 100, 10);
    let id_b = if let MatchEvent::Maker { id, .. } = res_b.events[0] {
        id
    } else {
        0
    };

    assert!(id_a < id_b, "IDs should be sequential");

    let res_buy = ob.execute_limit_order(BidOrAsk::Bid, 100, 10);

    match res_buy.events[0] {
        MatchEvent::Trade { maker_id, .. } => {
            assert_eq!(
                maker_id, id_a,
                "Time Priority failed! Oldest order should match first."
            );
        }
        _ => panic!("Expected Trade"),
    }
}

#[test]
fn scenario_partial_fills_then_rest() {
    let mut ob = Orderbook::new();
    let r1 = ob.execute_limit_order(BidOrAsk::Ask, 50000, 2);
    assert_eq!(
        r1.events,
        vec![MatchEvent::Maker { id: 1, price: 50000, qty: 2, side: BidOrAsk::Ask }]
    );
    let r2 = ob.execute_limit_order(BidOrAsk::Bid, 50000, 1);
    assert_eq!(
        r2.events,
        vec![MatchEvent::Trade { maker_id: 1, taker_id: 2, price: 50000, qty: 1 }]
    );
    let l = ob.level(BidOrAsk::Ask, 50000).unwrap();
    assert_eq!(l.orders().len(), 1);
    assert_eq!(l.orders()[0], Order { size: 1, bid_or_ask: BidOrAsk::Ask, id: 1 });
    let r3 = ob.execute_limit_order(BidOrAsk::Bid, 50000, 2);
    assert_eq!(
        r3.events,
        vec![
            MatchEvent::Trade { maker_id: 1, taker_id: 3, price: 50000, qty: 1 },
            MatchEvent::Maker { id: 3, price: 50000, qty: 1, side: BidOrAsk::Bid },
        ]
    );
    assert!(ob.level(BidOrAsk::Ask, 50000).is_none());
    let b = ob.level(BidOrAsk::Bid, 50000).unwrap();
    assert_eq!(b.price(), 50000);
    assert_eq!(b.orders().len(), 1);
    assert_eq!(b.orders()[0], Order { size: 1, bid_or_ask: BidOrAsk::Bid, id: 3 });
}

#[test]
fn scenario_better_ask_first() {
    let mut ob = Orderbook::new();
    ob.execute_limit_order(BidOrAsk::Ask, 200, 100);
    ob.execute_limit_order(BidOrAsk::Ask, 100, 100);
    let r = ob.execute_limit_order(BidOrAsk::Bid, 200, 50);
    assert_eq!(
        r.events,
        vec![MatchEvent::Trade { maker_id: 2, taker_id: 3, price: 100, qty: 50 }]
    );
    assert_eq!(ob.level(BidOrAsk::Ask, 200).unwrap().orders()[0].size, 100);
    assert_eq!(ob.level(BidOrAsk::Ask, 100).unwrap().orders()[0].size, 50);
}

#[test]
fn scenario_oldest_first() {
    let mut ob = Orderbook::new();
    ob.execute_limit_order(BidOrAsk::Ask, 100, 10);
    ob.execute_limit_order(BidOrAsk::Ask, 100, 10);
    let r = ob.execute_limit_order(BidOrAsk::Bid, 100, 10);
    assert_eq!(
        r.events,
        vec![MatchEvent::Trade { maker_id: 1, taker_id: 3, price: 100, qty: 10 }]
    );
    let l = ob.level(BidOrAsk::Ask, 100).unwrap();
    assert_eq!(l.orders().len(), 1);
    assert_eq!(l.orders()[0].id, 2);
}

#[test]
fn scenario_empty_book_rests() {
    let mut ob = Orderbook::new();
    let r = ob.execute_limit_order(BidOrAsk::Bid, 100, 5);
    assert_eq!(
        r.events,
        vec![MatchEvent::Maker { id: 1, price: 100, qty: 5, side: BidOrAsk::Bid }]
    );
    assert_eq!(ob.next_order_id(), 2);
}

#[test]
fn sweep_across_levels_one_trade_per_order() {
    let mut ob = Orderbook::new();
    ob.execute_limit_order(BidOrAsk::Bid, 100, 3);
    ob.execute_limit_order(BidOrAsk::Bid, 100, 4);
    ob.execute_limit_order(BidOrAsk::Bid, 102, 2);
    ob.execute_limit_order(BidOrAsk::Bid, 95, 9);
    let r = ob.execute_limit_order(BidOrAsk::Ask, 100, 9);
    assert_eq!(
        r.events,
        vec![
            MatchEvent::Trade { maker_id: 3, taker_id: 5, price: 102, qty: 2 },
            MatchEvent::Trade { maker_id: 1, taker_id: 5, price: 100, qty: 3 },
            MatchEvent::Trade { maker_id: 2, taker_id: 5, price: 100, qty: 4 },
        ]
    );
    assert!(ob.level(BidOrAsk::Bid, 102).is_none());
    assert!(ob.level(BidOrAsk::Bid, 100).is_none());
    assert_eq!(ob.level(BidOrAsk::Bid, 95).unwrap().orders()[0].size, 9);
    assert!(ob.level(BidOrAsk::Ask, 100).is_none());
}

#[test]
fn ask_limit_stops_sweep_and_rests_uncrossed() {
    let mut ob = Orderbook::new();
    ob.execute_limit_order(BidOrAsk::Bid, 101, 2);
    ob.execute_limit_order(BidOrAsk::Bid, 99, 5);
    let r = ob.execute_limit_order(BidOrAsk::Ask, 100, 6);
    assert_eq!(
        r.events,
        vec![
            MatchEvent::Trade { maker_id: 1, taker_id: 3, price: 101, qty: 2 },
            MatchEvent::Maker { id: 3, price: 100, qty: 4, side: BidOrAsk::Ask },
        ]
    );
    assert_eq!(ob.level(BidOrAsk::Bid, 99).unwrap().orders()[0].size, 5);
    assert_eq!(ob.level(BidOrAsk::Ask, 100).unwrap().orders()[0].size, 4);
}

#[test]
fn quantity_is_conserved() {
    let mut ob = Orderbook::new();
    let subs = [
        (BidOrAsk::Ask, 105, 7),
        (BidOrAsk::Bid, 100, 4),
        (BidOrAsk::Ask, 101, 3),
        (BidOrAsk::Bid, 104, 8),
        (BidOrAsk::Ask, 99, 10),
        (BidOrAsk::Bid, 106, 5),
    ];
    let prices = [99, 100, 101, 104, 105, 106];
    let mut submitted = 0;
    let mut traded = 0;
    for (side, price, qty) in subs {
        let r = ob.execute_limit_order(side, price, qty);
        submitted += qty;
        traded += traded_qty(&r.events);
        let resting =
            resting_qty(&ob, BidOrAsk::Bid, &prices) + resting_qty(&ob, BidOrAsk::Ask, &prices);
        assert_eq!(resting + 2 * traded, submitted);
    }
}

#[test]
fn exact_fill_gives_no_maker() {
    let mut ob = Orderbook::new();
    ob.execute_limit_order(BidOrAsk::Ask, 10, 5);
    let r = ob.execute_limit_order(BidOrAsk::Bid, 12, 5);
    assert_eq!(
        r.events,
        vec![MatchEvent::Trade { maker_id: 1, taker_id: 2, price: 10, qty: 5 }]
    );
    assert!(ob.level(BidOrAsk::Ask, 10).is_none());
    assert!(ob.level(BidOrAsk::Bid, 12).is_none());
}

#[test]
fn limit_fill_keeps_partial_at_front() {
    let mut l = Limit::new(100);
    assert!(l.is_empty());
    l.add_order(Order { size: 5, bid_or_ask: BidOrAsk::Ask, id: 1 });
    l.add_order(Order { size: 3, bid_or_ask: BidOrAsk::Ask, id: 2 });
    l.add_order(Order { size: 4, bid_or_ask: BidOrAsk::Ask, id: 3 });
    let (matched, events) = l.fill(9, 7);
    assert_eq!(matched, 7);
    assert_eq!(
        events,
        vec![
            MatchEvent::Trade { maker_id: 1, taker_id: 9, price: 100, qty: 5 },
            MatchEvent::Trade { maker_id: 2, taker_id: 9, price: 100, qty: 2 },
        ]
    );
    assert_eq!(l.orders().len(), 2);
    assert_eq!(l.orders()[0], Order { size: 1, bid_or_ask: BidOrAsk::Ask, id: 2 });
    assert_eq!(l.orders()[1], Order { size: 4, bid_or_ask: BidOrAsk::Ask, id: 3 });
    let (matched, events) = l.fill(10, 20);
    assert_eq!(matched, 5);
    assert_eq!(events.len(), 2);
    assert!(l.is_empty());
}
