use aat::base::ExchangeType;
use aat::enums::CoreError;
use aat::registry::Registry;
use aat::book::LimitOrderBook;
use aat::enums::{EventType, OrderFlag, OrderType, Side};
use aat::event::EventData;
use aat::fixed::FloatAsLong;
use aat::registry::OrderRegistry;

fn check_top_ob_book(
    ob: &LimitOrderBook,
    om: &OrderRegistry,
    level: usize,
    bid_price: i64,
    bid_volume: i64,
    bid_count: usize,
    ask_price: i64,
    ask_volume: i64,
    ask_count: usize,
) {
    let (bid, ask) = ob.get_level(om, level);
    assert_eq!(bid.price, FloatAsLong::from_int(bid_price));
    assert_eq!(bid.volume, FloatAsLong::from_int(bid_volume));
    assert_eq!(bid.count, bid_count);
    assert_eq!(ask.price, FloatAsLong::from_int(ask_price));
    assert_eq!(ask.volume, FloatAsLong::from_int(ask_volume));
    assert_eq!(ask.count, ask_count);
}

fn new_limit(om: &mut OrderRegistry, volume: i64, price: i64, side: Side) -> u64 {
    om.new_limit(
        0,
        ExchangeType::new(0),
        FloatAsLong::from_int(volume),
        FloatAsLong::from_int(price),
        side,
        None,
    )
    .unwrap()
    .get_id()
}

fn build_basic_order_book(om: &mut OrderRegistry, ob: &mut LimitOrderBook) {
    new_limit(om, 10, 10, Side::BUY);
    ob.add(om, 1).unwrap();
    new_limit(om, 10, 9, Side::BUY);
    ob.add(om, 2).unwrap();
    new_limit(om, 10, 8, Side::BUY);
    ob.add(om, 3).unwrap();
    new_limit(om, 10, 11, Side::SELL);
    ob.add(om, 4).unwrap();
    new_limit(om, 10, 12, Side::SELL);
    ob.add(om, 5).unwrap();
    new_limit(om, 10, 13, Side::SELL);
    ob.add(om, 6).unwrap();
}

#[test]
fn test_simple_cross_buy() {
    let mut om = OrderRegistry::new();
    let mut ob = LimitOrderBook::new(0, ExchangeType::new(0), None);
    build_basic_order_book(&mut om, &mut ob);

    new_limit(&mut om, 5, 10, Side::SELL);
    ob.add(&mut om, 7).unwrap();
    check_top_ob_book(&ob, &om, 0, 10, 5, 1, 11, 10, 1);

    new_limit(&mut om, 5, 10, Side::SELL);
    ob.add(&mut om, 8).unwrap();
    check_top_ob_book(&ob, &om, 0, 9, 10, 1, 11, 10, 1);
}

#[test]
fn test_simple_cross_sell() {
    let mut om = OrderRegistry::new();
    let mut ob = LimitOrderBook::new(0, ExchangeType::new(0), None);
    build_basic_order_book(&mut om, &mut ob);

    new_limit(&mut om, 5, 11, Side::BUY);
    ob.add(&mut om, 7).unwrap();
    check_top_ob_book(&ob, &om, 0, 10, 10, 1, 11, 5, 1);

    new_limit(&mut om, 5, 11, Side::BUY);
    ob.add(&mut om, 8).unwrap();
    check_top_ob_book(&ob, &om, 0, 10, 10, 1, 12, 10, 1);
}

#[test]
fn test_simple_clear_buy() {
    let mut om = OrderRegistry::new();
    let mut ob = LimitOrderBook::new(0, ExchangeType::new(0), None);
    build_basic_order_book(&mut om, &mut ob);

    new_limit(&mut om, 15, 10, Side::SELL);
    ob.add(&mut om, 7).unwrap();
    check_top_ob_book(&ob, &om, 0, 9, 10, 1, 10, 5, 1);
}

#[test]
fn test_simple_clear_sell() {
    let mut om = OrderRegistry::new();
    let mut ob = LimitOrderBook::new(0, ExchangeType::new(0), None);
    build_basic_order_book(&mut om, &mut ob);

    new_limit(&mut om, 15, 12, Side::BUY);
    ob.add(&mut om, 7).unwrap();
    check_top_ob_book(&ob, &om, 0, 10, 10, 1, 12, 5, 1);
}

#[test]
fn test_simple_exhaust_buy() {
    let mut om = OrderRegistry::new();
    let mut ob = LimitOrderBook::new(0, ExchangeType::new(0), None);
    build_basic_order_book(&mut om, &mut ob);

    new_limit(&mut om, 50, 5, Side::SELL);
    ob.add(&mut om, 7).unwrap();
    check_top_ob_book(&ob, &om, 0, 0, 0, 0, 5, 20, 1);
}

#[test]
fn test_simple_exhaust_sell() {
    let mut om = OrderRegistry::new();
    let mut ob = LimitOrderBook::new(0, ExchangeType::new(0), None);
    build_basic_order_book(&mut om, &mut ob);

    new_limit(&mut om, 50, 15, Side::BUY);
    ob.add(&mut om, 7).unwrap();
    check_top_ob_book(&ob, &om, 0, 15, 20, 1, 0, 0, 0);
}

#[test]
fn test_sweep_trade_details() {
    // one TRADE sweeping two levels: makers in price-time order and the
    // volume-weighted average price on the fixed-point grid
    let mut om = OrderRegistry::new();
    let mut ob = LimitOrderBook::new(0, ExchangeType::new(0), None);
    build_basic_order_book(&mut om, &mut ob);

    new_limit(&mut om, 15, 9, Side::SELL);
    let events = ob.add(&mut om, 7).unwrap();
    assert_eq!(events.len(), 1);
    assert_eq!(events[0].event_type, EventType::TRADE);
    match &events[0].target {
        EventData::Trade(t) => {
            assert_eq!(t.volume, FloatAsLong::from_int(15));
            assert_eq!(t.maker_orders, vec![1, 2]);
            assert_eq!(t.taker_order, 7);
            // (10 * 10 + 9 * 5) / 15, truncated on the millionth grid
            assert_eq!(t.price.value, 9_666_666);
        },
        _ => panic!("expected a trade"),
    }
    check_top_ob_book(&ob, &om, 0, 9, 5, 1, 11, 10, 1);
}

#[test]
fn test_simple_cross_trade_price() {
    // a single-maker fill trades exactly at the maker's level
    let mut om = OrderRegistry::new();
    let mut ob = LimitOrderBook::new(0, ExchangeType::new(0), None);
    build_basic_order_book(&mut om, &mut ob);

    new_limit(&mut om, 5, 10, Side::SELL);
    let events = ob.add(&mut om, 7).unwrap();
    assert_eq!(events.len(), 1);
    match &events[0].target {
        EventData::Trade(t) => {
            assert_eq!(t.volume, FloatAsLong::from_int(5));
            assert_eq!(t.price, FloatAsLong::from_int(10));
            assert_eq!(t.maker_orders, vec![1]);
            assert_eq!(t.taker_order, 7);
        },
        _ => panic!("expected a trade"),
    }
}

#[test]
fn test_modify_loses_priority() {
    // modify keeps the price but moves the order to the tail of its level
    let mut om = OrderRegistry::new();
    let mut ob = LimitOrderBook::new(0, ExchangeType::new(0), None);
    new_limit(&mut om, 10, 10, Side::BUY);
    ob.add(&mut om, 1).unwrap();
    new_limit(&mut om, 10, 10, Side::BUY);
    ob.add(&mut om, 2).unwrap();

    let events = ob.modify(&mut om, 1, FloatAsLong::from_int(20)).unwrap();
    assert_eq!(events.len(), 1);
    assert_eq!(events[0].event_type, EventType::CHANGE);

    check_top_ob_book(&ob, &om, 0, 10, 30, 2, 0, 0, 0);

    // the queue is now [2, 1]: a sweep fills order 2 first
    new_limit(&mut om, 25, 10, Side::SELL);
    let events = ob.add(&mut om, 3).unwrap();
    assert_eq!(events.len(), 1);
    match &events[0].target {
        EventData::Trade(t) => {
            assert_eq!(t.maker_orders, vec![2, 1]);
            assert_eq!(t.volume, FloatAsLong::from_int(25));
        },
        _ => panic!("expected a trade"),
    }
}

#[test]
fn test_replace_replays_cancel_then_add() {
    // replace(x, y) leaves the same book as cancel(x) then add(y)
    let mut om1 = OrderRegistry::new();
    let mut ob1 = LimitOrderBook::new(0, ExchangeType::new(0), None);
    build_basic_order_book(&mut om1, &mut ob1);
    let mut om2 = OrderRegistry::new();
    let mut ob2 = LimitOrderBook::new(0, ExchangeType::new(0), None);
    build_basic_order_book(&mut om2, &mut ob2);

    new_limit(&mut om1, 7, 9, Side::BUY);
    new_limit(&mut om2, 7, 9, Side::BUY);

    let ev_replace = ob1.replace(&mut om1, 2, 7).unwrap();
    let mut ev_separate = ob2.cancel(&mut om2, 2).unwrap();
    ev_separate.extend(ob2.add(&mut om2, 7).unwrap());

    assert_eq!(ev_replace.len(), ev_separate.len());
    assert_eq!(ev_replace[0].event_type, EventType::CANCEL);
    for level in 0..4 {
        let (b1, a1) = ob1.get_level(&om1, level);
        let (b2, a2) = ob2.get_level(&om2, level);
        assert_eq!(b1.price, b2.price);
        assert_eq!(b1.volume, b2.volume);
        assert_eq!(b1.count, b2.count);
        assert_eq!(a1.price, a2.price);
        assert_eq!(a1.volume, a2.volume);
        assert_eq!(a1.count, a2.count);
    }
}

#[test]
fn test_add_then_cancel_restores_empty() {
    let mut om = OrderRegistry::new();
    let mut ob = LimitOrderBook::new(0, ExchangeType::new(0), None);
    new_limit(&mut om, 10, 10, Side::BUY);
    let ev = ob.add(&mut om, 1).unwrap();
    assert_eq!(ev.len(), 0);
    check_top_ob_book(&ob, &om, 0, 10, 10, 1, 0, 0, 0);
    let ev = ob.cancel(&mut om, 1).unwrap();
    assert_eq!(ev.len(), 1);
    assert_eq!(ev[0].event_type, EventType::CANCEL);
    check_top_ob_book(&ob, &om, 0, 0, 0, 0, 0, 0, 0);
}

#[test]
fn test_empty_opposite_no_trade() {
    // crossing-priced orders against an empty opposite side never trade
    let mut om = OrderRegistry::new();
    let mut ob = LimitOrderBook::new(0, ExchangeType::new(0), None);
    new_limit(&mut om, 10, 10, Side::SELL);
    let ev = ob.add(&mut om, 1).unwrap();
    assert_eq!(ev.len(), 0);
    check_top_ob_book(&ob, &om, 0, 0, 0, 0, 10, 10, 1);
}

#[test]
fn test_passive_orders_rest_without_trade() {
    // a BUY strictly below the best ask and a SELL strictly above the
    // best bid both rest without a TRADE
    let mut om = OrderRegistry::new();
    let mut ob = LimitOrderBook::new(0, ExchangeType::new(0), None);
    build_basic_order_book(&mut om, &mut ob);

    new_limit(&mut om, 5, 10, Side::BUY);
    let ev = ob.add(&mut om, 7).unwrap();
    assert_eq!(ev.len(), 0);
    new_limit(&mut om, 5, 11, Side::SELL);
    let ev = ob.add(&mut om, 8).unwrap();
    assert_eq!(ev.len(), 0);
    check_top_ob_book(&ob, &om, 0, 10, 15, 2, 11, 15, 2);
}

#[test]
fn test_exact_fill_clears_maker() {
    // a taker consuming exactly the top maker's remaining volume removes
    // that order; the level disappears because the maker was alone
    let mut om = OrderRegistry::new();
    let mut ob = LimitOrderBook::new(0, ExchangeType::new(0), None);
    build_basic_order_book(&mut om, &mut ob);

    new_limit(&mut om, 10, 10, Side::SELL);
    let ev = ob.add(&mut om, 7).unwrap();
    assert_eq!(ev.len(), 1);
    check_top_ob_book(&ob, &om, 0, 9, 10, 1, 11, 10, 1);

    // with two makers on the level, consuming one keeps the level
    let mut om = OrderRegistry::new();
    let mut ob = LimitOrderBook::new(0, ExchangeType::new(0), None);
    new_limit(&mut om, 10, 10, Side::BUY);
    ob.add(&mut om, 1).unwrap();
    new_limit(&mut om, 4, 10, Side::BUY);
    ob.add(&mut om, 2).unwrap();
    new_limit(&mut om, 10, 10, Side::SELL);
    ob.add(&mut om, 3).unwrap();
    check_top_ob_book(&ob, &om, 0, 10, 4, 1, 0, 0, 0);
}

#[test]
fn test_event_sum_conservation() {
    // the volume of each TRADE equals the total fill-state change of its
    // makers when every maker is consumed whole
    let mut om = OrderRegistry::new();
    let mut ob = LimitOrderBook::new(0, ExchangeType::new(0), None);
    build_basic_order_book(&mut om, &mut ob);

    let before1 = om.get(1).unwrap().get_filled();
    let before2 = om.get(2).unwrap().get_filled();

    // 20 consumes orders 1 and 2 completely: no partial maker
    new_limit(&mut om, 20, 9, Side::SELL);
    let ev = ob.add(&mut om, 7).unwrap();
    assert_eq!(ev.len(), 1);
    match &ev[0].target {
        EventData::Trade(t) => {
            let d1 = om.get(1).unwrap().get_filled().sub(before1);
            let d2 = om.get(2).unwrap().get_filled().sub(before2);
            assert_eq!(d1.add(d2), t.volume);
            assert_eq!(t.volume, FloatAsLong::from_int(20));
        },
        _ => panic!("expected a trade"),
    }
}

#[test]
fn test_unimplemented_paths() {
    // a residual on any flagged or STOP path is refused as Unimplemented
    let mut om = OrderRegistry::new();
    let mut ob = LimitOrderBook::new(0, ExchangeType::new(0), None);
    om.new_limit(
        0,
        ExchangeType::new(0),
        FloatAsLong::from_int(10),
        FloatAsLong::from_int(10),
        Side::BUY,
        Some(OrderFlag::FILL_OR_KILL),
    )
    .unwrap();
    assert_eq!(ob.add(&mut om, 1).unwrap_err(), CoreError::Unimplemented);

    om.create(
        None,
        None,
        None,
        FloatAsLong::from_int(10),
        Some(FloatAsLong::from_int(10)),
        None,
        Side::BUY,
        OrderType::STOP,
        None,
        None,
        None,
        None,
        None,
        None,
        None,
    )
    .unwrap();
    assert_eq!(ob.add(&mut om, 2).unwrap_err(), CoreError::Unimplemented);
}

#[test]
fn test_partial_fill_conservation() {
    // a taker consuming part of a maker applies exactly the consumed
    // amount to the maker's fill state: trade volume, maker delta and
    // the level's remaining volume all agree
    let mut om = OrderRegistry::new();
    let mut ob = LimitOrderBook::new(0, ExchangeType::new(0), None);
    new_limit(&mut om, 10, 10, Side::BUY);
    ob.add(&mut om, 1).unwrap();

    new_limit(&mut om, 3, 10, Side::SELL);
    let ev = ob.add(&mut om, 2).unwrap();
    assert_eq!(ev.len(), 1);
    match &ev[0].target {
        EventData::Trade(t) => {
            assert_eq!(t.volume, FloatAsLong::from_int(3));
            assert_eq!(t.maker_orders, vec![1]);
        },
        _ => panic!("expected a trade"),
    }
    let maker = om.get(1).unwrap();
    assert_eq!(maker.get_filled(), FloatAsLong::from_int(3));
    assert_eq!(maker.get_volume_left(), FloatAsLong::from_int(7));
    check_top_ob_book(&ob, &om, 0, 10, 7, 1, 0, 0, 0);
}

#[test]
fn test_allowed_flags_gate() {
    // a flag outside the book's accepted set is refused at submission;
    // an accepted flag may cross, but its residual paths stay deferred
    let mut om = OrderRegistry::new();
    let mut ob = LimitOrderBook::new(
        0,
        ExchangeType::new(0),
        Some(vec![OrderFlag::FILL_OR_KILL]),
    );
    new_limit(&mut om, 10, 10, Side::BUY);
    ob.add(&mut om, 1).unwrap();

    // FILL_OR_KILL is accepted here and this taker fills completely
    om.new_limit(
        0,
        ExchangeType::new(0),
        FloatAsLong::from_int(10),
        FloatAsLong::from_int(10),
        Side::SELL,
        Some(OrderFlag::FILL_OR_KILL),
    )
    .unwrap();
    let ev = ob.add(&mut om, 2).unwrap();
    assert_eq!(ev.len(), 1);
    assert_eq!(ev[0].event_type, EventType::TRADE);

    // an accepted flag with a residual still hits the deferred path
    om.new_limit(
        0,
        ExchangeType::new(0),
        FloatAsLong::from_int(5),
        FloatAsLong::from_int(12),
        Side::SELL,
        Some(OrderFlag::FILL_OR_KILL),
    )
    .unwrap();
    assert_eq!(ob.add(&mut om, 3).unwrap_err(), CoreError::Unimplemented);

    // a flag outside the set is refused at submission even when it
    // would fill completely
    new_limit(&mut om, 10, 10, Side::BUY);
    ob.add(&mut om, 4).unwrap();
    om.new_limit(
        0,
        ExchangeType::new(0),
        FloatAsLong::from_int(10),
        FloatAsLong::from_int(10),
        Side::SELL,
        Some(OrderFlag::ALL_OR_NONE),
    )
    .unwrap();
    assert_eq!(ob.add(&mut om, 5).unwrap_err(), CoreError::Unimplemented);
}

#[test]
fn test_corruption_on_broken_taker() {
    // an order whose fill state violates its own invariant is refused
    let mut om = OrderRegistry::new();
    let mut ob = LimitOrderBook::new(0, ExchangeType::new(0), None);
    om.new_limit(
        0,
        ExchangeType::new(0),
        FloatAsLong::from_int(-10),
        FloatAsLong::from_int(10),
        Side::BUY,
        None,
    )
    .unwrap();
    assert_eq!(ob.add(&mut om, 1).unwrap_err(), CoreError::Corruption);
    // nothing rested
    let (bid, _ask) = ob.get_level(&om, 0);
    assert_eq!(bid.count, 0);
}

#[test]
fn test_not_found_and_corruption() {
    let mut om = OrderRegistry::new();
    let mut ob = LimitOrderBook::new(0, ExchangeType::new(0), None);
    // unknown id
    assert_eq!(ob.add(&mut om, 42).unwrap_err(), CoreError::NotFound);
    assert_eq!(ob.cancel(&mut om, 42).unwrap_err(), CoreError::NotFound);
    // an order that never rested has no level to cancel from
    new_limit(&mut om, 10, 10, Side::BUY);
    assert_eq!(ob.cancel(&mut om, 1).unwrap_err(), CoreError::Corruption);
    // overfilling an order is a corruption
    assert_eq!(
        om.set_filled(1, FloatAsLong::from_int(11)).unwrap_err(),
        CoreError::Corruption
    );
    assert_eq!(om.set_filled(1, FloatAsLong::from_int(5)), Ok(()));
}

#[test]
fn test_quiescent_uncrossed() {
    // with both sides present the best bid stays strictly below the
    // best ask after every operation
    let mut om = OrderRegistry::new();
    let mut ob = LimitOrderBook::new(0, ExchangeType::new(0), None);
    build_basic_order_book(&mut om, &mut ob);

    new_limit(&mut om, 25, 11, Side::BUY);
    ob.add(&mut om, 7).unwrap();
    let (bid, ask) = ob.get_level(&om, 0);
    assert!(bid.price.lt(ask.price));

    ob.cancel(&mut om, 3).unwrap();
    let (bid, ask) = ob.get_level(&om, 0);
    assert!(bid.price.lt(ask.price));
}

#[test]
fn test_booked_fill_bounds() {
    // a partially consumed maker keeps 0 <= filled <= volume
    let mut om = OrderRegistry::new();
    let mut ob = LimitOrderBook::new(0, ExchangeType::new(0), None);
    build_basic_order_book(&mut om, &mut ob);

    new_limit(&mut om, 4, 10, Side::SELL);
    ob.add(&mut om, 7).unwrap();
    let maker = om.get(1).unwrap();
    let filled = maker.get_filled();
    assert!(FloatAsLong::zero().le(filled));
    assert!(filled.le(maker.get_volume()));
}

#[test]
fn test_level_membership() {
    // every price present in a ladder holds at least one order at that
    // price
    let mut om = OrderRegistry::new();
    let mut ob = LimitOrderBook::new(0, ExchangeType::new(0), None);
    build_basic_order_book(&mut om, &mut ob);

    for level in 0..3 {
        let (bid, ask) = ob.get_level(&om, level);
        assert!(bid.count >= 1);
        assert!(ask.count >= 1);
    }
    let (bid, ask) = ob.get_level(&om, 3);
    assert_eq!(bid.count, 0);
    assert_eq!(ask.count, 0);
}

#[test]
fn test_market_residual_discarded() {
    // a MARKET taker fills what is there; the residual is dropped
    // instead of resting (implicit immediate-or-cancel)
    let mut om = OrderRegistry::new();
    let mut ob = LimitOrderBook::new(0, ExchangeType::new(0), None);
    new_limit(&mut om, 10, 10, Side::BUY);
    ob.add(&mut om, 1).unwrap();

    om.new_market(
        0,
        ExchangeType::new(0),
        FloatAsLong::from_int(25),
        FloatAsLong::zero(),
        Side::SELL,
    )
    .unwrap();
    let ev = ob.add(&mut om, 2).unwrap();
    assert_eq!(ev.len(), 1);
    match &ev[0].target {
        EventData::Trade(t) => assert_eq!(t.volume, FloatAsLong::from_int(10)),
        _ => panic!("expected a trade"),
    }
    // nothing rests on either side
    check_top_ob_book(&ob, &om, 0, 0, 0, 0, 0, 0, 0);
}

#[test]
fn test_new_market_is_market_type() {
    let mut om = OrderRegistry::new();
    let o = om
        .new_market(
            0,
            ExchangeType::new(0),
            FloatAsLong::from_int(5),
            FloatAsLong::from_int(100),
            Side::BUY,
        )
        .unwrap();
    assert_eq!(o.get_order_type(), OrderType::MARKET);
    assert_eq!(o.get_notional(), FloatAsLong::from_int(100));
    assert_eq!(o.get_order_flag(), OrderFlag::NONE);
    // a market order carries no price
    assert_eq!(o.get_price(), FloatAsLong::zero());
}

#[test]
fn test_new_limit_defaults() {
    let mut om = OrderRegistry::new();
    let o = om
        .new_limit(
            0,
            ExchangeType::new(0),
            FloatAsLong::from_int(5),
            FloatAsLong::from_int(10),
            Side::BUY,
            None,
        )
        .unwrap();
    assert_eq!(o.get_order_type(), OrderType::LIMIT);
    assert_eq!(o.get_price(), FloatAsLong::from_int(10));
    assert_eq!(o.get_order_flag(), OrderFlag::NONE);
    assert_eq!(o.get_filled(), FloatAsLong::zero());
    // a limit order carries no notional
    assert_eq!(o.get_notional(), FloatAsLong::zero());
    // the stored record is the returned one
    assert_eq!(om.get(o.get_id()).unwrap().get_price(), o.get_price());
}
