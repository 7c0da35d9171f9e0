use aat::base::BaseData;
use aat::data::Data;
use aat::enums::{CoreError, OrderFlag, OrderType, Side};
use aat::fixed::FloatAsLong;
use aat::order::Order;
use aat::trade::Trade;

fn market_order(id: u64, volume: i64) -> Order {
    Order::new(
        id,
        None,
        None,
        None,
        FloatAsLong::from_int(volume),
        None,
        None,
        Side::BUY,
        OrderType::MARKET,
        None,
        None,
        None,
        None,
        None,
        None,
        None,
    )
    .unwrap()
}

#[test]
fn base_test_eq() {
    let d1 = BaseData::new(1, None, None, None);
    let d2 = BaseData::new(1, None, None, None);
    let d3 = BaseData::new(2, None, None, None);
    assert_eq!(d1, d2);
    assert_eq!(d1 == d3, false);
    assert_eq!(d2 == d3, false);
}

#[test]
fn order_test_eq() {
    let o1 = market_order(1, 10);
    let o2 = market_order(1, 20);
    assert_eq!(o1, o2);
}

#[test]
fn test_fill_volume() {
    let mut o1 = market_order(1, 10);
    o1.set_filled(FloatAsLong::from_int(5));
    assert_eq!(o1.get_volume_left(), FloatAsLong::from_int(5));
}

#[test]
fn data_test_eq() {
    let d1 = Data::new(1, None, None, None, Some(serde_json::Value::Null));
    let d2 = Data::new(1, None, None, None, Some(serde_json::Value::Null));
    let d3 = Data::new(2, None, None, None, Some(serde_json::Value::Null));
    assert_eq!(d1, d2);
    assert_ne!(d1, d3);
    assert_ne!(d2, d3);
}

#[test]
fn test_invalid_market_with_price() {
    let r = Order::new(
        1,
        None,
        None,
        None,
        FloatAsLong::from_int(10),
        Some(FloatAsLong::from_int(10)),
        None,
        Side::BUY,
        OrderType::MARKET,
        None,
        None,
        None,
        None,
        None,
        None,
        None,
    );
    assert_eq!(r.unwrap_err(), CoreError::InvalidOrder);
}

#[test]
fn test_invalid_market_ioc() {
    let r = Order::new(
        1,
        None,
        None,
        None,
        FloatAsLong::from_int(10),
        None,
        None,
        Side::BUY,
        OrderType::MARKET,
        Some(OrderFlag::IMMEDIATE_OR_CANCEL),
        None,
        None,
        None,
        None,
        None,
        None,
    );
    assert_eq!(r.unwrap_err(), CoreError::InvalidOrder);
}

#[test]
fn test_invalid_limit_without_price() {
    let r = Order::new(
        1,
        None,
        None,
        None,
        FloatAsLong::from_int(10),
        None,
        None,
        Side::BUY,
        OrderType::LIMIT,
        None,
        None,
        None,
        None,
        None,
        None,
        None,
    );
    assert_eq!(r.unwrap_err(), CoreError::InvalidOrder);
}

#[test]
fn test_negative_volume_constructs_but_never_books() {
    // validation rejects only the three specified causes; a negative
    // volume passes construction and is caught by the book's own guard
    let r = Order::new(
        1,
        None,
        None,
        None,
        FloatAsLong::from_int(-10),
        Some(FloatAsLong::from_int(10)),
        None,
        Side::BUY,
        OrderType::LIMIT,
        None,
        None,
        None,
        None,
        None,
        None,
        None,
    );
    assert!(r.is_ok());
}

#[test]
fn test_trade_getters() {
    let trade = Trade::new(
        7,
        Some(123),
        Some(2),
        None,
        Some(9),
        Some(456),
        FloatAsLong::from_int(5),
        FloatAsLong::from_int(10),
        vec![1, 2],
        3,
    );
    assert_eq!(trade.get_id(), 7);
    assert_eq!(trade.get_exchange_id(), Some(9));
    assert_eq!(trade.get_exchange_timestamp(), Some(456));
    assert_eq!(trade.get_volume(), FloatAsLong::from_int(5));
    assert_eq!(trade.get_price(), FloatAsLong::from_int(10));
}
