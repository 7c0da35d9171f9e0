use aat::book::LimitOrderBook;
use aat::enums::{OrderType, Side};
use aat::fixed::FloatAsLong;
use aat::registry::OrderRegistry;
use rand::Rng;

fn check_top_ob_book(
    ob: &LimitOrderBook,
    om: &OrderRegistry,
    level: usize,
    bid_price: i64,
    bid_volume: i64,
    bid_count: usize,
    ask_price: i64,
    ask_volume: i64,
    ask_count: usize,
) {
    let (bid, ask) = ob.get_level(om, level);
    assert_eq!(bid.price, FloatAsLong::from_int(bid_price));
    assert_eq!(bid.volume, FloatAsLong::from_int(bid_volume));
    assert_eq!(bid.count, bid_count);
    assert_eq!(ask.price, FloatAsLong::from_int(ask_price));
    assert_eq!(ask.volume, FloatAsLong::from_int(ask_volume));
    assert_eq!(ask.count, ask_count);
}

fn limit(om: &mut OrderRegistry, volume: i64, price: i64, side: Side) -> u64 {
    let order = om
        .create(
            None,
            None,
            None,
            FloatAsLong::from_int(volume),
            Some(FloatAsLong::from_int(price)),
            None,
            side,
            OrderType::LIMIT,
            None,
            None,
            None,
            None,
            None,
            None,
            None,
        )
        .unwrap();
    order.get_id()
}

#[test]
fn test_new() {
    let om = OrderRegistry::new();
    let ob = LimitOrderBook::new(0, aat::base::ExchangeType::new(0), None);
    check_top_ob_book(&ob, &om, 0, 0, 0, 0, 0, 0, 0);
}

#[test]
fn test_basics() {
    let mut om = OrderRegistry::new();
    let mut ob = LimitOrderBook::new(0, aat::base::ExchangeType::new(0), None);

    let o1 = limit(&mut om, 10, 10, Side::BUY);
    let o2 = limit(&mut om, 10, 20, Side::SELL);

    ob.add(&mut om, o1).unwrap();
    ob.add(&mut om, o2).unwrap();

    check_top_ob_book(&ob, &om, 0, 10, 10, 1, 20, 10, 1);
}

#[test]
fn basic_test_add() {
    let mut om = OrderRegistry::new();
    let mut ob = LimitOrderBook::new(0, aat::base::ExchangeType::new(0), None);

    let o1 = limit(&mut om, 10, 10, Side::BUY);
    let o2 = limit(&mut om, 10, 20, Side::BUY);
    let o3 = limit(&mut om, 10, 20, Side::BUY);

    ob.add(&mut om, o1).unwrap();
    check_top_ob_book(&ob, &om, 0, 10, 10, 1, 0, 0, 0);

    ob.add(&mut om, o2).unwrap();
    check_top_ob_book(&ob, &om, 0, 20, 10, 1, 0, 0, 0);
    check_top_ob_book(&ob, &om, 1, 10, 10, 1, 0, 0, 0);

    ob.add(&mut om, o3).unwrap();
    check_top_ob_book(&ob, &om, 0, 20, 20, 2, 0, 0, 0);
}

#[test]
fn test_print() {
    let mut om = OrderRegistry::new();
    let mut ob = LimitOrderBook::new(0, aat::base::ExchangeType::new(0), None);
    let mut rng = rand::thread_rng();

    for x in 1..20u64 {
        let side = if x > 10 { Side::SELL } else { Side::BUY };
        let price = ((x as f64) / 2.0).ceil() as i64;
        let volume: i64 = rng.gen_range(10..100);
        limit(&mut om, volume, price, side);
        ob.add(&mut om, x).unwrap();
    }

    let (bid, ask) = ob.get_level(&om, 0);
    assert_eq!(bid.price, FloatAsLong::from_int(5));
    assert_eq!(bid.volume.lt(FloatAsLong::from_int(200)), true);
    assert_eq!(bid.count, 2);
    assert_eq!(ask.price, FloatAsLong::from_int(6));
    assert_eq!(ask.volume.lt(FloatAsLong::from_int(200)), true);
    assert_eq!(ask.count, 2);
}

#[test]
fn test_render() {
    let mut om = OrderRegistry::new();
    let mut ob = LimitOrderBook::new(0, aat::base::ExchangeType::new(0), None);

    let o1 = limit(&mut om, 10, 10, Side::BUY);
    let o2 = limit(&mut om, 10, 20, Side::SELL);
    ob.add(&mut om, o1).unwrap();
    ob.add(&mut om, o2).unwrap();

    let text = ob.render(&om);
    println!("{}", text);
    assert_eq!(
        text,
        "OrderBook {\n\
         \t\t20000000\t10000000\t1\n\
         ====================================\n\
         \t10000000\t10000000\t\t1\n\
         }"
    );
}
