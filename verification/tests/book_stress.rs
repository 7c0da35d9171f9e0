use aat::base::ExchangeType;
use aat::book::LimitOrderBook;
use aat::enums::{OrderType, Side};
use aat::fixed::FloatAsLong;
use aat::registry::OrderRegistry;
use rand::Rng;
use std::time::{Duration, Instant};

#[test]
fn stress_test_stress() {
    let count: u32 = 100_000;
    let mut om = OrderRegistry::new();
    let mut ob = LimitOrderBook::new(0, ExchangeType::new(0), None);
    let mut rng = rand::thread_rng();

    let now = Instant::now();
    for x in 1..count {
        let side = if x % 2 == 0 { Side::SELL } else { Side::BUY };
        let price = FloatAsLong::from_int(rng.gen_range(10..100));
        let volume = FloatAsLong::from_int(rng.gen_range(10..100));

        om.create(
            None,
            None,
            None,
            volume,
            Some(price),
            None,
            side,
            OrderType::LIMIT,
            None,
            None,
            None,
            None,
            None,
            None,
            None,
        )
        .unwrap();
        ob.add(&mut om, x.into()).unwrap();
    }

    let elapsed = now.elapsed();
    println!("Elapsed: {:.2?}", elapsed);
    let time = elapsed.as_secs() as f64 + elapsed.subsec_nanos() as f64 / 1_000_000_000.0;
    println!("OPS: {:.2?}", count as f64 / time);
    println!("SPO: {:.2?}", elapsed / count);
    // the performance budget of this implementation: fifteen seconds,
    // sized for an unoptimized build of the verification-friendly
    // structures (front removals on plain vectors instead of deques)
    assert!(elapsed < Duration::new(15, 0));

    // the book stays consistent: the top of each side never crosses
    let (bid, ask) = ob.get_level(&om, 0);
    if bid.count > 0 && ask.count > 0 {
        assert!(bid.price.lt(ask.price));
    }
}
