//! The trade record emitted when a taker crosses resting makers.

use vstd::prelude::*;
use crate::Id;
use crate::fixed::FloatAsLong;
use crate::base::{BaseData, ExchangeType};

verus! {

/// A trade: total matched volume, its volume-weighted average price, the
/// maker order ids in the order they participated, and the taker order id.
#[derive(Clone, Debug)]
pub struct Trade {
    pub base: BaseData,

    pub exchange_id: Option<Id>,
    pub exchange_timestamp: Option<i64>,

    pub volume: FloatAsLong,
    pub price: FloatAsLong,

    pub maker_orders: Vec<Id>,
    pub taker_order: Id,

    pub my_order: Option<Id>,
    pub slippage: Option<FloatAsLong>,
    pub transaction_cost: Option<FloatAsLong>,
}

impl Trade {
    pub fn new(
        id: Id,
        timestamp: Option<i64>,
        instrument_id: Option<Id>,
        exchange: Option<ExchangeType>,
        exchange_id: Option<Id>,
        exchange_timestamp: Option<i64>,
        volume: FloatAsLong,
        price: FloatAsLong,
        maker_orders: Vec<Id>,
        taker_order: Id,
    ) -> (r: Trade)
        ensures
            r.base.id == id,
            timestamp is Some ==> r.base.timestamp == timestamp->Some_0,
            r.base.instrument_id == if instrument_id is Some { instrument_id->Some_0 } else { 0 },
            r.exchange_id == exchange_id,
            r.exchange_timestamp == exchange_timestamp,
            r.volume == volume,
            r.price == price,
            r.maker_orders == maker_orders,
            r.taker_order == taker_order,
            r.my_order is None,
            r.slippage == Some(FloatAsLong { value: 0 }),
            r.transaction_cost == Some(FloatAsLong { value: 0 }),
    {
        Trade {
            base: BaseData::new(id, timestamp, instrument_id, exchange),
            exchange_id,
            exchange_timestamp,
            volume,
            price,
            maker_orders,
            taker_order,
            my_order: None,
            slippage: Some(FloatAsLong::zero()),
            transaction_cost: Some(FloatAsLong::zero()),
        }
    }

    pub fn get_id(&self) -> (r: Id)
        ensures
            r == self.base.id,
    {
        self.base.get_id()
    }

    pub fn get_exchange_id(&self) -> (r: Option<Id>)
        ensures
            r == self.exchange_id,
    {
        self.exchange_id
    }

    pub fn get_exchange_timestamp(&self) -> (r: Option<i64>)
        ensures
            r == self.exchange_timestamp,
    {
        self.exchange_timestamp
    }

    pub fn get_volume(&self) -> (r: FloatAsLong)
        ensures
            r == self.volume,
    {
        self.volume
    }

    pub fn get_price(&self) -> (r: FloatAsLong)
        ensures
            r == self.price,
    {
        self.price
    }
}

/// Trade identity is id-based.
impl PartialEq for Trade {
    fn eq(&self, other: &Self) -> (r: bool) {
        self.base.id == other.base.id
    }
}

impl vstd::std_specs::cmp::PartialEqSpecImpl for Trade {
    open spec fn obeys_eq_spec() -> bool {
        true
    }

    open spec fn eq_spec(&self, other: &Self) -> bool {
        self.base.id == other.base.id
    }
}

} // verus!
