//! The order model: static parameters fixed at construction plus the
//! mutable fill state, with the construction-time validation rules.

use vstd::prelude::*;
use crate::Id;
use crate::fixed::FloatAsLong;
use crate::base::{BaseData, ExchangeType};
use crate::enums::{CoreError, OrderFlag, OrderType, Side};

verus! {

/// An order: immutable except `filled` and `force_done`.
#[derive(Copy, Clone, Debug)]
pub struct Order {
    pub base: BaseData,

    pub volume: FloatAsLong,
    pub price: FloatAsLong,
    pub notional: FloatAsLong,

    pub side: Side,
    pub order_type: OrderType,
    pub order_flag: OrderFlag,

    pub participant_id: Option<Id>,
    pub exchange_id: Option<Id>,
    pub received_timestamp: Option<i64>,
    pub update_timestamp: Option<i64>,
    pub dispatch_timestamp: Option<i64>,

    pub conditional_target_id: Option<Id>,

    pub filled: FloatAsLong,
    pub force_done: bool,
}

/// Construction is rejected exactly when a MARKET order carries a price
/// or the IMMEDIATE_OR_CANCEL flag (MARKET is IOC by default), or when a
/// LIMIT order carries no price.
pub open spec fn order_rejected(
    price: Option<FloatAsLong>,
    order_type: OrderType,
    order_flag: Option<OrderFlag>,
) -> bool {
    ||| (order_type == OrderType::MARKET && price is Some)
    ||| (order_type == OrderType::MARKET && order_flag == Some(OrderFlag::IMMEDIATE_OR_CANCEL))
    ||| (order_type == OrderType::LIMIT && price is None)
}

impl Order {
    /// The fill-state invariant every order keeps: `0 <= filled <= volume`.
    pub open spec fn wf(&self) -> bool {
        0 <= self.filled.value <= self.volume.value
    }

    /// The volume that remains open.
    pub open spec fn spec_volume_left(&self) -> int {
        self.volume.value - self.filled.value
    }

    /// Validates and builds an order; `filled` starts at zero.
    #[allow(unused_variables)]
    pub fn new(
        id: Id,
        timestamp: Option<i64>,
        instrument_id: Option<Id>,
        exchange: Option<ExchangeType>,
        volume: FloatAsLong,
        price: Option<FloatAsLong>,
        notional: Option<FloatAsLong>,
        side: Side,
        order_type: OrderType,
        order_flag: Option<OrderFlag>,
        participant_id: Option<Id>,
        exchange_id: Option<Id>,
        received_timestamp: Option<i64>,
        update_timestamp: Option<i64>,
        dispatch_timestamp: Option<i64>,
        conditional_target_id: Option<Id>,
    ) -> (r: Result<Order, CoreError>)
        ensures
            r is Err <==> order_rejected(price, order_type, order_flag),
            r is Err ==> r->Err_0 == CoreError::InvalidOrder,
            r is Ok ==> {
                let o = r->Ok_0;
                &&& o.base.id == id
                &&& (timestamp is Some ==> o.base.timestamp == timestamp->Some_0)
                &&& o.base.instrument_id == if instrument_id is Some { instrument_id->Some_0 } else { 0 }
                &&& o.volume == volume
                &&& o.price == if price is Some { price->Some_0 } else { FloatAsLong { value: 0 } }
                &&& o.notional == if notional is Some { notional->Some_0 } else { FloatAsLong { value: 0 } }
                &&& o.side == side
                &&& o.order_type == order_type
                &&& o.order_flag == if order_flag is Some { order_flag->Some_0 } else { OrderFlag::NONE }
                &&& o.participant_id == participant_id
                &&& o.exchange_id == exchange_id
                &&& o.received_timestamp == received_timestamp
                &&& o.update_timestamp == update_timestamp
                &&& o.dispatch_timestamp == dispatch_timestamp
                &&& o.conditional_target_id == conditional_target_id
                &&& o.filled.value == 0
                &&& o.force_done == false
                &&& (volume.value >= 0 ==> o.wf())
            },
    {
        match order_type {
            OrderType::MARKET => {
                if price.is_some() {
                    return Err(CoreError::InvalidOrder);
                }
                match order_flag {
                    Some(OrderFlag::IMMEDIATE_OR_CANCEL) => {
                        return Err(CoreError::InvalidOrder);
                    },
                    _ => {},
                }
            },
            OrderType::LIMIT => {
                if price.is_none() {
                    return Err(CoreError::InvalidOrder);
                }
            },
            _ => {},
        }
        Ok(Order {
            base: BaseData::new(id, timestamp, instrument_id, exchange),
            volume,
            price: match price {
                Some(p) => p,
                None => FloatAsLong::zero(),
            },
            notional: match notional {
                Some(n) => n,
                None => FloatAsLong::zero(),
            },
            side,
            order_type,
            order_flag: match order_flag {
                Some(f) => f,
                None => OrderFlag::NONE,
            },
            participant_id,
            exchange_id,
            received_timestamp,
            update_timestamp,
            dispatch_timestamp,
            conditional_target_id,
            filled: FloatAsLong::zero(),
            force_done: false,
        })
    }

    /// Builds a LIMIT order from its argument bundle.
    pub fn new_limit(
        id: Id,
        instrument_id: Id,
        exchange: ExchangeType,
        args: LimitOrderArgs,
    ) -> (r: Result<Order, CoreError>)
        ensures
            r is Ok,
            ({
                let o = r->Ok_0;
                &&& o.base.id == id
                &&& o.base.instrument_id == instrument_id
                &&& o.volume == args.volume
                &&& o.price == args.price
                &&& o.side == args.side
                &&& o.order_type == OrderType::LIMIT
                &&& o.order_flag == args.order_flag
                &&& o.notional.value == 0
                &&& o.filled.value == 0
                &&& (args.volume.value >= 0 ==> o.wf())
            }),
    {
        Order::new(
            id,
            None,
            Some(instrument_id),
            Some(exchange),
            args.volume,
            Some(args.price),
            None,
            args.side,
            OrderType::LIMIT,
            Some(args.order_flag),
            None,
            None,
            None,
            None,
            None,
            None,
        )
    }

    /// Builds a MARKET-by-notional order from its argument bundle.
    pub fn new_market(
        id: Id,
        instrument_id: Id,
        exchange: ExchangeType,
        args: MarketOrderArgs,
    ) -> (r: Result<Order, CoreError>)
        ensures
            r is Ok,
            ({
                let o = r->Ok_0;
                &&& o.base.id == id
                &&& o.base.instrument_id == instrument_id
                &&& o.volume == args.volume
                &&& o.notional == args.notional
                &&& o.side == args.side
                &&& o.order_type == OrderType::MARKET
                &&& o.order_flag == OrderFlag::NONE
                &&& o.price.value == 0
                &&& o.filled.value == 0
                &&& (args.volume.value >= 0 ==> o.wf())
            }),
    {
        Order::new(
            id,
            None,
            Some(instrument_id),
            Some(exchange),
            args.volume,
            None,
            Some(args.notional),
            args.side,
            OrderType::MARKET,
            None,
            None,
            None,
            None,
            None,
            None,
            None,
        )
    }

    pub fn get_id(&self) -> (r: Id)
        ensures
            r == self.base.id,
    {
        self.base.get_id()
    }

    pub fn get_instrument_id(&self) -> (r: Id)
        ensures
            r == self.base.instrument_id,
    {
        self.base.get_instrument_id()
    }

    pub fn get_exchange(&self) -> (r: ExchangeType)
        ensures
            r == self.base.exchange,
    {
        self.base.get_exchange()
    }

    pub fn get_volume(&self) -> (r: FloatAsLong)
        ensures
            r == self.volume,
    {
        self.volume
    }

    /// Overwrites the volume; the fill-state invariant must be kept.
    pub fn set_volume(&mut self, volume: FloatAsLong)
        requires
            volume.value >= old(self).filled.value,
        ensures
            *final(self) == (Order { volume, ..*old(self) }),
    {
        self.volume = volume;
    }

    pub fn get_price(&self) -> (r: FloatAsLong)
        ensures
            r == self.price,
    {
        self.price
    }

    pub fn set_price(&mut self, price: FloatAsLong)
        ensures
            *final(self) == (Order { price, ..*old(self) }),
    {
        self.price = price;
    }

    pub fn get_notional(&self) -> (r: FloatAsLong)
        ensures
            r == self.notional,
    {
        self.notional
    }

    pub fn get_side(&self) -> (r: Side)
        ensures
            r == self.side,
    {
        self.side
    }

    pub fn get_order_type(&self) -> (r: OrderType)
        ensures
            r == self.order_type,
    {
        self.order_type
    }

    pub fn get_order_flag(&self) -> (r: OrderFlag)
        ensures
            r == self.order_flag,
    {
        self.order_flag
    }

    pub fn get_filled(&self) -> (r: FloatAsLong)
        ensures
            r == self.filled,
    {
        self.filled
    }

    /// Overwrites the absolute filled amount; the fill-state invariant
    /// must be kept.
    pub fn set_filled(&mut self, value: FloatAsLong)
        requires
            0 <= value.value <= old(self).volume.value,
        ensures
            *final(self) == (Order { filled: value, ..*old(self) }),
    {
        self.filled = value;
    }

    /// The volume that remains open: `volume - filled`.
    pub fn get_volume_left(&self) -> (r: FloatAsLong)
        requires
            self.wf(),
        ensures
            r.value == self.spec_volume_left(),
    {
        self.volume.sub(self.filled)
    }

    pub fn finished() -> (r: bool)
        ensures
            r == false,
    {
        false
    }

    pub fn finish() {
    }
}

/// Order identity is id-based.
impl PartialEq for Order {
    fn eq(&self, other: &Self) -> (r: bool) {
        self.base.id == other.base.id
    }
}

impl vstd::std_specs::cmp::PartialEqSpecImpl for Order {
    open spec fn obeys_eq_spec() -> bool {
        true
    }

    open spec fn eq_spec(&self, other: &Self) -> bool {
        self.base.id == other.base.id
    }
}

/// The full argument bundle of an order, with neutral defaults.
#[derive(Copy, Clone, Debug)]
pub struct OrderArgs {
    pub id: Id,
    pub timestamp: i64,
    pub instrument_id: Id,
    pub exchange: ExchangeType,

    pub volume: Option<FloatAsLong>,
    pub price: Option<FloatAsLong>,
    pub notional: Option<FloatAsLong>,

    pub side: Side,
    pub order_type: OrderType,
    pub order_flag: OrderFlag,

    pub participant_id: Option<Id>,
    pub exchange_id: Option<Id>,
    pub received_timestamp: Option<i64>,
    pub update_timestamp: Option<i64>,
    pub dispatch_timestamp: Option<i64>,

    pub conditional_target_id: Option<Id>,
}

impl Default for OrderArgs {
    /// The invalid id, the current time, no amounts, a BUY LIMIT with no
    /// flag, and no linkage.
    fn default() -> (r: Self)
        ensures
            r.id == 0,
            r.instrument_id == 0,
            r.exchange == (ExchangeType {}),
            r.volume is None,
            r.price is None,
            r.notional is None,
            r.side == Side::BUY,
            r.order_type == OrderType::LIMIT,
            r.order_flag == OrderFlag::NONE,
            r.participant_id is None,
            r.exchange_id is None,
            r.received_timestamp is None,
            r.update_timestamp is None,
            r.dispatch_timestamp is None,
            r.conditional_target_id is None,
    {
        OrderArgs {
            id: 0,
            timestamp: crate::base::now_micros(),
            instrument_id: 0,
            exchange: ExchangeType {},
            volume: None,
            price: None,
            notional: None,
            side: Side::BUY,
            order_type: OrderType::LIMIT,
            order_flag: OrderFlag::NONE,
            participant_id: None,
            exchange_id: None,
            received_timestamp: None,
            update_timestamp: None,
            dispatch_timestamp: None,
            conditional_target_id: None,
        }
    }
}

/// Arguments of a LIMIT order.
#[derive(Copy, Clone, Debug)]
pub struct LimitOrderArgs {
    pub volume: FloatAsLong,
    pub price: FloatAsLong,
    pub side: Side,
    pub order_flag: OrderFlag,
}

/// Arguments of a MARKET order.
#[derive(Copy, Clone, Debug)]
pub struct MarketOrderArgs {
    pub volume: FloatAsLong,
    pub notional: FloatAsLong,
    pub side: Side,
}

} // verus!
