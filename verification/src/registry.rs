//! Keyed stores owning the authoritative records, with monotonic id
//! generation starting at 1.

use vstd::prelude::*;
use std::collections::HashMap;
use crate::Id;
use crate::fixed::FloatAsLong;
use crate::base::{ExchangeType, Instrument};
use crate::account::Account;
use crate::enums::{CoreError, OrderFlag, OrderType, Side};
use crate::order::{Order, order_rejected};

verus! {

/// A keyed store `Id -> T` plus the id the next `create` will assign.
/// Id `0` is never assigned: counting starts at 1, and ids are not reused
/// after `remove`.
#[derive(Debug)]
pub struct Tracker<T> {
    pub next_id: Id,
    pub map: HashMap<Id, T>,
}

impl<T> Tracker<T> {
    /// The stored entries.
    pub open spec fn entries(&self) -> Map<Id, T> {
        self.map@
    }

    pub fn new() -> (r: Self)
        ensures
            r.next_id == 1,
            r.entries() == Map::<Id, T>::empty(),
    {
        Tracker { next_id: 1, map: HashMap::new() }
    }

    /// The id that the next `create` will assign.
    pub fn next(&self) -> (r: Id)
        ensures
            r == self.next_id,
    {
        self.next_id
    }

    /// Stores `item` under the next id and advances the counter.
    pub fn create(&mut self, item: T) -> (id: Id)
        requires
            old(self).next_id < Id::MAX,
        ensures
            id == old(self).next_id,
            final(self).next_id == old(self).next_id + 1,
            final(self).entries() == old(self).entries().insert(id, item),
    {
        let id = self.next_id;
        self.map.insert(id, item);
        self.next_id = self.next_id + 1;
        id
    }

    pub fn get(&self, id: Id) -> (r: Option<&T>)
        ensures
            r is Some <==> self.entries().contains_key(id),
            r is Some ==> *r->Some_0 == self.entries()[id],
    {
        self.map.get(&id)
    }

    /// Detaches and returns the entry.
    pub fn remove(&mut self, id: Id) -> (r: Option<T>)
        ensures
            r is Some <==> old(self).entries().contains_key(id),
            r is Some ==> r->Some_0 == old(self).entries()[id],
            final(self).entries() == old(self).entries().remove(id),
            final(self).next_id == old(self).next_id,
    {
        let r = self.map.remove(&id);
        proof {
            if !old(self).entries().contains_key(id) {
                assert(final(self).entries() =~= old(self).entries().remove(id));
            }
        }
        r
    }

    /// Upserts `item` under `id`.
    pub fn replace(&mut self, id: Id, item: T)
        ensures
            final(self).entries() == old(self).entries().insert(id, item),
            final(self).next_id == old(self).next_id,
    {
        self.map.insert(id, item);
    }
}

/// The shape every keyed store of the core offers: lookups and upserts
/// against a mapping from ids to owned records.
pub trait Registry: Sized {
    type Item: Copy;

    /// The stored entries.
    spec fn reg_view(&self) -> Map<Id, Self::Item>;

    /// The id the next `create` will assign.
    spec fn reg_next(&self) -> Id;

    /// Returns a copy of the stored record, or `NotFound`.
    fn get(&self, id: Id) -> (r: Result<Self::Item, CoreError>)
        ensures
            r is Ok <==> self.reg_view().contains_key(id),
            r is Ok ==> r->Ok_0 == self.reg_view()[id],
            r is Err ==> r->Err_0 == CoreError::NotFound;

    /// Detaches and returns the stored record, or `NotFound`.
    fn remove(&mut self, id: Id) -> (r: Result<Self::Item, CoreError>)
        ensures
            r is Ok <==> old(self).reg_view().contains_key(id),
            r is Ok ==> r->Ok_0 == old(self).reg_view()[id],
            r is Err ==> r->Err_0 == CoreError::NotFound,
            final(self).reg_view() == old(self).reg_view().remove(id),
            final(self).reg_next() == old(self).reg_next();

    /// Upserts the record under `id`.
    fn replace(&mut self, id: Id, item: Self::Item)
        ensures
            final(self).reg_view() == old(self).reg_view().insert(id, item),
            final(self).reg_next() == old(self).reg_next();
}

/// The registry that owns the authoritative `Order` records.
#[derive(Debug)]
pub struct OrderRegistry {
    pub tracker: Tracker<Order>,
}

impl Registry for OrderRegistry {
    type Item = Order;

    open spec fn reg_view(&self) -> Map<Id, Order> {
        self.tracker.entries()
    }

    open spec fn reg_next(&self) -> Id {
        self.tracker.next_id
    }

    fn get(&self, id: Id) -> (r: Result<Order, CoreError>) {
        match self.tracker.get(id) {
            Some(o) => Ok(*o),
            None => Err(CoreError::NotFound),
        }
    }

    fn remove(&mut self, id: Id) -> (r: Result<Order, CoreError>) {
        match self.tracker.remove(id) {
            Some(o) => Ok(o),
            None => Err(CoreError::NotFound),
        }
    }

    fn replace(&mut self, id: Id, item: Order) {
        self.tracker.replace(id, item);
    }
}

impl OrderRegistry {
    pub fn new() -> (r: Self)
        ensures
            r.tracker.next_id == 1,
            r.reg_view() == Map::<Id, Order>::empty(),
    {
        OrderRegistry { tracker: Tracker::new() }
    }

    /// The id that the next created order will carry.
    pub fn next(&self) -> (r: Id)
        ensures
            r == self.tracker.next_id,
    {
        self.tracker.next()
    }

    /// Validates, assigns the next id, stores, and returns a copy of the
    /// freshly stored order.
    pub fn create(
        &mut self,
        timestamp: Option<i64>,
        instrument_id: Option<Id>,
        exchange: Option<ExchangeType>,
        volume: FloatAsLong,
        price: Option<FloatAsLong>,
        notional: Option<FloatAsLong>,
        side: Side,
        order_type: OrderType,
        order_flag: Option<OrderFlag>,
        participant_id: Option<Id>,
        exchange_id: Option<Id>,
        received_timestamp: Option<i64>,
        update_timestamp: Option<i64>,
        dispatch_timestamp: Option<i64>,
        conditional_target_id: Option<Id>,
    ) -> (r: Result<Order, CoreError>)
        requires
            old(self).tracker.next_id < Id::MAX,
        ensures
            r is Err <==> order_rejected(price, order_type, order_flag),
            r is Err ==> *old(self) == *final(self) && r->Err_0 == CoreError::InvalidOrder,
            r is Ok ==> {
                let o = r->Ok_0;
                &&& o.base.id == old(self).tracker.next_id
                &&& o.base.instrument_id == if instrument_id is Some { instrument_id->Some_0 } else {
                    0
                }
                &&& o.volume == volume
                &&& o.notional == if notional is Some { notional->Some_0 } else {
                    FloatAsLong { value: 0 }
                }
                &&& o.side == side
                &&& o.order_type == order_type
                &&& o.order_flag == if order_flag is Some { order_flag->Some_0 } else {
                    OrderFlag::NONE
                }
                &&& o.price == if price is Some { price->Some_0 } else { FloatAsLong { value: 0 } }
                &&& o.filled.value == 0
                &&& (volume.value >= 0 ==> o.wf())
                &&& final(self).tracker.next_id == old(self).tracker.next_id + 1
                &&& final(self).reg_view() == old(self).reg_view().insert(o.base.id, o)
            },
    {
        let id = self.tracker.next();
        let order = match Order::new(
            id,
            timestamp,
            instrument_id,
            exchange,
            volume,
            price,
            notional,
            side,
            order_type,
            order_flag,
            participant_id,
            exchange_id,
            received_timestamp,
            update_timestamp,
            dispatch_timestamp,
            conditional_target_id,
        ) {
            Ok(o) => o,
            Err(e) => {
                return Err(e);
            },
        };
        self.tracker.create(order);
        Ok(order)
    }

    /// Creates a LIMIT order stamped with the current time.
    pub fn new_limit(
        &mut self,
        instrument_id: Id,
        exchange: ExchangeType,
        volume: FloatAsLong,
        price: FloatAsLong,
        side: Side,
        order_flag: Option<OrderFlag>,
    ) -> (r: Result<Order, CoreError>)
        requires
            old(self).tracker.next_id < Id::MAX,
        ensures
            r is Ok,
            ({
                let o = r->Ok_0;
                &&& o.base.id == old(self).tracker.next_id
                &&& o.base.instrument_id == instrument_id
                &&& o.volume == volume
                &&& o.price == price
                &&& o.side == side
                &&& o.order_type == OrderType::LIMIT
                &&& o.order_flag == if order_flag is Some { order_flag->Some_0 } else {
                    OrderFlag::NONE
                }
                &&& o.notional.value == 0
                &&& o.filled.value == 0
                &&& (volume.value >= 0 ==> o.wf())
                &&& final(self).tracker.next_id == old(self).tracker.next_id + 1
                &&& final(self).reg_view() == old(self).reg_view().insert(o.base.id, o)
            }),
    {
        self.create(
            None,
            Some(instrument_id),
            Some(exchange),
            volume,
            Some(price),
            None,
            side,
            OrderType::LIMIT,
            order_flag,
            None,
            None,
            None,
            None,
            None,
            None,
        )
    }

    /// Creates a MARKET-by-notional order stamped with the current time.
    pub fn new_market(
        &mut self,
        instrument_id: Id,
        exchange: ExchangeType,
        volume: FloatAsLong,
        notional: FloatAsLong,
        side: Side,
    ) -> (r: Result<Order, CoreError>)
        requires
            old(self).tracker.next_id < Id::MAX,
        ensures
            r is Ok,
            ({
                let o = r->Ok_0;
                &&& o.base.id == old(self).tracker.next_id
                &&& o.base.instrument_id == instrument_id
                &&& o.volume == volume
                &&& o.notional == notional
                &&& o.side == side
                &&& o.order_type == OrderType::MARKET
                &&& o.order_flag == OrderFlag::NONE
                &&& o.price.value == 0
                &&& o.filled.value == 0
                &&& (volume.value >= 0 ==> o.wf())
                &&& final(self).tracker.next_id == old(self).tracker.next_id + 1
                &&& final(self).reg_view() == old(self).reg_view().insert(o.base.id, o)
            }),
    {
        self.create(
            None,
            Some(instrument_id),
            Some(exchange),
            volume,
            None,
            Some(notional),
            side,
            OrderType::MARKET,
            None,
            None,
            None,
            None,
            None,
            None,
            None,
        )
    }

    /// Adds `to_add` to the order's filled amount. Fails with `NotFound`
    /// for an unknown id and with `Corruption` when the post-state would
    /// violate `0 <= filled <= volume`.
    pub fn set_filled(&mut self, order_id: Id, to_add: FloatAsLong) -> (r: Result<(), CoreError>)
        ensures
            r is Ok <==> (old(self).reg_view().contains_key(order_id) && {
                let o = old(self).reg_view()[order_id];
                0 <= o.filled.value + to_add.value <= o.volume.value
            }),
            !old(self).reg_view().contains_key(order_id) ==> r == Result::<(), CoreError>::Err(
                CoreError::NotFound,
            ),
            r is Err ==> *final(self) == *old(self),
            r is Ok ==> {
                let o = old(self).reg_view()[order_id];
                let o2 = Order {
                    filled: FloatAsLong { value: (o.filled.value + to_add.value) as i64 },
                    ..o
                };
                final(self).reg_view() == old(self).reg_view().insert(order_id, o2)
            },
            r is Ok ==> final(self).tracker.next_id == old(self).tracker.next_id,
            r is Err && old(self).reg_view().contains_key(order_id) ==> r
                == Result::<(), CoreError>::Err(CoreError::Corruption),
    {
        let order = match self.tracker.get(order_id) {
            Some(o) => *o,
            None => {
                return Err(CoreError::NotFound);
            },
        };
        let nf: i128 = order.filled.value as i128 + to_add.value as i128;
        if nf < 0 || nf > order.volume.value as i128 {
            return Err(CoreError::Corruption);
        }
        let mut replacement = order;
        replacement.set_filled(FloatAsLong { value: nf as i64 });
        self.tracker.replace(order_id, replacement);
        Ok(())
    }
}

/// The registry that owns the authoritative `Instrument` records.
#[derive(Debug)]
pub struct InstrumentManager {
    pub tracker: Tracker<Instrument>,
}

impl Registry for InstrumentManager {
    type Item = Instrument;

    open spec fn reg_view(&self) -> Map<Id, Instrument> {
        self.tracker.entries()
    }

    open spec fn reg_next(&self) -> Id {
        self.tracker.next_id
    }

    fn get(&self, id: Id) -> (r: Result<Instrument, CoreError>) {
        match self.tracker.get(id) {
            Some(i) => Ok(*i),
            None => Err(CoreError::NotFound),
        }
    }

    fn remove(&mut self, id: Id) -> (r: Result<Instrument, CoreError>) {
        match self.tracker.remove(id) {
            Some(i) => Ok(i),
            None => Err(CoreError::NotFound),
        }
    }

    fn replace(&mut self, id: Id, item: Instrument) {
        self.tracker.replace(id, item);
    }
}

impl InstrumentManager {
    pub fn new() -> (r: Self)
        ensures
            r.tracker.next_id == 1,
            r.reg_view() == Map::<Id, Instrument>::empty(),
    {
        InstrumentManager { tracker: Tracker::new() }
    }

    /// Assigns the next id, stores a fresh instrument, and returns a
    /// copy of it.
    pub fn create(&mut self) -> (r: Instrument)
        requires
            old(self).tracker.next_id < Id::MAX,
        ensures
            final(self).tracker.next_id == old(self).tracker.next_id + 1,
            final(self).reg_view() == old(self).reg_view().insert(old(self).tracker.next_id, r),
    {
        let id = self.tracker.next();
        let instrument = Instrument::new(id);
        self.tracker.create(instrument);
        instrument
    }
}

/// The registry that owns the authoritative `Account` records.
#[derive(Debug)]
pub struct AccountManager {
    pub tracker: Tracker<Account>,
}

impl Registry for AccountManager {
    type Item = Account;

    open spec fn reg_view(&self) -> Map<Id, Account> {
        self.tracker.entries()
    }

    open spec fn reg_next(&self) -> Id {
        self.tracker.next_id
    }

    fn get(&self, id: Id) -> (r: Result<Account, CoreError>) {
        match self.tracker.get(id) {
            Some(a) => Ok(*a),
            None => Err(CoreError::NotFound),
        }
    }

    fn remove(&mut self, id: Id) -> (r: Result<Account, CoreError>) {
        match self.tracker.remove(id) {
            Some(a) => Ok(a),
            None => Err(CoreError::NotFound),
        }
    }

    fn replace(&mut self, id: Id, item: Account) {
        self.tracker.replace(id, item);
    }
}

impl AccountManager {
    pub fn new() -> (r: Self)
        ensures
            r.tracker.next_id == 1,
            r.reg_view() == Map::<Id, Account>::empty(),
    {
        AccountManager { tracker: Tracker::new() }
    }

    /// Assigns the next id, stores an account with the given balance, and
    /// returns a copy of it.
    pub fn create(&mut self, balance: FloatAsLong) -> (r: Account)
        requires
            old(self).tracker.next_id < Id::MAX,
        ensures
            r.id == old(self).tracker.next_id,
            r.balance == balance,
            final(self).tracker.next_id == old(self).tracker.next_id + 1,
            final(self).reg_view() == old(self).reg_view().insert(r.id, r),
    {
        let id = self.tracker.next();
        let account = Account::new(id, 0, Some(balance));
        self.tracker.create(account);
        account
    }

    /// Overwrites the account's balance; `NotFound` for an unknown id.
    pub fn set_balance(&mut self, account_id: Id, balance: FloatAsLong) -> (r: Result<
        (),
        CoreError,
    >)
        ensures
            r is Ok <==> old(self).reg_view().contains_key(account_id),
            r is Err ==> r->Err_0 == CoreError::NotFound && *final(self) == *old(self),
            r is Ok ==> {
                let a = old(self).reg_view()[account_id];
                final(self).reg_view() == old(self).reg_view().insert(
                    account_id,
                    Account { balance, ..a },
                )
            },
    {
        let account = match self.tracker.get(account_id) {
            Some(a) => *a,
            None => {
                return Err(CoreError::NotFound);
            },
        };
        let mut replacement = account;
        replacement.set_balance(balance);
        self.tracker.replace(account_id, replacement);
        Ok(())
    }
}

} // verus!
