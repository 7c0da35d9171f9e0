//! The account record: an id, the instrument it is denominated in, and a
//! balance.

use vstd::prelude::*;
use crate::Id;
use crate::fixed::FloatAsLong;

verus! {

#[derive(Copy, Clone, Debug)]
pub struct Account {
    pub id: Id,
    pub instrument_id: Id,
    pub balance: FloatAsLong,
}

impl Account {
    /// A missing balance defaults to zero.
    pub fn new(id: Id, instrument_id: Id, balance: Option<FloatAsLong>) -> (r: Account)
        ensures
            r.id == id,
            r.instrument_id == instrument_id,
            r.balance == if balance is Some { balance->Some_0 } else { FloatAsLong { value: 0 } },
    {
        Account {
            id,
            instrument_id,
            balance: match balance {
                Some(b) => b,
                None => FloatAsLong::zero(),
            },
        }
    }

    pub fn get_id(&self) -> (r: Id)
        ensures
            r == self.id,
    {
        self.id
    }

    pub fn get_instrument_id(&self) -> (r: Id)
        ensures
            r == self.instrument_id,
    {
        self.instrument_id
    }

    pub fn get_balance(&self) -> (r: FloatAsLong)
        ensures
            r == self.balance,
    {
        self.balance
    }

    pub fn set_balance(&mut self, balance: FloatAsLong)
        ensures
            *final(self) == (Account { balance, ..*old(self) }),
    {
        self.balance = balance;
    }
}

/// Account identity is id-based.
impl PartialEq for Account {
    fn eq(&self, other: &Self) -> (r: bool) {
        self.id == other.id
    }
}

impl vstd::std_specs::cmp::PartialEqSpecImpl for Account {
    open spec fn obeys_eq_spec() -> bool {
        true
    }

    open spec fn eq_spec(&self, other: &Self) -> bool {
        self.id == other.id
    }
}

impl Eq for Account {}

} // verus!
