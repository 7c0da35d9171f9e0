//! Tagged event records emitted by the book: an event type plus the record
//! it concerns.

use vstd::prelude::*;
use crate::Id;
use crate::enums::EventType;
use crate::data::Data;
use crate::order::Order;
use crate::trade::Trade;

verus! {

/// The closed sum of records an event can carry.
#[derive(Debug)]
pub enum EventData {
    Data(Data),
    Order(Order),
    Trade(Trade),
}

impl EventData {
    /// The id of the carried record.
    pub open spec fn spec_get_id(&self) -> Id {
        match self {
            EventData::Data(d) => d.base.id,
            EventData::Order(o) => o.base.id,
            EventData::Trade(t) => t.base.id,
        }
    }

    pub fn get_id(&self) -> (r: Id)
        ensures
            r == self.spec_get_id(),
    {
        match self {
            EventData::Data(d) => d.get_id(),
            EventData::Order(o) => o.get_id(),
            EventData::Trade(t) => t.get_id(),
        }
    }
}

/// One externally observable effect of a book operation.
#[derive(Debug)]
pub struct Event {
    pub event_type: EventType,
    pub target: EventData,
}

/// Event identity is id-based on the carried target.
impl PartialEq for Event {
    fn eq(&self, other: &Self) -> (r: bool) {
        self.target.get_id() == other.target.get_id()
    }
}

impl vstd::std_specs::cmp::PartialEqSpecImpl for Event {
    open spec fn obeys_eq_spec() -> bool {
        true
    }

    open spec fn eq_spec(&self, other: &Self) -> bool {
        self.target.spec_get_id() == other.target.spec_get_id()
    }
}

impl Event {
    pub fn event_type(&self) -> (r: EventType)
        ensures
            r == self.event_type,
    {
        self.event_type
    }

    pub fn target(&self) -> (r: &EventData)
        ensures
            r == &self.target,
    {
        &self.target
    }
}

} // verus!
