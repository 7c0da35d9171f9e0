//! Identification data shared by orders, trades and data records, and the
//! opaque venue and instrument tags.

use vstd::prelude::*;
use crate::Id;

verus! {

/// Opaque venue tag.
#[derive(Copy, Clone, Debug, PartialEq, Eq, Structural)]
pub struct ExchangeType {}

impl ExchangeType {
    pub fn new(_id: Id) -> (r: ExchangeType)
        ensures
            r == (ExchangeType {}),
    {
        ExchangeType {}
    }
}

impl Default for ExchangeType {
    fn default() -> (r: Self)
        ensures
            r == (ExchangeType {}),
    {
        ExchangeType {}
    }
}

/// Opaque instrument tag.
#[derive(Copy, Clone, Debug, PartialEq, Eq, Structural)]
pub struct Instrument {}

impl Instrument {
    pub fn new(_id: Id) -> (r: Instrument)
        ensures
            r == (Instrument {}),
    {
        Instrument {}
    }
}

impl Default for Instrument {
    fn default() -> (r: Self)
        ensures
            r == (Instrument {}),
    {
        Instrument {}
    }
}

/// Relies on chrono's `Utc::now` and `DateTime::timestamp_micros`: the
/// current wall-clock time as non-leap microseconds since the Unix epoch.
/// The result depends on the clock, so nothing is promised of it. Note
/// that chrono aborts when the system clock reads before the Unix epoch,
/// so on such a machine this call does not return.
#[verifier::external_body]
pub fn now_micros() -> i64 {
    chrono::Utc::now().timestamp_micros()
}

/// Identity and provenance common to every event target. Timestamps are
/// carried opaquely as microseconds since the Unix epoch.
#[derive(Copy, Clone, Debug)]
pub struct BaseData {
    pub id: Id,
    pub timestamp: i64,
    pub instrument_id: Id,
    pub exchange: ExchangeType,
}

impl BaseData {
    /// Missing fields default to the current time, the invalid id `0`, and
    /// the blank venue.
    pub fn new(
        id: Id,
        timestamp: Option<i64>,
        instrument_id: Option<Id>,
        exchange: Option<ExchangeType>,
    ) -> (r: BaseData)
        ensures
            r.id == id,
            timestamp is Some ==> r.timestamp == timestamp->Some_0,
            r.instrument_id == if instrument_id is Some { instrument_id->Some_0 } else { 0 },
            r.exchange == if exchange is Some { exchange->Some_0 } else { ExchangeType {} },
    {
        let ts: i64 = match timestamp {
            Some(t) => t,
            None => now_micros(),
        };
        BaseData {
            id,
            timestamp: ts,
            instrument_id: match instrument_id {
                Some(i) => i,
                None => 0,
            },
            exchange: match exchange {
                Some(e) => e,
                None => ExchangeType {},
            },
        }
    }

    pub fn get_id(&self) -> (r: Id)
        ensures
            r == self.id,
    {
        self.id
    }

    pub fn get_timestamp(&self) -> (r: i64)
        ensures
            r == self.timestamp,
    {
        self.timestamp
    }

    pub fn get_instrument_id(&self) -> (r: Id)
        ensures
            r == self.instrument_id,
    {
        self.instrument_id
    }

    pub fn get_exchange(&self) -> (r: ExchangeType)
        ensures
            r == self.exchange,
    {
        self.exchange
    }

}

/// Record identity is id-based: two records with one id are the same record.
impl PartialEq for BaseData {
    fn eq(&self, other: &Self) -> (r: bool) {
        self.id == other.id
    }
}

impl vstd::std_specs::cmp::PartialEqSpecImpl for BaseData {
    open spec fn obeys_eq_spec() -> bool {
        true
    }

    open spec fn eq_spec(&self, other: &Self) -> bool {
        self.id == other.id
    }
}

impl Eq for BaseData {}

} // verus!
