//! Free-form data records: an identified envelope around an opaque JSON
//! payload.

use vstd::prelude::*;
use crate::Id;
use crate::base::{BaseData, ExchangeType};

verus! {

/// Declares serde_json's `Value` so it can be carried in fields; the
/// payload is opaque to the core and is never inspected here.
#[verifier::external_type_specification]
#[verifier::external_body]
pub struct ExValue(serde_json::Value);

/// A data record: identification plus an opaque JSON payload.
#[derive(Debug)]
pub struct Data {
    pub base: BaseData,
    pub data: Option<serde_json::Value>,
}

impl Data {
    pub fn new(
        id: Id,
        timestamp: Option<i64>,
        instrument_id: Option<Id>,
        exchange: Option<ExchangeType>,
        data: Option<serde_json::Value>,
    ) -> (r: Data)
        ensures
            r.base.id == id,
            timestamp is Some ==> r.base.timestamp == timestamp->Some_0,
            r.base.instrument_id == if instrument_id is Some { instrument_id->Some_0 } else { 0 },
            r.data == data,
    {
        Data {
            base: BaseData::new(id, timestamp, instrument_id, exchange),
            data,
        }
    }

    pub fn get_id(&self) -> (r: Id)
        ensures
            r == self.base.id,
    {
        self.base.get_id()
    }
}

/// Data identity is id-based.
impl PartialEq for Data {
    fn eq(&self, other: &Self) -> (r: bool) {
        self.base.id == other.base.id
    }
}

impl vstd::std_specs::cmp::PartialEqSpecImpl for Data {
    open spec fn obeys_eq_spec() -> bool {
        true
    }

    open spec fn eq_spec(&self, other: &Self) -> bool {
        self.base.id == other.base.id
    }
}

impl Eq for Data {}

} // verus!
