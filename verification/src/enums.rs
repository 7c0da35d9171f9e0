//! Closed enumerations of the trading core.

use vstd::prelude::*;

verus! {

#[allow(non_camel_case_types)]
#[derive(Copy, Clone, Debug, PartialEq, Eq, Structural)]
pub enum TradingType {
    LIVE,
    SIMULATION,
    SANDBOX,
    BACKTEST,
}

#[allow(non_camel_case_types)]
#[derive(Copy, Clone, Debug, PartialEq, Eq, Structural)]
pub enum Side {
    BUY,
    SELL,
}

#[allow(non_camel_case_types)]
#[derive(Copy, Clone, Debug, PartialEq, Eq, Structural)]
pub enum OptionType {
    CALL,
    PUT,
}

#[allow(non_camel_case_types)]
#[derive(Copy, Clone, Debug, PartialEq, Eq, Structural)]
pub enum EventType {
    HEARTBEAT,
    TRADE,
    OPEN,
    CANCEL,
    CHANGE,
    FILL,
    DATA,
    HALT,
    CONTINUE,
    ERROR,
    START,
    EXIT,
    BOUGHT,
    SOLD,
    RECEIVED,
    REJECTED,
    CANCELED,
}

#[allow(non_camel_case_types)]
#[derive(Copy, Clone, Debug, PartialEq, Eq, Structural)]
pub enum InstrumentType {
    OTHER,
    EQUITY,
    BOND,
    OPTION,
    FUTURE,
    SPREAD,
    FUTURESOPTION,
    PERPETUALFUTURE,
    MUTUALFUND,
    COMMODITY,
    CURRENCY,
    PAIR,
    INDEX,
}

#[allow(non_camel_case_types)]
#[derive(Copy, Clone, Debug, PartialEq, Eq, Structural)]
pub enum OrderType {
    LIMIT,
    MARKET,
    STOP,
}

#[allow(non_camel_case_types)]
#[derive(Copy, Clone, Debug, PartialEq, Eq, Structural)]
pub enum OrderFlag {
    NONE,
    FILL_OR_KILL,
    ALL_OR_NONE,
    IMMEDIATE_OR_CANCEL,
}

#[allow(non_camel_case_types)]
#[derive(Copy, Clone, Debug, PartialEq, Eq, Structural)]
pub enum ExitRoutine {
    NONE,
    CLOSE_ALL,
}

impl Default for InstrumentType {
    fn default() -> (r: Self)
        ensures
            r == InstrumentType::EQUITY,
    {
        InstrumentType::EQUITY
    }
}

impl Default for OrderFlag {
    fn default() -> (r: Self)
        ensures
            r == OrderFlag::NONE,
    {
        OrderFlag::NONE
    }
}

/// The error kinds that the core reports instead of panicking.
#[derive(Copy, Clone, Debug, PartialEq, Eq, Structural)]
pub enum CoreError {
    /// An order failed construction-time validation.
    InvalidOrder,
    /// A registry lookup for an unknown id.
    NotFound,
    /// A code path that is deliberately deferred.
    Unimplemented,
    /// An internal invariant was found violated.
    Corruption,
    /// A fixed-point conversion outside the representable range.
    Overflow,
}

} // verus!
