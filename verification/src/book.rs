//! The matching engine: per-side ladders of price levels with FIFO queues
//! of order ids, crossing under price-time priority, and the events the
//! book emits.
//!
//! The book never owns `Order` values: it holds ids into an
//! [`OrderRegistry`](crate::registry::OrderRegistry), which every
//! operation takes alongside the book.

use vstd::prelude::*;
use crate::Id;
use crate::fixed::FloatAsLong;
use crate::base::{now_micros, ExchangeType};
use crate::enums::{CoreError, EventType, OrderFlag, OrderType, Side};
use crate::event::{Event, EventData};
use crate::order::Order;
use crate::registry::{OrderRegistry, Registry};
use crate::trade::Trade;

verus! {

/// One price level: the price and the FIFO queue of resting order ids,
/// earliest first.
#[derive(Debug)]
pub struct PriceLevel {
    pub price: FloatAsLong,
    pub queue: Vec<Id>,
}

/// The mathematical image of a price level.
#[verifier::ext_equal]
pub struct LevelV {
    pub price: int,
    pub ids: Seq<Id>,
}

impl View for PriceLevel {
    type V = LevelV;

    open spec fn view(&self) -> LevelV {
        LevelV { price: self.price.value as int, ids: self.queue@ }
    }
}

/// The mathematical image of a book: the bid ladder highest-first and the
/// ask ladder lowest-first.
#[verifier::ext_equal]
pub struct BookV {
    pub bids: Seq<LevelV>,
    pub asks: Seq<LevelV>,
}

/// A `(price, aggregate volume, order count)` view of one level, as
/// reported by depth queries.
#[derive(Copy, Clone, Debug)]
pub struct PriceLevelView {
    pub price: FloatAsLong,
    pub volume: FloatAsLong,
    pub count: usize,
}

impl PriceLevelView {
    pub fn new(price: FloatAsLong, volume: FloatAsLong, count: usize) -> (r: PriceLevelView)
        ensures
            r.price == price,
            r.volume == volume,
            r.count == count,
    {
        PriceLevelView { price, volume, count }
    }
}

/// The two top-of-book views.
pub struct TopOfBook {
    pub bid: PriceLevelView,
    pub ask: PriceLevelView,
}

/// The order book of one (instrument, venue) pair.
#[derive(Debug)]
pub struct LimitOrderBook {
    pub instrument_id: Id,
    pub exchange: ExchangeType,
    pub order_flags: Vec<OrderFlag>,
    /// Bid levels, highest price first.
    pub buys: Vec<PriceLevel>,
    /// Ask levels, lowest price first.
    pub sells: Vec<PriceLevel>,
}

pub open spec fn levels_view(s: Seq<PriceLevel>) -> Seq<LevelV> {
    s.map_values(|l: PriceLevel| l@)
}

impl View for LimitOrderBook {
    type V = BookV;

    open spec fn view(&self) -> BookV {
        BookV { bids: levels_view(self.buys@), asks: levels_view(self.sells@) }
    }
}

// ---------------------------------------------------------------------
// Well-formedness and consistency with the registry
// ---------------------------------------------------------------------

/// Bid ladders are sorted strictly descending.
pub open spec fn sorted_desc(ls: Seq<LevelV>) -> bool {
    forall|i: int, j: int| 0 <= i < j < ls.len() ==> ls[i].price > ls[j].price
}

/// Ask ladders are sorted strictly ascending.
pub open spec fn sorted_asc(ls: Seq<LevelV>) -> bool {
    forall|i: int, j: int| 0 <= i < j < ls.len() ==> ls[i].price < ls[j].price
}

/// Every level present in a ladder holds at least one order.
pub open spec fn levels_nonempty(ls: Seq<LevelV>) -> bool {
    forall|i: int| 0 <= i < ls.len() ==> ls[i].ids.len() > 0
}

/// `id` rests somewhere in the ladder.
pub open spec fn ladder_has_id(ls: Seq<LevelV>, id: Id) -> bool {
    exists|i: int| 0 <= i < ls.len() && ls[i].ids.contains(id)
}

/// No id occurs twice within the ladder.
pub open spec fn ladder_distinct(ls: Seq<LevelV>) -> bool {
    &&& forall|i: int| 0 <= i < ls.len() ==> (#[trigger] ls[i].ids).no_duplicates()
    &&& forall|i: int, j: int, id: Id|
        #![trigger ls[i].ids.contains(id), ls[j].ids.contains(id)]
        0 <= i < j < ls.len() && ls[i].ids.contains(id) ==> !ls[j].ids.contains(id)
}

/// Every order resting in the ladder is owned by the registry, lies on
/// the ladder's side at the level's price, keeps `0 <= filled <= volume`,
/// and carries no flag (flagged orders never rest: their paths are
/// deferred before they could).
pub open spec fn ladder_consistent(ls: Seq<LevelV>, reg: Map<Id, Order>, side: Side) -> bool {
    forall|i: int, k: int|
        #![trigger ls[i].ids[k]]
        0 <= i < ls.len() && 0 <= k < ls[i].ids.len() ==> {
            let id = ls[i].ids[k];
            &&& reg.contains_key(id)
            &&& reg[id].side == side
            &&& reg[id].price.value == ls[i].price
            &&& reg[id].wf()
            &&& reg[id].order_flag == OrderFlag::NONE
            &&& reg[id].order_type == OrderType::LIMIT
        }
}

impl BookV {
    /// Structural well-formedness of the ladders alone.
    pub open spec fn wf(&self) -> bool {
        &&& sorted_desc(self.bids)
        &&& sorted_asc(self.asks)
        &&& levels_nonempty(self.bids)
        &&& levels_nonempty(self.asks)
        &&& self.bids.len() > 0 && self.asks.len() > 0 ==> self.bids[0].price < self.asks[0].price
        &&& ladder_distinct(self.bids)
        &&& ladder_distinct(self.asks)
        &&& forall|id: Id|
            ladder_has_id(self.bids, id) ==> !ladder_has_id(self.asks, id)
    }

    /// `id` rests somewhere in the book.
    pub open spec fn has_id(&self, id: Id) -> bool {
        ladder_has_id(self.bids, id) || ladder_has_id(self.asks, id)
    }

    /// The book agrees with the registry about every resting order.
    pub open spec fn consistent(&self, reg: Map<Id, Order>) -> bool {
        &&& ladder_consistent(self.bids, reg, Side::BUY)
        &&& ladder_consistent(self.asks, reg, Side::SELL)
    }

    /// The invariant every public operation preserves: well-formed
    /// ladders that agree with the registry. At quiescence the best bid
    /// is strictly below the best ask whenever both exist.
    pub open spec fn inv(&self, reg: Map<Id, Order>) -> bool {
        self.wf() && self.consistent(reg)
    }
}

// ---------------------------------------------------------------------
// Spec-level helpers shared by the operations
// ---------------------------------------------------------------------

/// The remaining volume of the registry's order, or zero for a stranger.
pub open spec fn volume_left_of(reg: Map<Id, Order>, id: Id) -> int {
    if reg.contains_key(id) {
        reg[id].volume.value - reg[id].filled.value
    } else {
        0
    }
}

/// Total remaining volume over a queue, summed back to front.
pub open spec fn queue_volume(reg: Map<Id, Order>, ids: Seq<Id>) -> int
    decreases ids.len(),
{
    if ids.len() == 0 {
        0
    } else {
        queue_volume(reg, ids.drop_last()) + volume_left_of(reg, ids.last())
    }
}

/// The ladder has a level at this price.
pub open spec fn has_level(ls: Seq<LevelV>, price: int) -> bool {
    exists|i: int| 0 <= i < ls.len() && ls[i].price == price
}

/// The index of the level at this price (unique in a sorted ladder).
pub open spec fn level_at(ls: Seq<LevelV>, price: int) -> int {
    choose|i: int| 0 <= i < ls.len() && ls[i].price == price
}

/// In a strictly sorted ladder the level at a price is unique, so any
/// index holding the price is `level_at`.
pub proof fn lemma_level_at_unique(ls: Seq<LevelV>, price: int, i: int)
    requires
        sorted_desc(ls) || sorted_asc(ls),
        0 <= i < ls.len(),
        ls[i].price == price,
    ensures
        has_level(ls, price),
        level_at(ls, price) == i,
{
    assert(has_level(ls, price));
    let j = level_at(ls, price);
    if i < j {
        assert(ls[i].price != ls[j].price);
    } else if j < i {
        assert(ls[j].price != ls[i].price);
    }
}


/// The queue with every occurrence of `id` removed, order kept.
pub open spec fn queue_minus(ids: Seq<Id>, id: Id) -> Seq<Id>
    decreases ids.len(),
{
    if ids.len() == 0 {
        Seq::empty()
    } else {
        let rest = queue_minus(ids.drop_last(), id);
        if ids.last() != id {
            rest.push(ids.last())
        } else {
            rest
        }
    }
}

/// The ladder after removing `id` from the level at index `i`, dropping
/// the level once empty.
pub open spec fn ladder_cancel(ls: Seq<LevelV>, id: Id, i: int) -> Seq<LevelV> {
    let q2 = queue_minus(ls[i].ids, id);
    if q2.len() == 0 {
        ls.remove(i)
    } else {
        ls.update(i, LevelV { price: ls[i].price, ids: q2 })
    }
}

// ---------------------------------------------------------------------
// Exec helpers over ladders and queues
// ---------------------------------------------------------------------

/// Linear scan for the level holding `price`.
fn find_level(ls: &Vec<PriceLevel>, price: FloatAsLong) -> (r: Option<usize>)
    ensures
        r is Some <==> has_level(levels_view(ls@), price.value as int),
        r is Some ==> 0 <= r->Some_0 < ls@.len() && ls@[r->Some_0 as int]@.price == price.value as int,
{
    let ghost lv = levels_view(ls@);
    let n = ls.len();
    let mut i: usize = 0;
    while i < n
        invariant
            n == ls@.len(),
            0 <= i <= n,
            lv == levels_view(ls@),
            forall|k: int| 0 <= k < i ==> lv[k].price != price.value as int,
        decreases n - i,
    {
        assert(lv[i as int] == ls@[i as int]@);
        if ls[i].price.value == price.value {
            return Some(i);
        }
        i = i + 1;
    }
    assert(forall|k: int| 0 <= k < lv.len() ==> lv[k].price != price.value as int);
    None
}

/// Builds the queue with every occurrence of `id` removed, order kept.
fn queue_without(q: &Vec<Id>, id: Id) -> (r: Vec<Id>)
    ensures
        r@ == queue_minus(q@, id),
{
    let mut out: Vec<Id> = Vec::new();
    let n = q.len();
    let mut i: usize = 0;
    while i < n
        invariant
            n == q@.len(),
            0 <= i <= n,
            out@ == queue_minus(q@.take(i as int), id),
        decreases n - i,
    {
        let ghost pre = q@.take(i as int);
        let ghost post = q@.take(i as int + 1);
        assert(post.drop_last() =~= pre);
        assert(post.last() == q@[i as int]);
        if q[i] != id {
            out.push(q[i]);
        }
        i = i + 1;
    }
    assert(q@.take(n as int) =~= q@);
    out
}

/// Sums the remaining volume over a queue of resting orders; the result
/// is exact in 128 bits.
pub(crate) fn queue_volume_exec(registry: &OrderRegistry, q: &Vec<Id>) -> (r: i128)
    requires
        forall|k: int|
            0 <= k < q@.len() ==> registry.reg_view().contains_key(#[trigger] q@[k])
                && registry.reg_view()[q@[k]].wf(),
    ensures
        r == queue_volume(registry.reg_view(), q@),
        0 <= r,
{
    let ghost reg = registry.reg_view();
    let n = q.len();
    let mut acc: i128 = 0;
    let mut i: usize = 0;
    while i < n
        invariant
            n == q@.len(),
            0 <= i <= n,
            reg == registry.reg_view(),
            forall|k: int|
                0 <= k < q@.len() ==> reg.contains_key(#[trigger] q@[k]) && reg[q@[k]].wf(),
            acc == queue_volume(reg, q@.take(i as int)),
            0 <= acc <= (i as int) * (i64::MAX as int),
        decreases n - i,
    {
        let ghost pre = q@.take(i as int);
        let ghost post = q@.take(i as int + 1);
        assert(post.drop_last() =~= pre);
        assert(post.last() == q@[i as int]);
        let order = match registry.get(q[i]) {
            Ok(o) => o,
            Err(_) => {
                assert(false);
                return 0;
            },
        };
        let vl = order.get_volume_left();
        assert(acc + vl.value <= (i as int) * (i64::MAX as int) + (i64::MAX as int)) by {
            assert(vl.value <= i64::MAX);
        };
        assert(((i as int) + 1) * (i64::MAX as int) == (i as int) * (i64::MAX as int) + (
        i64::MAX as int)) by (nonlinear_arith);
        assert((i as int) + 1 <= u64::MAX as int);
        assert(((i as int) + 1) * (i64::MAX as int) <= (u64::MAX as int) * (i64::MAX as int))
            by (nonlinear_arith)
            requires
                (i as int) + 1 <= u64::MAX as int,
        ;
        assert((u64::MAX as int) * (i64::MAX as int) < i128::MAX as int) by (nonlinear_arith);
        acc = acc + vl.value as i128;
        i = i + 1;
    }
    assert(q@.take(n as int) =~= q@);
    acc
}

// ---------------------------------------------------------------------
// Small sequence facts used by the invariant proofs
// ---------------------------------------------------------------------

pub proof fn lemma_queue_minus_subset(s: Seq<Id>, id: Id, x: Id)
    requires
        queue_minus(s, id).contains(x),
    ensures
        s.contains(x),
        x != id,
    decreases s.len(),
{
    if s.len() > 0 {
        let rest = queue_minus(s.drop_last(), id);
        if s.last() != id && queue_minus(s, id).last() == x && s.last() == x {
            assert(s[s.len() - 1] == x);
        } else {
            if rest.contains(x) {
                lemma_queue_minus_subset(s.drop_last(), id, x);
                let k = choose|k: int| 0 <= k < s.drop_last().len() && s.drop_last()[k] == x;
                assert(s[k] == x);
            } else {
                assert(s.last() != id);
                let j = choose|j: int|
                    0 <= j < queue_minus(s, id).len() && queue_minus(s, id)[j] == x;
                if j < rest.len() {
                    assert(rest[j] == x);
                    assert(rest.contains(x));
                } else {
                    assert(s[s.len() - 1] == x);
                }
            }
        }
    }
}

pub proof fn lemma_queue_minus_no_dup(s: Seq<Id>, id: Id)
    requires
        s.no_duplicates(),
    ensures
        queue_minus(s, id).no_duplicates(),
    decreases s.len(),
{
    if s.len() > 0 {
        let head = s.drop_last();
        assert(head.no_duplicates());
        lemma_queue_minus_no_dup(head, id);
        if s.last() != id {
            let out = queue_minus(head, id).push(s.last());
            if !out.no_duplicates() {
                assert(queue_minus(head, id).contains(s.last()));
                lemma_queue_minus_subset(head, id, s.last());
                let k = choose|k: int| 0 <= k < head.len() && head[k] == s.last();
                assert(s[k] == s[s.len() - 1]);
                assert(false);
            }
        }
    }
}

// ---------------------------------------------------------------------
// Cancel and modify: transitions and operations
// ---------------------------------------------------------------------

/// The image of a cancel or modify: the two ladders, the registry, the
/// order the emitted event carries, and the error if the operation fails.
pub struct OpEffect {
    pub bids: Seq<LevelV>,
    pub asks: Seq<LevelV>,
    pub reg: Map<Id, Order>,
    pub order: Order,
    pub err: Option<CoreError>,
}

/// What `cancel` does: remove the id from the level at its stored price
/// (`NotFound` for an unknown id, `Corruption` when no such level rests
/// on the order's side), dropping the level once empty. The registry is
/// untouched; one CANCEL event carries the stored order.
pub open spec fn spec_cancel(b: BookV, reg: Map<Id, Order>, id: Id) -> OpEffect {
    let unchanged = OpEffect { bids: b.bids, asks: b.asks, reg, order: reg[id], err: None };
    if !reg.contains_key(id) {
        OpEffect { err: Some(CoreError::NotFound), ..unchanged }
    } else {
        let o = reg[id];
        let p = o.price.value as int;
        let ls = if o.side == Side::BUY {
            b.bids
        } else {
            b.asks
        };
        if !has_level(ls, p) {
            OpEffect { err: Some(CoreError::Corruption), ..unchanged }
        } else {
            let i = level_at(ls, p);
            let ls2 = ladder_cancel(ls, id, i);
            if o.side == Side::BUY {
                OpEffect { bids: ls2, ..unchanged }
            } else {
                OpEffect { asks: ls2, ..unchanged }
            }
        }
    }
}

/// What `modify` does: overwrite the order's volume keeping its price,
/// move the id to the tail of the level at its price (time priority is
/// lost), and emit one CHANGE event with the updated order. `NotFound`
/// for an unknown id; `Corruption` when the new volume would break
/// `0 <= filled <= volume`, when no level rests at the order's price on
/// its side, or when the order could never rest (a flagged or non-LIMIT
/// order).
pub open spec fn spec_modify(b: BookV, reg: Map<Id, Order>, id: Id, volume: FloatAsLong) -> OpEffect {
    let unchanged = OpEffect { bids: b.bids, asks: b.asks, reg, order: reg[id], err: None };
    if !reg.contains_key(id) {
        OpEffect { err: Some(CoreError::NotFound), ..unchanged }
    } else {
        let o = reg[id];
        let p = o.price.value as int;
        let ls = if o.side == Side::BUY {
            b.bids
        } else {
            b.asks
        };
        if !(0 <= o.filled.value <= volume.value) || o.order_flag != OrderFlag::NONE
            || o.order_type != OrderType::LIMIT || !has_level(ls, p) {
            OpEffect { err: Some(CoreError::Corruption), ..unchanged }
        } else {
            let o2 = Order { volume, ..o };
            let reg2 = reg.insert(id, o2);
            let i = level_at(ls, p);
            let q2 = queue_minus(ls[i].ids, id).push(id);
            let ls2 = ls.update(i, LevelV { price: p, ids: q2 });
            if o.side == Side::BUY {
                OpEffect { bids: ls2, reg: reg2, order: o2, ..unchanged }
            } else {
                OpEffect { asks: ls2, reg: reg2, order: o2, ..unchanged }
            }
        }
    }
}

/// Removing an id from the level at index `i` (dropping the level once
/// empty) keeps a ladder sorted, non-empty, duplicate-free and
/// consistent, and introduces no new id.
proof fn lemma_ladder_cancel(ls: Seq<LevelV>, reg: Map<Id, Order>, side: Side, id: Id, i: int)
    requires
        side == Side::BUY ==> sorted_desc(ls),
        side == Side::SELL ==> sorted_asc(ls),
        levels_nonempty(ls),
        ladder_distinct(ls),
        ladder_consistent(ls, reg, side),
        0 <= i < ls.len(),
    ensures
        ({
            let ls2 = ladder_cancel(ls, id, i);
            &&& (side == Side::BUY ==> sorted_desc(ls2))
            &&& (side == Side::SELL ==> sorted_asc(ls2))
            &&& levels_nonempty(ls2)
            &&& ladder_distinct(ls2)
            &&& ladder_consistent(ls2, reg, side)
            &&& forall|x: Id| ladder_has_id(ls2, x) ==> ladder_has_id(ls, x)
            &&& ls2.len() > 0 ==> exists|j: int| 0 <= j < ls.len() && ls2[0].price == ls[j].price
        }),
{
    let q2 = queue_minus(ls[i].ids, id);
    assert forall|x: Id| q2.contains(x) implies ls[i].ids.contains(x) by {
        lemma_queue_minus_subset(ls[i].ids, id, x);
    }
    lemma_queue_minus_no_dup(ls[i].ids, id);
    if q2.len() == 0 {
        let ls2 = ls.remove(i);
        ls.remove_ensures(i);
        assert forall|a: int, b: int| 0 <= a < b < ls2.len() implies (if side == Side::BUY {
            ls2[a].price > ls2[b].price
        } else {
            ls2[a].price < ls2[b].price
        }) by {
            let a0 = if a < i { a } else { a + 1 };
            let b0 = if b < i { b } else { b + 1 };
            assert(ls2[a] == ls[a0]);
            assert(ls2[b] == ls[b0]);
        }
        assert forall|a: int| 0 <= a < ls2.len() implies ls2[a].ids.len() > 0 by {
            let a0 = if a < i { a } else { a + 1 };
            assert(ls2[a] == ls[a0]);
        }
        assert forall|a: int, b: int, x: Id|
            #![trigger ls2[a].ids.contains(x), ls2[b].ids.contains(x)]
            0 <= a < b < ls2.len() && ls2[a].ids.contains(x) implies !ls2[b].ids.contains(x) by {
            let a0 = if a < i { a } else { a + 1 };
            let b0 = if b < i { b } else { b + 1 };
            assert(ls2[a] == ls[a0]);
            assert(ls2[b] == ls[b0]);
        }
        assert forall|a: int| 0 <= a < ls2.len() implies ls2[a].ids.no_duplicates() by {
            let a0 = if a < i { a } else { a + 1 };
            assert(ls2[a] == ls[a0]);
        }
        assert forall|a: int, k: int|
            #![trigger ls2[a].ids[k]]
            0 <= a < ls2.len() && 0 <= k < ls2[a].ids.len() implies {
            let x = ls2[a].ids[k];
            &&& reg.contains_key(x)
            &&& reg[x].side == side
            &&& reg[x].price.value == ls2[a].price
            &&& reg[x].wf()
            &&& reg[x].order_flag == OrderFlag::NONE
            &&& reg[x].order_type == OrderType::LIMIT
        } by {
            let a0 = if a < i { a } else { a + 1 };
            assert(ls2[a] == ls[a0]);
            assert(ls[a0].ids[k] == ls2[a].ids[k]);
        }
        assert forall|x: Id| ladder_has_id(ls2, x) implies ladder_has_id(ls, x) by {
            let a = choose|a: int| 0 <= a < ls2.len() && ls2[a].ids.contains(x);
            let a0 = if a < i { a } else { a + 1 };
            assert(ls2[a] == ls[a0]);
        }
        if ls2.len() > 0 {
            let j0 = if i == 0 { 1int } else { 0int };
            assert(ls2[0] == ls[j0]);
        }
    } else {
        let lv2 = LevelV { price: ls[i].price, ids: q2 };
        let ls2 = ls.update(i, lv2);
        assert forall|a: int, b: int, x: Id|
            #![trigger ls2[a].ids.contains(x), ls2[b].ids.contains(x)]
            0 <= a < b < ls2.len() && ls2[a].ids.contains(x) implies !ls2[b].ids.contains(x) by {
            assert(ls2[a].ids.contains(x) ==> ls[a].ids.contains(x));
            assert(ls[b].ids.contains(x) ==> (a != b && ls[a].ids.contains(x)
                ==> !ls[b].ids.contains(x)));
            if ls2[b].ids.contains(x) {
                assert(ls[b].ids.contains(x));
            }
        }
        assert forall|a: int, k: int|
            #![trigger ls2[a].ids[k]]
            0 <= a < ls2.len() && 0 <= k < ls2[a].ids.len() implies {
            let x = ls2[a].ids[k];
            &&& reg.contains_key(x)
            &&& reg[x].side == side
            &&& reg[x].price.value == ls2[a].price
            &&& reg[x].wf()
            &&& reg[x].order_flag == OrderFlag::NONE
            &&& reg[x].order_type == OrderType::LIMIT
        } by {
            if a == i {
                let x = ls2[a].ids[k];
                assert(q2.contains(x)) by {
                    assert(q2[k] == x);
                }
                assert(ls[i].ids.contains(x));
                let k0 = choose|k0: int| 0 <= k0 < ls[i].ids.len() && ls[i].ids[k0] == x;
                assert(ls[i].ids[k0] == x);
            } else {
                assert(ls2[a] == ls[a]);
                assert(ls[a].ids[k] == ls2[a].ids[k]);
            }
        }
        assert forall|x: Id| ladder_has_id(ls2, x) implies ladder_has_id(ls, x) by {
            let a = choose|a: int| 0 <= a < ls2.len() && ls2[a].ids.contains(x);
            if a == i {
                assert(ls[i].ids.contains(x));
            }
        }
        assert(ls2[0].price == ls[0].price);
    }
}

pub proof fn lemma_cancel_preserves_inv(b: BookV, reg: Map<Id, Order>, id: Id)
    requires
        b.inv(reg),
    ensures
        ({
            let eff = spec_cancel(b, reg, id);
            eff.err is None ==> (BookV { bids: eff.bids, asks: eff.asks }).inv(reg)
        }),
{
    let eff = spec_cancel(b, reg, id);
    if eff.err is None {
        let o = reg[id];
        let p = o.price.value as int;
        if o.side == Side::BUY {
            let ls = b.bids;
            let i = level_at(ls, p);
            assert(0 <= i < ls.len() && ls[i].price == p);
            lemma_ladder_cancel(ls, reg, Side::BUY, id, i);
            let b2 = BookV { bids: eff.bids, asks: eff.asks };
            assert(b2.asks == b.asks);
            if b2.bids.len() > 0 && b2.asks.len() > 0 {
                let j = choose|j: int| 0 <= j < ls.len() && b2.bids[0].price == ls[j].price;
                assert(ls[j].price <= ls[0].price);
            }
            assert forall|x: Id| ladder_has_id(b2.bids, x) implies !ladder_has_id(b2.asks, x) by {
                assert(ladder_has_id(b.bids, x));
            }
        } else {
            let ls = b.asks;
            let i = level_at(ls, p);
            assert(0 <= i < ls.len() && ls[i].price == p);
            lemma_ladder_cancel(ls, reg, Side::SELL, id, i);
            let b2 = BookV { bids: eff.bids, asks: eff.asks };
            assert(b2.bids == b.bids);
            if b2.bids.len() > 0 && b2.asks.len() > 0 {
                let j = choose|j: int| 0 <= j < ls.len() && b2.asks[0].price == ls[j].price;
                assert(ls[j].price >= ls[0].price);
            }
            assert forall|x: Id| ladder_has_id(b2.bids, x) implies !ladder_has_id(b2.asks, x) by {
                assert(ladder_has_id(b.asks, x) ==> ladder_has_id(b.asks, x));
                if ladder_has_id(b2.asks, x) {
                    assert(ladder_has_id(b.asks, x));
                }
            }
        }
    }
}

/// A cancel never adds an id to the book.
pub proof fn lemma_cancel_no_new_ids(b: BookV, reg: Map<Id, Order>, id: Id, x: Id)
    requires
        b.inv(reg),
    ensures
        ({
            let eff = spec_cancel(b, reg, id);
            (BookV { bids: eff.bids, asks: eff.asks }).has_id(x) ==> b.has_id(x)
        }),
{
    let eff = spec_cancel(b, reg, id);
    let b2 = BookV { bids: eff.bids, asks: eff.asks };
    if eff.err is None && b2.has_id(x) {
        let o = reg[id];
        let p = o.price.value as int;
        if o.side == Side::BUY {
            let i = level_at(b.bids, p);
            assert(0 <= i < b.bids.len() && b.bids[i].price == p);
            lemma_ladder_cancel(b.bids, reg, Side::BUY, id, i);
        } else {
            let i = level_at(b.asks, p);
            assert(0 <= i < b.asks.len() && b.asks[i].price == p);
            lemma_ladder_cancel(b.asks, reg, Side::SELL, id, i);
        }
    }
}

/// Moving `id` to the tail of the level at index `i` while its registry
/// record changes volume (keeping side, price, flag and fill state legal)
/// keeps a ladder sorted, non-empty, duplicate-free and consistent.
proof fn lemma_ladder_modify(
    ls: Seq<LevelV>,
    reg: Map<Id, Order>,
    side: Side,
    id: Id,
    i: int,
    o2: Order,
)
    requires
        side == Side::BUY ==> sorted_desc(ls),
        side == Side::SELL ==> sorted_asc(ls),
        levels_nonempty(ls),
        ladder_distinct(ls),
        ladder_consistent(ls, reg, side),
        0 <= i < ls.len(),
        reg.contains_key(id),
        reg[id].price == o2.price,
        o2.side == side,
        o2.price.value == ls[i].price,
        o2.wf(),
        o2.order_flag == OrderFlag::NONE,
        o2.order_type == OrderType::LIMIT,
    ensures
        ({
            let q2 = queue_minus(ls[i].ids, id).push(id);
            let ls2 = ls.update(i, LevelV { price: ls[i].price, ids: q2 });
            let reg2 = reg.insert(id, o2);
            &&& (side == Side::BUY ==> sorted_desc(ls2))
            &&& (side == Side::SELL ==> sorted_asc(ls2))
            &&& levels_nonempty(ls2)
            &&& ladder_distinct(ls2)
            &&& ladder_consistent(ls2, reg2, side)
            &&& forall|x: Id| ladder_has_id(ls2, x) ==> ladder_has_id(ls, x) || x == id
            &&& ls2.len() == ls.len()
            &&& forall|j: int| 0 <= j < ls.len() ==> ls2[j].price == ls[j].price
        }),
{
    let qm = queue_minus(ls[i].ids, id);
    let q2 = qm.push(id);
    let ls2 = ls.update(i, LevelV { price: ls[i].price, ids: q2 });
    let reg2 = reg.insert(id, o2);
    assert forall|x: Id| qm.contains(x) implies ls[i].ids.contains(x) && x != id by {
        lemma_queue_minus_subset(ls[i].ids, id, x);
    }
    lemma_queue_minus_no_dup(ls[i].ids, id);
    assert(q2.no_duplicates()) by {
        if !q2.no_duplicates() {
            assert(qm.contains(id));
        }
    }
    // `id` cannot rest at a level other than `i`: consistency pins its
    // record's price to that level, and a sorted ladder has one level per
    // price.
    assert forall|j: int| 0 <= j < ls.len() && j != i implies !ls[j].ids.contains(id) by {
        if ls[j].ids.contains(id) {
            let k = choose|k: int| 0 <= k < ls[j].ids.len() && ls[j].ids[k] == id;
            assert(ls[j].ids[k] == id);
            assert(reg[id].price.value == ls[j].price);
            assert(ls[j].price == ls[i].price);
            if i < j {
                assert(ls[i].price != ls[j].price);
            } else {
                assert(ls[j].price != ls[i].price);
            }
        }
    }
    // membership in the new ladder
    assert forall|a: int, k: int|
        #![trigger ls2[a].ids[k]]
        0 <= a < ls2.len() && 0 <= k < ls2[a].ids.len() implies {
        let x = ls2[a].ids[k];
        &&& reg2.contains_key(x)
        &&& reg2[x].side == side
        &&& reg2[x].price.value == ls2[a].price
        &&& reg2[x].wf()
        &&& reg2[x].order_flag == OrderFlag::NONE
        &&& reg2[x].order_type == OrderType::LIMIT
    } by {
        if a == i {
            let x = ls2[a].ids[k];
            if k < qm.len() {
                assert(q2[k] == qm[k]);
                assert(qm.contains(x)) by {
                    assert(qm[k] == x);
                }
                assert(ls[i].ids.contains(x));
                let k0 = choose|k0: int| 0 <= k0 < ls[i].ids.len() && ls[i].ids[k0] == x;
                assert(ls[i].ids[k0] == x);
                assert(x != id);
            } else {
                assert(x == id);
            }
        } else {
            assert(ls2[a] == ls[a]);
            let x = ls2[a].ids[k];
            assert(ls[a].ids[k] == x);
            assert(x != id);
        }
    }
    // duplicate-freedom across levels
    assert forall|a: int, b: int, x: Id|
        #![trigger ls2[a].ids.contains(x), ls2[b].ids.contains(x)]
        0 <= a < b < ls2.len() && ls2[a].ids.contains(x) implies !ls2[b].ids.contains(x) by {
        if ls2[b].ids.contains(x) {
            if a == i {
                if x == id {
                    assert(ls2[b] == ls[b]);
                    assert(!ls[b].ids.contains(id));
                } else {
                    assert(qm.contains(x) || x == id) by {
                        let k = choose|k: int| 0 <= k < ls2[a].ids.len() && ls2[a].ids[k] == x;
                        if k < qm.len() {
                            assert(qm[k] == x);
                        }
                    }
                    assert(ls[a].ids.contains(x));
                    assert(ls2[b] == ls[b]);
                }
            } else if b == i {
                assert(ls2[a] == ls[a]);
                if x == id {
                    assert(!ls[a].ids.contains(id));
                } else {
                    assert(qm.contains(x) || x == id) by {
                        let k = choose|k: int| 0 <= k < ls2[b].ids.len() && ls2[b].ids[k] == x;
                        if k < qm.len() {
                            assert(qm[k] == x);
                        }
                    }
                    assert(ls[b].ids.contains(x));
                }
            } else {
                assert(ls2[a] == ls[a]);
                assert(ls2[b] == ls[b]);
            }
        }
    }
    assert forall|a: int| 0 <= a < ls2.len() implies ls2[a].ids.no_duplicates() by {
        if a != i {
            assert(ls2[a] == ls[a]);
        }
    }
    assert forall|x: Id| ladder_has_id(ls2, x) implies ladder_has_id(ls, x) || x == id by {
        let a = choose|a: int| 0 <= a < ls2.len() && ls2[a].ids.contains(x);
        if a == i && x != id {
            let k = choose|k: int| 0 <= k < ls2[a].ids.len() && ls2[a].ids[k] == x;
            if k < qm.len() {
                assert(qm[k] == x);
                assert(qm.contains(x));
            }
            assert(ls[i].ids.contains(x));
        } else if a != i {
            assert(ls2[a] == ls[a]);
        }
    }
}

pub proof fn lemma_modify_preserves_inv(b: BookV, reg: Map<Id, Order>, id: Id, volume: FloatAsLong)
    requires
        b.inv(reg),
    ensures
        ({
            let eff = spec_modify(b, reg, id, volume);
            eff.err is None ==> (BookV { bids: eff.bids, asks: eff.asks }).inv(eff.reg)
        }),
{
    let eff = spec_modify(b, reg, id, volume);
    if eff.err is None {
        let o = reg[id];
        let p = o.price.value as int;
        let o2 = Order { volume, ..o };
        if o.side == Side::BUY {
            let ls = b.bids;
            let i = level_at(ls, p);
            assert(0 <= i < ls.len() && ls[i].price == p);
            lemma_ladder_modify(ls, reg, Side::BUY, id, i, o2);
            let b2 = BookV { bids: eff.bids, asks: eff.asks };
            // the untouched ask side still matches the new registry: no ask
            // level holds `id`
            assert forall|a: int, k: int|
                #![trigger b2.asks[a].ids[k]]
                0 <= a < b2.asks.len() && 0 <= k < b2.asks[a].ids.len() implies {
                let x = b2.asks[a].ids[k];
                &&& eff.reg.contains_key(x)
                &&& eff.reg[x].side == Side::SELL
                &&& eff.reg[x].price.value == b2.asks[a].price
                &&& eff.reg[x].wf()
                &&& eff.reg[x].order_flag == OrderFlag::NONE
                &&& eff.reg[x].order_type == OrderType::LIMIT
            } by {
                let x = b2.asks[a].ids[k];
                assert(b.asks[a].ids[k] == x);
                assert(reg[x].side == Side::SELL);
                assert(x != id);
            }
            assert forall|x: Id| ladder_has_id(b2.bids, x) implies !ladder_has_id(b2.asks, x) by {
                if ladder_has_id(b2.asks, x) {
                    assert(b2.asks == b.asks);
                    if x == id {
                        let a = choose|a: int| 0 <= a < b.asks.len() && b.asks[a].ids.contains(x);
                        let k = choose|k: int|
                            0 <= k < b.asks[a].ids.len() && b.asks[a].ids[k] == x;
                        assert(b.asks[a].ids[k] == id);
                        assert(reg[id].side == Side::SELL);
                        assert(false);
                    } else {
                        assert(ladder_has_id(b.bids, x));
                    }
                }
            }
            assert(b2.bids[0].price == b.bids[0].price);
        } else {
            let ls = b.asks;
            let i = level_at(ls, p);
            assert(0 <= i < ls.len() && ls[i].price == p);
            lemma_ladder_modify(ls, reg, Side::SELL, id, i, o2);
            let b2 = BookV { bids: eff.bids, asks: eff.asks };
            assert forall|a: int, k: int|
                #![trigger b2.bids[a].ids[k]]
                0 <= a < b2.bids.len() && 0 <= k < b2.bids[a].ids.len() implies {
                let x = b2.bids[a].ids[k];
                &&& eff.reg.contains_key(x)
                &&& eff.reg[x].side == Side::BUY
                &&& eff.reg[x].price.value == b2.bids[a].price
                &&& eff.reg[x].wf()
                &&& eff.reg[x].order_flag == OrderFlag::NONE
                &&& eff.reg[x].order_type == OrderType::LIMIT
            } by {
                let x = b2.bids[a].ids[k];
                assert(b.bids[a].ids[k] == x);
                assert(reg[x].side == Side::BUY);
                assert(x != id);
            }
            assert forall|x: Id| ladder_has_id(b2.bids, x) implies !ladder_has_id(b2.asks, x) by {
                if ladder_has_id(b2.bids, x) && ladder_has_id(b2.asks, x) {
                    assert(b2.bids == b.bids);
                    if x == id {
                        let a = choose|a: int| 0 <= a < b.bids.len() && b.bids[a].ids.contains(x);
                        let k = choose|k: int|
                            0 <= k < b.bids[a].ids.len() && b.bids[a].ids[k] == x;
                        assert(b.bids[a].ids[k] == id);
                        assert(reg[id].side == Side::BUY);
                        assert(false);
                    } else {
                        assert(ladder_has_id(b.asks, x) || x == id) by {
                            let a = choose|a: int|
                                0 <= a < b2.asks.len() && b2.asks[a].ids.contains(x);
                            assert(ladder_has_id(b2.asks, x));
                        }
                        assert(false);
                    }
                }
            }
            assert(b2.asks[0].price == b.asks[0].price);
        }
    }
}

// ---------------------------------------------------------------------
// The matching plan: what one crossing consumes
// ---------------------------------------------------------------------

/// The taker's price meets a maker level: a BUY crosses iff its price is
/// at or above the level, a SELL iff at or below.
pub open spec fn crosses(side: Side, taker_price: int, level_price: int) -> bool {
    if side == Side::BUY {
        taker_price >= level_price
    } else {
        taker_price <= level_price
    }
}

/// What one crossing consumes, walking the opposite ladder from its top
/// under price-time priority.
///
/// `fills` lists the makers consumed completely, each with the delta
/// applied to its fill state (its whole remaining volume). `partial` is
/// the single maker touched last and left resting, with the consumed
/// amount applied to its fill state and its level price. `filled` is
/// the total volume matched, `wsum` the price-weighted sum of the
/// matched volume, and `rest` the opposite ladder once the consumed
/// levels are gone.
pub struct PlanV {
    pub fills: Seq<(Id, int)>,
    pub partial: Option<(Id, int, int)>,
    pub filled: int,
    pub wsum: int,
    pub rest: Seq<LevelV>,
}

pub open spec fn match_plan(
    ls: Seq<LevelV>,
    reg: Map<Id, Order>,
    side: Side,
    price: int,
    need: int,
) -> PlanV
    decreases ls.len(), (if ls.len() > 0 { ls[0].ids.len() } else { 0 }),
{
    if need <= 0 || ls.len() == 0 || ls[0].ids.len() == 0 || !crosses(side, price, ls[0].price) {
        PlanV { fills: Seq::empty(), partial: None, filled: 0, wsum: 0, rest: ls }
    } else {
        let m = ls[0].ids[0];
        let avail = volume_left_of(reg, m);
        if avail > need {
            PlanV {
                fills: Seq::empty(),
                partial: Some((m, need, ls[0].price)),
                filled: need,
                wsum: ls[0].price * need,
                rest: ls,
            }
        } else {
            let ls2 = if ls[0].ids.len() == 1 {
                ls.drop_first()
            } else {
                ls.update(0, LevelV { price: ls[0].price, ids: ls[0].ids.drop_first() })
            };
            let sub = match_plan(ls2, reg, side, price, need - avail);
            PlanV {
                fills: seq![(m, avail)] + sub.fills,
                partial: sub.partial,
                filled: avail + sub.filled,
                wsum: ls[0].price * avail + sub.wsum,
                rest: sub.rest,
            }
        }
    }
}

/// The sum of the deltas of the complete fills.
pub open spec fn sum_fills(fills: Seq<(Id, int)>) -> int
    decreases fills.len(),
{
    if fills.len() == 0 {
        0
    } else {
        sum_fills(fills.drop_last()) + fills.last().1
    }
}

/// The registry after adding `d` to one order's fill state.
pub open spec fn add_fill(reg: Map<Id, Order>, id: Id, d: int) -> Map<Id, Order> {
    if reg.contains_key(id) {
        reg.insert(
            id,
            Order { filled: FloatAsLong { value: (reg[id].filled.value + d) as i64 }, ..reg[id] },
        )
    } else {
        reg
    }
}

/// The registry after applying every complete fill, in order.
pub open spec fn apply_fills(reg: Map<Id, Order>, fills: Seq<(Id, int)>) -> Map<Id, Order>
    decreases fills.len(),
{
    if fills.len() == 0 {
        reg
    } else {
        add_fill(apply_fills(reg, fills.drop_last()), fills.last().0, fills.last().1)
    }
}

/// Where a fresh level at `price` goes in a ladder sorted for `side`.
pub open spec fn insert_pos(ls: Seq<LevelV>, side: Side, price: int) -> int
    decreases ls.len(),
{
    if ls.len() == 0 {
        0
    } else if (side == Side::BUY && ls[0].price > price) || (side == Side::SELL && ls[0].price
        < price) {
        1 + insert_pos(ls.drop_first(), side, price)
    } else {
        0
    }
}

/// The ladder once a residual taker rests at its price: appended to the
/// tail of an existing level, or on a fresh level kept in side order.
pub open spec fn rest_order(ls: Seq<LevelV>, side: Side, price: int, id: Id) -> Seq<LevelV> {
    if has_level(ls, price) {
        let i = level_at(ls, price);
        ls.update(i, LevelV { price, ids: ls[i].ids.push(id) })
    } else {
        ls.insert(insert_pos(ls, side, price), LevelV { price, ids: seq![id] })
    }
}

// ---------------------------------------------------------------------
// The image of one `add`
// ---------------------------------------------------------------------

/// What the single TRADE event of an `add` reports.
pub struct TradeV {
    pub volume: int,
    pub price: int,
    pub makers: Seq<Id>,
    pub taker: Id,
    pub instrument: Id,
}

/// Truncating division, as the executable 128-bit division rounds.
pub open spec fn div_trunc(a: int, b: int) -> int {
    if a >= 0 {
        a / b
    } else {
        -((-a) / b)
    }
}

pub open spec fn clamp_i64(x: int) -> int {
    if x > i64::MAX as int {
        i64::MAX as int
    } else if x < i64::MIN as int {
        i64::MIN as int
    } else {
        x
    }
}

/// The trade price: the volume-weighted average over the matched makers,
/// truncated to the fixed-point grid; zero when nothing matched.
pub open spec fn trade_vwap(wsum: int, filled: int) -> int {
    if filled > 0 {
        clamp_i64(div_trunc(wsum, filled))
    } else {
        0
    }
}

/// The makers in the order they participated: complete fills first, the
/// partial maker last.
pub open spec fn plan_makers(p: PlanV) -> Seq<Id> {
    let base = p.fills.map_values(|f: (Id, int)| f.0);
    match p.partial {
        Some(pt) => base.push(pt.0),
        None => base,
    }
}

/// The event sequence of an `add` is empty, or the one TRADE event that
/// reports the crossing.
pub open spec fn trade_events_match(ev: Seq<Event>, t: Option<TradeV>) -> bool {
    match t {
        None => ev.len() == 0,
        Some(tv) => {
            &&& ev.len() == 1
            &&& ev[0].event_type == EventType::TRADE
            &&& ev[0].target is Trade
            &&& {
                let tr = ev[0].target->Trade_0;
                &&& tr.base.id == 0
                &&& tr.base.instrument_id == tv.instrument
                &&& tr.volume.value == tv.volume
                &&& tr.price.value == tv.price
                &&& tr.maker_orders@ == tv.makers
                &&& tr.taker_order == tv.taker
            }
        },
    }
}

pub struct AddEffect {
    pub bids: Seq<LevelV>,
    pub asks: Seq<LevelV>,
    pub reg: Map<Id, Order>,
    pub trade: Option<TradeV>,
    pub err: Option<CoreError>,
}

/// What `add` does. `NotFound` for an unknown taker; `Corruption` for a
/// taker whose fill state is already broken; `Unimplemented` at
/// submission for a flag outside the book's accepted set (`flags`,
/// where an empty set means NONE only). The taker crosses the opposite
/// ladder as far as price and volume allow. A residual is then rested
/// (LIMIT), discarded (MARKET), or refused as `Unimplemented` (any
/// flagged or STOP path, which this core defers) with the state
/// untouched. One TRADE event reports the crossing when volume matched.
pub open spec fn spec_add(b: BookV, flags: Seq<OrderFlag>, reg: Map<Id, Order>, id: Id) -> AddEffect {
    let unchanged = AddEffect { bids: b.bids, asks: b.asks, reg, trade: None, err: None };
    if !reg.contains_key(id) {
        AddEffect { err: Some(CoreError::NotFound), ..unchanged }
    } else {
        let o = reg[id];
        if !o.wf() {
            AddEffect { err: Some(CoreError::Corruption), ..unchanged }
        } else if o.order_flag != OrderFlag::NONE && !flags.contains(o.order_flag) {
            AddEffect { err: Some(CoreError::Unimplemented), ..unchanged }
        } else {
            let opp = if o.side == Side::BUY {
                b.asks
            } else {
                b.bids
            };
            let need = o.volume.value - o.filled.value;
            let plan = match_plan(opp, reg, o.side, o.price.value as int, need);
            let resid = plan.filled < need;
            if resid && !(o.order_flag == OrderFlag::NONE && (o.order_type == OrderType::LIMIT
                || o.order_type == OrderType::MARKET)) {
                AddEffect { err: Some(CoreError::Unimplemented), ..unchanged }
            } else {
                let reg1 = apply_fills(reg, plan.fills);
                let reg2 = match plan.partial {
                    Some(pt) => add_fill(reg1, pt.0, pt.1),
                    None => reg1,
                };
                let rests = resid && o.order_type == OrderType::LIMIT;
                let reg3 = if rests {
                    add_fill(reg2, id, plan.filled)
                } else {
                    reg2
                };
                let own = if o.side == Side::BUY {
                    b.bids
                } else {
                    b.asks
                };
                let own2 = if rests {
                    rest_order(own, o.side, o.price.value as int, id)
                } else {
                    own
                };
                let trade = if plan.filled > 0 {
                    Some(
                        TradeV {
                            volume: plan.filled,
                            price: trade_vwap(plan.wsum, plan.filled),
                            makers: plan_makers(plan),
                            taker: id,
                            instrument: o.base.instrument_id,
                        },
                    )
                } else {
                    None
                };
                if o.side == Side::BUY {
                    AddEffect { bids: own2, asks: plan.rest, reg: reg3, trade, err: None }
                } else {
                    AddEffect { bids: plan.rest, asks: own2, reg: reg3, trade, err: None }
                }
            }
        }
    }
}

// ---------------------------------------------------------------------
// Facts about the matching plan
// ---------------------------------------------------------------------

proof fn lemma_sum_fills_cons(x: (Id, int), s: Seq<(Id, int)>)
    ensures
        sum_fills(seq![x] + s) == x.1 + sum_fills(s),
    decreases s.len(),
{
    let t = seq![x] + s;
    if s.len() == 0 {
        assert(t.len() == 1);
        assert(t.drop_last() =~= Seq::<(Id, int)>::empty());
        assert(sum_fills(t.drop_last()) == 0);
        assert(sum_fills(t) == sum_fills(t.drop_last()) + t.last().1);
        assert(t.last() == x);
    } else {
        assert(t.drop_last() =~= seq![x] + s.drop_last());
        assert(t.last() == s.last());
        lemma_sum_fills_cons(x, s.drop_last());
        assert(sum_fills(t) == sum_fills(t.drop_last()) + t.last().1);
    }
}

/// One consumption step: dropping the head maker of the top level keeps
/// a ladder well-formed, and the dropped maker is gone for good.
pub proof fn lemma_ladder_step(ls: Seq<LevelV>, reg: Map<Id, Order>, mside: Side)
    requires
        mside == Side::BUY ==> sorted_desc(ls),
        mside == Side::SELL ==> sorted_asc(ls),
        levels_nonempty(ls),
        ladder_distinct(ls),
        ladder_consistent(ls, reg, mside),
        ls.len() > 0,
        ls[0].ids.len() > 0,
    ensures
        ({
            let m = ls[0].ids[0];
            let ls2 = if ls[0].ids.len() == 1 {
                ls.drop_first()
            } else {
                ls.update(0, LevelV { price: ls[0].price, ids: ls[0].ids.drop_first() })
            };
            &&& (mside == Side::BUY ==> sorted_desc(ls2))
            &&& (mside == Side::SELL ==> sorted_asc(ls2))
            &&& levels_nonempty(ls2)
            &&& ladder_distinct(ls2)
            &&& ladder_consistent(ls2, reg, mside)
            &&& forall|x: Id| ladder_has_id(ls2, x) ==> ladder_has_id(ls, x)
            &&& !ladder_has_id(ls2, m)
            &&& ladder_has_id(ls, m)
            &&& (ls[0].ids.len() == 1 ==> forall|j: int|
                0 <= j < ls2.len() ==> ls2[j].price == ls[j + 1].price)
            &&& (ls[0].ids.len() > 1 ==> ls2.len() == ls.len() && forall|j: int|
                0 <= j < ls2.len() ==> ls2[j].price == ls[j].price)
        }),
{
    let m = ls[0].ids[0];
    assert(ladder_has_id(ls, m)) by {
        assert(ls[0].ids.contains(m)) by {
            assert(ls[0].ids[0] == m);
        }
    }
    if ls[0].ids.len() == 1 {
        let ls2 = ls.drop_first();
        assert forall|a: int, k: int|
            #![trigger ls2[a].ids[k]]
            0 <= a < ls2.len() && 0 <= k < ls2[a].ids.len() implies {
            let x = ls2[a].ids[k];
            &&& reg.contains_key(x)
            &&& reg[x].side == mside
            &&& reg[x].price.value == ls2[a].price
            &&& reg[x].wf()
            &&& reg[x].order_flag == OrderFlag::NONE
            &&& reg[x].order_type == OrderType::LIMIT
        } by {
            assert(ls2[a] == ls[a + 1]);
            assert(ls[a + 1].ids[k] == ls2[a].ids[k]);
        }
        assert forall|a: int, b: int, x: Id|
            #![trigger ls2[a].ids.contains(x), ls2[b].ids.contains(x)]
            0 <= a < b < ls2.len() && ls2[a].ids.contains(x) implies !ls2[b].ids.contains(x) by {
            assert(ls2[a] == ls[a + 1]);
            assert(ls2[b] == ls[b + 1]);
        }
        assert forall|a: int| 0 <= a < ls2.len() implies ls2[a].ids.no_duplicates()
            && ls2[a].ids.len() > 0 by {
            assert(ls2[a] == ls[a + 1]);
        }
        assert forall|x: Id| ladder_has_id(ls2, x) implies ladder_has_id(ls, x) by {
            let a = choose|a: int| 0 <= a < ls2.len() && ls2[a].ids.contains(x);
            assert(ls2[a] == ls[a + 1]);
        }
        assert(!ladder_has_id(ls2, m)) by {
            if ladder_has_id(ls2, m) {
                let a = choose|a: int| 0 <= a < ls2.len() && ls2[a].ids.contains(m);
                assert(ls2[a] == ls[a + 1]);
                assert(ls[0].ids.contains(m));
                assert(!ls[a + 1].ids.contains(m));
            }
        }
        assert forall|j: int| 0 <= j < ls2.len() implies ls2[j].price == ls[j + 1].price by {
            assert(ls2[j] == ls[j + 1]);
        }
    } else {
        let q2 = ls[0].ids.drop_first();
        let ls2 = ls.update(0, LevelV { price: ls[0].price, ids: q2 });
        assert(ls[0].ids.no_duplicates());
        assert forall|k: int| 0 <= k < q2.len() implies q2[k] == ls[0].ids[k + 1] by {}
        assert forall|a: int, k: int|
            #![trigger ls2[a].ids[k]]
            0 <= a < ls2.len() && 0 <= k < ls2[a].ids.len() implies {
            let x = ls2[a].ids[k];
            &&& reg.contains_key(x)
            &&& reg[x].side == mside
            &&& reg[x].price.value == ls2[a].price
            &&& reg[x].wf()
            &&& reg[x].order_flag == OrderFlag::NONE
            &&& reg[x].order_type == OrderType::LIMIT
        } by {
            if a == 0 {
                assert(ls2[0].ids[k] == ls[0].ids[k + 1]);
            } else {
                assert(ls2[a] == ls[a]);
                assert(ls[a].ids[k] == ls2[a].ids[k]);
            }
        }
        assert(q2.no_duplicates()) by {
            if !q2.no_duplicates() {
                let (u, v) = choose|u: int, v: int|
                    0 <= u < v < q2.len() && q2[u] == q2[v];
                assert(ls[0].ids[u + 1] == ls[0].ids[v + 1]);
            }
        }
        assert forall|x: Id| q2.contains(x) implies ls[0].ids.contains(x) by {
            let k = choose|k: int| 0 <= k < q2.len() && q2[k] == x;
            assert(ls[0].ids[k + 1] == x);
        }
        assert forall|a: int, b: int, x: Id|
            #![trigger ls2[a].ids.contains(x), ls2[b].ids.contains(x)]
            0 <= a < b < ls2.len() && ls2[a].ids.contains(x) implies !ls2[b].ids.contains(x) by {
            if a == 0 {
                if ls2[b].ids.contains(x) {
                    assert(ls2[b] == ls[b]);
                    assert(ls[0].ids.contains(x));
                }
            } else {
                assert(ls2[a] == ls[a]);
                assert(ls2[b] == ls[b]);
            }
        }
        assert forall|a: int| 0 <= a < ls2.len() implies ls2[a].ids.no_duplicates()
            && ls2[a].ids.len() > 0 by {
            if a != 0 {
                assert(ls2[a] == ls[a]);
            }
        }
        assert forall|x: Id| ladder_has_id(ls2, x) implies ladder_has_id(ls, x) by {
            let a = choose|a: int| 0 <= a < ls2.len() && ls2[a].ids.contains(x);
            if a == 0 {
                assert(ls[0].ids.contains(x));
            } else {
                assert(ls2[a] == ls[a]);
            }
        }
        assert(!ladder_has_id(ls2, m)) by {
            if ladder_has_id(ls2, m) {
                let a = choose|a: int| 0 <= a < ls2.len() && ls2[a].ids.contains(m);
                if a == 0 {
                    let k = choose|k: int| 0 <= k < q2.len() && q2[k] == m;
                    assert(ls[0].ids[k + 1] == m);
                    assert(ls[0].ids[0] == m);
                } else {
                    assert(ls2[a] == ls[a]);
                    assert(ls[0].ids.contains(m));
                    assert(!ls[a].ids.contains(m));
                }
            }
        }
    }
}

/// The induction behind everything proved of a crossing: bounds on the
/// matched volume, the exact deltas of the fills and the partial maker,
/// their distinctness, the well-formedness of what remains, and that the
/// crossing stops only at exhaustion or at a non-crossing level.
pub proof fn lemma_plan_props(
    ls: Seq<LevelV>,
    reg: Map<Id, Order>,
    tside: Side,
    mside: Side,
    price: int,
    need: int,
)
    requires
        mside == Side::BUY ==> sorted_desc(ls),
        mside == Side::SELL ==> sorted_asc(ls),
        levels_nonempty(ls),
        ladder_distinct(ls),
        ladder_consistent(ls, reg, mside),
        need >= 0,
    ensures
        ({
            let p = match_plan(ls, reg, tside, price, need);
            &&& 0 <= p.filled <= need
            &&& (p.partial is Some ==> p.filled == need)
            &&& (p.partial is None ==> p.filled == sum_fills(p.fills))
            &&& forall|i: int|
                0 <= i < p.fills.len() ==> {
                    let f = #[trigger] p.fills[i];
                    &&& reg.contains_key(f.0)
                    &&& f.1 == volume_left_of(reg, f.0)
                    &&& 0 <= f.1
                    &&& ladder_has_id(ls, f.0)
                    &&& !ladder_has_id(p.rest, f.0)
                }
            &&& forall|i: int, j: int|
                #![trigger p.fills[i], p.fills[j]]
                0 <= i < j < p.fills.len() ==> p.fills[i].0 != p.fills[j].0
            &&& (p.partial matches Some(pt) ==> {
                &&& reg.contains_key(pt.0)
                &&& pt.1 == need - sum_fills(p.fills)
                &&& 0 < need - sum_fills(p.fills) < volume_left_of(reg, pt.0)
                &&& p.rest.len() > 0
                &&& p.rest[0].ids.len() > 0
                &&& p.rest[0].ids[0] == pt.0
                &&& p.rest[0].price == pt.2
                &&& crosses(tside, price, pt.2)
                &&& forall|i: int| 0 <= i < p.fills.len() ==> (#[trigger] p.fills[i]).0 != pt.0
            })
            &&& (mside == Side::BUY ==> sorted_desc(p.rest))
            &&& (mside == Side::SELL ==> sorted_asc(p.rest))
            &&& levels_nonempty(p.rest)
            &&& ladder_distinct(p.rest)
            &&& ladder_consistent(p.rest, reg, mside)
            &&& forall|x: Id| ladder_has_id(p.rest, x) ==> ladder_has_id(ls, x)
            &&& (p.rest.len() > 0 ==> exists|j: int|
                0 <= j < ls.len() && p.rest[0].price == ls[j].price)
            &&& (p.filled < need ==> p.rest.len() == 0 || !crosses(tside, price, p.rest[0].price))
            &&& (i64::MIN as int) * p.filled <= p.wsum <= (i64::MAX as int) * p.filled
        }),
    decreases ls.len(), (if ls.len() > 0 { ls[0].ids.len() } else { 0 }),
{
    let p = match_plan(ls, reg, tside, price, need);
    if need <= 0 || ls.len() == 0 || ls[0].ids.len() == 0 || !crosses(tside, price, ls[0].price) {
        assert(p.fills =~= Seq::<(Id, int)>::empty());
        assert(sum_fills(p.fills) == 0);
        if p.rest.len() > 0 {
            assert(p.rest[0].price == ls[0].price);
        }
    } else {
        let m = ls[0].ids[0];
        assert(ls[0].ids.contains(m)) by {
            assert(ls[0].ids[0] == m);
        }
        let avail = volume_left_of(reg, m);
        // the head maker is a consistent resting order, so its price and
        // remaining volume are within range
        assert(reg.contains_key(m) && reg[m].wf() && reg[m].price.value == ls[0].price) by {
            assert(ls[0].ids[0] == m);
        }
        assert(0 <= avail);
        assert(i64::MIN as int <= ls[0].price <= i64::MAX as int);
        if avail > need {
            assert(p.filled == need);
            assert(p.fills =~= Seq::<(Id, int)>::empty());
            assert(sum_fills(p.fills) == 0);
            assert(p.wsum == ls[0].price * need);
            assert((i64::MIN as int) * need <= ls[0].price * need <= (i64::MAX as int) * need)
                by (nonlinear_arith)
                requires
                    need > 0,
                    i64::MIN as int <= ls[0].price <= i64::MAX as int,
            ;
        } else {
            lemma_ladder_step(ls, reg, mside);
            let ls2 = if ls[0].ids.len() == 1 {
                ls.drop_first()
            } else {
                ls.update(0, LevelV { price: ls[0].price, ids: ls[0].ids.drop_first() })
            };
            let sub = match_plan(ls2, reg, tside, price, need - avail);
            lemma_plan_props(ls2, reg, tside, mside, price, need - avail);
            lemma_sum_fills_cons((m, avail), sub.fills);
            assert(p.fills == seq![(m, avail)] + sub.fills);
            assert(p.fills[0] == (m, avail));
            assert(forall|i: int|
                1 <= i < p.fills.len() ==> #[trigger] p.fills[i] == sub.fills[i - 1]);
            // every complete fill is a maker of the ladder and leaves it
            assert forall|i: int| 0 <= i < p.fills.len() implies {
                let f = #[trigger] p.fills[i];
                &&& reg.contains_key(f.0)
                &&& f.1 == volume_left_of(reg, f.0)
                &&& 0 <= f.1
                &&& ladder_has_id(ls, f.0)
                &&& !ladder_has_id(p.rest, f.0)
            } by {
                if i == 0 {
                    assert(!ladder_has_id(ls2, m));
                    assert forall|x: Id| ladder_has_id(sub.rest, x) implies ladder_has_id(
                        ls2,
                        x,
                    ) by {}
                    assert(!ladder_has_id(p.rest, m));
                } else {
                    assert(p.fills[i] == sub.fills[i - 1]);
                    assert(ladder_has_id(ls2, sub.fills[i - 1].0));
                }
            }
            assert forall|i: int, j: int|
                #![trigger p.fills[i], p.fills[j]]
                0 <= i < j < p.fills.len() implies p.fills[i].0 != p.fills[j].0 by {
                if i == 0 {
                    assert(p.fills[j] == sub.fills[j - 1]);
                    assert(ladder_has_id(ls2, sub.fills[j - 1].0));
                    assert(!ladder_has_id(ls2, m));
                } else {
                    assert(p.fills[i] == sub.fills[i - 1]);
                    assert(p.fills[j] == sub.fills[j - 1]);
                }
            }
            if sub.partial is Some {
                let pt = sub.partial->Some_0;
                assert(sub.rest[0].ids[0] == pt.0);
                assert(sub.rest[0].ids.contains(pt.0)) by {
                    assert(sub.rest[0].ids[0] == pt.0);
                }
                assert(ladder_has_id(sub.rest, pt.0)) by {
                    assert(sub.rest[0].ids.contains(pt.0));
                }
                assert(ladder_has_id(ls2, pt.0));
                assert(pt.0 != m);
                assert forall|i: int| 0 <= i < p.fills.len() implies (#[trigger] p.fills[i]).0
                    != pt.0 by {
                    if i > 0 {
                        assert(p.fills[i] == sub.fills[i - 1]);
                    }
                }
                assert(need - sum_fills(p.fills) == (need - avail) - sum_fills(sub.fills));
            }
            if p.rest.len() > 0 {
                let j2 = choose|j: int| 0 <= j < ls2.len() && p.rest[0].price == ls2[j].price;
                if ls[0].ids.len() == 1 {
                    assert(ls2[j2].price == ls[j2 + 1].price);
                } else {
                    assert(ls2[j2].price == ls[j2].price);
                }
            }
            // weighted-sum bounds
            assert((i64::MIN as int) * avail <= ls[0].price * avail <= (i64::MAX as int) * avail)
                by (nonlinear_arith)
                requires
                    avail >= 0,
                    i64::MIN as int <= ls[0].price <= i64::MAX as int,
            ;
            assert((i64::MIN as int) * (avail + sub.filled) == (i64::MIN as int) * avail + (
            i64::MIN as int) * sub.filled) by (nonlinear_arith);
            assert((i64::MAX as int) * (avail + sub.filled) == (i64::MAX as int) * avail + (
            i64::MAX as int) * sub.filled) by (nonlinear_arith);
        }
    }
}

// ---------------------------------------------------------------------
// Frame facts about the registry updates of a crossing
// ---------------------------------------------------------------------

proof fn lemma_add_fill_frame(reg: Map<Id, Order>, id: Id, d: int, x: Id)
    ensures
        add_fill(reg, id, d).contains_key(x) == reg.contains_key(x),
        x != id && reg.contains_key(x) ==> add_fill(reg, id, d)[x] == reg[x],
{
}

pub proof fn lemma_apply_fills_frame(reg: Map<Id, Order>, fills: Seq<(Id, int)>, x: Id)
    ensures
        apply_fills(reg, fills).contains_key(x) == reg.contains_key(x),
        (forall|i: int| 0 <= i < fills.len() ==> (#[trigger] fills[i]).0 != x)
            && reg.contains_key(x) ==> apply_fills(reg, fills)[x] == reg[x],
    decreases fills.len(),
{
    if fills.len() > 0 {
        lemma_apply_fills_frame(reg, fills.drop_last(), x);
        lemma_add_fill_frame(apply_fills(reg, fills.drop_last()), fills.last().0, fills.last().1, x);
        if (forall|i: int| 0 <= i < fills.len() ==> (#[trigger] fills[i]).0 != x)
            && reg.contains_key(x) {
            assert(fills.last() == fills[fills.len() - 1]);
            assert(forall|i: int|
                0 <= i < fills.drop_last().len() ==> (#[trigger] fills.drop_last()[i]).0 != x);
        }
    }
}

/// The registry after the complete fills, at the `i`-th maker: its fill
/// state has grown by exactly its delta, all else kept.
pub proof fn lemma_apply_fills_at(reg: Map<Id, Order>, fills: Seq<(Id, int)>, i: int)
    requires
        0 <= i < fills.len(),
        forall|j: int| 0 <= j < fills.len() && j != i ==> (#[trigger] fills[j]).0 != fills[i].0,
        reg.contains_key(fills[i].0),
    ensures
        apply_fills(reg, fills)[fills[i].0] == (Order {
            filled: FloatAsLong {
                value: (reg[fills[i].0].filled.value + fills[i].1) as i64,
            },
            ..reg[fills[i].0]
        }),
    decreases fills.len(),
{
    let x = fills[i].0;
    lemma_apply_fills_frame(reg, fills.drop_last(), x);
    if i == fills.len() - 1 {
        assert(fills.last() == fills[i]);
        assert(forall|j: int|
            0 <= j < fills.drop_last().len() ==> (#[trigger] fills.drop_last()[j]).0 != x);
        assert(apply_fills(reg, fills.drop_last())[x] == reg[x]);
    } else {
        assert(fills.drop_last()[i] == fills[i]);
        assert(forall|j: int|
            0 <= j < fills.drop_last().len() && j != i ==> (#[trigger] fills.drop_last()[j]).0
                != fills.drop_last()[i].0);
        lemma_apply_fills_at(reg, fills.drop_last(), i);
        assert(fills.last() == fills[fills.len() - 1]);
        assert(fills.last().0 != x);
        lemma_add_fill_frame(apply_fills(reg, fills.drop_last()), fills.last().0, fills.last().1, x);
    }
}

// ---------------------------------------------------------------------
// Resting a residual taker
// ---------------------------------------------------------------------

proof fn lemma_insert_pos(ls: Seq<LevelV>, side: Side, price: int)
    requires
        side == Side::BUY ==> sorted_desc(ls),
        side == Side::SELL ==> sorted_asc(ls),
    ensures
        0 <= insert_pos(ls, side, price) <= ls.len(),
        forall|j: int|
            0 <= j < insert_pos(ls, side, price) ==> (if side == Side::BUY {
                ls[j].price > price
            } else {
                ls[j].price < price
            }),
        insert_pos(ls, side, price) < ls.len() ==> (if side == Side::BUY {
            ls[insert_pos(ls, side, price)].price <= price
        } else {
            ls[insert_pos(ls, side, price)].price >= price
        }),
    decreases ls.len(),
{
    if ls.len() > 0 && ((side == Side::BUY && ls[0].price > price) || (side == Side::SELL
        && ls[0].price < price)) {
        let tail = ls.drop_first();
        assert forall|a: int, b: int| 0 <= a < b < tail.len() implies (if side == Side::BUY {
            tail[a].price > tail[b].price
        } else {
            tail[a].price < tail[b].price
        }) by {
            assert(tail[a] == ls[a + 1]);
            assert(tail[b] == ls[b + 1]);
        }
        lemma_insert_pos(tail, side, price);
        let pos = insert_pos(ls, side, price);
        assert(pos == 1 + insert_pos(tail, side, price));
        assert forall|j: int| 0 <= j < pos implies (if side == Side::BUY {
            ls[j].price > price
        } else {
            ls[j].price < price
        }) by {
            if j > 0 {
                assert(tail[j - 1] == ls[j]);
            }
        }
        if pos < ls.len() {
            assert(tail[pos - 1] == ls[pos]);
        }
    }
}

/// Resting a fresh order at its price keeps its ladder well-formed and
/// consistent with a registry that already owns the order.
proof fn lemma_rest_order(ls: Seq<LevelV>, reg: Map<Id, Order>, side: Side, price: int, id: Id)
    requires
        side == Side::BUY ==> sorted_desc(ls),
        side == Side::SELL ==> sorted_asc(ls),
        levels_nonempty(ls),
        ladder_distinct(ls),
        ladder_consistent(ls, reg, side),
        !ladder_has_id(ls, id),
        reg.contains_key(id),
        reg[id].side == side,
        reg[id].price.value == price,
        reg[id].wf(),
        reg[id].order_flag == OrderFlag::NONE,
        reg[id].order_type == OrderType::LIMIT,
    ensures
        ({
            let ls2 = rest_order(ls, side, price, id);
            &&& (side == Side::BUY ==> sorted_desc(ls2))
            &&& (side == Side::SELL ==> sorted_asc(ls2))
            &&& levels_nonempty(ls2)
            &&& ladder_distinct(ls2)
            &&& ladder_consistent(ls2, reg, side)
            &&& forall|x: Id| ladder_has_id(ls2, x) ==> ladder_has_id(ls, x) || x == id
            &&& ls2.len() > 0
            &&& (ls2[0].price == price || (ls.len() > 0 && ls2[0].price == ls[0].price))
        }),
{
    let ls2 = rest_order(ls, side, price, id);
    if has_level(ls, price) {
        let i = level_at(ls, price);
        assert(0 <= i < ls.len() && ls[i].price == price);
        let q2 = ls[i].ids.push(id);
        assert(!ls[i].ids.contains(id)) by {
            if ls[i].ids.contains(id) {
                assert(ladder_has_id(ls, id));
            }
        }
        assert(q2.no_duplicates());
        assert forall|a: int, k: int|
            #![trigger ls2[a].ids[k]]
            0 <= a < ls2.len() && 0 <= k < ls2[a].ids.len() implies {
            let x = ls2[a].ids[k];
            &&& reg.contains_key(x)
            &&& reg[x].side == side
            &&& reg[x].price.value == ls2[a].price
            &&& reg[x].wf()
            &&& reg[x].order_flag == OrderFlag::NONE
            &&& reg[x].order_type == OrderType::LIMIT
        } by {
            if a == i {
                if k < ls[i].ids.len() {
                    assert(ls2[a].ids[k] == ls[i].ids[k]);
                } else {
                    assert(ls2[a].ids[k] == id);
                }
            } else {
                assert(ls2[a] == ls[a]);
                assert(ls[a].ids[k] == ls2[a].ids[k]);
            }
        }
        assert forall|a: int, b: int, x: Id|
            #![trigger ls2[a].ids.contains(x), ls2[b].ids.contains(x)]
            0 <= a < b < ls2.len() && ls2[a].ids.contains(x) implies !ls2[b].ids.contains(x) by {
            if ls2[b].ids.contains(x) {
                if a == i {
                    if x != id {
                        assert(ls[a].ids.contains(x)) by {
                            let k = choose|k: int|
                                0 <= k < ls2[a].ids.len() && ls2[a].ids[k] == x;
                            if k < ls[i].ids.len() {
                                assert(ls[i].ids[k] == x);
                            }
                        }
                        assert(ls2[b] == ls[b]);
                    } else {
                        assert(ls2[b] == ls[b]);
                        assert(ls[b].ids.contains(id));
                        assert(ladder_has_id(ls, id));
                    }
                } else if b == i {
                    assert(ls2[a] == ls[a]);
                    if x != id {
                        assert(ls[b].ids.contains(x)) by {
                            let k = choose|k: int|
                                0 <= k < ls2[b].ids.len() && ls2[b].ids[k] == x;
                            if k < ls[i].ids.len() {
                                assert(ls[i].ids[k] == x);
                            }
                        }
                    } else {
                        assert(ls[a].ids.contains(id));
                        assert(ladder_has_id(ls, id));
                    }
                } else {
                    assert(ls2[a] == ls[a]);
                    assert(ls2[b] == ls[b]);
                }
            }
        }
        assert forall|a: int| 0 <= a < ls2.len() implies ls2[a].ids.no_duplicates()
            && ls2[a].ids.len() > 0 by {
            if a != i {
                assert(ls2[a] == ls[a]);
            }
        }
        assert forall|x: Id| ladder_has_id(ls2, x) implies ladder_has_id(ls, x) || x == id by {
            let a = choose|a: int| 0 <= a < ls2.len() && ls2[a].ids.contains(x);
            if a == i && x != id {
                let k = choose|k: int| 0 <= k < ls2[a].ids.len() && ls2[a].ids[k] == x;
                if k < ls[i].ids.len() {
                    assert(ls[i].ids[k] == x);
                    assert(ls[i].ids.contains(x));
                } else {
                    assert(ls2[a].ids[k] == id);
                }
            } else if a != i {
                assert(ls2[a] == ls[a]);
            }
        }
        assert(ls2[0].price == ls[0].price);
    } else {
        lemma_insert_pos(ls, side, price);
        let pos = insert_pos(ls, side, price);
        let lvl = LevelV { price, ids: seq![id] };
        assert(ls2 == ls.insert(pos, lvl));
        ls.insert_ensures(pos, lvl);
        assert(forall|j: int| 0 <= j < pos ==> ls2[j] == ls[j]);
        assert(ls2[pos] == lvl);
        assert(forall|j: int| pos < j < ls2.len() ==> ls2[j] == ls[j - 1]);
        assert(forall|j: int| 0 <= j < ls.len() ==> ls[j].price != price);
        assert forall|a: int, b: int| 0 <= a < b < ls2.len() implies (if side == Side::BUY {
            ls2[a].price > ls2[b].price
        } else {
            ls2[a].price < ls2[b].price
        }) by {
            if a == pos {
                assert(ls2[b] == ls[b - 1]);
                assert(b - 1 >= pos);
                assert(ls[b - 1].price != price);
            } else if b == pos {
                assert(ls2[a] == ls[a]);
            } else if a < pos && b > pos {
                assert(ls2[a] == ls[a]);
                assert(ls2[b] == ls[b - 1]);
                assert(a <= b - 1);
                if a == b - 1 {
                } else {
                }
            } else if b < pos {
                assert(ls2[a] == ls[a]);
                assert(ls2[b] == ls[b]);
            } else {
                assert(ls2[a] == ls[a - 1]);
                assert(ls2[b] == ls[b - 1]);
            }
        }
        assert forall|a: int, k: int|
            #![trigger ls2[a].ids[k]]
            0 <= a < ls2.len() && 0 <= k < ls2[a].ids.len() implies {
            let x = ls2[a].ids[k];
            &&& reg.contains_key(x)
            &&& reg[x].side == side
            &&& reg[x].price.value == ls2[a].price
            &&& reg[x].wf()
            &&& reg[x].order_flag == OrderFlag::NONE
            &&& reg[x].order_type == OrderType::LIMIT
        } by {
            if a == pos {
                assert(ls2[a].ids[k] == id);
            } else if a < pos {
                assert(ls2[a] == ls[a]);
                assert(ls[a].ids[k] == ls2[a].ids[k]);
            } else {
                assert(ls2[a] == ls[a - 1]);
                assert(ls[a - 1].ids[k] == ls2[a].ids[k]);
            }
        }
        assert forall|a: int, b: int, x: Id|
            #![trigger ls2[a].ids.contains(x), ls2[b].ids.contains(x)]
            0 <= a < b < ls2.len() && ls2[a].ids.contains(x) implies !ls2[b].ids.contains(x) by {
            if ls2[b].ids.contains(x) {
                let a0 = if a < pos { a } else { a - 1 };
                let b0 = if b < pos { b } else { b - 1 };
                if a == pos {
                    assert(x == id) by {
                        let k = choose|k: int| 0 <= k < ls2[a].ids.len() && ls2[a].ids[k] == x;
                    }
                    assert(ls2[b] == ls[b - 1]);
                    assert(ladder_has_id(ls, id)) by {
                        assert(ls[b - 1].ids.contains(id));
                    }
                } else if b == pos {
                    assert(x == id) by {
                        let k = choose|k: int| 0 <= k < ls2[b].ids.len() && ls2[b].ids[k] == x;
                    }
                    assert(ls2[a] == ls[a]);
                    assert(ladder_has_id(ls, id)) by {
                        assert(ls[a].ids.contains(id));
                    }
                } else {
                    assert(ls2[a] == ls[a0]);
                    assert(ls2[b] == ls[b0]);
                    if a0 == b0 {
                        assert(a < pos && b > pos);
                        assert(a == b - 1);
                    } else {
                        assert(a0 < b0);
                    }
                }
            }
        }
        assert forall|a: int| 0 <= a < ls2.len() implies ls2[a].ids.no_duplicates()
            && ls2[a].ids.len() > 0 by {
            if a < pos {
                assert(ls2[a] == ls[a]);
            } else if a > pos {
                assert(ls2[a] == ls[a - 1]);
            }
        }
        assert forall|x: Id| ladder_has_id(ls2, x) implies ladder_has_id(ls, x) || x == id by {
            let a = choose|a: int| 0 <= a < ls2.len() && ls2[a].ids.contains(x);
            if a < pos {
                assert(ls2[a] == ls[a]);
            } else if a > pos {
                assert(ls2[a] == ls[a - 1]);
            } else {
                let k = choose|k: int| 0 <= k < ls2[a].ids.len() && ls2[a].ids[k] == x;
            }
        }
        if pos == 0 {
            assert(ls2[0].price == price);
        } else {
            assert(ls2[0] == ls[0]);
        }
    }
}

// ---------------------------------------------------------------------
// The crossing preserves the book invariant
// ---------------------------------------------------------------------

/// Consistency of a ladder only reads its members' records: it survives
/// any registry change that keeps each member present, on its side, at
/// its price, well-formed, and unflagged.
proof fn lemma_consistent_update(
    ls: Seq<LevelV>,
    reg_a: Map<Id, Order>,
    reg_b: Map<Id, Order>,
    side: Side,
)
    requires
        ladder_consistent(ls, reg_a, side),
        forall|x: Id| #[trigger]
            ladder_has_id(ls, x) ==> reg_b.contains_key(x) && reg_b[x].side == reg_a[x].side
                && reg_b[x].price == reg_a[x].price && reg_b[x].wf() && reg_b[x].order_flag
                == reg_a[x].order_flag && reg_b[x].order_type == reg_a[x].order_type,
    ensures
        ladder_consistent(ls, reg_b, side),
{
    assert forall|i: int, k: int|
        #![trigger ls[i].ids[k]]
        0 <= i < ls.len() && 0 <= k < ls[i].ids.len() implies {
        let x = ls[i].ids[k];
        &&& reg_b.contains_key(x)
        &&& reg_b[x].side == side
        &&& reg_b[x].price.value == ls[i].price
        &&& reg_b[x].wf()
        &&& reg_b[x].order_flag == OrderFlag::NONE
        &&& reg_b[x].order_type == OrderType::LIMIT
    } by {
        let x = ls[i].ids[k];
        assert(ladder_has_id(ls, x)) by {
            assert(ls[i].ids.contains(x)) by {
                assert(ls[i].ids[k] == x);
            }
        }
    }
}

/// A member of a ladder has a well-formed record on the right side.
pub proof fn lemma_member_record(ls: Seq<LevelV>, reg: Map<Id, Order>, side: Side, x: Id)
    requires
        ladder_consistent(ls, reg, side),
        ladder_has_id(ls, x),
    ensures
        reg.contains_key(x),
        reg[x].side == side,
        reg[x].wf(),
        reg[x].order_flag == OrderFlag::NONE,
        reg[x].order_type == OrderType::LIMIT,
{
    let i = choose|i: int| 0 <= i < ls.len() && ls[i].ids.contains(x);
    let k = choose|k: int| 0 <= k < ls[i].ids.len() && ls[i].ids[k] == x;
    assert(ls[i].ids[k] == x);
}

pub proof fn lemma_add_preserves_inv(b: BookV, flags: Seq<OrderFlag>, reg: Map<Id, Order>, id: Id)
    requires
        b.inv(reg),
        !b.has_id(id),
    ensures
        ({
            let eff = spec_add(b, flags, reg, id);
            eff.err is None ==> (BookV { bids: eff.bids, asks: eff.asks }).inv(eff.reg)
        }),
{
    let eff = spec_add(b, flags, reg, id);
    if eff.err is None {
        let o = reg[id];
        let tside = o.side;
        let mside = if tside == Side::BUY {
            Side::SELL
        } else {
            Side::BUY
        };
        let opp = if tside == Side::BUY {
            b.asks
        } else {
            b.bids
        };
        let own = if tside == Side::BUY {
            b.bids
        } else {
            b.asks
        };
        let p = o.price.value as int;
        let need = o.volume.value - o.filled.value;
        let plan = match_plan(opp, reg, tside, p, need);
        lemma_plan_props(opp, reg, tside, mside, p, need);
        let resid = plan.filled < need;
        let rests = resid && o.order_type == OrderType::LIMIT;
        let reg1 = apply_fills(reg, plan.fills);
        let reg2 = match plan.partial {
            Some(pt) => add_fill(reg1, pt.0, pt.1),
            None => reg1,
        };
        let reg3 = if rests {
            add_fill(reg2, id, plan.filled)
        } else {
            reg2
        };
        // no maker of the remaining opposite ladder was completely filled,
        // none is the taker, and at most the head is the partial maker
        assert forall|x: Id| #[trigger]
            ladder_has_id(plan.rest, x) implies reg3.contains_key(x) && reg3[x].side == reg[x].side
                && reg3[x].price == reg[x].price && reg3[x].wf() && reg3[x].order_flag
                == reg[x].order_flag && reg3[x].order_type == reg[x].order_type by {
            lemma_member_record(plan.rest, reg, mside, x);
            assert(ladder_has_id(opp, x));
            assert(x != id);
            assert(forall|i: int| 0 <= i < plan.fills.len() ==> (#[trigger] plan.fills[i]).0 != x);
            lemma_apply_fills_frame(reg, plan.fills, x);
            if plan.partial is Some {
                let pt = plan.partial->Some_0;
                if x == pt.0 {
                    assert(reg1[x] == reg[x]);
                    let nr = need - sum_fills(plan.fills);
                    assert(pt.1 == nr);
                    assert(0 < nr < volume_left_of(reg, pt.0));
                    assert(reg[x].wf());
                    let nf = reg[x].filled.value + pt.1;
                    assert(0 <= nf <= reg[x].volume.value);
                    assert(nf as i64 == nf);
                    assert(reg2[x] == (Order {
                        filled: FloatAsLong { value: nf as i64 },
                        ..reg[x]
                    }));
                    assert(reg3[x] == reg2[x]);
                } else {
                    assert(reg2[x] == reg[x]);
                    assert(reg3[x] == reg[x]);
                }
            } else {
                assert(reg2[x] == reg[x]);
                assert(reg3[x] == reg[x]);
            }
        }
        lemma_consistent_update(plan.rest, reg, reg3, mside);
        // the taker's own ladder members keep their records
        assert forall|x: Id| #[trigger]
            ladder_has_id(own, x) implies reg3.contains_key(x) && reg3[x].side == reg[x].side
                && reg3[x].price == reg[x].price && reg3[x].wf() && reg3[x].order_flag
                == reg[x].order_flag && reg3[x].order_type == reg[x].order_type by {
            lemma_member_record(own, reg, tside, x);
            assert(x != id);
            assert forall|i: int| 0 <= i < plan.fills.len() implies (#[trigger] plan.fills[i]).0
                != x by {
                if plan.fills[i].0 == x {
                    assert(ladder_has_id(opp, x));
                    if tside == Side::BUY {
                        assert(ladder_has_id(b.bids, x));
                    } else {
                        assert(ladder_has_id(b.asks, x));
                        assert(reg[x].side == Side::SELL);
                    }
                }
            }
            lemma_apply_fills_frame(reg, plan.fills, x);
            if plan.partial is Some {
                let pt = plan.partial->Some_0;
                if x == pt.0 {
                    assert(plan.rest[0].ids.contains(pt.0)) by {
                        assert(plan.rest[0].ids[0] == pt.0);
                    }
                    assert(ladder_has_id(plan.rest, pt.0)) by {
                        assert(plan.rest[0].ids.contains(pt.0));
                    }
                    assert(ladder_has_id(opp, x));
                    lemma_member_record(opp, reg, mside, x);
                    assert(false);
                }
            }
            assert(reg2[x] == reg[x]);
            assert(reg3[x] == reg[x]);
        }
        lemma_consistent_update(own, reg, reg3, tside);
        // the rested taker, when there is one
        let own2 = if rests {
            rest_order(own, tside, p, id)
        } else {
            own
        };
        if rests {
            assert(o.order_flag == OrderFlag::NONE);
            assert(o.order_type == OrderType::LIMIT);
            assert(!ladder_has_id(own, id));
            assert(forall|i: int| 0 <= i < plan.fills.len() ==> (#[trigger] plan.fills[i]).0 != id)
                by {
                if exists|i: int| 0 <= i < plan.fills.len() && (#[trigger] plan.fills[i]).0 == id {
                    let i = choose|i: int|
                        0 <= i < plan.fills.len() && (#[trigger] plan.fills[i]).0 == id;
                    assert(ladder_has_id(opp, id));
                }
            }
            lemma_apply_fills_frame(reg, plan.fills, id);
            if plan.partial is Some {
                let pt = plan.partial->Some_0;
                assert(pt.0 != id) by {
                    if pt.0 == id {
                        assert(plan.rest[0].ids.contains(pt.0)) by {
                            assert(plan.rest[0].ids[0] == pt.0);
                        }
                        assert(ladder_has_id(plan.rest, id)) by {
                            assert(plan.rest[0].ids.contains(id));
                        }
                        assert(ladder_has_id(opp, id));
                    }
                }
            }
            assert(reg2.contains_key(id) && reg2[id] == reg[id]);
            let nf = o.filled.value + plan.filled;
            assert(0 <= nf <= o.volume.value);
            assert(nf as i64 == nf);
            assert(reg3[id] == (Order { filled: FloatAsLong { value: nf as i64 }, ..o }));
            assert(reg3[id].wf());
            assert(reg3[id].side == tside && reg3[id].price.value == p);
            lemma_rest_order(own, reg3, tside, p, id);
        }
        // assemble the two sides
        let bids2 = if tside == Side::BUY {
            own2
        } else {
            plan.rest
        };
        let asks2 = if tside == Side::BUY {
            plan.rest
        } else {
            own2
        };
        let b2 = BookV { bids: bids2, asks: asks2 };
        // cross-side distinctness
        assert forall|x: Id| ladder_has_id(b2.bids, x) implies !ladder_has_id(b2.asks, x) by {
            if ladder_has_id(b2.bids, x) && ladder_has_id(b2.asks, x) {
                if tside == Side::BUY {
                    assert(ladder_has_id(own, x) || x == id);
                    assert(ladder_has_id(opp, x));
                    if x == id {
                    } else {
                        assert(ladder_has_id(b.bids, x));
                        assert(ladder_has_id(b.asks, x));
                    }
                } else {
                    assert(ladder_has_id(own, x) || x == id);
                    assert(ladder_has_id(opp, x));
                    if x == id {
                    } else {
                        assert(ladder_has_id(b.bids, x));
                        assert(ladder_has_id(b.asks, x));
                    }
                }
            }
        }
        // the books stay uncrossed at the top
        if b2.bids.len() > 0 && b2.asks.len() > 0 {
            if tside == Side::BUY {
                // asks2 = plan.rest: its head is one of the old ask levels
                let j = choose|j: int| 0 <= j < opp.len() && plan.rest[0].price == opp[j].price;
                assert(opp[0].price <= opp[j].price);
                if rests {
                    assert(own2[0].price == p || (own.len() > 0 && own2[0].price == own[0].price));
                    if own2[0].price == p && !(own.len() > 0 && own2[0].price == own[0].price) {
                        assert(resid);
                        assert(plan.rest.len() == 0 || !crosses(tside, p, plan.rest[0].price));
                        assert(p < plan.rest[0].price);
                    } else {
                        assert(own[0].price < opp[0].price);
                        if own2[0].price == p {
                            assert(resid);
                            assert(p < plan.rest[0].price);
                        }
                    }
                } else {
                    assert(own2 == own);
                    assert(own[0].price < opp[0].price);
                }
            } else {
                let j = choose|j: int| 0 <= j < opp.len() && plan.rest[0].price == opp[j].price;
                assert(opp[j].price <= opp[0].price);
                if rests {
                    assert(own2[0].price == p || (own.len() > 0 && own2[0].price == own[0].price));
                    if own2[0].price == p && !(own.len() > 0 && own2[0].price == own[0].price) {
                        assert(resid);
                        assert(plan.rest.len() == 0 || !crosses(tside, p, plan.rest[0].price));
                        assert(p > plan.rest[0].price);
                    } else {
                        assert(opp[0].price < own[0].price);
                        if own2[0].price == p {
                            assert(resid);
                            assert(p > plan.rest[0].price);
                        }
                    }
                } else {
                    assert(own2 == own);
                    assert(opp[0].price < own[0].price);
                }
            }
        }
        assert(b2.wf());
        assert(b2.consistent(reg3));
    }
}

// ---------------------------------------------------------------------
// Bridging facts between exec vectors and ladder views
// ---------------------------------------------------------------------

proof fn lemma_view_update(s: Seq<PriceLevel>, i: int, l: PriceLevel)
    requires
        0 <= i < s.len(),
    ensures
        levels_view(s.remove(i).insert(i, l)) =~= levels_view(s).update(i, l@),
{
    let s2 = s.remove(i).insert(i, l);
    s.remove_ensures(i);
    assert(s2.len() == s.len());
    assert forall|j: int| 0 <= j < s2.len() implies levels_view(s2)[j] == levels_view(s).update(
        i,
        l@,
    )[j] by {
        assert(levels_view(s2)[j] == s2[j]@);
        assert(levels_view(s)[j] == s[j]@);
        if j == i {
            assert(s2[j] == l);
        } else if j < i {
            assert(s2[j] == s.remove(i)[j]);
            assert(s.remove(i)[j] == s[j]);
        } else {
            assert(s2[j] == s.remove(i)[j - 1]);
            assert(s.remove(i)[j - 1] == s[j]);
        }
    }
}

proof fn lemma_view_remove(s: Seq<PriceLevel>, i: int)
    requires
        0 <= i < s.len(),
    ensures
        levels_view(s.remove(i)) =~= levels_view(s).remove(i),
{
    s.remove_ensures(i);
    levels_view(s).remove_ensures(i);
    assert forall|j: int| 0 <= j < s.remove(i).len() implies levels_view(s.remove(i))[j]
        == levels_view(s).remove(i)[j] by {
        assert(levels_view(s.remove(i))[j] == s.remove(i)[j]@);
        if j < i {
            assert(s.remove(i)[j] == s[j]);
            assert(levels_view(s).remove(i)[j] == levels_view(s)[j]);
            assert(levels_view(s)[j] == s[j]@);
        } else {
            assert(s.remove(i)[j] == s[j + 1]);
            assert(levels_view(s).remove(i)[j] == levels_view(s)[j + 1]);
            assert(levels_view(s)[j + 1] == s[j + 1]@);
        }
    }
}

// ---------------------------------------------------------------------
// The crossing, executable: plan, then apply
// ---------------------------------------------------------------------

/// The ladder as seen after consuming the first `li` whole levels and
/// the first `qi` makers of the level after them.
pub open spec fn suffix_of(ls: Seq<LevelV>, li: int, qi: int) -> Seq<LevelV> {
    if li >= ls.len() {
        Seq::empty()
    } else {
        seq![LevelV { price: ls[li].price, ids: ls[li].ids.skip(qi) }] + ls.skip(li + 1)
    }
}

/// Whether the book's accepted-flag set holds this flag.
fn flags_contain(flags: &Vec<OrderFlag>, flag: OrderFlag) -> (r: bool)
    ensures
        r == flags@.contains(flag),
{
    let n = flags.len();
    let mut i: usize = 0;
    while i < n
        invariant
            n == flags@.len(),
            0 <= i <= n,
            forall|k: int| 0 <= k < i ==> flags@[k] != flag,
        decreases n - i,
    {
        if flags[i] == flag {
            assert(flags@.contains(flag)) by {
                assert(flags@[i as int] == flag);
            }
            return true;
        }
        i = i + 1;
    }
    false
}

/// Walks the opposite ladder read-only and computes what the crossing
/// will consume: the complete fills, the partial maker, the matched
/// volume and its price-weighted sum, and how far the walk got (whole
/// levels, then makers of the next level).
#[verifier::rlimit(30)]
fn plan_crossing(
    levels: &Vec<PriceLevel>,
    registry: &OrderRegistry,
    side: Side,
    price: FloatAsLong,
    to_fill: i64,
    Ghost(mside): Ghost<Side>,
) -> (r: (Vec<(Id, i64)>, Option<(Id, i64, FloatAsLong)>, i64, i128, usize, usize))
    requires
        to_fill >= 0,
        side == Side::BUY ==> mside == Side::SELL,
        side == Side::SELL ==> mside == Side::BUY,
        mside == Side::BUY ==> sorted_desc(levels_view(levels@)),
        mside == Side::SELL ==> sorted_asc(levels_view(levels@)),
        levels_nonempty(levels_view(levels@)),
        ladder_distinct(levels_view(levels@)),
        ladder_consistent(levels_view(levels@), registry.reg_view(), mside),
    ensures
        ({
            let p = match_plan(
                levels_view(levels@),
                registry.reg_view(),
                side,
                price.value as int,
                to_fill as int,
            );
            &&& p.fills == r.0@.map_values(|f: (Id, i64)| (f.0, f.1 as int))
            &&& p.partial == (match r.1 {
                Some(pt) => Some((pt.0, pt.1 as int, pt.2.value as int)),
                None => None,
            })
            &&& p.filled == r.2
            &&& p.wsum == r.3
            &&& p.rest == suffix_of(levels_view(levels@), r.4 as int, r.5 as int)
            &&& r.4 <= levels@.len()
            &&& (r.4 < levels@.len() ==> r.5 < levels@[r.4 as int].queue@.len())
            &&& (r.4 == levels@.len() ==> r.5 == 0)
            &&& 0 <= r.2 <= to_fill
        }),
{
    let ghost lvw = levels_view(levels@);
    let ghost reg = registry.reg_view();
    let ghost pr = price.value as int;
    let ghost plan = match_plan(lvw, reg, side, pr, to_fill as int);
    let mut fills: Vec<(Id, i64)> = Vec::new();
    let mut partial: Option<(Id, i64, FloatAsLong)> = None;
    let mut filled: i64 = 0;
    let mut wsum: i128 = 0;
    let mut li: usize = 0;
    let mut qi: usize = 0;
    proof {
        if lvw.len() > 0 {
            assert(lvw[0].ids.skip(0) =~= lvw[0].ids);
            assert(suffix_of(lvw, 0, 0) =~= lvw);
        } else {
            assert(suffix_of(lvw, 0, 0) =~= lvw);
        }
        assert(fills@.map_values(|f: (Id, i64)| (f.0, f.1 as int)) =~= Seq::<(Id, int)>::empty());
        assert(plan.fills =~= Seq::<(Id, int)>::empty() + plan.fills);
    }
    loop
        invariant_except_break
            lvw == levels_view(levels@),
            reg == registry.reg_view(),
            pr == price.value as int,
            plan == match_plan(lvw, reg, side, pr, to_fill as int),
            to_fill >= 0,
            side == Side::BUY ==> mside == Side::SELL,
            side == Side::SELL ==> mside == Side::BUY,
            mside == Side::BUY ==> sorted_desc(lvw),
            mside == Side::SELL ==> sorted_asc(lvw),
            levels_nonempty(lvw),
            ladder_distinct(lvw),
            ladder_consistent(lvw, reg, mside),
            li <= lvw.len(),
            li < lvw.len() ==> qi < lvw[li as int].ids.len(),
            li == lvw.len() ==> qi == 0,
            partial is None,
            0 <= filled <= to_fill,
            mside == Side::BUY ==> sorted_desc(suffix_of(lvw, li as int, qi as int)),
            mside == Side::SELL ==> sorted_asc(suffix_of(lvw, li as int, qi as int)),
            levels_nonempty(suffix_of(lvw, li as int, qi as int)),
            ladder_distinct(suffix_of(lvw, li as int, qi as int)),
            ladder_consistent(suffix_of(lvw, li as int, qi as int), reg, mside),
            ({
                let sub = match_plan(
                    suffix_of(lvw, li as int, qi as int),
                    reg,
                    side,
                    pr,
                    to_fill - filled,
                );
                &&& plan.fills == fills@.map_values(|f: (Id, i64)| (f.0, f.1 as int)) + sub.fills
                &&& plan.partial == sub.partial
                &&& plan.filled == filled + sub.filled
                &&& plan.wsum == wsum + sub.wsum
                &&& plan.rest == sub.rest
            }),
            (i64::MIN as int) * filled <= wsum <= (i64::MAX as int) * filled,
        ensures
            lvw == levels_view(levels@),
            reg == registry.reg_view(),
            plan == match_plan(lvw, reg, side, pr, to_fill as int),
            plan.fills == fills@.map_values(|f: (Id, i64)| (f.0, f.1 as int)),
            plan.partial == (match partial {
                Some(pt) => Some((pt.0, pt.1 as int, pt.2.value as int)),
                None => None,
            }),
            plan.filled == filled,
            plan.wsum == wsum,
            plan.rest == suffix_of(lvw, li as int, qi as int),
            li <= lvw.len(),
            li < lvw.len() ==> qi < lvw[li as int].ids.len(),
            li == lvw.len() ==> qi == 0,
            0 <= filled <= to_fill,
        decreases lvw.len() - li, (if (li as int) < lvw.len() {
            lvw[li as int].ids.len() - qi
        } else {
            0
        }),
    {
        let ghost cur = suffix_of(lvw, li as int, qi as int);
        let ghost nr = to_fill - filled;
        let ghost sub = match_plan(cur, reg, side, pr, nr as int);
        if filled == to_fill {
            proof {
                assert(sub.fills =~= Seq::<(Id, int)>::empty());
                assert(plan.fills =~= fills@.map_values(|f: (Id, i64)| (f.0, f.1 as int)));
            }
            break;
        }
        if li == levels.len() {
            proof {
                assert(cur =~= Seq::<LevelV>::empty());
                assert(sub.fills =~= Seq::<(Id, int)>::empty());
                assert(plan.fills =~= fills@.map_values(|f: (Id, i64)| (f.0, f.1 as int)));
            }
            break;
        }
        let lvl_price = levels[li].price;
        proof {
            assert(lvw[li as int] == levels@[li as int]@);
            assert(cur[0].price == lvw[li as int].price);
            assert(cur[0].ids == lvw[li as int].ids.skip(qi as int));
        }
        let crossing = match side {
            Side::BUY => price.value >= lvl_price.value,
            Side::SELL => price.value <= lvl_price.value,
        };
        if !crossing {
            proof {
                assert(!crosses(side, pr, cur[0].price));
                assert(sub.fills =~= Seq::<(Id, int)>::empty());
                assert(plan.fills =~= fills@.map_values(|f: (Id, i64)| (f.0, f.1 as int)));
            }
            break;
        }
        let m = levels[li].queue[qi];
        proof {
            assert(cur[0].ids[0] == lvw[li as int].ids[qi as int]);
            assert(lvw[li as int].ids[qi as int] == m);
            assert(cur[0].ids.len() > 0);
            assert(cur.len() > 0);
            assert(nr > 0);
        }
        let maker = match registry.get(m) {
            Ok(o) => o,
            Err(_) => {
                proof {
                    assert(cur[0].ids[0] == m);
                    assert(reg.contains_key(m));
                    assert(false);
                }
                return (Vec::new(), None, 0, 0, 0, 0);
            },
        };
        proof {
            assert(cur[0].ids[0] == m);
            assert(reg[m].wf());
        }
        let avail = maker.get_volume_left();
        proof {
            assert(avail.value == volume_left_of(reg, m));
            assert(avail.value >= 0);
        }
        let need_now = to_fill - filled;
        if avail.value > need_now {
            proof {
                // this step is the partial case of the plan
                assert(sub.partial == Some((m, nr as int, cur[0].price)));
                assert(sub.filled == nr as int);
                assert(sub.wsum == cur[0].price * nr);
                assert(sub.rest == cur);
                assert(plan.filled == filled + nr);
                assert(plan.fills =~= fills@.map_values(|f: (Id, i64)| (f.0, f.1 as int)));
                assert(cur[0].price == lvl_price.value as int);
                assert((i64::MIN as int) * nr <= (lvl_price.value as int) * nr <= (
                i64::MAX as int) * nr)
                    by (nonlinear_arith)
                    requires
                        nr > 0,
                        i64::MIN as int <= lvl_price.value as int <= i64::MAX as int,
                ;
                assert((i64::MIN as int) * (filled + nr) == (i64::MIN as int) * filled + (
                i64::MIN as int) * nr) by (nonlinear_arith);
                assert((i64::MAX as int) * (filled + nr) == (i64::MAX as int) * filled + (
                i64::MAX as int) * nr) by (nonlinear_arith);
            }
            partial = Some((m, need_now, lvl_price));
            wsum = wsum + (lvl_price.value as i128) * (need_now as i128);
            filled = to_fill;
            break;
        } else {
            proof {
                // this step is one complete fill of the plan
                lemma_ladder_step(cur, reg, mside);
                let ls2 = if cur[0].ids.len() == 1 {
                    cur.drop_first()
                } else {
                    cur.update(0, LevelV { price: cur[0].price, ids: cur[0].ids.drop_first() })
                };
                let sub2 = match_plan(ls2, reg, side, pr, nr - avail.value);
                lemma_plan_props(ls2, reg, side, mside, pr, nr - avail.value);
                lemma_sum_fills_cons((m, avail.value as int), sub2.fills);
                assert(sub.fills == seq![(m, avail.value as int)] + sub2.fills);
                assert(sub.filled == avail.value + sub2.filled);
                assert(sub.wsum == cur[0].price * avail.value + sub2.wsum);
                assert(sub.rest == sub2.rest);
                // the next suffix equals the plan's stepped ladder
                if qi + 1 < lvw[li as int].ids.len() {
                    assert(cur[0].ids.len() == lvw[li as int].ids.len() - qi);
                    assert(cur[0].ids.len() > 1);
                    assert(cur[0].ids.drop_first() =~= lvw[li as int].ids.skip(qi as int + 1));
                    assert(ls2 =~= suffix_of(lvw, li as int, qi as int + 1));
                } else {
                    assert(cur[0].ids.len() == 1);
                    assert(ls2 == cur.drop_first());
                    assert(cur.drop_first() =~= lvw.skip(li as int + 1));
                    if li as int + 1 < lvw.len() {
                        assert(lvw[li as int + 1].ids.skip(0) =~= lvw[li as int + 1].ids);
                        assert(suffix_of(lvw, li as int + 1, 0) =~= lvw.skip(li as int + 1));
                    } else {
                        assert(suffix_of(lvw, li as int + 1, 0) =~= lvw.skip(li as int + 1));
                    }
                    assert(ls2 =~= suffix_of(lvw, li as int + 1, 0));
                }
                // re-glue with the fill appended
                let fg = fills@.map_values(|f: (Id, i64)| (f.0, f.1 as int));
                let fg2 = fills@.push((m, avail.value)).map_values(
                    |f: (Id, i64)| (f.0, f.1 as int),
                );
                assert(fg2 =~= fg.push((m, avail.value as int)));
                assert(plan.fills == fg + (seq![(m, avail.value as int)] + sub2.fills));
                assert(fg + (seq![(m, avail.value as int)] + sub2.fills) =~= fg.push(
                    (m, avail.value as int),
                ) + sub2.fills);
                // volume and weight bounds
                assert(0 <= sub2.filled);
                assert(plan.filled <= to_fill);
                assert(plan.filled == filled + avail.value + sub2.filled);
                assert(filled + avail.value <= to_fill);
                assert(cur[0].price == lvl_price.value as int);
                assert((i64::MIN as int) * (avail.value as int) <= (lvl_price.value as int) * (
                avail.value as int) <= (i64::MAX as int) * (avail.value as int))
                    by (nonlinear_arith)
                    requires
                        avail.value >= 0,
                        i64::MIN as int <= lvl_price.value as int <= i64::MAX as int,
                ;
                assert((i64::MIN as int) * (filled + avail.value) == (i64::MIN as int) * filled + (
                i64::MIN as int) * (avail.value as int)) by (nonlinear_arith);
                assert((i64::MAX as int) * (filled + avail.value) == (i64::MAX as int) * filled + (
                i64::MAX as int) * (avail.value as int)) by (nonlinear_arith);
                assert((i64::MIN as int) * filled >= (i64::MIN as int) * (i64::MAX as int))
                    by (nonlinear_arith)
                    requires
                        0 <= filled <= i64::MAX as int,
                ;
                assert((i64::MAX as int) * filled <= (i64::MAX as int) * (i64::MAX as int))
                    by (nonlinear_arith)
                    requires
                        0 <= filled <= i64::MAX as int,
                ;
            }
            fills.push((m, avail.value));
            wsum = wsum + (lvl_price.value as i128) * (avail.value as i128);
            filled = filled + avail.value;
            let qlen = levels[li].queue.len();
            assert(qi < qlen);
            qi = qi + 1;
            if qi == qlen {
                li = li + 1;
                qi = 0;
            }
        }
    }
    proof {
        assert(plan.filled == filled);
    }
    (fills, partial, filled, wsum, li, qi)
}

proof fn lemma_view_insert(s: Seq<PriceLevel>, i: int, l: PriceLevel)
    requires
        0 <= i <= s.len(),
    ensures
        levels_view(s.insert(i, l)) =~= levels_view(s).insert(i, l@),
{
    let s2 = s.insert(i, l);
    s.insert_ensures(i, l);
    levels_view(s).insert_ensures(i, l@);
    assert forall|j: int| 0 <= j < s2.len() implies levels_view(s2)[j] == levels_view(s).insert(
        i,
        l@,
    )[j] by {
        assert(levels_view(s2)[j] == s2[j]@);
        if j < i {
            assert(s2[j] == s[j]);
            assert(levels_view(s).insert(i, l@)[j] == levels_view(s)[j]);
            assert(levels_view(s)[j] == s[j]@);
        } else if j == i {
            assert(s2[j] == l);
        } else {
            assert(s2[j] == s[j - 1]);
            assert(levels_view(s).insert(i, l@)[j] == levels_view(s)[j - 1]);
            assert(levels_view(s)[j - 1] == s[j - 1]@);
        }
    }
}

/// Removes the consumed prefix of a ladder: `drop_levels` whole levels,
/// then `drop_orders` makers from the head of the next level.
fn consume_front(levels: &mut Vec<PriceLevel>, drop_levels: usize, drop_orders: usize)
    requires
        drop_levels <= old(levels)@.len(),
        drop_levels < old(levels)@.len() ==> drop_orders < old(levels)@[
            drop_levels as int
        ].queue@.len(),
        drop_levels == old(levels)@.len() ==> drop_orders == 0,
    ensures
        levels_view(final(levels)@) == suffix_of(
            levels_view(old(levels)@),
            drop_levels as int,
            drop_orders as int,
        ),
{
    let ghost lv0 = old(levels)@;
    let mut dropped: usize = 0;
    while dropped < drop_levels
        invariant
            dropped <= drop_levels,
            drop_levels <= lv0.len(),
            levels@ =~= lv0.skip(dropped as int),
        decreases drop_levels - dropped,
    {
        assert(levels@.len() == lv0.len() - dropped > 0);
        levels.remove(0);
        proof {
            assert(lv0.skip(dropped as int).remove(0) =~= lv0.skip(dropped as int + 1));
        }
        dropped = dropped + 1;
    }
    assert(levels@ =~= lv0.skip(drop_levels as int));
    if drop_orders > 0 {
        assert(levels@.len() > 0);
        let lvl = levels.remove(0);
        assert(lvl == lv0[drop_levels as int]);
        let mut q2: Vec<Id> = Vec::new();
        let n = lvl.queue.len();
        let mut i: usize = drop_orders;
        while i < n
            invariant
                drop_orders <= i <= n,
                n == lvl.queue@.len(),
                q2@ =~= lvl.queue@.subrange(drop_orders as int, i as int),
            decreases n - i,
        {
            q2.push(lvl.queue[i]);
            proof {
                assert(lvl.queue@.subrange(drop_orders as int, i as int + 1)
                    =~= lvl.queue@.subrange(drop_orders as int, i as int).push(
                    lvl.queue@[i as int],
                ));
            }
            i = i + 1;
        }
        proof {
            assert(q2@ =~= lvl.queue@.skip(drop_orders as int));
        }
        let ghost base = lv0.skip(drop_levels as int).remove(0);
        let lvl2 = PriceLevel { price: lvl.price, queue: q2 };
        let ghost l2v = lvl2@;
        levels.insert(0, lvl2);
        proof {
            assert(levels@ == base.insert(0, lvl2));
            assert(base =~= lv0.skip(drop_levels as int + 1));
            base.insert_ensures(0, lvl2);
            let target = suffix_of(levels_view(lv0), drop_levels as int, drop_orders as int);
            assert(levels_view(lv0)[drop_levels as int] == lv0[drop_levels as int]@);
            assert(l2v.ids =~= levels_view(lv0)[drop_levels as int].ids.skip(drop_orders as int));
            assert forall|j: int| 0 <= j < levels@.len() implies levels_view(levels@)[j]
                == target[j] by {
                assert(levels_view(levels@)[j] == levels@[j]@);
                if j == 0 {
                    assert(levels@[0] == lvl2);
                    assert(target[0] == (LevelV {
                        price: levels_view(lv0)[drop_levels as int].price,
                        ids: levels_view(lv0)[drop_levels as int].ids.skip(drop_orders as int),
                    }));
                    assert(l2v.price == target[0].price);
                    assert(l2v.ids == target[0].ids);
                    assert(l2v =~= target[0]);
                } else {
                    assert(levels@[j] == base[j - 1]);
                    assert(base[j - 1] == lv0[drop_levels as int + j]);
                    assert(target[j] == levels_view(lv0).skip(drop_levels as int + 1)[j - 1]);
                    assert(levels_view(lv0).skip(drop_levels as int + 1)[j - 1] == levels_view(
                        lv0,
                    )[drop_levels as int + j]);
                    assert(levels_view(lv0)[drop_levels as int + j] == lv0[
                        drop_levels as int + j
                    ]@);
                }
            }
            assert(levels_view(levels@).len() == target.len());
            assert(levels_view(levels@) =~= target);
        }
    } else {
        proof {
            let target = suffix_of(levels_view(lv0), drop_levels as int, 0);
            if drop_levels < lv0.len() {
                assert forall|j: int| 0 <= j < levels@.len() implies levels_view(levels@)[j]
                    == target[j] by {
                    assert(levels_view(levels@)[j] == levels@[j]@);
                    assert(levels@[j] == lv0[drop_levels as int + j]);
                    if j == 0 {
                        assert(target[0].price == levels_view(lv0)[drop_levels as int].price);
                        assert(target[0].ids =~= lv0[drop_levels as int].queue@.skip(0));
                    } else {
                        assert(target[j] == levels_view(lv0).skip(drop_levels as int + 1)[j - 1]);
                        assert(levels_view(lv0).skip(drop_levels as int + 1)[j - 1] == levels_view(
                            lv0,
                        )[drop_levels as int + j]);
                        assert(levels_view(lv0)[drop_levels as int + j] == lv0[
                            drop_levels as int + j
                        ]@);
                    }
                }
                assert(levels_view(levels@) =~= target);
            } else {
                assert(levels@ =~= Seq::<PriceLevel>::empty());
                assert(levels_view(levels@) =~= target);
            }
        }
    }
}

/// Applies the complete fills of a crossing to the registry, in order.
fn apply_plan_fills(registry: &mut OrderRegistry, fills: &Vec<(Id, i64)>)
    requires
        ({
            let fg = fills@.map_values(|f: (Id, i64)| (f.0, f.1 as int));
            &&& forall|i: int|
                0 <= i < fg.len() ==> {
                    let f = #[trigger] fg[i];
                    &&& old(registry).reg_view().contains_key(f.0)
                    &&& f.1 == volume_left_of(old(registry).reg_view(), f.0)
                    &&& old(registry).reg_view()[f.0].wf()
                }
            &&& forall|i: int, j: int|
                #![trigger fg[i], fg[j]]
                0 <= i < j < fg.len() ==> fg[i].0 != fg[j].0
        }),
    ensures
        final(registry).reg_view() == apply_fills(
            old(registry).reg_view(),
            fills@.map_values(|f: (Id, i64)| (f.0, f.1 as int)),
        ),
        final(registry).tracker.next_id == old(registry).tracker.next_id,
{
    let ghost reg0 = old(registry).reg_view();
    let ghost fg = fills@.map_values(|f: (Id, i64)| (f.0, f.1 as int));
    let n = fills.len();
    let mut i: usize = 0;
    proof {
        assert(fg.take(0) =~= Seq::<(Id, int)>::empty());
    }
    while i < n
        invariant
            n == fills@.len(),
            0 <= i <= n,
            fg == fills@.map_values(|f: (Id, i64)| (f.0, f.1 as int)),
            forall|k: int|
                0 <= k < fg.len() ==> {
                    let f = #[trigger] fg[k];
                    &&& reg0.contains_key(f.0)
                    &&& f.1 == volume_left_of(reg0, f.0)
                    &&& reg0[f.0].wf()
                },
            forall|k: int, j: int|
                #![trigger fg[k], fg[j]]
                0 <= k < j < fg.len() ==> fg[k].0 != fg[j].0,
            registry.reg_view() == apply_fills(reg0, fg.take(i as int)),
            registry.tracker.next_id == old(registry).tracker.next_id,
            reg0 == old(registry).reg_view(),
        decreases n - i,
    {
        let (m, d) = fills[i];
        proof {
            assert(fg[i as int] == (m, d as int));
            assert(forall|k: int|
                0 <= k < fg.take(i as int).len() ==> (#[trigger] fg.take(i as int)[k]).0 != m);
            lemma_apply_fills_frame(reg0, fg.take(i as int), m);
            assert(registry.reg_view()[m] == reg0[m]);
            assert(d as int == reg0[m].volume.value - reg0[m].filled.value);
        }
        let res = registry.set_filled(m, FloatAsLong { value: d });
        proof {
            assert(res is Ok);
            assert(fg.take(i as int + 1).drop_last() =~= fg.take(i as int));
            assert(fg.take(i as int + 1).last() == fg[i as int]);
            assert(apply_fills(reg0, fg.take(i as int + 1)) == add_fill(
                apply_fills(reg0, fg.take(i as int)),
                m,
                d as int,
            ));
            assert(registry.reg_view() =~= add_fill(
                apply_fills(reg0, fg.take(i as int)),
                m,
                d as int,
            ));
        }
        i = i + 1;
    }
    proof {
        assert(fg.take(n as int) =~= fg);
    }
}

/// Rests a residual taker on its own ladder at its price.
fn rest_taker(levels: &mut Vec<PriceLevel>, side: Side, price: FloatAsLong, id: Id)
    requires
        side == Side::BUY ==> sorted_desc(levels_view(old(levels)@)),
        side == Side::SELL ==> sorted_asc(levels_view(old(levels)@)),
    ensures
        levels_view(final(levels)@) == rest_order(
            levels_view(old(levels)@),
            side,
            price.value as int,
            id,
        ),
{
    let ghost lvw = levels_view(old(levels)@);
    let ghost p = price.value as int;
    match find_level(levels, price) {
        Some(i) => {
            proof {
                lemma_level_at_unique(lvw, p, i as int);
            }
            let mut lvl = levels.remove(i);
            lvl.queue.push(id);
            let ghost l2 = lvl;
            levels.insert(i, lvl);
            proof {
                lemma_view_update(old(levels)@, i as int, l2);
                let target = rest_order(lvw, side, p, id);
                assert(l2@.price == p);
                assert(l2@.ids == lvw[i as int].ids.push(id));
                assert(target == lvw.update(i as int, LevelV { price: p, ids: lvw[
                    i as int
                ].ids.push(id) }));
                assert(levels_view(levels@) =~= target);
            }
        },
        None => {
            let n = levels.len();
            let mut pos: usize = 0;
            proof {
                assert(lvw.skip(0) =~= lvw);
            }
            loop
                invariant_except_break
                    n == levels@.len(),
                    0 <= pos <= n,
                    lvw == levels_view(levels@),
                    p == price.value as int,
                    side == Side::BUY ==> sorted_desc(lvw),
                    side == Side::SELL ==> sorted_asc(lvw),
                    insert_pos(lvw, side, p) == pos + insert_pos(
                        lvw.skip(pos as int),
                        side,
                        p,
                    ),
                ensures
                    n == levels@.len(),
                    lvw == levels_view(levels@),
                    0 <= pos <= n,
                    insert_pos(lvw, side, p) == pos,
                decreases n - pos,
            {
                if pos == n {
                    proof {
                        assert(lvw.skip(pos as int).len() == 0);
                    }
                    break;
                }
                assert(lvw[pos as int] == levels@[pos as int]@);
                let better = match side {
                    Side::BUY => levels[pos].price.value > price.value,
                    Side::SELL => levels[pos].price.value < price.value,
                };
                let ghost tail = lvw.skip(pos as int);
                proof {
                    assert(tail[0] == lvw[pos as int]);
                }
                if !better {
                    proof {
                        assert(insert_pos(tail, side, p) == 0);
                    }
                    break;
                }
                proof {
                    assert(tail.drop_first() =~= lvw.skip(pos as int + 1));
                    assert(insert_pos(tail, side, p) == 1 + insert_pos(
                        lvw.skip(pos as int + 1),
                        side,
                        p,
                    ));
                }
                pos = pos + 1;
            }
            let mut q: Vec<Id> = Vec::new();
            q.push(id);
            let lvl = PriceLevel { price, queue: q };
            let ghost l2 = lvl;
            levels.insert(pos, lvl);
            proof {
                lemma_view_insert(old(levels)@, pos as int, l2);
                let target = rest_order(lvw, side, p, id);
                assert(l2@.price == p);
                assert(l2@.ids =~= seq![id]);
                assert(l2@ == (LevelV { price: p, ids: seq![id] }));
                assert(target == lvw.insert(insert_pos(lvw, side, p), LevelV {
                    price: p,
                    ids: seq![id],
                }));
                assert(levels_view(levels@) =~= target);
            }
        },
    }
}

// ---------------------------------------------------------------------
// The book: construction, queries, cancel and modify
// ---------------------------------------------------------------------

/// The `(price, volume, count)` triple that a depth query reports for the
/// `k`-th level of a ladder: the aggregate remaining volume saturates at
/// the largest representable value, and an absent level reports zeroes.
pub open spec fn spec_level_snapshot(ls: Seq<LevelV>, reg: Map<Id, Order>, k: int) -> (int, int, int) {
    if 0 <= k < ls.len() {
        let v = queue_volume(reg, ls[k].ids);
        (ls[k].price, if v > i64::MAX as int { i64::MAX as int } else { v }, ls[k].ids.len() as int)
    } else {
        (0, 0, 0)
    }
}

impl LimitOrderBook {
    /// A new, empty book. A missing `order_flags` set means "NONE only".
    pub fn new(instrument_id: Id, exchange: ExchangeType, order_flags: Option<Vec<OrderFlag>>) -> (r:
        LimitOrderBook)
        ensures
            r.instrument_id == instrument_id,
            r.exchange == exchange,
            r.order_flags@ == if order_flags is Some { order_flags->Some_0@ } else {
                Seq::<OrderFlag>::empty()
            },
            r@.bids == Seq::<LevelV>::empty(),
            r@.asks == Seq::<LevelV>::empty(),
            forall|reg: Map<Id, Order>| r@.inv(reg),
    {
        let flags: Vec<OrderFlag> = match order_flags {
            Some(f) => f,
            None => Vec::new(),
        };
        let r = LimitOrderBook {
            instrument_id,
            exchange,
            order_flags: flags,
            buys: Vec::new(),
            sells: Vec::new(),
        };
        proof {
            assert(r@.bids =~= Seq::<LevelV>::empty());
            assert(r@.asks =~= Seq::<LevelV>::empty());
        }
        r
    }

    pub fn get_instrument(&self) -> (r: Id)
        ensures
            r == self.instrument_id,
    {
        self.instrument_id
    }

    pub fn get_instrument_id(&self) -> (r: Id)
        ensures
            r == self.instrument_id,
    {
        self.instrument_id
    }

    pub fn get_exchange(&self) -> (r: ExchangeType)
        ensures
            r == self.exchange,
    {
        self.exchange
    }

    pub fn get_order_flags(&self) -> (r: Vec<OrderFlag>)
        ensures
            r@ == self.order_flags@,
    {
        let mut out: Vec<OrderFlag> = Vec::new();
        let n = self.order_flags.len();
        let mut i: usize = 0;
        while i < n
            invariant
                n == self.order_flags@.len(),
                0 <= i <= n,
                out@ =~= self.order_flags@.take(i as int),
            decreases n - i,
        {
            out.push(self.order_flags[i]);
            i = i + 1;
        }
        proof {
            assert(out@ =~= self.order_flags@);
        }
        out
    }

    /// The `(bid, ask)` views of the `k`-th levels of the two ladders.
    pub fn get_level(&self, registry: &OrderRegistry, level: usize) -> (r: (
        PriceLevelView,
        PriceLevelView,
    ))
        requires
            self@.inv(registry.reg_view()),
        ensures
            ({
                let bv = spec_level_snapshot(self@.bids, registry.reg_view(), level as int);
                let av = spec_level_snapshot(self@.asks, registry.reg_view(), level as int);
                &&& r.0.price.value == bv.0
                &&& r.0.volume.value == bv.1
                &&& r.0.count == bv.2
                &&& r.1.price.value == av.0
                &&& r.1.volume.value == av.1
                &&& r.1.count == av.2
            }),
    {
        let bid = self.level_view_of(registry, &self.buys, level, Ghost(self@.bids), Ghost(Side::BUY));
        let ask = self.level_view_of(registry, &self.sells, level, Ghost(self@.asks), Ghost(Side::SELL));
        (bid, ask)
    }

    /// The view of the `k`-th level of one ladder.
    fn level_view_of(
        &self,
        registry: &OrderRegistry,
        side_levels: &Vec<PriceLevel>,
        level: usize,
        Ghost(lv): Ghost<Seq<LevelV>>,
        Ghost(side): Ghost<Side>,
    ) -> (r: PriceLevelView)
        requires
            lv == levels_view(side_levels@),
            ladder_consistent(lv, registry.reg_view(), side),
        ensures
            ({
                let sv = spec_level_snapshot(lv, registry.reg_view(), level as int);
                r.price.value == sv.0 && r.volume.value == sv.1 && r.count == sv.2
            }),
    {
        if level >= side_levels.len() {
            return PriceLevelView::new(FloatAsLong::zero(), FloatAsLong::zero(), 0);
        }
        let lvl = &side_levels[level];
        assert(lv[level as int] == side_levels@[level as int]@);
        assert forall|k: int| 0 <= k < lvl.queue@.len() implies registry.reg_view().contains_key(
            #[trigger] lvl.queue@[k],
        ) && registry.reg_view()[lvl.queue@[k]].wf() by {
            assert(lv[level as int].ids[k] == lvl.queue@[k]);
        }
        let v = queue_volume_exec(registry, &lvl.queue);
        let v64: i64 = if v > i64::MAX as i128 {
            i64::MAX
        } else {
            v as i64
        };
        PriceLevelView::new(lvl.price, FloatAsLong { value: v64 }, lvl.queue.len())
    }

    /// Submits the order with this id to the book: it crosses the
    /// opposite ladder under price-time priority as far as its price and
    /// remaining volume allow, fills the consumed makers through the
    /// registry, and rests any LIMIT residual at its price. Returns the
    /// single TRADE event when volume matched, else no events.
    /// `NotFound` for an unknown id, `Corruption` for a taker with a
    /// broken fill state, `Unimplemented` for the deferred residual
    /// paths (flagged orders, STOP), each leaving the state untouched.
    #[verifier::rlimit(50)]
    pub fn add(&mut self, registry: &mut OrderRegistry, order_id: Id) -> (r: Result<
        Vec<Event>,
        CoreError,
    >)
        requires
            old(self)@.inv(old(registry).reg_view()),
            !old(self)@.has_id(order_id),
        ensures
            ({
                let eff = spec_add(
                    old(self)@,
                    old(self).order_flags@,
                    old(registry).reg_view(),
                    order_id,
                );
                &&& final(self)@.bids == eff.bids
                &&& final(self)@.asks == eff.asks
                &&& final(registry).reg_view() == eff.reg
                &&& final(registry).tracker.next_id == old(registry).tracker.next_id
                &&& (r is Ok <==> eff.err is None)
                &&& (r is Err ==> r->Err_0 == eff.err->Some_0 && *final(self) == *old(self)
                    && *final(registry) == *old(registry))
                &&& (r is Ok ==> trade_events_match(r->Ok_0@, eff.trade))
                &&& final(self)@.inv(final(registry).reg_view())
                &&& final(self).instrument_id == old(self).instrument_id
                &&& final(self).exchange == old(self).exchange
                &&& final(self).order_flags == old(self).order_flags
            }),
    {
        let ghost b0 = self@;
        let ghost reg0 = registry.reg_view();
        let ghost eff = spec_add(b0, old(self).order_flags@, reg0, order_id);
        proof {
            lemma_add_preserves_inv(b0, old(self).order_flags@, reg0, order_id);
        }
        let order = match registry.get(order_id) {
            Ok(o) => o,
            Err(e) => {
                return Err(e);
            },
        };
        if !(0 <= order.get_filled().value && order.get_filled().value
            <= order.get_volume().value) {
            return Err(CoreError::Corruption);
        }
        match order.get_order_flag() {
            OrderFlag::NONE => {},
            flag => {
                if !flags_contain(&self.order_flags, flag) {
                    return Err(CoreError::Unimplemented);
                }
            },
        }
        let side = order.get_side();
        let price = order.get_price();
        let to_fill = order.get_volume_left();
        let ghost mside = if side == Side::BUY {
            Side::SELL
        } else {
            Side::BUY
        };
        let ghost opp0 = if side == Side::BUY {
            b0.asks
        } else {
            b0.bids
        };
        let ghost own0 = if side == Side::BUY {
            b0.bids
        } else {
            b0.asks
        };
        let ghost pr = price.value as int;
        let ghost need = to_fill.value as int;
        let ghost plan = match_plan(opp0, reg0, side, pr, need);
        proof {
            lemma_plan_props(opp0, reg0, side, mside, pr, need);
        }
        let (fills, partial, filled, wsum, li, qi) = match side {
            Side::BUY => plan_crossing(
                &self.sells,
                registry,
                side,
                price,
                to_fill.value,
                Ghost(mside),
            ),
            Side::SELL => plan_crossing(
                &self.buys,
                registry,
                side,
                price,
                to_fill.value,
                Ghost(mside),
            ),
        };
        let ghost fg = fills@.map_values(|f: (Id, i64)| (f.0, f.1 as int));
        proof {
            assert(plan.fills == fg);
            assert(plan.filled == filled);
            assert(plan.wsum == wsum);
        }
        let resid = filled < to_fill.value;
        if resid {
            let flag_ok = match order.get_order_flag() {
                OrderFlag::NONE => true,
                _ => false,
            };
            let type_ok = match order.get_order_type() {
                OrderType::LIMIT => true,
                OrderType::MARKET => true,
                _ => false,
            };
            if !(flag_ok && type_ok) {
                return Err(CoreError::Unimplemented);
            }
        }
        proof {
            assert(eff.err is None);
        }
        // consume the matched prefix of the opposite ladder
        match side {
            Side::BUY => {
                consume_front(&mut self.sells, li, qi);
            },
            Side::SELL => {
                consume_front(&mut self.buys, li, qi);
            },
        }
        proof {
            assert(suffix_of(opp0, li as int, qi as int) == plan.rest);
        }
        // fill the consumed makers
        proof {
            assert forall|i: int| 0 <= i < fg.len() implies {
                let f = #[trigger] fg[i];
                &&& reg0.contains_key(f.0)
                &&& f.1 == volume_left_of(reg0, f.0)
                &&& reg0[f.0].wf()
            } by {
                assert(plan.fills[i] == fg[i]);
                assert(ladder_has_id(opp0, fg[i].0));
                lemma_member_record(opp0, reg0, mside, fg[i].0);
            }
        }
        apply_plan_fills(registry, &fills);
        let ghost reg1 = apply_fills(reg0, plan.fills);
        proof {
            assert(registry.reg_view() == reg1);
        }
        // fill the partial maker, which stays at the head of its level
        match partial {
            Some((pm, pd, _pl)) => {
                proof {
                    let pt = plan.partial->Some_0;
                    assert(pt.0 == pm && pt.1 == pd as int);
                    assert(plan.rest[0].ids.contains(pm)) by {
                        assert(plan.rest[0].ids[0] == pm);
                    }
                    assert(ladder_has_id(plan.rest, pm)) by {
                        assert(plan.rest[0].ids.contains(pm));
                    }
                    lemma_member_record(plan.rest, reg0, mside, pm);
                    assert(forall|i: int|
                        0 <= i < plan.fills.len() ==> (#[trigger] plan.fills[i]).0 != pm);
                    lemma_apply_fills_frame(reg0, plan.fills, pm);
                    assert(reg1[pm] == reg0[pm]);
                    let nr = need - sum_fills(plan.fills);
                    assert(pt.1 == nr);
                    assert(0 < nr < volume_left_of(reg0, pm));
                    assert(0 <= reg0[pm].filled.value + pd <= reg0[pm].volume.value);
                }
                let res = registry.set_filled(pm, FloatAsLong { value: pd });
                proof {
                    assert(res is Ok);
                    assert(registry.reg_view() =~= add_fill(reg1, pm, pd as int));
                }
            },
            None => {},
        }
        let ghost reg2 = match plan.partial {
            Some(pt) => add_fill(reg1, pt.0, pt.1),
            None => reg1,
        };
        proof {
            assert(registry.reg_view() == reg2);
        }
        // rest a LIMIT residual: record its fill so far, then queue it
        let rests = resid && (match order.get_order_type() {
            OrderType::LIMIT => true,
            _ => false,
        });
        if rests {
            proof {
                assert(forall|i: int|
                    0 <= i < plan.fills.len() ==> (#[trigger] plan.fills[i]).0 != order_id) by {
                    if exists|i: int|
                        0 <= i < plan.fills.len() && (#[trigger] plan.fills[i]).0 == order_id {
                        let i = choose|i: int|
                            0 <= i < plan.fills.len() && (#[trigger] plan.fills[i]).0 == order_id;
                        assert(ladder_has_id(opp0, order_id));
                    }
                }
                lemma_apply_fills_frame(reg0, plan.fills, order_id);
                if plan.partial is Some {
                    let pt = plan.partial->Some_0;
                    assert(pt.0 != order_id) by {
                        if pt.0 == order_id {
                            assert(plan.rest[0].ids.contains(order_id)) by {
                                assert(plan.rest[0].ids[0] == pt.0);
                            }
                            assert(ladder_has_id(plan.rest, order_id)) by {
                                assert(plan.rest[0].ids.contains(order_id));
                            }
                            assert(ladder_has_id(opp0, order_id));
                        }
                    }
                }
                assert(reg2.contains_key(order_id) && reg2[order_id] == reg0[order_id]);
                assert(0 <= reg0[order_id].filled.value + filled <= reg0[order_id].volume.value);
            }
            let res = registry.set_filled(order_id, FloatAsLong { value: filled });
            proof {
                assert(res is Ok);
                assert(registry.reg_view() =~= add_fill(reg2, order_id, plan.filled));
            }
            match side {
                Side::BUY => {
                    proof {
                        assert(levels_view(self.buys@) == own0);
                    }
                    rest_taker(&mut self.buys, side, price, order_id);
                },
                Side::SELL => {
                    proof {
                        assert(levels_view(self.sells@) == own0);
                    }
                    rest_taker(&mut self.sells, side, price, order_id);
                },
            }
        }
        proof {
            assert(registry.reg_view() == eff.reg);
        }
        // the one TRADE event, when volume matched
        let mut events: Vec<Event> = Vec::new();
        if filled > 0 {
            let mut makers: Vec<Id> = Vec::new();
            let nf = fills.len();
            let mut i: usize = 0;
            while i < nf
                invariant
                    nf == fills@.len(),
                    0 <= i <= nf,
                    makers@ =~= fills@.take(i as int).map_values(|f: (Id, i64)| f.0),
                decreases nf - i,
            {
                makers.push(fills[i].0);
                proof {
                    assert(fills@.take(i as int + 1).drop_last() =~= fills@.take(i as int));
                    assert(fills@.take(i as int + 1).map_values(|f: (Id, i64)| f.0) =~= fills@.take(
                        i as int,
                    ).map_values(|f: (Id, i64)| f.0).push(fills@[i as int].0));
                }
                i = i + 1;
            }
            proof {
                assert(fills@.take(nf as int) =~= fills@);
                assert(makers@ =~= fills@.map_values(|f: (Id, i64)| f.0));
            }
            match partial {
                Some((pm, _pd, _pl)) => {
                    makers.push(pm);
                },
                None => {},
            }
            proof {
                let base = plan.fills.map_values(|f: (Id, int)| f.0);
                assert(base =~= fills@.map_values(|f: (Id, i64)| f.0));
                assert(makers@ =~= plan_makers(plan));
            }
            // volume-weighted average price over the matched makers
            let neg = wsum < 0;
            proof {
                assert((i64::MIN as int) * filled >= (i64::MIN as int) * (i64::MAX as int))
                    by (nonlinear_arith)
                    requires
                        0 <= filled <= i64::MAX as int,
                ;
                assert((i64::MAX as int) * filled <= (i64::MAX as int) * (i64::MAX as int))
                    by (nonlinear_arith)
                    requires
                        0 <= filled <= i64::MAX as int,
                ;
            }
            let aw: u128 = if neg {
                (-wsum) as u128
            } else {
                wsum as u128
            };
            let q: u128 = aw / (filled as u128);
            proof {
                assert(aw as int == if wsum >= 0 {
                    plan.wsum
                } else {
                    -plan.wsum
                });
            }
            let vwap: i64 = if neg {
                if q >= 9223372036854775808u128 {
                    i64::MIN
                } else {
                    -(q as i64)
                }
            } else {
                if q > i64::MAX as u128 {
                    i64::MAX
                } else {
                    q as i64
                }
            };
            proof {
                let dt = div_trunc(plan.wsum, plan.filled);
                if plan.wsum >= 0 {
                    assert(q as int == dt);
                } else {
                    assert(q as int == -dt);
                }
                assert(vwap as int == trade_vwap(plan.wsum, plan.filled));
            }
            let trade = Trade::new(
                0,
                Some(now_micros()),
                Some(order.get_instrument_id()),
                Some(order.get_exchange()),
                None,
                None,
                FloatAsLong { value: filled },
                FloatAsLong { value: vwap },
                makers,
                order_id,
            );
            events.push(Event { event_type: EventType::TRADE, target: EventData::Trade(trade) });
        }
        proof {
            if eff.trade is Some {
                assert(events@.len() == 1);
                assert(trade_events_match(events@, eff.trade));
            } else {
                assert(events@.len() == 0);
            }
            if side == Side::BUY {
                assert(final(self)@.asks == plan.rest);
                assert(final(self)@.bids == eff.bids);
            } else {
                assert(final(self)@.bids == plan.rest);
                assert(final(self)@.asks == eff.asks);
            }
        }
        Ok(events)
    }

    /// Cancels the existing order, then submits the replacement: exactly
    /// `cancel(existing)` followed by `add(replacement)`, with the event
    /// sequences concatenated in that order. The contract states the
    /// composition of the two transitions, so replaying the two calls
    /// yields the same final book, registry and events.
    pub fn replace(
        &mut self,
        registry: &mut OrderRegistry,
        existing_order_id: Id,
        replacement_order_id: Id,
    ) -> (r: Result<Vec<Event>, CoreError>)
        requires
            old(self)@.inv(old(registry).reg_view()),
            !old(self)@.has_id(replacement_order_id),
        ensures
            ({
                let c = spec_cancel(old(self)@, old(registry).reg_view(), existing_order_id);
                let b1 = BookV { bids: c.bids, asks: c.asks };
                let a = spec_add(
                    b1,
                    old(self).order_flags@,
                    old(registry).reg_view(),
                    replacement_order_id,
                );
                &&& (r is Ok <==> c.err is None && a.err is None)
                &&& (c.err is Some ==> r->Err_0 == c.err->Some_0 && *final(self) == *old(self)
                    && *final(registry) == *old(registry))
                &&& (c.err is None ==> {
                    &&& (a.err is Some ==> r->Err_0 == a.err->Some_0 && final(self)@.bids
                        == c.bids && final(self)@.asks == c.asks && *final(registry) == *old(
                        registry,
                    ))
                    &&& (a.err is None ==> {
                        &&& final(self)@.bids == a.bids
                        &&& final(self)@.asks == a.asks
                        &&& final(registry).reg_view() == a.reg
                        &&& final(registry).tracker.next_id == old(registry).tracker.next_id
                        &&& r->Ok_0@.len() >= 1
                        &&& r->Ok_0@[0] == (Event {
                            event_type: EventType::CANCEL,
                            target: EventData::Order(c.order),
                        })
                        &&& trade_events_match(r->Ok_0@.skip(1), a.trade)
                    })
                })
                &&& final(self)@.inv(final(registry).reg_view())
                &&& final(self).instrument_id == old(self).instrument_id
                &&& final(self).exchange == old(self).exchange
                &&& final(self).order_flags == old(self).order_flags
            }),
    {
        proof {
            lemma_cancel_no_new_ids(
                old(self)@,
                old(registry).reg_view(),
                existing_order_id,
                replacement_order_id,
            );
        }
        let mut events = match self.cancel(registry, existing_order_id) {
            Ok(ev) => ev,
            Err(e) => {
                return Err(e);
            },
        };
        let mut more = match self.add(registry, replacement_order_id) {
            Ok(ev) => ev,
            Err(e) => {
                return Err(e);
            },
        };
        let ghost ev1 = events@;
        let ghost ev2 = more@;
        events.append(&mut more);
        proof {
            assert(events@ == ev1 + ev2);
            assert(events@[0] == ev1[0]);
            assert(events@.skip(1) =~= ev2);
        }
        Ok(events)
    }

    /// Removes the order from the level at its stored price; the level
    /// disappears once empty. Emits one CANCEL event carrying the stored
    /// order. `NotFound` for an unknown id; `Corruption` when no level
    /// at the order's price rests on its side.
    pub fn cancel(&mut self, registry: &mut OrderRegistry, order_id: Id) -> (r: Result<
        Vec<Event>,
        CoreError,
    >)
        requires
            old(self)@.inv(old(registry).reg_view()),
        ensures
            ({
                let eff = spec_cancel(old(self)@, old(registry).reg_view(), order_id);
                &&& final(self)@.bids == eff.bids
                &&& final(self)@.asks == eff.asks
                &&& *final(registry) == *old(registry)
                &&& (r is Ok <==> eff.err is None)
                &&& (r is Err ==> r->Err_0 == eff.err->Some_0 && *final(self) == *old(self))
                &&& (r is Ok ==> r->Ok_0@ == seq![
                    Event { event_type: EventType::CANCEL, target: EventData::Order(eff.order) },
                ])
                &&& final(self)@.inv(final(registry).reg_view())
                &&& final(self).instrument_id == old(self).instrument_id
                &&& final(self).exchange == old(self).exchange
                &&& final(self).order_flags == old(self).order_flags
            }),
    {
        proof {
            lemma_cancel_preserves_inv(old(self)@, old(registry).reg_view(), order_id);
        }
        let order = match registry.get(order_id) {
            Ok(o) => o,
            Err(e) => {
                return Err(e);
            },
        };
        let price = order.get_price();
        let idx_opt = match order.get_side() {
            Side::BUY => find_level(&self.buys, price),
            Side::SELL => find_level(&self.sells, price),
        };
        let i = match idx_opt {
            Some(i) => i,
            None => {
                return Err(CoreError::Corruption);
            },
        };
        match order.get_side() {
            Side::BUY => {
                proof {
                    lemma_level_at_unique(self@.bids, price.value as int, i as int);
                }
                let lvl = self.buys.remove(i);
                let q2 = queue_without(&lvl.queue, order_id);
                if q2.len() == 0 {
                    proof {
                        lemma_view_remove(old(self).buys@, i as int);
                    }
                } else {
                    let lvl2 = PriceLevel { price: lvl.price, queue: q2 };
                    self.buys.insert(i, lvl2);
                    proof {
                        lemma_view_update(old(self).buys@, i as int, lvl2);
                    }
                }
            },
            Side::SELL => {
                proof {
                    lemma_level_at_unique(self@.asks, price.value as int, i as int);
                }
                let lvl = self.sells.remove(i);
                let q2 = queue_without(&lvl.queue, order_id);
                if q2.len() == 0 {
                    proof {
                        lemma_view_remove(old(self).sells@, i as int);
                    }
                } else {
                    let lvl2 = PriceLevel { price: lvl.price, queue: q2 };
                    self.sells.insert(i, lvl2);
                    proof {
                        lemma_view_update(old(self).sells@, i as int, lvl2);
                    }
                }
            },
        }
        let mut events: Vec<Event> = Vec::new();
        events.push(Event { event_type: EventType::CANCEL, target: EventData::Order(order) });
        proof {
            let eff = spec_cancel(old(self)@, old(registry).reg_view(), order_id);
            assert(events@ =~= seq![
                Event { event_type: EventType::CANCEL, target: EventData::Order(eff.order) },
            ]);
        }
        Ok(events)
    }

    /// Overwrites the order's volume keeping its price, writes it back to
    /// the registry, and moves the id to the tail of its price level,
    /// losing time priority there. Emits one CHANGE event with the
    /// updated order. `NotFound` for an unknown id; `Corruption` when the
    /// new volume would break `0 <= filled <= volume`, when the order
    /// could never rest, or when no level at its price rests on its side.
    pub fn modify(&mut self, registry: &mut OrderRegistry, order_id: Id, volume: FloatAsLong) -> (r:
        Result<Vec<Event>, CoreError>)
        requires
            old(self)@.inv(old(registry).reg_view()),
        ensures
            ({
                let eff = spec_modify(old(self)@, old(registry).reg_view(), order_id, volume);
                &&& final(self)@.bids == eff.bids
                &&& final(self)@.asks == eff.asks
                &&& final(registry).reg_view() == eff.reg
                &&& final(registry).tracker.next_id == old(registry).tracker.next_id
                &&& (r is Ok <==> eff.err is None)
                &&& (r is Err ==> r->Err_0 == eff.err->Some_0 && *final(self) == *old(self)
                    && *final(registry) == *old(registry))
                &&& (r is Ok ==> r->Ok_0@ == seq![
                    Event { event_type: EventType::CHANGE, target: EventData::Order(eff.order) },
                ])
                &&& final(self)@.inv(final(registry).reg_view())
                &&& final(self).instrument_id == old(self).instrument_id
                &&& final(self).exchange == old(self).exchange
                &&& final(self).order_flags == old(self).order_flags
            }),
    {
        proof {
            lemma_modify_preserves_inv(old(self)@, old(registry).reg_view(), order_id, volume);
        }
        let order = match registry.get(order_id) {
            Ok(o) => o,
            Err(e) => {
                return Err(e);
            },
        };
        if !(0 <= order.get_filled().value && order.get_filled().value <= volume.value) {
            return Err(CoreError::Corruption);
        }
        match order.get_order_flag() {
            OrderFlag::NONE => {},
            _ => {
                return Err(CoreError::Corruption);
            },
        }
        match order.get_order_type() {
            OrderType::LIMIT => {},
            _ => {
                return Err(CoreError::Corruption);
            },
        }
        let price = order.get_price();
        let idx_opt = match order.get_side() {
            Side::BUY => find_level(&self.buys, price),
            Side::SELL => find_level(&self.sells, price),
        };
        let i = match idx_opt {
            Some(i) => i,
            None => {
                return Err(CoreError::Corruption);
            },
        };
        let mut replacement = order;
        replacement.set_volume(volume);
        registry.replace(order_id, replacement);
        match order.get_side() {
            Side::BUY => {
                proof {
                    lemma_level_at_unique(self@.bids, price.value as int, i as int);
                }
                let lvl = self.buys.remove(i);
                let mut q2 = queue_without(&lvl.queue, order_id);
                q2.push(order_id);
                let lvl2 = PriceLevel { price: lvl.price, queue: q2 };
                self.buys.insert(i, lvl2);
                proof {
                    lemma_view_update(old(self).buys@, i as int, lvl2);
                }
            },
            Side::SELL => {
                proof {
                    lemma_level_at_unique(self@.asks, price.value as int, i as int);
                }
                let lvl = self.sells.remove(i);
                let mut q2 = queue_without(&lvl.queue, order_id);
                q2.push(order_id);
                let lvl2 = PriceLevel { price: lvl.price, queue: q2 };
                self.sells.insert(i, lvl2);
                proof {
                    lemma_view_update(old(self).sells@, i as int, lvl2);
                }
            },
        }
        let mut events: Vec<Event> = Vec::new();
        events.push(Event { event_type: EventType::CHANGE, target: EventData::Order(replacement) });
        proof {
            let eff = spec_modify(old(self)@, old(registry).reg_view(), order_id, volume);
            assert(events@ =~= seq![
                Event { event_type: EventType::CHANGE, target: EventData::Order(eff.order) },
            ]);
        }
        Ok(events)
    }
}

} // verus!