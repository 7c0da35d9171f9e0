//! The laws of the book, stated and proved over the same transition
//! functions that the executable operations are verified against.

use vstd::prelude::*;
use crate::Id;
use crate::enums::{OrderFlag, OrderType, Side};
use crate::order::Order;
use crate::book::{
    add_fill, apply_fills, crosses, has_level, ladder_cancel, ladder_has_id, lemma_apply_fills_at,
    lemma_apply_fills_frame, lemma_plan_props, level_at, match_plan, queue_minus, rest_order,
    spec_add, spec_cancel, sum_fills, volume_left_of, BookV, LevelV,
};

verus! {

/// At quiescence the best bid is strictly below the best ask whenever
/// both sides exist.
pub proof fn lemma_quiescent_uncrossed(b: BookV, reg: Map<Id, Order>)
    requires
        b.inv(reg),
        b.bids.len() > 0,
        b.asks.len() > 0,
    ensures
        b.bids[0].price < b.asks[0].price,
{
}

/// Every order visible to the book keeps `0 <= filled <= volume`.
pub proof fn lemma_booked_fill_bounds(b: BookV, reg: Map<Id, Order>, id: Id)
    requires
        b.inv(reg),
        b.has_id(id),
    ensures
        reg.contains_key(id),
        0 <= reg[id].filled.value <= reg[id].volume.value,
{
    if ladder_has_id(b.bids, id) {
        crate::book::lemma_member_record(b.bids, reg, Side::BUY, id);
    } else {
        crate::book::lemma_member_record(b.asks, reg, Side::SELL, id);
    }
}

/// Every price present in a ladder holds at least one order, and every
/// order queued there rests at that price on that ladder's side.
pub proof fn lemma_level_membership(b: BookV, reg: Map<Id, Order>, i: int, k: int, bid_side: bool)
    requires
        b.inv(reg),
        bid_side ==> 0 <= i < b.bids.len(),
        !bid_side ==> 0 <= i < b.asks.len(),
    ensures
        bid_side ==> b.bids[i].ids.len() >= 1,
        !bid_side ==> b.asks[i].ids.len() >= 1,
        bid_side && 0 <= k < b.bids[i].ids.len() ==> {
            let id = b.bids[i].ids[k];
            &&& reg.contains_key(id)
            &&& reg[id].price.value == b.bids[i].price
            &&& reg[id].side == Side::BUY
        },
        !bid_side && 0 <= k < b.asks[i].ids.len() ==> {
            let id = b.asks[i].ids[k];
            &&& reg.contains_key(id)
            &&& reg[id].price.value == b.asks[i].price
            &&& reg[id].side == Side::SELL
        },
{
    if bid_side {
        if 0 <= k < b.bids[i].ids.len() {
            assert(b.bids[i].ids[k] == b.bids[i].ids[k]);
        }
    } else {
        if 0 <= k < b.asks[i].ids.len() {
            assert(b.asks[i].ids[k] == b.asks[i].ids[k]);
        }
    }
}

/// The total fill-state change over a sequence of orders.
pub open spec fn filled_delta_sum(ids: Seq<Id>, rega: Map<Id, Order>, regb: Map<Id, Order>) -> int
    decreases ids.len(),
{
    if ids.len() == 0 {
        0
    } else {
        filled_delta_sum(ids.drop_last(), rega, regb) + (regb[ids.last()].filled.value
            - rega[ids.last()].filled.value)
    }
}

proof fn lemma_delta_sum(fills: Seq<(Id, int)>, rega: Map<Id, Order>, regb: Map<Id, Order>)
    requires
        forall|i: int|
            0 <= i < fills.len() ==> regb[(#[trigger] fills[i]).0].filled.value
                - rega[fills[i].0].filled.value == fills[i].1,
    ensures
        filled_delta_sum(fills.map_values(|f: (Id, int)| f.0), rega, regb) == sum_fills(fills),
    decreases fills.len(),
{
    let ids = fills.map_values(|f: (Id, int)| f.0);
    if fills.len() > 0 {
        assert(ids.drop_last() =~= fills.drop_last().map_values(|f: (Id, int)| f.0));
        assert(ids.last() == fills.last().0);
        lemma_delta_sum(fills.drop_last(), rega, regb);
        assert(fills.last() == fills[fills.len() - 1]);
    }
}

proof fn lemma_sum_fills_bound(fills: Seq<(Id, int)>, i: int)
    requires
        forall|j: int| 0 <= j < fills.len() ==> (#[trigger] fills[j]).1 >= 0,
        0 <= i < fills.len(),
    ensures
        fills[i].1 <= sum_fills(fills),
    decreases fills.len(),
{
    assert(forall|j: int|
        0 <= j < fills.drop_last().len() ==> (#[trigger] fills.drop_last()[j]) == fills[j]);
    if i == fills.len() - 1 {
        assert(fills.last() == fills[i]);
        if fills.len() > 1 {
            lemma_sum_fills_nonneg(fills.drop_last());
        } else {
            assert(fills.drop_last().len() == 0);
            assert(sum_fills(fills.drop_last()) == 0);
        }
    } else {
        assert(fills.drop_last()[i] == fills[i]);
        lemma_sum_fills_bound(fills.drop_last(), i);
        assert(fills.last() == fills[fills.len() - 1]);
    }
}

proof fn lemma_sum_fills_nonneg(fills: Seq<(Id, int)>)
    requires
        forall|j: int| 0 <= j < fills.len() ==> (#[trigger] fills[j]).1 >= 0,
    ensures
        sum_fills(fills) >= 0,
    decreases fills.len(),
{
    if fills.len() > 0 {
        assert(forall|j: int|
            0 <= j < fills.drop_last().len() ==> (#[trigger] fills.drop_last()[j]) == fills[j]);
        lemma_sum_fills_nonneg(fills.drop_last());
        assert(fills.last() == fills[fills.len() - 1]);
    }
}

/// Event-sum conservation: the volume of the TRADE event equals the
/// sum of the fill deltas applied to its makers, and no other order
/// except the taker changes.
pub proof fn lemma_trade_conserves_volume(
    b: BookV,
    flags: Seq<OrderFlag>,
    reg: Map<Id, Order>,
    id: Id,
)
    requires
        b.inv(reg),
        !b.has_id(id),
        reg.contains_key(id),
    ensures
        ({
            let eff = spec_add(b, flags, reg, id);
            &&& (eff.err is None && eff.trade is Some ==> {
                let t = eff.trade->Some_0;
                filled_delta_sum(t.makers, reg, eff.reg) == t.volume
            })
            &&& (eff.err is None ==> forall|x: Id|
                reg.contains_key(x) && x != id && (eff.trade is Some
                    ==> !eff.trade->Some_0.makers.contains(x)) ==> (#[trigger] eff.reg[x])
                    == reg[x])
        }),
{
    let eff = spec_add(b, flags, reg, id);
    let o = reg[id];
    if eff.err is None {
        let mside = if o.side == Side::BUY {
            Side::SELL
        } else {
            Side::BUY
        };
        let opp = if o.side == Side::BUY {
            b.asks
        } else {
            b.bids
        };
        let need = o.volume.value - o.filled.value;
        let p = o.price.value as int;
        let plan = match_plan(opp, reg, o.side, p, need);
        lemma_plan_props(opp, reg, o.side, mside, p, need);
        let reg1 = apply_fills(reg, plan.fills);
        let reg2 = match plan.partial {
            Some(pt) => add_fill(reg1, pt.0, pt.1),
            None => reg1,
        };
        let resid = plan.filled < need;
        let rests = resid && o.order_type == OrderType::LIMIT;
        let reg3 = if rests {
            add_fill(reg2, id, plan.filled)
        } else {
            reg2
        };
        assert(eff.reg == reg3);
        // the partial maker, when there is one, is distinct from every
        // complete fill and from the taker
        if plan.partial is Some {
            let pt = plan.partial->Some_0;
            assert(plan.rest[0].ids.contains(pt.0)) by {
                assert(plan.rest[0].ids[0] == pt.0);
            }
            assert(ladder_has_id(plan.rest, pt.0)) by {
                assert(plan.rest[0].ids.contains(pt.0));
            }
            assert(ladder_has_id(opp, pt.0));
            assert(pt.0 != id) by {
                if pt.0 == id {
                    assert(ladder_has_id(opp, id));
                }
            }
        }
        // every complete fill grows its maker's fill state by its delta
        assert forall|i: int|
            0 <= i < plan.fills.len() implies reg3[(#[trigger] plan.fills[i]).0].filled.value
            - reg[plan.fills[i].0].filled.value == plan.fills[i].1 by {
            let m = plan.fills[i].0;
            assert(ladder_has_id(opp, m));
            crate::book::lemma_member_record(opp, reg, mside, m);
            lemma_apply_fills_at(reg, plan.fills, i);
            assert(plan.fills[i].1 == volume_left_of(reg, m));
            let nf = reg[m].filled.value + plan.fills[i].1;
            assert(0 <= nf <= reg[m].volume.value);
            assert(nf as i64 == nf);
            assert(m != id) by {
                if m == id {
                    assert(ladder_has_id(opp, id));
                }
            }
            if plan.partial is Some {
                assert(reg2[m] == reg1[m]);
            }
            assert(reg3[m] == reg1[m]);
        }
        if eff.trade is Some {
            let t = eff.trade->Some_0;
            let base = plan.fills.map_values(|f: (Id, int)| f.0);
            lemma_delta_sum(plan.fills, reg, reg3);
            match plan.partial {
                None => {
                    assert(t.makers == base);
                    assert(t.volume == plan.filled);
                    assert(plan.filled == sum_fills(plan.fills));
                },
                Some(pt) => {
                    // the partial maker's fill state grows by exactly the
                    // consumed amount, closing the sum to the trade volume
                    assert(t.makers == base.push(pt.0));
                    assert(t.makers.drop_last() =~= base);
                    assert(t.makers.last() == pt.0);
                    assert(forall|i: int|
                        0 <= i < plan.fills.len() ==> (#[trigger] plan.fills[i]).0 != pt.0);
                    lemma_apply_fills_frame(reg, plan.fills, pt.0);
                    assert(reg1[pt.0] == reg[pt.0]);
                    crate::book::lemma_member_record(opp, reg, mside, pt.0);
                    let nr = need - sum_fills(plan.fills);
                    assert(pt.1 == nr);
                    assert(0 < nr < volume_left_of(reg, pt.0));
                    let nf = reg[pt.0].filled.value + pt.1;
                    assert(0 <= nf <= reg[pt.0].volume.value);
                    assert(nf as i64 == nf);
                    assert(reg3[pt.0] == reg2[pt.0]);
                    assert(reg3[pt.0].filled.value - reg[pt.0].filled.value == pt.1);
                    assert(filled_delta_sum(t.makers, reg, reg3) == filled_delta_sum(
                        base,
                        reg,
                        reg3,
                    ) + pt.1);
                    assert(t.volume == plan.filled);
                    assert(plan.filled == need);
                    assert(filled_delta_sum(base, reg, reg3) == sum_fills(plan.fills));
                },
            }
        }
        assert forall|x: Id|
            reg.contains_key(x) && x != id && (eff.trade is Some
                ==> !eff.trade->Some_0.makers.contains(x)) implies (#[trigger] eff.reg[x])
            == reg[x] by {
            if exists|i: int| 0 <= i < plan.fills.len() && (#[trigger] plan.fills[i]).0 == x {
                // only possible when nothing matched: then every consumed
                // maker had zero volume left, and its record is rewritten
                // unchanged
                let i = choose|i: int|
                    0 <= i < plan.fills.len() && (#[trigger] plan.fills[i]).0 == x;
                if eff.trade is Some {
                    let t = eff.trade->Some_0;
                    match plan.partial {
                        None => {
                            assert(t.makers[i] == plan.fills[i].0);
                        },
                        Some(pt) => {
                            assert(t.makers[i] == plan.fills[i].0);
                        },
                    }
                    assert(t.makers.contains(x));
                    assert(false);
                }
                assert(plan.filled == 0);
                assert(plan.partial is None);
                assert(plan.filled == sum_fills(plan.fills));
                lemma_sum_fills_bound(plan.fills, i);
                assert(plan.fills[i].1 == 0);
                lemma_apply_fills_at(reg, plan.fills, i);
                assert(ladder_has_id(opp, x));
                crate::book::lemma_member_record(opp, reg, mside, x);
                let nf = reg[x].filled.value + 0;
                assert(nf as i64 == reg[x].filled.value);
                assert(reg1[x] == (Order { filled: reg[x].filled, ..reg[x] }));
                assert(reg1[x] == reg[x]);
                assert(eff.reg[x] == reg1[x]);
            } else {
                lemma_apply_fills_frame(reg, plan.fills, x);
                if plan.partial is Some {
                    let pt = plan.partial->Some_0;
                    assert(x != pt.0) by {
                        if x == pt.0 {
                            let t = eff.trade->Some_0;
                            assert(t.makers.last() == pt.0);
                            assert(t.makers.contains(x));
                        }
                    }
                    assert(reg2[x] == reg1[x]);
                }
                assert(eff.reg[x] == reg2[x]);
            }
        }
    }
}

/// Round trip: adding a fresh LIMIT order to the empty book and then
/// cancelling it returns the book to the empty state and leaves every
/// fill state as it was.
pub proof fn lemma_add_then_cancel_empty(flags: Seq<OrderFlag>, reg: Map<Id, Order>, id: Id)
    requires
        reg.contains_key(id),
        ({
            let o = reg[id];
            &&& o.wf()
            &&& o.order_type == OrderType::LIMIT
            &&& o.order_flag == OrderFlag::NONE
            &&& o.filled.value < o.volume.value
        }),
    ensures
        ({
            let b0 = BookV { bids: Seq::empty(), asks: Seq::empty() };
            let a = spec_add(b0, flags, reg, id);
            let c = spec_cancel(BookV { bids: a.bids, asks: a.asks }, a.reg, id);
            &&& a.err is None
            &&& a.trade is None
            &&& a.reg == reg
            &&& c.err is None
            &&& c.bids.len() == 0
            &&& c.asks.len() == 0
            &&& c.reg == reg
        }),
{
    let b0 = BookV { bids: Seq::<LevelV>::empty(), asks: Seq::<LevelV>::empty() };
    let o = reg[id];
    let p = o.price.value as int;
    assert(b0.inv(reg));
    assert(!b0.has_id(id));
    lemma_passive_order_rests(b0, flags, reg, id);
    let a = spec_add(b0, flags, reg, id);
    let own2 = rest_order(Seq::<LevelV>::empty(), o.side, p, id);
    assert(!has_level(Seq::<LevelV>::empty(), p));
    assert(own2 == Seq::<LevelV>::empty().insert(0, LevelV { price: p, ids: seq![id] }));
    assert(own2 =~= seq![LevelV { price: p, ids: seq![id] }]);
    let b1 = BookV { bids: a.bids, asks: a.asks };
    let c = spec_cancel(b1, a.reg, id);
    let own1 = if o.side == Side::BUY {
        b1.bids
    } else {
        b1.asks
    };
    assert(own1 == own2);
    assert(own1[0].price == p);
    assert(has_level(own1, p));
    let i = level_at(own1, p);
    assert(own1[i].price == p);
    assert(i == 0);
    let q2 = queue_minus(own1[0].ids, id);
    assert(own1[0].ids =~= seq![id]);
    assert(own1[0].ids.drop_last() =~= Seq::<Id>::empty());
    assert(queue_minus(Seq::<Id>::empty(), id) =~= Seq::<Id>::empty());
    assert(own1[0].ids.last() == id);
    assert(q2.len() == 0);
    let ls2 = own1.remove(0);
    own1.remove_ensures(0);
    assert(ls2.len() == 0);
    assert(c.err is None);
    if o.side == Side::BUY {
        assert(c.bids == ladder_cancel(own1, id, 0));
        assert(c.asks.len() == 0);
    } else {
        assert(c.asks == ladder_cancel(own1, id, 0));
        assert(c.bids.len() == 0);
    }
}

/// A crossing against an empty opposite side never produces a TRADE.
pub proof fn lemma_empty_opposite_no_trade(
    b: BookV,
    flags: Seq<OrderFlag>,
    reg: Map<Id, Order>,
    id: Id,
)
    requires
        reg.contains_key(id),
        ({
            let o = reg[id];
            if o.side == Side::BUY {
                b.asks.len() == 0
            } else {
                b.bids.len() == 0
            }
        }),
    ensures
        spec_add(b, flags, reg, id).trade is None,
{
}

/// A BUY strictly below the best ask, or a SELL strictly above the best
/// bid, rests on its side without a TRADE and leaves every fill state
/// unchanged.
pub proof fn lemma_passive_order_rests(
    b: BookV,
    flags: Seq<OrderFlag>,
    reg: Map<Id, Order>,
    id: Id,
)
    requires
        b.inv(reg),
        !b.has_id(id),
        reg.contains_key(id),
        ({
            let o = reg[id];
            let opp = if o.side == Side::BUY {
                b.asks
            } else {
                b.bids
            };
            &&& o.wf()
            &&& o.order_type == OrderType::LIMIT
            &&& o.order_flag == OrderFlag::NONE
            &&& o.filled.value < o.volume.value
            &&& (opp.len() > 0 ==> !crosses(o.side, o.price.value as int, opp[0].price))
        }),
    ensures
        ({
            let eff = spec_add(b, flags, reg, id);
            let o = reg[id];
            let own = if o.side == Side::BUY {
                b.bids
            } else {
                b.asks
            };
            &&& eff.err is None
            &&& eff.trade is None
            &&& (o.side == Side::BUY ==> eff.asks == b.asks && eff.bids == rest_order(
                own,
                o.side,
                o.price.value as int,
                id,
            ))
            &&& (o.side == Side::SELL ==> eff.bids == b.bids && eff.asks == rest_order(
                own,
                o.side,
                o.price.value as int,
                id,
            ))
            &&& eff.reg == reg
        }),
{
    let eff = spec_add(b, flags, reg, id);
    let o = reg[id];
    let opp = if o.side == Side::BUY {
        b.asks
    } else {
        b.bids
    };
    let need = o.volume.value - o.filled.value;
    let p = o.price.value as int;
    let plan = match_plan(opp, reg, o.side, p, need);
    assert(plan.filled == 0 && plan.fills =~= Seq::<(Id, int)>::empty() && plan.partial is None
        && plan.rest == opp);
    let reg1 = apply_fills(reg, plan.fills);
    assert(reg1 == reg);
    let nf = o.filled.value + 0;
    assert(nf as i64 == o.filled.value);
    assert(add_fill(reg, id, 0) == reg.insert(id, Order { filled: o.filled, ..o }));
    assert((Order { filled: o.filled, ..o }) == o);
    assert(reg.insert(id, o) =~= reg);
    assert(eff.reg == reg);
}

/// A taker consuming exactly the top maker's remaining volume clears
/// that order from the book, and the level disappears precisely when
/// that maker was alone on it.
pub proof fn lemma_exact_fill_clears_maker(
    b: BookV,
    flags: Seq<OrderFlag>,
    reg: Map<Id, Order>,
    id: Id,
)
    requires
        b.inv(reg),
        !b.has_id(id),
        reg.contains_key(id),
        ({
            let o = reg[id];
            let opp = if o.side == Side::BUY {
                b.asks
            } else {
                b.bids
            };
            &&& o.wf()
            &&& o.order_flag == OrderFlag::NONE
            &&& opp.len() > 0
            &&& crosses(o.side, o.price.value as int, opp[0].price)
            &&& o.volume.value - o.filled.value == volume_left_of(reg, opp[0].ids[0])
            &&& o.volume.value - o.filled.value > 0
        }),
    ensures
        ({
            let eff = spec_add(b, flags, reg, id);
            let o = reg[id];
            let opp = if o.side == Side::BUY {
                b.asks
            } else {
                b.bids
            };
            let m = opp[0].ids[0];
            let opp2 = if o.side == Side::BUY {
                eff.asks
            } else {
                eff.bids
            };
            &&& eff.err is None
            &&& eff.trade is Some
            &&& eff.trade->Some_0.volume == o.volume.value - o.filled.value
            &&& eff.trade->Some_0.makers == seq![m]
            &&& !ladder_has_id(opp2, m)
            &&& (opp[0].ids.len() == 1 ==> opp2 == opp.drop_first())
            &&& (opp[0].ids.len() > 1 ==> opp2 == opp.update(
                0,
                LevelV { price: opp[0].price, ids: opp[0].ids.drop_first() },
            ))
        }),
{
    let eff = spec_add(b, flags, reg, id);
    let o = reg[id];
    let mside = if o.side == Side::BUY {
        Side::SELL
    } else {
        Side::BUY
    };
    let opp = if o.side == Side::BUY {
        b.asks
    } else {
        b.bids
    };
    let need = o.volume.value - o.filled.value;
    let p = o.price.value as int;
    let m = opp[0].ids[0];
    let avail = volume_left_of(reg, m);
    let plan = match_plan(opp, reg, o.side, p, need);
    let ls2 = if opp[0].ids.len() == 1 {
        opp.drop_first()
    } else {
        opp.update(0, LevelV { price: opp[0].price, ids: opp[0].ids.drop_first() })
    };
    let sub = match_plan(ls2, reg, o.side, p, need - avail);
    assert(need - avail == 0);
    assert(sub.fills =~= Seq::<(Id, int)>::empty() && sub.filled == 0 && sub.partial is None
        && sub.rest == ls2);
    assert(plan.fills == seq![(m, avail)] + sub.fills);
    assert(plan.fills =~= seq![(m, avail as int)]);
    assert(plan.filled == avail);
    assert(plan.rest == ls2);
    crate::book::lemma_ladder_step(opp, reg, mside);
    assert(!ladder_has_id(ls2, m));
    assert(eff.err is None);
    assert(eff.trade is Some);
    let t = eff.trade->Some_0;
    assert(t.makers == plan.fills.map_values(|f: (Id, int)| f.0));
    assert(t.makers =~= seq![m]);
}

} // verus!
