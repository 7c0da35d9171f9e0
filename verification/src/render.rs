//! A stable human-readable rendering of the book: ask levels top-down,
//! a ruler, then bid levels top-down. Prices and volumes are printed as
//! their raw scaled integers; only levels with positive remaining
//! volume appear.

use vstd::prelude::*;
use crate::Id;
use crate::book::{queue_volume, BookV, LevelV, LimitOrderBook};
use crate::fixed::FloatAsLong;
use crate::order::Order;
use crate::registry::{OrderRegistry, Registry};

verus! {

pub open spec fn spec_digit(d: int) -> char {
    if d == 0 {
        '0'
    } else if d == 1 {
        '1'
    } else if d == 2 {
        '2'
    } else if d == 3 {
        '3'
    } else if d == 4 {
        '4'
    } else if d == 5 {
        '5'
    } else if d == 6 {
        '6'
    } else if d == 7 {
        '7'
    } else if d == 8 {
        '8'
    } else {
        '9'
    }
}

/// The decimal digits of a non-negative number, most significant first.
pub open spec fn spec_dec(n: int) -> Seq<char>
    decreases n,
{
    if n < 10 {
        seq![spec_digit(n)]
    } else {
        spec_dec(n / 10).push(spec_digit(n % 10))
    }
}

/// A signed decimal rendering.
pub open spec fn spec_signed_dec(v: int) -> Seq<char> {
    if v < 0 {
        seq!['-'] + spec_dec(-v)
    } else {
        spec_dec(v)
    }
}

fn digit_str(d: u64) -> (r: &'static str)
    requires
        d < 10,
    ensures
        r@ == seq![spec_digit(d as int)],
{
    match d {
        0 => {
            proof {
                reveal_strlit("0");
                assert("0"@ =~= seq![spec_digit(0)]);
            }
            "0"
        },
        1 => {
            proof {
                reveal_strlit("1");
                assert("1"@ =~= seq![spec_digit(1)]);
            }
            "1"
        },
        2 => {
            proof {
                reveal_strlit("2");
                assert("2"@ =~= seq![spec_digit(2)]);
            }
            "2"
        },
        3 => {
            proof {
                reveal_strlit("3");
                assert("3"@ =~= seq![spec_digit(3)]);
            }
            "3"
        },
        4 => {
            proof {
                reveal_strlit("4");
                assert("4"@ =~= seq![spec_digit(4)]);
            }
            "4"
        },
        5 => {
            proof {
                reveal_strlit("5");
                assert("5"@ =~= seq![spec_digit(5)]);
            }
            "5"
        },
        6 => {
            proof {
                reveal_strlit("6");
                assert("6"@ =~= seq![spec_digit(6)]);
            }
            "6"
        },
        7 => {
            proof {
                reveal_strlit("7");
                assert("7"@ =~= seq![spec_digit(7)]);
            }
            "7"
        },
        8 => {
            proof {
                reveal_strlit("8");
                assert("8"@ =~= seq![spec_digit(8)]);
            }
            "8"
        },
        _ => {
            proof {
                reveal_strlit("9");
                assert("9"@ =~= seq![spec_digit(9)]);
            }
            "9"
        },
    }
}

fn dec_str(n: u64) -> (r: String)
    ensures
        r@ == spec_dec(n as int),
    decreases n,
{
    if n < 10 {
        let mut s = String::new();
        s.append(digit_str(n));
        proof {
            assert(s@ =~= seq![spec_digit(n as int)]);
        }
        s
    } else {
        let mut s = dec_str(n / 10);
        s.append(digit_str(n % 10));
        proof {
            assert((n / 10) as int == (n as int) / 10);
            assert((n % 10) as int == (n as int) % 10);
            assert(s@ =~= spec_dec((n as int) / 10).push(spec_digit((n as int) % 10)));
        }
        s
    }
}

fn signed_dec_str(v: i64) -> (r: String)
    ensures
        r@ == spec_signed_dec(v as int),
{
    if v < 0 {
        let m: u64 = if v == i64::MIN {
            9223372036854775808u64
        } else {
            (-v) as u64
        };
        proof {
            assert(m as int == -(v as int));
        }
        let mut s = String::new();
        s.append("-");
        s.append(dec_str(m).as_str());
        proof {
            reveal_strlit("-");
            assert("-"@ =~= seq!['-']);
            assert(s@ =~= seq!['-'] + spec_dec(m as int));
        }
        s
    } else {
        dec_str(v as u64)
    }
}

/// The aggregate volume a level prints: the saturated queue volume.
pub open spec fn spec_level_volume(reg: Map<Id, Order>, l: LevelV) -> int {
    let v = queue_volume(reg, l.ids);
    if v > i64::MAX as int {
        i64::MAX as int
    } else {
        v
    }
}

/// One ask line: `\t\tprice\tvolume\tcount\n`, or nothing when no
/// volume remains at the level.
pub open spec fn spec_ask_line(reg: Map<Id, Order>, l: LevelV) -> Seq<char> {
    let v = spec_level_volume(reg, l);
    if v > 0 {
        seq!['\t', '\t'] + spec_signed_dec(l.price) + seq!['\t'] + spec_signed_dec(v) + seq!['\t']
            + spec_dec(l.ids.len() as int) + seq!['\n']
    } else {
        Seq::empty()
    }
}

/// One bid line: `\tvolume\tprice\t\tcount\n`, or nothing when no
/// volume remains at the level.
pub open spec fn spec_bid_line(reg: Map<Id, Order>, l: LevelV) -> Seq<char> {
    let v = spec_level_volume(reg, l);
    if v > 0 {
        seq!['\t'] + spec_signed_dec(v) + seq!['\t'] + spec_signed_dec(l.price) + seq!['\t', '\t']
            + spec_dec(l.ids.len() as int) + seq!['\n']
    } else {
        Seq::empty()
    }
}

/// Ask lines, highest price first (the ladder reversed).
pub open spec fn spec_ask_lines(reg: Map<Id, Order>, ls: Seq<LevelV>) -> Seq<char>
    decreases ls.len(),
{
    if ls.len() == 0 {
        Seq::empty()
    } else {
        spec_ask_line(reg, ls.last()) + spec_ask_lines(reg, ls.drop_last())
    }
}

/// Bid lines, highest price first (ladder order).
pub open spec fn spec_bid_lines(reg: Map<Id, Order>, ls: Seq<LevelV>) -> Seq<char>
    decreases ls.len(),
{
    if ls.len() == 0 {
        Seq::empty()
    } else {
        spec_bid_line(reg, ls.first()) + spec_bid_lines(reg, ls.drop_first())
    }
}

pub open spec fn spec_render(b: BookV, reg: Map<Id, Order>) -> Seq<char> {
    "OrderBook {\n"@ + spec_ask_lines(reg, b.asks) + "====================================\n"@
        + spec_bid_lines(reg, b.bids) + "}"@
}

/// Renders one level's line.
fn level_line(
    registry: &OrderRegistry,
    price: FloatAsLong,
    queue: &Vec<Id>,
    ask: bool,
    Ghost(l): Ghost<LevelV>,
) -> (r: String)
    requires
        l.price == price.value as int,
        l.ids == queue@,
        forall|k: int|
            0 <= k < queue@.len() ==> registry.reg_view().contains_key(#[trigger] queue@[k])
                && registry.reg_view()[queue@[k]].wf(),
    ensures
        ask ==> r@ == spec_ask_line(registry.reg_view(), l),
        !ask ==> r@ == spec_bid_line(registry.reg_view(), l),
{
    let v = crate::book::queue_volume_exec(registry, queue);
    let v64: i64 = if v > i64::MAX as i128 {
        i64::MAX
    } else {
        v as i64
    };
    let mut s = String::new();
    if v64 > 0 {
        proof {
            reveal_strlit("\t");
            reveal_strlit("\t\t");
            reveal_strlit("\n");
            assert("\t"@ =~= seq!['\t']);
            assert("\t\t"@ =~= seq!['\t', '\t']);
            assert("\n"@ =~= seq!['\n']);
        }
        if ask {
            s.append("\t\t");
            s.append(signed_dec_str(price.value).as_str());
            s.append("\t");
            s.append(signed_dec_str(v64).as_str());
        } else {
            s.append("\t");
            s.append(signed_dec_str(v64).as_str());
            s.append("\t");
            s.append(signed_dec_str(price.value).as_str());
            s.append("\t");
        }
        s.append("\t");
        s.append(dec_str(queue.len() as u64).as_str());
        s.append("\n");
        proof {
            if ask {
                assert(s@ =~= spec_ask_line(registry.reg_view(), l));
            } else {
                assert(s@ =~= spec_bid_line(registry.reg_view(), l));
            }
        }
    } else {
        proof {
            if ask {
                assert(s@ =~= spec_ask_line(registry.reg_view(), l));
            } else {
                assert(s@ =~= spec_bid_line(registry.reg_view(), l));
            }
        }
    }
    s
}

impl LimitOrderBook {
    /// The stable rendering the book prints: ask levels top-down, a
    /// ruler, then bid levels top-down, each line holding the raw scaled
    /// price, the raw scaled remaining volume and the order count.
    pub fn render(&self, registry: &OrderRegistry) -> (r: String)
        requires
            self@.inv(registry.reg_view()),
        ensures
            r@ == spec_render(self@, registry.reg_view()),
    {
        let ghost reg = registry.reg_view();
        let ghost av = self@.asks;
        let ghost bv = self@.bids;
        let mut s = String::new();
        s.append("OrderBook {\n");
        let ghost hdr = "OrderBook {\n"@;
        let n = self.sells.len();
        let mut i: usize = n;
        proof {
            assert(av.take(n as int) =~= av);
        }
        while i > 0
            invariant
                n == self.sells@.len(),
                0 <= i <= n,
                reg == registry.reg_view(),
                av == self@.asks,
                self@.inv(reg),
                s@ + spec_ask_lines(reg, av.take(i as int)) == hdr + spec_ask_lines(reg, av),
            decreases i,
        {
            i = i - 1;
            let lvl = &self.sells[i];
            proof {
                assert(av[i as int] == self.sells@[i as int]@);
                assert forall|k: int| 0 <= k < lvl.queue@.len() implies reg.contains_key(
                    #[trigger] lvl.queue@[k],
                ) && reg[lvl.queue@[k]].wf() by {
                    assert(av[i as int].ids[k] == lvl.queue@[k]);
                }
            }
            let line = level_line(registry, lvl.price, &lvl.queue, true, Ghost(av[i as int]));
            s.append(line.as_str());
            proof {
                assert(av.take(i as int + 1).drop_last() =~= av.take(i as int));
                assert(av.take(i as int + 1).last() == av[i as int]);
                assert(spec_ask_lines(reg, av.take(i as int + 1)) == spec_ask_line(
                    reg,
                    av[i as int],
                ) + spec_ask_lines(reg, av.take(i as int)));
                assert(s@ + spec_ask_lines(reg, av.take(i as int)) =~= hdr + spec_ask_lines(
                    reg,
                    av,
                ));
            }
        }
        proof {
            assert(av.take(0) =~= Seq::<LevelV>::empty());
            assert(spec_ask_lines(reg, av.take(0)) =~= Seq::<char>::empty());
            assert(s@ =~= hdr + spec_ask_lines(reg, av));
        }
        s.append("====================================\n");
        let ghost mid = s@;
        let m = self.buys.len();
        let mut j: usize = 0;
        proof {
            assert(bv.skip(0) =~= bv);
        }
        while j < m
            invariant
                m == self.buys@.len(),
                0 <= j <= m,
                reg == registry.reg_view(),
                bv == self@.bids,
                mid == hdr + spec_ask_lines(reg, av) + "====================================\n"@,
                self@.inv(reg),
                s@ + spec_bid_lines(reg, bv.skip(j as int)) == mid + spec_bid_lines(reg, bv),
            decreases m - j,
        {
            let lvl = &self.buys[j];
            proof {
                assert(bv[j as int] == self.buys@[j as int]@);
                assert forall|k: int| 0 <= k < lvl.queue@.len() implies reg.contains_key(
                    #[trigger] lvl.queue@[k],
                ) && reg[lvl.queue@[k]].wf() by {
                    assert(bv[j as int].ids[k] == lvl.queue@[k]);
                }
            }
            let line = level_line(registry, lvl.price, &lvl.queue, false, Ghost(bv[j as int]));
            s.append(line.as_str());
            proof {
                assert(bv.skip(j as int).first() == bv[j as int]);
                assert(bv.skip(j as int).drop_first() =~= bv.skip(j as int + 1));
                assert(spec_bid_lines(reg, bv.skip(j as int)) == spec_bid_line(reg, bv[j as int])
                    + spec_bid_lines(reg, bv.skip(j as int + 1)));
                assert(s@ + spec_bid_lines(reg, bv.skip(j as int + 1)) =~= mid + spec_bid_lines(
                    reg,
                    bv,
                ));
            }
            j = j + 1;
        }
        proof {
            assert(bv.skip(m as int) =~= Seq::<LevelV>::empty());
            assert(spec_bid_lines(reg, bv.skip(m as int)) =~= Seq::<char>::empty());
        }
        s.append("}");
        proof {
            assert(s@ =~= spec_render(self@, reg));
        }
        s
    }
}

} // verus!
