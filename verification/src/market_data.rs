//! Order-book aggregation: bid and ask levels merged by price level, each
//! side sorted by price, equal prices merged by summing their sizes.

use vstd::prelude::*;
use vstd::string::StringSliceAdditionalSpecFns;

use crate::pool::EngineError;

verus! {

/// Which side of the book a level belongs to.
#[derive(Clone, Copy, Debug, PartialEq, Eq, Structural)]
pub enum Side {
    Bid,
    Ask,
}

/// One raw order-book level.
#[derive(Clone, Copy, Debug, PartialEq, Eq, Structural)]
pub struct OrderLevel {
    pub side: Side,
    pub price: i64,
    pub size: i64,
}

/// The two aggregated sides: price-sorted `(price, total_size)` lists.
pub struct AggregatedBooks {
    pub bids: Vec<(i64, i64)>,
    pub asks: Vec<(i64, i64)>,
}

/// The ASCII bytes of the bid side's name.
pub open spec fn bid_bytes() -> Seq<u8> {
    seq![0x62u8, 0x69u8, 0x64u8]
}

/// The ASCII bytes of the ask side's name.
pub open spec fn ask_bytes() -> Seq<u8> {
    seq![0x61u8, 0x73u8, 0x6bu8]
}

/// The side a textual tag names: exactly `bid` or `ask`, anything else is
/// rejected. This is the one validation the aggregator performs at the
/// system boundary.
pub fn parse_side(side: &str) -> (r: Result<Side, EngineError>)
    ensures
        r == Ok::<Side, EngineError>(Side::Bid) <==> side.spec_bytes() == bid_bytes(),
        r == Ok::<Side, EngineError>(Side::Ask) <==> side.spec_bytes() == ask_bytes(),
        r is Err ==> r == Err::<Side, EngineError>(EngineError::UnknownSide),
{
    let b = side.as_bytes();
    if b.len() == 3 && b[0] == 0x62 && b[1] == 0x69 && b[2] == 0x64 {
        proof {
            assert(side.spec_bytes() =~= bid_bytes());
        }
        Ok(Side::Bid)
    } else if b.len() == 3 && b[0] == 0x61 && b[1] == 0x73 && b[2] == 0x6b {
        proof {
            assert(side.spec_bytes() =~= ask_bytes());
        }
        Ok(Side::Ask)
    } else {
        proof {
            assert(side.spec_bytes() != bid_bytes() && side.spec_bytes() != ask_bytes()) by {
                if side.spec_bytes() == bid_bytes() || side.spec_bytes() == ask_bytes() {
                    assert(side.spec_bytes().len() == 3);
                }
            }
        }
        Err(EngineError::UnknownSide)
    }
}

/// The summed size of all levels of one side at one price.
pub open spec fn side_total(levels: Seq<OrderLevel>, side: Side, price: i64) -> int
    decreases levels.len(),
{
    if levels.len() == 0 {
        0
    } else {
        side_total(levels.drop_last(), side, price) + if levels.last().side == side
            && levels.last().price == price {
            levels.last().size as int
        } else {
            0
        }
    }
}

/// Some level of this side sits at this price.
pub open spec fn has_level(levels: Seq<OrderLevel>, side: Side, price: i64) -> bool {
    exists|i: int|
        0 <= i < levels.len() && (#[trigger] levels[i]).side == side && levels[i].price == price
}

/// Strictly ascending by price: sorted, and every price once.
pub open spec fn sorted_by_price(entries: Seq<(i64, i64)>) -> bool {
    forall|k1: int, k2: int| 0 <= k1 < k2 < entries.len() ==> entries[k1].0 < entries[k2].0
}

/// One aggregated side is correct for the input: sorted strictly by
/// price, holding exactly the prices of this side's levels, each with the
/// summed size.
pub open spec fn side_aggregated(
    levels: Seq<OrderLevel>,
    side: Side,
    entries: Seq<(i64, i64)>,
) -> bool {
    &&& sorted_by_price(entries)
    &&& forall|k: int|
        0 <= k < entries.len() ==> has_level(levels, side, (#[trigger] entries[k]).0)
            && entries[k].1 as int == side_total(levels, side, entries[k].0)
    &&& forall|p: i64|
        has_level(levels, side, p) ==> exists|k: int|
            0 <= k < entries.len() && (#[trigger] entries[k]).0 == p
}

/// A total of a prefix never outgrows the prefix length times the widest
/// level size.
proof fn lemma_side_total_bound(levels: Seq<OrderLevel>, side: Side, price: i64)
    ensures
        -(levels.len() as int) * 0x8000_0000_0000_0000 <= side_total(levels, side, price) <= (
        levels.len() as int) * 0x8000_0000_0000_0000,
    decreases levels.len(),
{
    if levels.len() > 0 {
        lemma_side_total_bound(levels.drop_last(), side, price);
        assert((levels.len() as int) * 0x8000_0000_0000_0000 == (levels.len() as int - 1)
            * 0x8000_0000_0000_0000 + 0x8000_0000_0000_0000) by (nonlinear_arith);
    }
}

/// A price no level of the side sits at totals zero.
proof fn lemma_absent_total_zero(levels: Seq<OrderLevel>, side: Side, price: i64)
    requires
        !has_level(levels, side, price),
    ensures
        side_total(levels, side, price) == 0,
    decreases levels.len(),
{
    if levels.len() > 0 {
        assert(!has_level(levels.drop_last(), side, price)) by {
            if has_level(levels.drop_last(), side, price) {
                let i = choose|i: int|
                    0 <= i < levels.drop_last().len() && (#[trigger] levels.drop_last()[i]).side
                        == side && levels.drop_last()[i].price == price;
                assert(levels[i].side == side && levels[i].price == price);
            }
        }
        lemma_absent_total_zero(levels.drop_last(), side, price);
        assert(!(levels.last().side == side && levels.last().price == price)) by {
            assert(levels[levels.len() - 1] == levels.last());
        }
    }
}

/// The first position whose price is not below `price`, in a sorted table.
fn find_pos(table: &Vec<(i64, i128)>, price: i64) -> (r: usize)
    ensures
        0 <= r <= table@.len(),
        forall|k: int| 0 <= k < r ==> (#[trigger] table@[k]).0 < price,
        (r as int) < table@.len() ==> table@[r as int].0 >= price,
{
    let mut k: usize = 0;
    while k < table.len()
        invariant
            0 <= k <= table@.len(),
            forall|t: int| 0 <= t < k ==> (#[trigger] table@[t]).0 < price,
        decreases table@.len() - k,
    {
        if table[k].0 >= price {
            return k;
        }
        k = k + 1;
    }
    k
}

/// Aggregates one side of the book: every level of `side` merged into a
/// price-sorted table of summed sizes.
#[verifier::rlimit(100)]
fn aggregate_side(levels: &Vec<OrderLevel>, side: Side) -> (r: Vec<(i64, i64)>)
    requires
        forall|p: i64|
            i64::MIN <= #[trigger] side_total(levels@, side, p) <= i64::MAX,
    ensures
        side_aggregated(levels@, side, r@),
{
    let ghost lv = levels@;
    let mut table: Vec<(i64, i128)> = Vec::new();
    let mut i: usize = 0;
    while i < levels.len()
        invariant
            0 <= i <= lv.len(),
            lv == levels@,
            forall|k1: int, k2: int|
                0 <= k1 < k2 < table@.len() ==> (#[trigger] table@[k1]).0 < (
                #[trigger] table@[k2]).0,
            forall|k: int|
                0 <= k < table@.len() ==> has_level(lv.take(i as int), side, (
                #[trigger] table@[k]).0) && table@[k].1 as int == side_total(
                    lv.take(i as int),
                    side,
                    table@[k].0,
                ),
            forall|p: i64|
                has_level(lv.take(i as int), side, p) ==> exists|k: int|
                    0 <= k < table@.len() && (#[trigger] table@[k]).0 == p,
        decreases lv.len() - i,
    {
        let level = levels[i];
        let ghost pre = lv.take(i as int);
        let ghost post = lv.take(i as int + 1);
        proof {
            assert(post.drop_last() =~= pre);
            assert(post.last() == lv[i as int]);
            assert forall|p: i64| side_total(post, side, p) == side_total(pre, side, p) + (
            if lv[i as int].side == side && lv[i as int].price == p {
                lv[i as int].size as int
            } else {
                0
            }) by {}
        }
        if is_same_side(level.side, side) {
            let pos = find_pos(&table, level.price);
            let ghost table_old = table@;
            if pos < table.len() && {
                let e = table[pos];
                e.0 == level.price
            } {
                let cur = table[pos];
                proof {
                    assert(cur.1 as int == side_total(pre, side, level.price));
                    lemma_side_total_bound(post, side, level.price);
                    assert((post.len() as int) * 0x8000_0000_0000_0000 <= 0x8000_0000_0000_0000
                        * 0xFFFF_FFFF_FFFF_FFFF) by (nonlinear_arith)
                        requires
                            post.len() <= 0xFFFF_FFFF_FFFF_FFFF,
                    ;
                }
                let e = vstd::std_specs::vec::vec_index_mut(&mut table, pos);
                *e = (cur.0, cur.1 + (level.size as i128));
                proof {
                    assert forall|k: int|
                        0 <= k < table@.len() implies has_level(post, side, (
                    #[trigger] table@[k]).0) && table@[k].1 as int == side_total(
                        post,
                        side,
                        table@[k].0,
                    ) by {
                        if k != pos {
                            assert(table@[k] == table_old[k]);
                            assert(table_old[k].0 != level.price);
                            let w = choose|w: int|
                                0 <= w < pre.len() && (#[trigger] pre[w]).side == side && pre[w].price
                                    == table_old[k].0;
                            assert(post[w] == pre[w]);
                        } else {
                            let w = choose|w: int|
                                0 <= w < pre.len() && (#[trigger] pre[w]).side == side && pre[w].price
                                    == level.price;
                            assert(post[w] == pre[w]);
                        }
                    }
                    assert forall|p: i64| has_level(post, side, p) implies exists|k: int|
                        0 <= k < table@.len() && (#[trigger] table@[k]).0 == p by {
                        let w = choose|w: int|
                            0 <= w < post.len() && (#[trigger] post[w]).side == side && post[w].price
                                == p;
                        if w < pre.len() {
                            assert(pre[w] == post[w]);
                            assert(has_level(pre, side, p));
                            let k = choose|k: int|
                                0 <= k < table_old.len() && (#[trigger] table_old[k]).0 == p;
                            assert(table@[k].0 == p);
                        } else {
                            assert(p == level.price);
                            assert(table@[pos as int].0 == p);
                        }
                    }
                }
            } else {
                proof {
                    assert(!has_level(pre, side, level.price)) by {
                        if has_level(pre, side, level.price) {
                            let k = choose|k: int|
                                0 <= k < table_old.len() && (#[trigger] table_old[k]).0
                                    == level.price;
                        }
                    }
                    lemma_absent_total_zero(pre, side, level.price);
                }
                table.insert(pos, (level.price, level.size as i128));
                proof {
                    assert forall|k1: int, k2: int|
                        0 <= k1 < k2 < table@.len() implies (#[trigger] table@[k1]).0 < (
                    #[trigger] table@[k2]).0 by {
                        if k2 < pos {
                        } else if k1 < pos && k2 == pos {
                            assert(table@[k1] == table_old[k1]);
                        } else if k1 < pos {
                            assert(table@[k2] == table_old[k2 - 1]);
                        } else if k1 == pos {
                            assert(table@[k2] == table_old[k2 - 1]);
                            assert(table_old[k2 - 1].0 >= level.price);
                            assert(table_old[k2 - 1].0 != level.price || pos < k2 - 1);
                            if table_old[k2 - 1].0 == level.price {
                                assert(table_old[pos as int].0 < table_old[k2 - 1].0);
                            }
                        } else {
                            assert(table@[k1] == table_old[k1 - 1]);
                            assert(table@[k2] == table_old[k2 - 1]);
                        }
                    }
                    assert forall|k: int|
                        0 <= k < table@.len() implies has_level(post, side, (
                    #[trigger] table@[k]).0) && table@[k].1 as int == side_total(
                        post,
                        side,
                        table@[k].0,
                    ) by {
                        if k == pos {
                            assert(post[post.len() - 1] == lv[i as int]);
                        } else {
                            let kk = if k < pos {
                                k
                            } else {
                                k - 1
                            };
                            assert(table@[k] == table_old[kk]);
                            assert(table_old[kk].0 != level.price);
                            let w = choose|w: int|
                                0 <= w < pre.len() && (#[trigger] pre[w]).side == side && pre[w].price
                                    == table_old[kk].0;
                            assert(post[w] == pre[w]);
                        }
                    }
                    assert forall|p: i64| has_level(post, side, p) implies exists|k: int|
                        0 <= k < table@.len() && (#[trigger] table@[k]).0 == p by {
                        let w = choose|w: int|
                            0 <= w < post.len() && (#[trigger] post[w]).side == side && post[w].price
                                == p;
                        if w < pre.len() {
                            assert(pre[w] == post[w]);
                            assert(has_level(pre, side, p));
                            let k = choose|k: int|
                                0 <= k < table_old.len() && (#[trigger] table_old[k]).0 == p;
                            let k2 = if k < pos {
                                k
                            } else {
                                k + 1
                            };
                            assert(table@[k2].0 == p);
                        } else {
                            assert(p == level.price);
                            assert(table@[pos as int].0 == p);
                        }
                    }
                }
            }
        } else {
            proof {
                assert forall|p: i64| has_level(post, side, p) implies has_level(
                    pre,
                    side,
                    p,
                ) by {
                    let w = choose|w: int|
                        0 <= w < post.len() && (#[trigger] post[w]).side == side && post[w].price
                            == p;
                    assert(pre[w] == post[w]);
                }
            }
        }
        i = i + 1;
    }
    proof {
        assert(lv.take(lv.len() as int) =~= lv);
    }
    // The totals fit the caller's bound, so the table narrows to the
    // output width.
    let mut out: Vec<(i64, i64)> = Vec::new();
    let mut k: usize = 0;
    while k < table.len()
        invariant
            0 <= k <= table@.len(),
            lv == levels@,
            forall|p: i64| i64::MIN <= #[trigger] side_total(lv, side, p) <= i64::MAX,
            out@.len() == k,
            forall|t: int| 0 <= t < k ==> #[trigger] out@[t] == (table@[t].0, table@[t].1 as i64),
            forall|t: int|
                0 <= t < table@.len() ==> has_level(lv, side, (#[trigger] table@[t]).0)
                    && table@[t].1 as int == side_total(lv, side, table@[t].0),
            forall|k1: int, k2: int|
                0 <= k1 < k2 < table@.len() ==> (#[trigger] table@[k1]).0 < (
                #[trigger] table@[k2]).0,
        decreases table@.len() - k,
    {
        let e = table[k];
        proof {
            assert(e.1 as int == side_total(lv, side, e.0));
            assert(i64::MIN <= side_total(lv, side, e.0) <= i64::MAX);
        }
        out.push((e.0, e.1 as i64));
        k = k + 1;
    }
    proof {
        assert forall|p: i64| has_level(lv, side, p) implies exists|k2: int|
            0 <= k2 < out@.len() && (#[trigger] out@[k2]).0 == p by {
            let k2 = choose|k2: int| 0 <= k2 < table@.len() && (#[trigger] table@[k2]).0 == p;
            assert(out@[k2].0 == p);
        }
    }
    out
}

/// Whether two side tags are the same side.
fn is_same_side(a: Side, b: Side) -> (r: bool)
    ensures
        r == (a == b),
{
    match (a, b) {
        (Side::Bid, Side::Bid) => true,
        (Side::Ask, Side::Ask) => true,
        _ => false,
    }
}

/// Aggregates an order book: each side's levels merged by price into a
/// price-sorted list of `(price, total_size)`, equal prices merged by
/// summing their sizes.
pub fn aggregate_order_books(levels: Vec<OrderLevel>) -> (r: AggregatedBooks)
    requires
        forall|p: i64| i64::MIN <= #[trigger] side_total(levels@, Side::Bid, p) <= i64::MAX,
        forall|p: i64| i64::MIN <= #[trigger] side_total(levels@, Side::Ask, p) <= i64::MAX,
    ensures
        side_aggregated(levels@, Side::Bid, r.bids@),
        side_aggregated(levels@, Side::Ask, r.asks@),
{
    let bids = aggregate_side(&levels, Side::Bid);
    let asks = aggregate_side(&levels, Side::Ask);
    AggregatedBooks { bids, asks }
}

} // verus!
