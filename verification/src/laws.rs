//! The laws the engine guarantees, each proved over the transition functions
//! of `model`: invariant preservation, conservation of quantity, maker
//! pricing, FIFO consumption, the cancel life cycle, and batch equivalence.

use vstd::prelude::*;

use crate::batch::insert_by_seq;
use crate::batch::sort_by_seq;
use crate::batch::strict_increasing;
use crate::lemmas::lemma_count_in_levels_iff;
use crate::lemmas::lemma_levels_wf_mono;
use crate::lemmas::lemma_maker_traded_absent;
use crate::lemmas::lemma_match_levels_basic;
use crate::lemmas::lemma_match_levels_id;
use crate::lemmas::lemma_match_queue_basic;
use crate::lemmas::lemma_remove_from_levels_found;
use crate::lemmas::lemma_remove_from_levels_id;
use crate::lemmas::lemma_remove_from_levels_keeps;
use crate::lemmas::lemma_remove_from_levels_none;
use crate::lemmas::lemma_rest_into_id;
use crate::lemmas::lemma_rest_into_wf;
use crate::lemmas::lemma_levels_count_zero;
use crate::lemmas::lemma_wf_id_above_absent;
use crate::model::BookModel;
use crate::model::cancel_transition;
use crate::model::count_in_levels;
use crate::model::eligible;
use crate::model::better;
use crate::model::id_in_book;
use crate::model::id_in_levels;
use crate::model::levels_wf;
use crate::model::maker_traded_qty;
use crate::model::match_levels;
use crate::model::match_queue;
use crate::model::price_in;
use crate::model::qty_in_book;
use crate::model::qty_in_levels;
use crate::model::rest_into;
use crate::model::rests_at;
use crate::model::submit_transition;
use crate::model::trades_qty_total;
use crate::types::Command;
use crate::types::Order;
use crate::types::OrderId;
use crate::types::OrderType;
use crate::types::Side;
use crate::types::spec_seq_of;
use crate::types::RawCommand;
use crate::ingest::raw_to_cmd;
use crate::ingest::seq_after;
use crate::ingest::sequenced;
use crate::ingest::wrap_inc;

verus! {

/// One submit preserves the book invariant, and guarantees: the issued id is
/// the next counter value; the sum of traded quantities plus the remainder is
/// the submitted quantity (conservation for the taker); every trade is the
/// taker's, takes positive quantity at an eligible price, and is priced at a
/// level where its maker was resting; a limit residue rests at its price on
/// the taker's own side; and a market order never rests.
pub proof fn lemma_submit_wf(b: BookModel, side: Side, limit: Option<u64>, qty: u64)
    requires
        b.wf(),
        b.next_id < u64::MAX,
        b.ts < u64::MAX,
    ensures
        ({
            let out = submit_transition(b, side, limit, qty);
            &&& out.book.wf()
            &&& out.id.0 == b.next_id + 1
            &&& out.book.next_id == b.next_id + 1
            &&& out.book.ts == b.ts + 1
            &&& out.remaining <= qty
            &&& trades_qty_total(out.trades) + out.remaining == qty
            &&& forall|i: int|
                0 <= i < out.trades.len() ==> {
                    let t = #[trigger] out.trades[i];
                    &&& t.taker_id == out.id
                    &&& t.qty > 0
                    &&& eligible(side, limit, t.price)
                    &&& rests_at(b.opposite(side), t.maker_id.0, t.price)
                    &&& t.maker_id.0 <= b.next_id
                }
            &&& (limit is Some && out.remaining > 0 ==> rests_at(
                out.book.own(side),
                out.id.0,
                limit->Some_0,
            ))
            &&& (limit is None ==> out.book.own(side) == b.own(side))
        }),
{
    let out = submit_transition(b, side, limit, qty);
    let id = OrderId((b.next_id + 1) as u64);
    let nid2 = (b.next_id + 1) as u64;
    let oppls = b.opposite(side);
    let ownls = b.own(side);
    let opp_side = crate::model::opp(side);
    match side {
        Side::Buy => {
            lemma_match_levels_basic(b.asks, id, side, limit, qty, Side::Sell, b.next_id);
        },
        Side::Sell => {
            lemma_match_levels_basic(b.bids, id, side, limit, qty, Side::Buy, b.next_id);
        },
    }
    let (ts, opp2, rem) = match_levels(oppls, id, side, limit, qty);
    assert(levels_wf(oppls, opp_side, b.next_id));
    assert(levels_wf(ownls, side, b.next_id));
    assert forall|i: int| 0 <= i < ts.len() implies (#[trigger] ts[i]).maker_id.0
        <= b.next_id by {
        assert(rests_at(oppls, ts[i].maker_id.0, ts[i].price));
        let (i0, k0) = choose|i0: int, k0: int|
            0 <= i0 < oppls.len() && 0 <= k0 < oppls[i0].queue.len() && (
            #[trigger] oppls[i0].queue[k0]).id.0 == ts[i].maker_id.0 && oppls[i0].price
            == ts[i].price;
        assert(crate::model::queue_wf(oppls[i0].queue, opp_side, oppls[i0].price, b.next_id));
        assert(oppls[i0].queue[k0].id.0 <= b.next_id);
    }
    lemma_levels_wf_mono(opp2, opp_side, b.next_id, nid2);
    lemma_levels_wf_mono(ownls, side, b.next_id, nid2);
    let rested = limit is Some && rem > 0;
    let o = Order {
        id,
        side,
        price: limit->Some_0,
        qty: rem,
        order_type: OrderType::Limit,
        ts: (b.ts + 1) as u64,
    };
    let own2 = if rested {
        rest_into(ownls, o, side)
    } else {
        ownls
    };
    if rested {
        lemma_rest_into_wf(ownls, o, side, nid2);
    }
    // every issued id still rests at most once
    assert forall|id2: u64|
        count_in_levels(out.book.bids, id2) + count_in_levels(out.book.asks, id2) <= 1 by {
        lemma_match_levels_id(oppls, id, side, limit, qty, id2);
        lemma_count_in_levels_iff(opp2, id2);
        lemma_count_in_levels_iff(oppls, id2);
        lemma_count_in_levels_iff(ownls, id2);
        if rested {
            lemma_rest_into_id(ownls, o, side, id2);
        }
        assert(count_in_levels(b.bids, id2) + count_in_levels(b.asks, id2) <= 1);
        if id2 == nid2 {
            lemma_wf_id_above_absent(b.bids, Side::Buy, b.next_id, id2);
            lemma_wf_id_above_absent(b.asks, Side::Sell, b.next_id, id2);
            assert(count_in_levels(oppls, id2) == 0);
            assert(count_in_levels(ownls, id2) == 0);
        }
    }
    // the book does not cross
    if out.book.bids.len() > 0 && out.book.asks.len() > 0 {
        match side {
            Side::Buy => {
                let a2 = out.book.asks;
                assert(a2 == opp2);
                assert(oppls == b.asks);
                let j = oppls.len() - a2.len();
                assert(a2[0].price == oppls[j].price);
                if j > 0 {
                    assert(better(Side::Sell, oppls[0].price, oppls[j].price));
                }
                assert(b.asks[0].price <= a2[0].price);
                if rested {
                    assert(out.book.bids == own2);
                    assert(own2[0].price == o.price || (ownls.len() > 0 && own2[0].price
                        == ownls[0].price));
                    assert(!eligible(side, limit, a2[0].price));
                    assert(a2[0].price > limit->Some_0);
                    if own2[0].price == o.price {
                    } else {
                        assert(b.bids[0].price < b.asks[0].price);
                    }
                } else {
                    assert(out.book.bids == b.bids);
                    assert(b.bids[0].price < b.asks[0].price);
                }
            },
            Side::Sell => {
                let b2 = out.book.bids;
                assert(b2 == opp2);
                assert(oppls == b.bids);
                let j = oppls.len() - b2.len();
                assert(b2[0].price == oppls[j].price);
                if j > 0 {
                    assert(better(Side::Buy, oppls[0].price, oppls[j].price));
                }
                assert(b2[0].price <= b.bids[0].price);
                if rested {
                    assert(out.book.asks == own2);
                    assert(own2[0].price == o.price || (ownls.len() > 0 && own2[0].price
                        == ownls[0].price));
                    assert(!eligible(side, limit, b2[0].price));
                    assert(b2[0].price < limit->Some_0);
                    if own2[0].price == o.price {
                    } else {
                        assert(b.bids[0].price < b.asks[0].price);
                    }
                } else {
                    assert(out.book.asks == b.asks);
                    assert(b.bids[0].price < b.asks[0].price);
                }
            },
        }
    }
}

/// Conservation of quantity at one submit: every id other than the taker's
/// keeps its resting quantity except for what the trades took from it as a
/// maker; the taker's new id rests exactly its unfilled limit remainder and
/// is taken nothing as a maker.
pub proof fn lemma_submit_conservation(b: BookModel, side: Side, limit: Option<u64>, qty: u64, id2: u64)
    requires
        b.wf(),
        b.next_id < u64::MAX,
        b.ts < u64::MAX,
    ensures
        ({
            let out = submit_transition(b, side, limit, qty);
            &&& (id2 != b.next_id + 1 ==> qty_in_book(b, id2) == qty_in_book(out.book, id2)
                + maker_traded_qty(out.trades, id2))
            &&& (id2 == b.next_id + 1 ==> qty_in_book(out.book, id2) == (if limit is Some
                && out.remaining > 0 {
                out.remaining as int
            } else {
                0int
            }) && maker_traded_qty(out.trades, id2) == 0)
        }),
{
    let out = submit_transition(b, side, limit, qty);
    let id = OrderId((b.next_id + 1) as u64);
    let nid2 = (b.next_id + 1) as u64;
    let oppls = b.opposite(side);
    let ownls = b.own(side);
    lemma_submit_wf(b, side, limit, qty);
    lemma_match_levels_id(oppls, id, side, limit, qty, id2);
    let (ts, opp2, rem) = match_levels(oppls, id, side, limit, qty);
    let rested = limit is Some && rem > 0;
    let o = Order {
        id,
        side,
        price: limit->Some_0,
        qty: rem,
        order_type: OrderType::Limit,
        ts: (b.ts + 1) as u64,
    };
    if rested {
        lemma_rest_into_id(ownls, o, side, id2);
    }
    if id2 == nid2 {
        lemma_wf_id_above_absent(b.bids, Side::Buy, b.next_id, id2);
        lemma_wf_id_above_absent(b.asks, Side::Sell, b.next_id, id2);
        lemma_count_in_levels_iff(b.bids, id2);
        lemma_count_in_levels_iff(b.asks, id2);
        lemma_levels_count_zero(b.bids, id2);
        lemma_levels_count_zero(b.asks, id2);
        assert(qty_in_levels(oppls, id2) == 0);
        assert(qty_in_levels(ownls, id2) == 0);
        assert forall|i: int| 0 <= i < ts.len() implies (#[trigger] ts[i]).maker_id.0 != id2 by {
            assert(ts[i].maker_id.0 <= b.next_id);
        }
        lemma_maker_traded_absent(ts, id2);
        assert(qty_in_levels(opp2, id2) == 0);
    }
}

/// The book invariant names every resting order in the derived cancel index:
/// a resting order has positive quantity and is indexed by its id at its side
/// and price.
pub proof fn lemma_index_consistent(b: BookModel)
    requires
        b.wf(),
    ensures
        forall|i: int, k: int|
            0 <= i < b.bids.len() && 0 <= k < b.bids[i].queue.len() ==> {
                let o = #[trigger] b.bids[i].queue[k];
                &&& o.qty > 0
                &&& b.index().contains_key(o.id.0)
                &&& b.index()[o.id.0] == (Side::Buy, o.price)
            },
        forall|i: int, k: int|
            0 <= i < b.asks.len() && 0 <= k < b.asks[i].queue.len() ==> {
                let o = #[trigger] b.asks[i].queue[k];
                &&& o.qty > 0
                &&& b.index().contains_key(o.id.0)
                &&& b.index()[o.id.0] == (Side::Sell, o.price)
            },
{
    assert forall|i: int, k: int|
        0 <= i < b.bids.len() && 0 <= k < b.bids[i].queue.len() implies {
        let o = #[trigger] b.bids[i].queue[k];
        &&& o.qty > 0
        &&& b.index().contains_key(o.id.0)
        &&& b.index()[o.id.0] == (Side::Buy, o.price)
    } by {
        let o = b.bids[i].queue[k];
        assert(crate::model::queue_wf(b.bids[i].queue, Side::Buy, b.bids[i].price, b.next_id));
        assert(o.qty > 0 && o.price == b.bids[i].price);
        assert(id_in_levels(b.bids, o.id.0));
        assert(rests_at(b.bids, o.id.0, o.price));
        assert(exists|p: u64| rests_at(b.bids, o.id.0, p));
        lemma_count_in_levels_iff(b.bids, o.id.0);
        lemma_count_in_levels_iff(b.asks, o.id.0);
        assert(count_in_levels(b.bids, o.id.0) + count_in_levels(b.asks, o.id.0) <= 1);
        let p = choose|p: u64| rests_at(b.bids, o.id.0, p);
        lemma_rests_at_unique_price(b.bids, Side::Buy, b.next_id, o.id.0, p, o.price);
    }
    assert forall|i: int, k: int|
        0 <= i < b.asks.len() && 0 <= k < b.asks[i].queue.len() implies {
        let o = #[trigger] b.asks[i].queue[k];
        &&& o.qty > 0
        &&& b.index().contains_key(o.id.0)
        &&& b.index()[o.id.0] == (Side::Sell, o.price)
    } by {
        let o = b.asks[i].queue[k];
        assert(crate::model::queue_wf(b.asks[i].queue, Side::Sell, b.asks[i].price, b.next_id));
        assert(o.qty > 0 && o.price == b.asks[i].price);
        assert(id_in_levels(b.asks, o.id.0));
        assert(rests_at(b.asks, o.id.0, o.price));
        lemma_count_in_levels_iff(b.bids, o.id.0);
        lemma_count_in_levels_iff(b.asks, o.id.0);
        assert(!id_in_levels(b.bids, o.id.0));
        assert(exists|p: u64| rests_at(b.asks, o.id.0, p));
        assert(count_in_levels(b.bids, o.id.0) + count_in_levels(b.asks, o.id.0) <= 1);
        let p = choose|p: u64| rests_at(b.asks, o.id.0, p);
        lemma_rests_at_unique_price(b.asks, Side::Sell, b.next_id, o.id.0, p, o.price);
    }
}

/// On a well-formed side an id rests at one price only.
pub proof fn lemma_rests_at_unique_price(
    ls: Seq<crate::model::LevelModel>,
    side: Side,
    next_id: u64,
    id: u64,
    p1: u64,
    p2: u64,
)
    requires
        levels_wf(ls, side, next_id),
        count_in_levels(ls, id) <= 1,
        rests_at(ls, id, p1),
        rests_at(ls, id, p2),
    ensures
        p1 == p2,
{
    let (i1, k1) = choose|i1: int, k1: int|
        0 <= i1 < ls.len() && 0 <= k1 < ls[i1].queue.len() && (
        #[trigger] ls[i1].queue[k1]).id.0 == id && ls[i1].price == p1;
    let (i2, k2) = choose|i2: int, k2: int|
        0 <= i2 < ls.len() && 0 <= k2 < ls[i2].queue.len() && (
        #[trigger] ls[i2].queue[k2]).id.0 == id && ls[i2].price == p2;
    if p1 != p2 {
        assert(i1 != i2);
        lemma_two_levels_count(ls, id, i1, k1, i2, k2);
    }
}

/// Occurrences of one id in two distinct levels force a count of at least
/// two.
proof fn lemma_two_levels_count(
    ls: Seq<crate::model::LevelModel>,
    id: u64,
    i1: int,
    k1: int,
    i2: int,
    k2: int,
)
    requires
        0 <= i1 < ls.len(),
        0 <= k1 < ls[i1].queue.len(),
        ls[i1].queue[k1].id.0 == id,
        0 <= i2 < ls.len(),
        0 <= k2 < ls[i2].queue.len(),
        ls[i2].queue[k2].id.0 == id,
        i1 != i2,
    ensures
        count_in_levels(ls, id) >= 2,
    decreases ls.len(),
{
    let lo = if i1 < i2 {
        i1
    } else {
        i2
    };
    let klo = if i1 < i2 {
        k1
    } else {
        k2
    };
    let hi = if i1 < i2 {
        i2
    } else {
        i1
    };
    let khi = if i1 < i2 {
        k2
    } else {
        k1
    };
    if lo == 0 {
        crate::lemmas::lemma_count_in_queue_iff(ls[0].queue, id);
        assert(0 <= klo < ls[0].queue.len() && ls[0].queue[klo].id.0 == id);
        assert(crate::model::count_in_queue(ls[0].queue, id) >= 1);
        assert(count_in_levels(ls.drop_first(), id) >= 1) by {
            lemma_count_in_levels_iff(ls.drop_first(), id);
            assert(ls.drop_first()[hi - 1] == ls[hi]);
            assert(0 <= hi - 1 < ls.drop_first().len() && 0 <= khi < ls.drop_first()[hi
                - 1].queue.len() && ls.drop_first()[hi - 1].queue[khi].id.0 == id);
        }
    } else {
        assert(ls.drop_first()[lo - 1] == ls[lo]);
        assert(ls.drop_first()[hi - 1] == ls[hi]);
        lemma_two_levels_count(ls.drop_first(), id, lo - 1, klo, hi - 1, khi);
        crate::lemmas::lemma_count_in_queue_iff(ls[0].queue, id);
    }
}

/// A stable sort leaves a strictly increasing batch exactly as it was: batch
/// processing of such a batch is processing its commands one by one in order.
#[verifier::rlimit(50)]
pub proof fn lemma_batch_equivalence(cs: Seq<Command>)
    requires
        strict_increasing(cs),
    ensures
        sort_by_seq(cs) == cs,
    decreases cs.len(),
{
    if cs.len() > 0 {
        assert forall|j: int|
            0 < j < cs.drop_first().len() implies spec_seq_of(cs.drop_first()[j - 1])
            < spec_seq_of(#[trigger] cs.drop_first()[j]) by {
            assert(cs.drop_first()[j - 1] == cs[j]);
            assert(cs.drop_first()[j] == cs[j + 1]);
        }
        lemma_batch_equivalence(cs.drop_first());
        if cs.len() == 1 {
            assert(sort_by_seq(cs) =~= cs);
        } else {
            assert(cs.drop_first()[0] == cs[1]);
            assert(spec_seq_of(cs[0]) <= spec_seq_of(cs.drop_first()[0]));
            assert(insert_by_seq(cs[0], cs.drop_first()) =~= seq![cs[0]] + cs.drop_first());
            assert(seq![cs[0]] + cs.drop_first() =~= cs);
        }
    }
}

/// One cancel preserves the book invariant; it finds an order exactly when
/// the id rests; a found order carries the id, its positive remaining
/// quantity — the book's whole quantity under that id — and leaves the id
/// absent, so a second cancel of the same id fails; every other id keeps its
/// resting quantity; and a cancel of an absent id changes nothing.
pub proof fn lemma_cancel_wf(b: BookModel, id: OrderId)
    requires
        b.wf(),
    ensures
        ({
            let (b2, found) = cancel_transition(b, id);
            &&& b2.wf()
            &&& (found is Some <==> id_in_book(b, id.0))
            &&& (found is None ==> b2 == b)
            &&& match found {
                Some(o) => o.id == id && o.qty > 0 && qty_in_book(b, id.0) == o.qty
                    && !id_in_book(b2, id.0) && (forall|id2: u64|
                    id2 != id.0 ==> #[trigger] qty_in_book(b2, id2) == qty_in_book(b, id2)),
                None => true,
            }
        }),
{
    let (b2, found) = cancel_transition(b, id);
    let (bids2, found_b) = crate::model::remove_from_levels(b.bids, id.0);
    let (asks2, found_a) = crate::model::remove_from_levels(b.asks, id.0);
    lemma_remove_from_levels_found(b.bids, id.0);
    lemma_remove_from_levels_found(b.asks, id.0);
    lemma_remove_from_levels_keeps(b.bids, id.0, Side::Buy, b.next_id);
    lemma_remove_from_levels_keeps(b.asks, id.0, Side::Sell, b.next_id);
    lemma_remove_from_levels_none(b.bids, id.0);
    lemma_remove_from_levels_none(b.asks, id.0);
    lemma_count_in_levels_iff(b.bids, id.0);
    lemma_count_in_levels_iff(b.asks, id.0);
    if found_b is Some {
        let o = found_b->Some_0;
        lemma_remove_from_levels_id(b.bids, id.0, id.0);
        lemma_count_in_levels_iff(bids2, id.0);
        lemma_levels_count_zero(bids2, id.0);
        lemma_levels_count_zero(b.asks, id.0);
        assert(count_in_levels(b.bids, id.0) >= 1);
        assert(count_in_levels(b.asks, id.0) == 0);
        assert(count_in_levels(bids2, id.0) == 0);
        assert(qty_in_levels(bids2, id.0) == 0);
        assert(qty_in_levels(b.asks, id.0) == 0);
        assert(!id_in_levels(bids2, id.0));
        assert(!id_in_levels(b2.asks, id.0));
        assert forall|id2: u64| id2 != id.0 implies #[trigger] qty_in_book(b2, id2)
            == qty_in_book(b, id2) by {
            lemma_remove_from_levels_id(b.bids, id.0, id2);
        }
        assert forall|id2: u64|
            count_in_levels(b2.bids, id2) + count_in_levels(b2.asks, id2) <= 1 by {
            lemma_remove_from_levels_id(b.bids, id.0, id2);
            lemma_count_in_levels_iff(bids2, id2);
            lemma_count_in_levels_iff(b.bids, id2);
            assert(count_in_levels(b.bids, id2) + count_in_levels(b.asks, id2) <= 1);
        }
        if b2.bids.len() > 0 && b2.asks.len() > 0 {
            assert(price_in(b.bids, b2.bids[0].price));
            let k0 = choose|k0: int|
                0 <= k0 < b.bids.len() && (#[trigger] b.bids[k0]).price == b2.bids[0].price;
            if k0 > 0 {
                assert(better(Side::Buy, b.bids[0].price, b.bids[k0].price));
            }
            assert(b.bids[0].price < b.asks[0].price);
        }
    } else if found_a is Some {
        let o = found_a->Some_0;
        lemma_remove_from_levels_id(b.asks, id.0, id.0);
        lemma_count_in_levels_iff(asks2, id.0);
        lemma_levels_count_zero(asks2, id.0);
        lemma_levels_count_zero(b.bids, id.0);
        assert(count_in_levels(b.asks, id.0) >= 1);
        assert(count_in_levels(b.bids, id.0) == 0);
        assert(qty_in_levels(b.bids, id.0) == 0);
        assert(count_in_levels(asks2, id.0) == 0);
        assert(qty_in_levels(asks2, id.0) == 0);
        assert(!id_in_levels(asks2, id.0));
        assert(!id_in_levels(b2.bids, id.0));
        assert forall|id2: u64| id2 != id.0 implies #[trigger] qty_in_book(b2, id2)
            == qty_in_book(b, id2) by {
            lemma_remove_from_levels_id(b.asks, id.0, id2);
        }
        assert forall|id2: u64|
            count_in_levels(b2.bids, id2) + count_in_levels(b2.asks, id2) <= 1 by {
            lemma_remove_from_levels_id(b.asks, id.0, id2);
            lemma_count_in_levels_iff(asks2, id2);
            lemma_count_in_levels_iff(b.asks, id2);
            assert(count_in_levels(b.bids, id2) + count_in_levels(b.asks, id2) <= 1);
        }
        if b2.bids.len() > 0 && b2.asks.len() > 0 {
            assert(price_in(b.asks, b2.asks[0].price));
            let k0 = choose|k0: int|
                0 <= k0 < b.asks.len() && (#[trigger] b.asks[k0]).price == b2.asks[0].price;
            if k0 > 0 {
                assert(better(Side::Sell, b.asks[0].price, b.asks[k0].price));
            }
            assert(b.bids[0].price < b.asks[0].price);
        }
    } else {
        assert(b2 =~~= b) by {
            assert(bids2 == b.bids && asks2 == b.asks);
        }
    }
}

/// A cancel of an id previously rested by a submit succeeds exactly once: the
/// first cancel returns the order, a second cancel of the same id fails and
/// changes nothing.
pub proof fn lemma_cancel_succeeds_once(b: BookModel, id: OrderId)
    requires
        b.wf(),
        id_in_book(b, id.0),
    ensures
        cancel_transition(b, id).1 is Some,
        cancel_transition(cancel_transition(b, id).0, id).1 is None,
        cancel_transition(cancel_transition(b, id).0, id).0 == cancel_transition(b, id).0,
{
    lemma_cancel_wf(b, id);
    let (b2, found) = cancel_transition(b, id);
    lemma_cancel_wf(b2, id);
}

/// Cancelling an absent id is idempotent: each such cancel fails and leaves
/// the book exactly as it was, however often it is repeated.
pub proof fn lemma_cancel_unknown_idempotent(b: BookModel, id: OrderId)
    requires
        b.wf(),
        !id_in_book(b, id.0),
    ensures
        cancel_transition(b, id).1 is None,
        cancel_transition(b, id).0 == b,
        cancel_transition(cancel_transition(b, id).0, id).1 is None,
        cancel_transition(cancel_transition(b, id).0, id).0 == b,
{
    lemma_cancel_wf(b, id);
}

/// FIFO within a price level: trades consume the resting orders of a queue
/// strictly in queue order — the `i`-th trade's maker is the `i`-th resting
/// order — and every maker but the last is consumed whole before the next is
/// touched.
pub proof fn lemma_fifo_within_level(q: Seq<Order>, taker: OrderId, p: u64, rem: u64)
    ensures
        ({
            let (ts, q2, r) = match_queue(q, taker, p, rem);
            &&& ts.len() <= q.len()
            &&& forall|i: int| 0 <= i < ts.len() ==> (#[trigger] ts[i]).maker_id == q[i].id
            &&& forall|i: int| 0 <= i < ts.len() - 1 ==> (#[trigger] ts[i]).qty == q[i].qty
        }),
{
    lemma_match_queue_basic(q, taker, p, rem);
}

/// Position `i` of a sequenced batch is raw command `i` tagged with the
/// `i`-th successor of the starting counter.
pub proof fn lemma_sequenced_index(raws: Seq<RawCommand>, s0: u64, i: int)
    requires
        0 <= i < raws.len(),
    ensures
        sequenced(raws, s0).len() == raws.len(),
        sequenced(raws, s0)[i] == raw_to_cmd(raws[i], seq_after(s0, i as nat)),
    decreases raws.len(),
{
    assert(sequenced(raws, s0).len() == raws.len()) by {
        lemma_sequenced_len(raws, s0);
    }
    if i > 0 {
        lemma_sequenced_index(raws.drop_first(), wrap_inc(s0), i - 1);
        assert(raws.drop_first()[i - 1] == raws[i]);
        assert(sequenced(raws, s0)[i] == sequenced(raws.drop_first(), wrap_inc(s0))[i - 1]);
    }
}

/// Sequencing keeps the batch length.
pub proof fn lemma_sequenced_len(raws: Seq<RawCommand>, s0: u64)
    ensures
        sequenced(raws, s0).len() == raws.len(),
    decreases raws.len(),
{
    if raws.len() > 0 {
        lemma_sequenced_len(raws.drop_first(), wrap_inc(s0));
    }
}

/// While the counter does not wrap, its `n`-th successor is plain addition.
pub proof fn lemma_seq_after_no_wrap(s0: u64, n: nat)
    requires
        s0 + n <= u64::MAX,
    ensures
        seq_after(s0, n) == s0 + n,
    decreases n,
{
    if n > 0 {
        lemma_seq_after_no_wrap((s0 + 1) as u64, (n - 1) as nat);
    }
}

/// The worker's sequencing invariant: within one batch that does not wrap the
/// counter, the assigned sequence numbers strictly increase in arrival order,
/// so the batch processor accepts the batch as it stands.
pub proof fn lemma_sequenced_strictly_increasing(raws: Seq<RawCommand>, s0: u64)
    requires
        raws.len() == 0 || s0 + raws.len() - 1 <= u64::MAX,
    ensures
        strict_increasing(sequenced(raws, s0)),
{
    let cs = sequenced(raws, s0);
    lemma_sequenced_len(raws, s0);
    assert forall|j: int| 0 < j < cs.len() implies spec_seq_of(cs[j - 1]) < spec_seq_of(
        #[trigger] cs[j],
    ) by {
        lemma_sequenced_index(raws, s0, j - 1);
        lemma_sequenced_index(raws, s0, j);
        lemma_seq_after_no_wrap(s0, (j - 1) as nat);
        lemma_seq_after_no_wrap(s0, j as nat);
    }
}

/// A batch that succeeds answers every command: one `(id, remaining)` pair
/// per command, in command order.
pub proof fn lemma_apply_commands_results_len(b: BookModel, cs: Seq<Command>)
    ensures
        ({
            let (b2, ts, results) = crate::model::apply_commands(b, cs);
            results is Some ==> results->Some_0.len() == cs.len()
        }),
    decreases cs.len(),
{
    if cs.len() > 0 {
        let (b1, ts1, r1) = crate::model::apply_command(b, cs[0]);
        if r1 is Some {
            lemma_apply_commands_results_len(b1, cs.drop_first());
        }
    }
}

} // verus!
