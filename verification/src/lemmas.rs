//! Inductive facts about the model's transition functions: what matching,
//! resting and removal preserve, and the laws the engine guarantees.

use vstd::prelude::*;

use crate::model::LevelModel;
use crate::model::count_in_levels;
use crate::model::count_in_queue;
use crate::model::id_in_levels;
use crate::model::maker_traded_qty;
use crate::model::better;
use crate::model::eligible;
use crate::model::levels_wf;
use crate::model::match_levels;
use crate::model::match_queue;
use crate::model::queue_wf;
use crate::model::rests_at;
use crate::model::qty_in_levels;
use crate::model::qty_in_queue;
use crate::model::price_in;
use crate::model::queue_qty_total;
use crate::model::rest_into;
use crate::model::remove_from_levels;
use crate::model::remove_from_queue;
use crate::model::trades_qty_total;
use crate::types::Order;
use crate::types::OrderId;
use crate::types::Side;
use crate::types::Trade;

verus! {

/// An id occurs in a queue exactly when its count there is positive.
pub proof fn lemma_count_in_queue_iff(q: Seq<Order>, id: u64)
    ensures
        count_in_queue(q, id) >= 0,
        count_in_queue(q, id) > 0 <==> exists|k: int|
            0 <= k < q.len() && (#[trigger] q[k]).id.0 == id,
    decreases q.len(),
{
    if q.len() > 0 {
        lemma_count_in_queue_iff(q.drop_first(), id);
        if q[0].id.0 == id {
        } else {
            if count_in_queue(q, id) > 0 {
                let k = choose|k: int|
                    0 <= k < q.drop_first().len() && (#[trigger] q.drop_first()[k]).id.0 == id;
                assert(q[k + 1].id.0 == id);
            }
            if exists|k: int| 0 <= k < q.len() && (#[trigger] q[k]).id.0 == id {
                let k = choose|k: int| 0 <= k < q.len() && (#[trigger] q[k]).id.0 == id;
                assert(q.drop_first()[k - 1] == q[k]);
            }
        }
    }
}

/// An id rests on a side exactly when its count there is positive.
pub proof fn lemma_count_in_levels_iff(ls: Seq<LevelModel>, id: u64)
    ensures
        count_in_levels(ls, id) >= 0,
        count_in_levels(ls, id) > 0 <==> id_in_levels(ls, id),
    decreases ls.len(),
{
    if ls.len() > 0 {
        lemma_count_in_queue_iff(ls[0].queue, id);
        lemma_count_in_levels_iff(ls.drop_first(), id);
        if count_in_levels(ls, id) > 0 {
            if count_in_queue(ls[0].queue, id) > 0 {
                let k = choose|k: int|
                    0 <= k < ls[0].queue.len() && (#[trigger] ls[0].queue[k]).id.0 == id;
                assert(0 <= 0 < ls.len() && 0 <= k < ls[0].queue.len() && ls[0].queue[k].id.0
                    == id);
            } else {
                let (i, k) = choose|i: int, k: int|
                    0 <= i < ls.drop_first().len() && 0 <= k < ls.drop_first()[i].queue.len() && (
                    #[trigger] ls.drop_first()[i].queue[k]).id.0 == id;
                assert(ls[i + 1] == ls.drop_first()[i]);
                assert(ls[i + 1].queue[k].id.0 == id);
            }
        }
        if id_in_levels(ls, id) {
            let (i, k) = choose|i: int, k: int|
                0 <= i < ls.len() && 0 <= k < ls[i].queue.len() && (
                #[trigger] ls[i].queue[k]).id.0 == id;
            if i == 0 {
            } else {
                assert(ls.drop_first()[i - 1] == ls[i]);
                assert(ls.drop_first()[i - 1].queue[k].id.0 == id);
            }
        }
    }
}

/// What matching one queue guarantees: trades hit the makers in FIFO order,
/// each trade takes positive quantity priced at the level, quantity is
/// conserved, and the surviving queue is the untouched suffix, its head
/// possibly reduced by the final partial fill.
pub proof fn lemma_match_queue_basic(q: Seq<Order>, taker: OrderId, p: u64, rem: u64)
    ensures
        ({
            let (ts, q2, r) = match_queue(q, taker, p, rem);
            &&& r <= rem
            &&& trades_qty_total(ts) + r == rem
            &&& ts.len() <= q.len()
            &&& forall|i: int|
                0 <= i < ts.len() ==> {
                    let t = #[trigger] ts[i];
                    &&& t.taker_id == taker
                    &&& t.price == p
                    &&& t.maker_id == q[i].id
                    &&& t.qty <= q[i].qty
                    &&& (q[i].qty > 0 ==> t.qty > 0)
                }
            &&& (q2 == q.skip(ts.len() as int) || (ts.len() >= 1 && ts[ts.len() - 1].qty
                < q[ts.len() - 1].qty && q2 == seq![
                Order {
                    qty: (q[ts.len() - 1].qty - ts[ts.len() - 1].qty) as u64,
                    ..q[ts.len() - 1]
                },
            ] + q.skip(ts.len() as int)))
            &&& (forall|i: int| 0 <= i < ts.len() - 1 ==> (#[trigger] ts[i]).qty == q[i].qty)
            &&& ((forall|k: int| 0 <= k < q.len() ==> (#[trigger] q[k]).qty > 0) && r > 0
                ==> q2.len() == 0)
        }),
    decreases q.len(),
{
    let (ts, q2, r) = match_queue(q, taker, p, rem);
    if rem == 0 || q.len() == 0 {
        assert(q2 =~= q.skip(0));
    } else {
        let maker = q[0];
        let tq = if rem < maker.qty {
            rem
        } else {
            maker.qty
        };
        let t = Trade { taker_id: taker, maker_id: maker.id, price: p, qty: tq };
        if maker.qty <= rem {
            lemma_match_queue_basic(q.drop_first(), taker, p, (rem - tq) as u64);
            let (ts1, q21, r1) = match_queue(q.drop_first(), taker, p, (rem - tq) as u64);
            assert(ts =~= seq![t] + ts1);
            assert(ts.drop_first() =~= ts1);
            assert forall|i: int| 0 <= i < ts.len() implies {
                let tt = #[trigger] ts[i];
                &&& tt.taker_id == taker
                &&& tt.price == p
                &&& tt.maker_id == q[i].id
                &&& tt.qty <= q[i].qty
                &&& (q[i].qty > 0 ==> tt.qty > 0)
            } by {
                if i > 0 {
                    assert(ts[i] == ts1[i - 1]);
                    assert(q.drop_first()[i - 1] == q[i]);
                }
            }
            if q21 == q.drop_first().skip(ts1.len() as int) {
                assert(q2 =~= q.skip(ts.len() as int));
            } else {
                assert(q.drop_first()[ts1.len() - 1] == q[ts.len() - 1]);
                assert(q.drop_first().skip(ts1.len() as int) =~= q.skip(ts.len() as int));
            }
            assert forall|i: int| 0 <= i < ts.len() - 1 implies (#[trigger] ts[i]).qty
                == q[i].qty by {
                if i > 0 {
                    assert(ts[i] == ts1[i - 1]);
                    assert(q.drop_first()[i - 1] == q[i]);
                }
            }
        } else {
            let reduced = Order { qty: (maker.qty - tq) as u64, ..maker };
            assert(ts =~= seq![t]);
            assert(ts.drop_first() =~= Seq::<Trade>::empty());
            assert(ts[0] == t);
            assert(trades_qty_total(ts.drop_first()) == 0);
            assert(trades_qty_total(ts) == tq);
            assert(q2 =~= seq![reduced] + q.skip(1));
        }
    }
}

/// Matching removes quantity from maker id `id` exactly as the trades
/// record, and never adds an occurrence of it.
pub proof fn lemma_match_queue_id(q: Seq<Order>, taker: OrderId, p: u64, rem: u64, id: u64)
    ensures
        ({
            let (ts, q2, r) = match_queue(q, taker, p, rem);
            &&& qty_in_queue(q, id) == qty_in_queue(q2, id) + maker_traded_qty(ts, id)
            &&& count_in_queue(q2, id) <= count_in_queue(q, id)
        }),
    decreases q.len(),
{
    let (ts, q2, r) = match_queue(q, taker, p, rem);
    if rem == 0 || q.len() == 0 {
        assert(maker_traded_qty(ts, id) == 0);
    } else {
        let maker = q[0];
        let tq = if rem < maker.qty {
            rem
        } else {
            maker.qty
        };
        let t = Trade { taker_id: taker, maker_id: maker.id, price: p, qty: tq };
        if maker.qty <= rem {
            lemma_match_queue_id(q.drop_first(), taker, p, (rem - tq) as u64, id);
            let (ts1, q21, r1) = match_queue(q.drop_first(), taker, p, (rem - tq) as u64);
            assert(ts.drop_first() =~= ts1);
            assert(ts[0] == t);
            assert(maker_traded_qty(ts, id) == (if t.maker_id.0 == id {
                t.qty as int
            } else {
                0int
            }) + maker_traded_qty(ts1, id));
        } else {
            let reduced = Order { qty: (maker.qty - tq) as u64, ..maker };
            assert(ts.drop_first() =~= Seq::<Trade>::empty());
            assert(ts[0] == t);
            assert(maker_traded_qty(ts.drop_first(), id) == 0);
            assert(q2.drop_first() =~= q.drop_first());
            assert(q2[0] == reduced);
            assert(qty_in_queue(q2, id) == (if reduced.id.0 == id {
                reduced.qty as int
            } else {
                0int
            }) + qty_in_queue(q.drop_first(), id));
            assert(count_in_queue(q2, id) == (if reduced.id.0 == id {
                1int
            } else {
                0int
            }) + count_in_queue(q.drop_first(), id));
        }
    }
}

/// Aggregate resting quantity is never negative.
pub proof fn lemma_queue_total_nonneg(q: Seq<Order>)
    ensures
        queue_qty_total(q) >= 0,
    decreases q.len(),
{
    if q.len() > 0 {
        lemma_queue_total_nonneg(q.drop_first());
    }
}

/// A removal that finds nothing leaves the queue as it was.
pub proof fn lemma_remove_from_queue_none(q: Seq<crate::types::Order>, id: u64)
    ensures
        remove_from_queue(q, id).1 is None ==> remove_from_queue(q, id).0 == q,
    decreases q.len(),
{
    if q.len() > 0 && q[0].id.0 != id {
        lemma_remove_from_queue_none(q.drop_first(), id);
        if remove_from_queue(q, id).1 is None {
            assert(remove_from_queue(q, id).0 =~= q);
        }
    }
}

/// A removal that finds nothing leaves the side as it was.
pub proof fn lemma_remove_from_levels_none(ls: Seq<crate::model::LevelModel>, id: u64)
    ensures
        remove_from_levels(ls, id).1 is None ==> remove_from_levels(ls, id).0 == ls,
    decreases ls.len(),
{
    if ls.len() > 0 {
        lemma_remove_from_queue_none(ls[0].queue, id);
        if remove_from_queue(ls[0].queue, id).1 is None {
            lemma_remove_from_levels_none(ls.drop_first(), id);
            if remove_from_levels(ls, id).1 is None {
                assert(remove_from_levels(ls, id).0 =~= ls);
            }
        }
    }
}

/// A removal finds an order exactly when one with that id is in the queue,
/// and what it finds carries the id.
pub proof fn lemma_remove_from_queue_found(q: Seq<Order>, id: u64)
    ensures
        remove_from_queue(q, id).1 is Some <==> exists|k: int|
            0 <= k < q.len() && (#[trigger] q[k]).id.0 == id,
        remove_from_queue(q, id).1 is Some ==> remove_from_queue(q, id).1->Some_0.id.0 == id,
    decreases q.len(),
{
    if q.len() > 0 {
        if q[0].id.0 == id {
        } else {
            lemma_remove_from_queue_found(q.drop_first(), id);
            if remove_from_queue(q, id).1 is Some {
                let k = choose|k: int|
                    0 <= k < q.drop_first().len() && (#[trigger] q.drop_first()[k]).id.0 == id;
                assert(q[k + 1].id.0 == id);
            } else {
                assert forall|k: int| 0 <= k < q.len() implies (#[trigger] q[k]).id.0 != id by {
                    if k > 0 {
                        assert(q.drop_first()[k - 1] == q[k]);
                    }
                }
            }
        }
    }
}

/// A removal on a side finds an order exactly when one with that id rests
/// there, and what it finds carries the id.
pub proof fn lemma_remove_from_levels_found(ls: Seq<crate::model::LevelModel>, id: u64)
    ensures
        remove_from_levels(ls, id).1 is Some <==> id_in_levels(ls, id),
        remove_from_levels(ls, id).1 is Some ==> remove_from_levels(ls, id).1->Some_0.id.0 == id,
    decreases ls.len(),
{
    if ls.len() > 0 {
        lemma_remove_from_queue_found(ls[0].queue, id);
        lemma_remove_from_levels_found(ls.drop_first(), id);
        if remove_from_queue(ls[0].queue, id).1 is Some {
            let k = choose|k: int|
                0 <= k < ls[0].queue.len() && (#[trigger] ls[0].queue[k]).id.0 == id;
            assert(0 <= 0 < ls.len() && 0 <= k < ls[0].queue.len() && ls[0].queue[k].id.0 == id);
        } else {
            if id_in_levels(ls.drop_first(), id) {
                let (i, k) = choose|i: int, k: int|
                    0 <= i < ls.drop_first().len() && 0 <= k < ls.drop_first()[i].queue.len() && (
                    #[trigger] ls.drop_first()[i].queue[k]).id.0 == id;
                assert(ls[i + 1] == ls.drop_first()[i]);
                assert(ls[i + 1].queue[k].id.0 == id);
            }
            if id_in_levels(ls, id) {
                let (i, k) = choose|i: int, k: int|
                    0 <= i < ls.len() && 0 <= k < ls[i].queue.len() && (
                    #[trigger] ls[i].queue[k]).id.0 == id;
                if i == 0 {
                } else {
                    assert(ls.drop_first()[i - 1] == ls[i]);
                    assert(ls.drop_first()[i - 1].queue[k].id.0 == id);
                }
            }
        }
    }
}

/// Trade-quantity sums add over concatenation.
pub proof fn lemma_trades_total_concat(a: Seq<Trade>, b: Seq<Trade>)
    ensures
        trades_qty_total(a + b) == trades_qty_total(a) + trades_qty_total(b),
    decreases a.len(),
{
    if a.len() == 0 {
        assert(a + b =~= b);
    } else {
        lemma_trades_total_concat(a.drop_first(), b);
        assert((a + b).drop_first() =~= a.drop_first() + b);
        assert((a + b)[0] == a[0]);
    }
}

/// Per-maker traded quantity adds over concatenation.
pub proof fn lemma_maker_traded_concat(a: Seq<Trade>, b: Seq<Trade>, id: u64)
    ensures
        maker_traded_qty(a + b, id) == maker_traded_qty(a, id) + maker_traded_qty(b, id),
    decreases a.len(),
{
    if a.len() == 0 {
        assert(a + b =~= b);
    } else {
        lemma_maker_traded_concat(a.drop_first(), b, id);
        assert((a + b).drop_first() =~= a.drop_first() + b);
        assert((a + b)[0] == a[0]);
    }
}

/// One side with its best level removed is still well formed.
pub proof fn lemma_levels_wf_drop_first(ls: Seq<LevelModel>, side: Side, next_id: u64)
    requires
        levels_wf(ls, side, next_id),
        ls.len() > 0,
    ensures
        levels_wf(ls.drop_first(), side, next_id),
{
    assert forall|i: int| 0 <= i < ls.drop_first().len() implies (
    #[trigger] ls.drop_first()[i]).queue.len() > 0 && queue_wf(
        ls.drop_first()[i].queue,
        side,
        ls.drop_first()[i].price,
        next_id,
    ) by {
        assert(ls.drop_first()[i] == ls[i + 1]);
    }
    assert forall|i: int, j: int| 0 <= i < j < ls.drop_first().len() implies better(
        side,
        (#[trigger] ls.drop_first()[i]).price,
        (#[trigger] ls.drop_first()[j]).price,
    ) by {
        assert(ls.drop_first()[i] == ls[i + 1]);
        assert(ls.drop_first()[j] == ls[j + 1]);
    }
}

/// What matching a well-formed side guarantees: every trade is the taker''s,
/// takes positive quantity at an eligible price from a maker resting at that
/// price; quantity is conserved; the surviving side is well formed and is a
/// suffix of the original, its first level possibly part-consumed; and a
/// positive remainder means the side is exhausted or priced outside the
/// bound.
pub proof fn lemma_match_levels_basic(
    ls: Seq<LevelModel>,
    taker: OrderId,
    taker_side: Side,
    limit: Option<u64>,
    rem: u64,
    side: Side,
    next_id: u64,
)
    requires
        levels_wf(ls, side, next_id),
    ensures
        ({
            let (ts, ls2, r) = match_levels(ls, taker, taker_side, limit, rem);
            &&& r <= rem
            &&& trades_qty_total(ts) + r == rem
            &&& forall|i: int|
                0 <= i < ts.len() ==> {
                    let t = #[trigger] ts[i];
                    &&& t.taker_id == taker
                    &&& t.qty > 0
                    &&& eligible(taker_side, limit, t.price)
                    &&& rests_at(ls, t.maker_id.0, t.price)
                }
            &&& levels_wf(ls2, side, next_id)
            &&& ls2.len() <= ls.len()
            &&& (ls2.len() > 0 ==> ls2[0].price == ls[ls.len() - ls2.len()].price)
            &&& (forall|k: int|
                1 <= k < ls2.len() ==> #[trigger] ls2[k] == ls[ls.len() - ls2.len() + k])
            &&& (r > 0 ==> ls2.len() == 0 || !eligible(taker_side, limit, ls2[0].price))
        }),
    decreases ls.len(),
{
    let (ts, ls2, r) = match_levels(ls, taker, taker_side, limit, rem);
    if rem == 0 || ls.len() == 0 || !eligible(taker_side, limit, ls[0].price) {
    } else {
        let p = ls[0].price;
        let q0 = ls[0].queue;
        lemma_match_queue_basic(q0, taker, p, rem);
        let (ts1, q2, r1) = match_queue(q0, taker, p, rem);
        lemma_levels_wf_drop_first(ls, side, next_id);
        assert(queue_wf(q0, side, p, next_id));
        assert forall|i: int| 0 <= i < ts1.len() implies {
            let t = #[trigger] ts1[i];
            &&& t.taker_id == taker
            &&& t.qty > 0
            &&& eligible(taker_side, limit, t.price)
            &&& rests_at(ls, t.maker_id.0, t.price)
        } by {
            assert(q0[i].qty > 0);
            assert(0 <= 0 < ls.len() && 0 <= i < ls[0].queue.len() && ls[0].queue[i].id.0
                == ts1[i].maker_id.0 && ls[0].price == ts1[i].price);
        }
        if q2.len() == 0 {
            lemma_match_levels_basic(
                ls.drop_first(),
                taker,
                taker_side,
                limit,
                r1,
                side,
                next_id,
            );
            let (ts2, ls22, r2) = match_levels(ls.drop_first(), taker, taker_side, limit, r1);
            lemma_trades_total_concat(ts1, ts2);
            assert forall|i: int| 0 <= i < ts.len() implies {
                let t = #[trigger] ts[i];
                &&& t.taker_id == taker
                &&& t.qty > 0
                &&& eligible(taker_side, limit, t.price)
                &&& rests_at(ls, t.maker_id.0, t.price)
            } by {
                if i < ts1.len() {
                    assert(ts[i] == ts1[i]);
                } else {
                    assert(ts[i] == ts2[i - ts1.len()]);
                    let t = ts2[i - ts1.len()];
                    assert(rests_at(ls.drop_first(), t.maker_id.0, t.price));
                    let (i0, k0) = choose|i0: int, k0: int|
                        0 <= i0 < ls.drop_first().len() && 0 <= k0
                            < ls.drop_first()[i0].queue.len() && (
                        #[trigger] ls.drop_first()[i0].queue[k0]).id.0 == t.maker_id.0
                            && ls.drop_first()[i0].price == t.price;
                    assert(ls[i0 + 1] == ls.drop_first()[i0]);
                    assert(0 <= i0 + 1 < ls.len() && 0 <= k0 < ls[i0 + 1].queue.len() && ls[i0
                        + 1].queue[k0].id.0 == t.maker_id.0 && ls[i0 + 1].price == t.price);
                }
            }
            assert forall|k: int| 1 <= k < ls2.len() implies #[trigger] ls2[k] == ls[ls.len()
                - ls2.len() + k] by {
                assert(ls2[k] == ls.drop_first()[ls.drop_first().len() - ls2.len() + k]);
            }
            if ls2.len() > 0 {
                assert(ls2[0].price == ls.drop_first()[ls.drop_first().len()
                    - ls2.len()].price);
            }
        } else {
            let head = LevelModel { price: p, queue: q2 };
            assert(ls2 =~= seq![head] + ls.drop_first());
            assert(r1 == 0) by {
                if r1 > 0 {
                    assert(forall|k: int| 0 <= k < q0.len() ==> (#[trigger] q0[k]).qty > 0);
                }
            }
            assert(queue_wf(q2, side, p, next_id)) by {
                if q2 == q0.skip(ts1.len() as int) {
                    assert forall|k: int| 0 <= k < q2.len() implies {
                        let o = #[trigger] q2[k];
                        &&& o.qty > 0
                        &&& o.price == p
                        &&& o.side == side
                        &&& o.order_type == crate::types::OrderType::Limit
                        &&& 1 <= o.id.0 <= next_id
                    } by {
                        assert(q2[k] == q0[ts1.len() + k]);
                    }
                } else {
                    assert forall|k: int| 0 <= k < q2.len() implies {
                        let o = #[trigger] q2[k];
                        &&& o.qty > 0
                        &&& o.price == p
                        &&& o.side == side
                        &&& o.order_type == crate::types::OrderType::Limit
                        &&& 1 <= o.id.0 <= next_id
                    } by {
                        if k == 0 {
                            assert(q0[ts1.len() - 1].qty > 0);
                        } else {
                            assert(q2[k] == q0.skip(ts1.len() as int)[k - 1]);
                            assert(q2[k] == q0[ts1.len() + k - 1]);
                        }
                    }
                }
            }
            assert(levels_wf(ls2, side, next_id)) by {
                assert forall|i: int| 0 <= i < ls2.len() implies (
                #[trigger] ls2[i]).queue.len() > 0 && queue_wf(
                    ls2[i].queue,
                    side,
                    ls2[i].price,
                    next_id,
                ) by {
                    if i > 0 {
                        assert(ls2[i] == ls[i]);
                    }
                }
                assert forall|i: int, j: int| 0 <= i < j < ls2.len() implies better(
                    side,
                    (#[trigger] ls2[i]).price,
                    (#[trigger] ls2[j]).price,
                ) by {
                    assert(ls2[j] == ls[j]);
                    if i > 0 {
                        assert(ls2[i] == ls[i]);
                    } else {
                        assert(ls2[0].price == ls[0].price);
                    }
                }
            }
            assert forall|k: int| 1 <= k < ls2.len() implies #[trigger] ls2[k] == ls[ls.len()
                - ls2.len() + k] by {
                assert(ls2[k] == ls[k]);
            }
        }
    }
}

/// Matching a side removes quantity from each maker id exactly as the trades
/// record, and never adds an occurrence of any id.
pub proof fn lemma_match_levels_id(
    ls: Seq<LevelModel>,
    taker: OrderId,
    taker_side: Side,
    limit: Option<u64>,
    rem: u64,
    id: u64,
)
    ensures
        ({
            let (ts, ls2, r) = match_levels(ls, taker, taker_side, limit, rem);
            &&& qty_in_levels(ls, id) == qty_in_levels(ls2, id) + maker_traded_qty(ts, id)
            &&& count_in_levels(ls2, id) <= count_in_levels(ls, id)
        }),
    decreases ls.len(),
{
    let (ts, ls2, r) = match_levels(ls, taker, taker_side, limit, rem);
    if rem == 0 || ls.len() == 0 || !eligible(taker_side, limit, ls[0].price) {
        assert(maker_traded_qty(ts, id) == 0);
    } else {
        let p = ls[0].price;
        let q0 = ls[0].queue;
        lemma_match_queue_id(q0, taker, p, rem, id);
        let (ts1, q2, r1) = match_queue(q0, taker, p, rem);
        if q2.len() == 0 {
            lemma_match_levels_id(ls.drop_first(), taker, taker_side, limit, r1, id);
            let (ts2, ls22, r2) = match_levels(ls.drop_first(), taker, taker_side, limit, r1);
            lemma_maker_traded_concat(ts1, ts2, id);
            assert(qty_in_queue(q2, id) == 0);
            assert(count_in_queue(q2, id) >= 0) by {
                lemma_count_in_queue_iff(q2, id);
            }
            lemma_count_in_queue_iff(q0, id);
        } else {
            let head = LevelModel { price: p, queue: q2 };
            assert(ls2.drop_first() =~= ls.drop_first());
            assert(ls2[0] == head);
            assert(qty_in_levels(ls2, id) == qty_in_queue(q2, id) + qty_in_levels(
                ls.drop_first(),
                id,
            ));
            assert(count_in_levels(ls2, id) == count_in_queue(q2, id) + count_in_levels(
                ls.drop_first(),
                id,
            ));
        }
    }
}

/// Counting behaves additively under appending one order.
pub proof fn lemma_count_in_queue_push(q: Seq<Order>, o: Order, id: u64)
    ensures
        count_in_queue(q.push(o), id) == count_in_queue(q, id) + (if o.id.0 == id {
            1int
        } else {
            0int
        }),
        qty_in_queue(q.push(o), id) == qty_in_queue(q, id) + (if o.id.0 == id {
            o.qty as int
        } else {
            0int
        }),
    decreases q.len(),
{
    if q.len() == 0 {
        assert(count_in_queue(q, id) == 0);
        assert(qty_in_queue(q, id) == 0);
        assert(q.push(o) =~= seq![o]);
        assert(q.push(o).drop_first() =~= Seq::<Order>::empty());
        assert(q.push(o)[0] == o);
        assert(count_in_queue(q.push(o).drop_first(), id) == 0);
        assert(qty_in_queue(q.push(o).drop_first(), id) == 0);
        assert(q.push(o).len() == 1);
        assert(count_in_queue(q.push(o), id) == (if o.id.0 == id {
            1int
        } else {
            0int
        }) + count_in_queue(q.push(o).drop_first(), id));
        assert(qty_in_queue(q.push(o), id) == (if o.id.0 == id {
            o.qty as int
        } else {
            0int
        }) + qty_in_queue(q.push(o).drop_first(), id));
    } else {
        lemma_count_in_queue_push(q.drop_first(), o, id);
        assert(q.push(o).drop_first() =~= q.drop_first().push(o));
        assert(q.push(o)[0] == q[0]);
        assert(q.push(o).len() == q.len() + 1);
        assert(count_in_queue(q.push(o), id) == (if q[0].id.0 == id {
            1int
        } else {
            0int
        }) + count_in_queue(q.drop_first().push(o), id));
        assert(qty_in_queue(q.push(o), id) == (if q[0].id.0 == id {
            q[0].qty as int
        } else {
            0int
        }) + qty_in_queue(q.drop_first().push(o), id));
    }
}

/// An absent id contributes no resting quantity in a queue.
pub proof fn lemma_queue_count_zero(q: Seq<Order>, id: u64)
    ensures
        count_in_queue(q, id) == 0 ==> qty_in_queue(q, id) == 0,
    decreases q.len(),
{
    if q.len() > 0 {
        lemma_queue_count_zero(q.drop_first(), id);
        lemma_count_in_queue_iff(q.drop_first(), id);
    }
}

/// An absent id contributes no resting quantity on a side.
pub proof fn lemma_levels_count_zero(ls: Seq<LevelModel>, id: u64)
    ensures
        count_in_levels(ls, id) == 0 ==> qty_in_levels(ls, id) == 0,
    decreases ls.len(),
{
    if ls.len() > 0 {
        lemma_levels_count_zero(ls.drop_first(), id);
        lemma_queue_count_zero(ls[0].queue, id);
        lemma_count_in_queue_iff(ls[0].queue, id);
        lemma_count_in_levels_iff(ls.drop_first(), id);
    }
}

/// Trades that never name a maker id take nothing from it.
pub proof fn lemma_maker_traded_absent(ts: Seq<Trade>, id: u64)
    requires
        forall|i: int| 0 <= i < ts.len() ==> (#[trigger] ts[i]).maker_id.0 != id,
    ensures
        maker_traded_qty(ts, id) == 0,
    decreases ts.len(),
{
    if ts.len() > 0 {
        assert forall|i: int|
            0 <= i < ts.drop_first().len() implies (#[trigger] ts.drop_first()[i]).maker_id.0
            != id by {
            assert(ts.drop_first()[i] == ts[i + 1]);
        }
        lemma_maker_traded_absent(ts.drop_first(), id);
    }
}

/// On a well-formed side every resting id has been issued: a larger id is
/// absent.
pub proof fn lemma_wf_id_above_absent(ls: Seq<LevelModel>, side: Side, next_id: u64, id: u64)
    requires
        levels_wf(ls, side, next_id),
        id > next_id,
    ensures
        !id_in_levels(ls, id),
{
    if id_in_levels(ls, id) {
        let (i, k) = choose|i: int, k: int|
            0 <= i < ls.len() && 0 <= k < ls[i].queue.len() && (
            #[trigger] ls[i].queue[k]).id.0 == id;
        assert(queue_wf(ls[i].queue, side, ls[i].price, next_id));
        assert(ls[i].queue[k].id.0 <= next_id);
    }
}

/// Well-formedness of a side is monotone in the id bound.
pub proof fn lemma_levels_wf_mono(ls: Seq<LevelModel>, side: Side, n1: u64, n2: u64)
    requires
        levels_wf(ls, side, n1),
        n1 <= n2,
    ensures
        levels_wf(ls, side, n2),
{
    assert forall|i: int| 0 <= i < ls.len() implies (#[trigger] ls[i]).queue.len() > 0
        && queue_wf(ls[i].queue, side, ls[i].price, n2) by {
        assert(queue_wf(ls[i].queue, side, ls[i].price, n1));
        assert forall|k: int| 0 <= k < ls[i].queue.len() implies {
            let o = #[trigger] ls[i].queue[k];
            &&& o.qty > 0
            &&& o.price == ls[i].price
            &&& o.side == side
            &&& o.order_type == crate::types::OrderType::Limit
            &&& 1 <= o.id.0 <= n2
        } by {
            assert(ls[i].queue[k].qty > 0);
        }
    }
}

/// Resting an order keeps the side well formed; the new best price is the
/// order's own or the old best; every price is an old one or the order's;
/// and the order rests at its price.
pub proof fn lemma_rest_into_wf(ls: Seq<LevelModel>, o: Order, side: Side, next_id: u64)
    requires
        levels_wf(ls, side, next_id),
        o.qty > 0,
        o.side == side,
        o.order_type == crate::types::OrderType::Limit,
        1 <= o.id.0 <= next_id,
    ensures
        ({
            let ls2 = rest_into(ls, o, side);
            &&& levels_wf(ls2, side, next_id)
            &&& ls2.len() > 0
            &&& (ls2[0].price == o.price || (ls.len() > 0 && ls2[0].price == ls[0].price))
            &&& (forall|k: int|
                0 <= k < ls2.len() ==> (#[trigger] ls2[k]).price == o.price || price_in(
                    ls,
                    ls2[k].price,
                ))
            &&& rests_at(ls2, o.id.0, o.price)
        }),
    decreases ls.len(),
{
    let ls2 = rest_into(ls, o, side);
    if ls.len() == 0 {
        assert(ls2[0].queue =~= seq![o]);
        assert(ls2[0].queue[0].id.0 == o.id.0);
        assert(rests_at(ls2, o.id.0, o.price)) by {
            assert(0 <= 0 < ls2.len() && 0 <= 0 < ls2[0].queue.len() && ls2[0].queue[0].id.0
                == o.id.0 && ls2[0].price == o.price);
        }
    } else if ls[0].price == o.price {
        let q2 = ls[0].queue.push(o);
        assert(ls2[0] == LevelModel { price: ls[0].price, queue: q2 });
        assert(queue_wf(q2, side, ls[0].price, next_id)) by {
            assert forall|k: int| 0 <= k < q2.len() implies {
                let oo = #[trigger] q2[k];
                &&& oo.qty > 0
                &&& oo.price == ls[0].price
                &&& oo.side == side
                &&& oo.order_type == crate::types::OrderType::Limit
                &&& 1 <= oo.id.0 <= next_id
            } by {
                if k < ls[0].queue.len() {
                    assert(q2[k] == ls[0].queue[k]);
                } else {
                    assert(q2[k] == o);
                }
            }
        }
        assert(levels_wf(ls2, side, next_id)) by {
            assert forall|i: int| 0 <= i < ls2.len() implies (#[trigger] ls2[i]).queue.len() > 0
                && queue_wf(ls2[i].queue, side, ls2[i].price, next_id) by {
                if i > 0 {
                    assert(ls2[i] == ls[i]);
                }
            }
            assert forall|i: int, j: int| 0 <= i < j < ls2.len() implies better(
                side,
                (#[trigger] ls2[i]).price,
                (#[trigger] ls2[j]).price,
            ) by {
                assert(ls2[j] == ls[j]);
                if i > 0 {
                    assert(ls2[i] == ls[i]);
                }
            }
        }
        assert forall|k: int| 0 <= k < ls2.len() implies (#[trigger] ls2[k]).price == o.price
            || price_in(ls, ls2[k].price) by {
            if k > 0 {
                assert(ls2[k] == ls[k]);
                assert(0 <= k < ls.len() && ls[k].price == ls2[k].price);
            } else {
                assert(0 <= 0 < ls.len() && ls[0].price == ls2[0].price);
            }
        }
        assert(rests_at(ls2, o.id.0, o.price)) by {
            let k = ls[0].queue.len() as int;
            assert(q2[k].id.0 == o.id.0);
            assert(0 <= 0 < ls2.len() && 0 <= k < ls2[0].queue.len() && ls2[0].queue[k].id.0
                == o.id.0 && ls2[0].price == o.price);
        }
    } else if better(side, o.price, ls[0].price) {
        assert(ls2 =~= seq![LevelModel { price: o.price, queue: seq![o] }] + ls);
        assert(levels_wf(ls2, side, next_id)) by {
            assert forall|i: int| 0 <= i < ls2.len() implies (#[trigger] ls2[i]).queue.len() > 0
                && queue_wf(ls2[i].queue, side, ls2[i].price, next_id) by {
                if i > 0 {
                    assert(ls2[i] == ls[i - 1]);
                } else {
                    assert(ls2[0].queue =~= seq![o]);
                }
            }
            assert forall|i: int, j: int| 0 <= i < j < ls2.len() implies better(
                side,
                (#[trigger] ls2[i]).price,
                (#[trigger] ls2[j]).price,
            ) by {
                assert(ls2[j] == ls[j - 1]);
                if i > 0 {
                    assert(ls2[i] == ls[i - 1]);
                } else {
                    if j == 1 {
                    } else {
                        assert(better(side, ls[0].price, ls[j - 1].price));
                    }
                }
            }
        }
        assert forall|k: int| 0 <= k < ls2.len() implies (#[trigger] ls2[k]).price == o.price
            || price_in(ls, ls2[k].price) by {
            if k > 0 {
                assert(ls2[k] == ls[k - 1]);
                assert(0 <= k - 1 < ls.len() && ls[k - 1].price == ls2[k].price);
            }
        }
        assert(rests_at(ls2, o.id.0, o.price)) by {
            assert(ls2[0].queue =~= seq![o]);
            assert(0 <= 0 < ls2.len() && 0 <= 0 < ls2[0].queue.len() && ls2[0].queue[0].id.0
                == o.id.0 && ls2[0].price == o.price);
        }
    } else {
        lemma_levels_wf_drop_first(ls, side, next_id);
        lemma_rest_into_wf(ls.drop_first(), o, side, next_id);
        let tail = rest_into(ls.drop_first(), o, side);
        assert(ls2 =~= seq![ls[0]] + tail);
        assert(levels_wf(ls2, side, next_id)) by {
            assert forall|i: int| 0 <= i < ls2.len() implies (#[trigger] ls2[i]).queue.len() > 0
                && queue_wf(ls2[i].queue, side, ls2[i].price, next_id) by {
                if i > 0 {
                    assert(ls2[i] == tail[i - 1]);
                }
            }
            assert forall|i: int, j: int| 0 <= i < j < ls2.len() implies better(
                side,
                (#[trigger] ls2[i]).price,
                (#[trigger] ls2[j]).price,
            ) by {
                if i > 0 {
                    assert(ls2[i] == tail[i - 1]);
                    assert(ls2[j] == tail[j - 1]);
                } else {
                    assert(ls2[j] == tail[j - 1]);
                    if tail[j - 1].price == o.price {
                        assert(better(side, ls[0].price, o.price));
                    } else {
                        assert(price_in(ls.drop_first(), tail[j - 1].price));
                        let k0 = choose|k0: int|
                            0 <= k0 < ls.drop_first().len() && (
                            #[trigger] ls.drop_first()[k0]).price == tail[j - 1].price;
                        assert(ls.drop_first()[k0] == ls[k0 + 1]);
                        assert(better(side, ls[0].price, ls[k0 + 1].price));
                    }
                }
            }
        }
        assert forall|k: int| 0 <= k < ls2.len() implies (#[trigger] ls2[k]).price == o.price
            || price_in(ls, ls2[k].price) by {
            if k == 0 {
                assert(0 <= 0 < ls.len() && ls[0].price == ls2[0].price);
            } else {
                assert(ls2[k] == tail[k - 1]);
                if tail[k - 1].price != o.price {
                    let k0 = choose|k0: int|
                        0 <= k0 < ls.drop_first().len() && (
                        #[trigger] ls.drop_first()[k0]).price == tail[k - 1].price;
                    assert(ls.drop_first()[k0] == ls[k0 + 1]);
                    assert(0 <= k0 + 1 < ls.len() && ls[k0 + 1].price == ls2[k].price);
                }
            }
        }
        assert(rests_at(ls2, o.id.0, o.price)) by {
            let (i, k) = choose|i: int, k: int|
                0 <= i < tail.len() && 0 <= k < tail[i].queue.len() && (
                #[trigger] tail[i].queue[k]).id.0 == o.id.0 && tail[i].price == o.price;
            assert(ls2[i + 1] == tail[i]);
            assert(0 <= i + 1 < ls2.len() && 0 <= k < ls2[i + 1].queue.len() && ls2[i
                + 1].queue[k].id.0 == o.id.0 && ls2[i + 1].price == o.price);
        }
    }
}

/// Resting adds exactly one occurrence of the order's id, with its quantity,
/// and touches no other id.
pub proof fn lemma_rest_into_id(ls: Seq<LevelModel>, o: Order, side: Side, id: u64)
    ensures
        count_in_levels(rest_into(ls, o, side), id) == count_in_levels(ls, id) + (if o.id.0
            == id {
            1int
        } else {
            0int
        }),
        qty_in_levels(rest_into(ls, o, side), id) == qty_in_levels(ls, id) + (if o.id.0 == id {
            o.qty as int
        } else {
            0int
        }),
    decreases ls.len(),
{
    let ls2 = rest_into(ls, o, side);
    let ghost head_c = if o.id.0 == id {
        1int
    } else {
        0int
    };
    let ghost head_q = if o.id.0 == id {
        o.qty as int
    } else {
        0int
    };
    if ls.len() == 0 {
        assert(ls2[0].queue =~= seq![o]);
        assert(ls2.drop_first() =~= Seq::<LevelModel>::empty());
        assert(ls2[0].queue.drop_first() =~= Seq::<Order>::empty());
        assert(count_in_queue(ls2[0].queue.drop_first(), id) == 0);
        assert(qty_in_queue(ls2[0].queue.drop_first(), id) == 0);
        assert(count_in_queue(ls2[0].queue, id) == head_c);
        assert(qty_in_queue(ls2[0].queue, id) == head_q);
        assert(count_in_levels(ls2, id) == count_in_queue(ls2[0].queue, id) + count_in_levels(
            ls2.drop_first(),
            id,
        ));
        assert(qty_in_levels(ls2, id) == qty_in_queue(ls2[0].queue, id) + qty_in_levels(
            ls2.drop_first(),
            id,
        ));
    } else if ls[0].price == o.price {
        lemma_count_in_queue_push(ls[0].queue, o, id);
        assert(ls2.drop_first() =~= ls.drop_first());
        assert(ls2[0].queue == ls[0].queue.push(o));
        assert(count_in_levels(ls2, id) == count_in_queue(ls[0].queue.push(o), id)
            + count_in_levels(ls.drop_first(), id));
        assert(qty_in_levels(ls2, id) == qty_in_queue(ls[0].queue.push(o), id) + qty_in_levels(
            ls.drop_first(),
            id,
        ));
        assert(count_in_levels(ls, id) == count_in_queue(ls[0].queue, id) + count_in_levels(
            ls.drop_first(),
            id,
        ));
        assert(qty_in_levels(ls, id) == qty_in_queue(ls[0].queue, id) + qty_in_levels(
            ls.drop_first(),
            id,
        ));
    } else if better(side, o.price, ls[0].price) {
        assert(ls2.drop_first() =~= ls);
        assert(ls2[0].queue =~= seq![o]);
        assert(ls2[0].queue.drop_first() =~= Seq::<Order>::empty());
        assert(count_in_queue(ls2[0].queue.drop_first(), id) == 0);
        assert(qty_in_queue(ls2[0].queue.drop_first(), id) == 0);
        assert(count_in_queue(ls2[0].queue, id) == head_c);
        assert(qty_in_queue(ls2[0].queue, id) == head_q);
        assert(count_in_levels(ls2, id) == count_in_queue(ls2[0].queue, id) + count_in_levels(
            ls,
            id,
        ));
        assert(qty_in_levels(ls2, id) == qty_in_queue(ls2[0].queue, id) + qty_in_levels(ls, id));
    } else {
        lemma_rest_into_id(ls.drop_first(), o, side, id);
        let tail = rest_into(ls.drop_first(), o, side);
        assert(ls2.drop_first() =~= tail);
        assert(ls2[0] == ls[0]);
        assert(count_in_levels(ls2, id) == count_in_queue(ls[0].queue, id) + count_in_levels(
            tail,
            id,
        ));
        assert(qty_in_levels(ls2, id) == qty_in_queue(ls[0].queue, id) + qty_in_levels(
            tail,
            id,
        ));
        assert(count_in_levels(ls, id) == count_in_queue(ls[0].queue, id) + count_in_levels(
            ls.drop_first(),
            id,
        ));
        assert(qty_in_levels(ls, id) == qty_in_queue(ls[0].queue, id) + qty_in_levels(
            ls.drop_first(),
            id,
        ));
    }
}

/// One queue with its head removed is still well formed.
pub proof fn lemma_queue_wf_drop_first(q: Seq<Order>, side: Side, p: u64, next_id: u64)
    requires
        queue_wf(q, side, p, next_id),
        q.len() > 0,
    ensures
        queue_wf(q.drop_first(), side, p, next_id),
{
    assert forall|k: int| 0 <= k < q.drop_first().len() implies {
        let o = #[trigger] q.drop_first()[k];
        &&& o.qty > 0
        &&& o.price == p
        &&& o.side == side
        &&& o.order_type == crate::types::OrderType::Limit
        &&& 1 <= o.id.0 <= next_id
    } by {
        assert(q.drop_first()[k] == q[k + 1]);
    }
}

/// Removing an order keeps a queue well formed, and what was removed was a
/// well-formed resting order of that queue.
pub proof fn lemma_remove_from_queue_keeps(q: Seq<Order>, id: u64, side: Side, p: u64, next_id: u64)
    requires
        queue_wf(q, side, p, next_id),
    ensures
        ({
            let (q2, found) = remove_from_queue(q, id);
            &&& queue_wf(q2, side, p, next_id)
            &&& match found {
                Some(o) => o.qty > 0 && o.price == p && o.side == side && o.order_type
                    == crate::types::OrderType::Limit && 1 <= o.id.0 <= next_id && o.id.0 == id,
                None => true,
            }
        }),
    decreases q.len(),
{
    let (q2, found) = remove_from_queue(q, id);
    if q.len() == 0 {
    } else if q[0].id.0 == id {
        lemma_queue_wf_drop_first(q, side, p, next_id);
    } else {
        lemma_queue_wf_drop_first(q, side, p, next_id);
        lemma_remove_from_queue_keeps(q.drop_first(), id, side, p, next_id);
        let (q21, _f) = remove_from_queue(q.drop_first(), id);
        assert forall|k: int| 0 <= k < q2.len() implies {
            let o = #[trigger] q2[k];
            &&& o.qty > 0
            &&& o.price == p
            &&& o.side == side
            &&& o.order_type == crate::types::OrderType::Limit
            &&& 1 <= o.id.0 <= next_id
        } by {
            if k > 0 {
                assert(q2[k] == q21[k - 1]);
            } else {
                assert(q2[0] == q[0]);
            }
        }
    }
}

/// Removal changes the counted occurrences and resting quantity of the
/// removed id alone, by exactly the removed order.
pub proof fn lemma_remove_from_queue_id(q: Seq<Order>, id: u64, id2: u64)
    ensures
        ({
            let (q2, found) = remove_from_queue(q, id);
            match found {
                Some(o) => count_in_queue(q2, id2) == count_in_queue(q, id2) - (if id2 == o.id.0 {
                    1int
                } else {
                    0int
                }) && qty_in_queue(q2, id2) == qty_in_queue(q, id2) - (if id2 == o.id.0 {
                    o.qty as int
                } else {
                    0int
                }),
                None => true,
            }
        }),
    decreases q.len(),
{
    let (q2, found) = remove_from_queue(q, id);
    if q.len() == 0 {
    } else if q[0].id.0 == id {
    } else {
        lemma_remove_from_queue_id(q.drop_first(), id, id2);
        let (q21, f1) = remove_from_queue(q.drop_first(), id);
        if found is Some {
            assert(q2.drop_first() =~= q21);
            assert(q2[0] == q[0]);
            assert(count_in_queue(q2, id2) == (if q[0].id.0 == id2 {
                1int
            } else {
                0int
            }) + count_in_queue(q21, id2));
            assert(qty_in_queue(q2, id2) == (if q[0].id.0 == id2 {
                q[0].qty as int
            } else {
                0int
            }) + qty_in_queue(q21, id2));
        }
    }
}

/// Removing an order keeps a side well formed, its prices are old prices, and
/// what was removed was a well-formed resting order carrying the id.
pub proof fn lemma_remove_from_levels_keeps(ls: Seq<LevelModel>, id: u64, side: Side, next_id: u64)
    requires
        levels_wf(ls, side, next_id),
    ensures
        ({
            let (ls2, found) = remove_from_levels(ls, id);
            &&& levels_wf(ls2, side, next_id)
            &&& (forall|k: int| 0 <= k < ls2.len() ==> price_in(ls, (#[trigger] ls2[k]).price))
            &&& match found {
                Some(o) => o.qty > 0 && o.side == side && o.order_type
                    == crate::types::OrderType::Limit && 1 <= o.id.0 <= next_id && o.id.0 == id
                    && rests_at(ls, id, o.price),
                None => true,
            }
        }),
    decreases ls.len(),
{
    let (ls2, found) = remove_from_levels(ls, id);
    if ls.len() == 0 {
    } else {
        let q0 = ls[0].queue;
        let p0 = ls[0].price;
        lemma_remove_from_queue_keeps(q0, id, side, p0, next_id);
        lemma_remove_from_queue_found(q0, id);
        lemma_levels_wf_drop_first(ls, side, next_id);
        let (q2, f0) = remove_from_queue(q0, id);
        if f0 is Some {
            assert(rests_at(ls, id, p0)) by {
                let k = choose|k: int| 0 <= k < q0.len() && (#[trigger] q0[k]).id.0 == id;
                assert(0 <= 0 < ls.len() && 0 <= k < ls[0].queue.len() && ls[0].queue[k].id.0
                    == id && ls[0].price == p0);
            }
            if q2.len() == 0 {
                assert forall|k: int| 0 <= k < ls2.len() implies price_in(
                    ls,
                    (#[trigger] ls2[k]).price,
                ) by {
                    assert(ls2[k] == ls[k + 1]);
                    assert(0 <= k + 1 < ls.len() && ls[k + 1].price == ls2[k].price);
                }
            } else {
                assert(ls2 =~= seq![LevelModel { price: p0, queue: q2 }] + ls.drop_first());
                assert(levels_wf(ls2, side, next_id)) by {
                    assert forall|i: int| 0 <= i < ls2.len() implies (
                    #[trigger] ls2[i]).queue.len() > 0 && queue_wf(
                        ls2[i].queue,
                        side,
                        ls2[i].price,
                        next_id,
                    ) by {
                        if i > 0 {
                            assert(ls2[i] == ls[i]);
                        }
                    }
                    assert forall|i: int, j: int| 0 <= i < j < ls2.len() implies better(
                        side,
                        (#[trigger] ls2[i]).price,
                        (#[trigger] ls2[j]).price,
                    ) by {
                        assert(ls2[j] == ls[j]);
                        if i > 0 {
                            assert(ls2[i] == ls[i]);
                        } else {
                            assert(ls2[0].price == ls[0].price);
                        }
                    }
                }
                assert forall|k: int| 0 <= k < ls2.len() implies price_in(
                    ls,
                    (#[trigger] ls2[k]).price,
                ) by {
                    if k > 0 {
                        assert(ls2[k] == ls[k]);
                        assert(0 <= k < ls.len() && ls[k].price == ls2[k].price);
                    } else {
                        assert(0 <= 0 < ls.len() && ls[0].price == ls2[0].price);
                    }
                }
            }
        } else {
            lemma_remove_from_levels_keeps(ls.drop_first(), id, side, next_id);
            let (ls21, f1) = remove_from_levels(ls.drop_first(), id);
            assert(ls2 =~= seq![ls[0]] + ls21);
            assert(levels_wf(ls2, side, next_id)) by {
                assert forall|i: int| 0 <= i < ls2.len() implies (
                #[trigger] ls2[i]).queue.len() > 0 && queue_wf(
                    ls2[i].queue,
                    side,
                    ls2[i].price,
                    next_id,
                ) by {
                    if i > 0 {
                        assert(ls2[i] == ls21[i - 1]);
                    } else {
                        assert(ls2[0] == ls[0]);
                    }
                }
                assert forall|i: int, j: int| 0 <= i < j < ls2.len() implies better(
                    side,
                    (#[trigger] ls2[i]).price,
                    (#[trigger] ls2[j]).price,
                ) by {
                    assert(ls2[j] == ls21[j - 1]);
                    assert(price_in(ls.drop_first(), ls21[j - 1].price));
                    let k0 = choose|k0: int|
                        0 <= k0 < ls.drop_first().len() && (
                        #[trigger] ls.drop_first()[k0]).price == ls21[j - 1].price;
                    assert(ls.drop_first()[k0] == ls[k0 + 1]);
                    if i > 0 {
                        assert(ls2[i] == ls21[i - 1]);
                        assert(price_in(ls.drop_first(), ls21[i - 1].price));
                        let k1 = choose|k1: int|
                            0 <= k1 < ls.drop_first().len() && (
                            #[trigger] ls.drop_first()[k1]).price == ls21[i - 1].price;
                        assert(ls.drop_first()[k1] == ls[k1 + 1]);
                        assert(levels_wf(ls21, side, next_id));
                        assert(better(side, ls21[i - 1].price, ls21[j - 1].price));
                    } else {
                        assert(ls2[0] == ls[0]);
                        assert(better(side, ls[0].price, ls[k0 + 1].price));
                    }
                }
            }
            assert forall|k: int| 0 <= k < ls2.len() implies price_in(
                ls,
                (#[trigger] ls2[k]).price,
            ) by {
                if k == 0 {
                    assert(0 <= 0 < ls.len() && ls[0].price == ls2[0].price);
                } else {
                    assert(ls2[k] == ls21[k - 1]);
                    assert(price_in(ls.drop_first(), ls21[k - 1].price));
                    let k0 = choose|k0: int|
                        0 <= k0 < ls.drop_first().len() && (
                        #[trigger] ls.drop_first()[k0]).price == ls21[k - 1].price;
                    assert(ls.drop_first()[k0] == ls[k0 + 1]);
                    assert(0 <= k0 + 1 < ls.len() && ls[k0 + 1].price == ls2[k].price);
                }
            }
            if f1 is Some {
                let o = f1->Some_0;
                assert(rests_at(ls.drop_first(), id, o.price));
                let (i, k) = choose|i: int, k: int|
                    0 <= i < ls.drop_first().len() && 0 <= k < ls.drop_first()[i].queue.len() && (
                    #[trigger] ls.drop_first()[i].queue[k]).id.0 == id && ls.drop_first()[i].price
                    == o.price;
                assert(ls[i + 1] == ls.drop_first()[i]);
                assert(0 <= i + 1 < ls.len() && 0 <= k < ls[i + 1].queue.len() && ls[i
                    + 1].queue[k].id.0 == id && ls[i + 1].price == o.price);
            }
        }
    }
}

/// Removal on a side changes the counted occurrences and resting quantity of
/// the removed id alone, by exactly the removed order.
pub proof fn lemma_remove_from_levels_id(ls: Seq<LevelModel>, id: u64, id2: u64)
    ensures
        ({
            let (ls2, found) = remove_from_levels(ls, id);
            match found {
                Some(o) => count_in_levels(ls2, id2) == count_in_levels(ls, id2) - (if id2
                    == o.id.0 {
                    1int
                } else {
                    0int
                }) && qty_in_levels(ls2, id2) == qty_in_levels(ls, id2) - (if id2 == o.id.0 {
                    o.qty as int
                } else {
                    0int
                }),
                None => true,
            }
        }),
    decreases ls.len(),
{
    let (ls2, found) = remove_from_levels(ls, id);
    if ls.len() == 0 {
    } else {
        let q0 = ls[0].queue;
        let (q2, f0) = remove_from_queue(q0, id);
        lemma_remove_from_queue_id(q0, id, id2);
        if f0 is Some {
            if q2.len() == 0 {
                lemma_count_in_queue_iff(q2, id2);
                lemma_queue_count_zero(q2, id2);
                assert(count_in_queue(q2, id2) == 0);
            } else {
                assert(ls2.drop_first() =~= ls.drop_first());
                assert(ls2[0].queue == q2);
                assert(count_in_levels(ls2, id2) == count_in_queue(q2, id2) + count_in_levels(
                    ls.drop_first(),
                    id2,
                ));
                assert(qty_in_levels(ls2, id2) == qty_in_queue(q2, id2) + qty_in_levels(
                    ls.drop_first(),
                    id2,
                ));
            }
        } else {
            lemma_remove_from_queue_none(q0, id);
            lemma_remove_from_levels_id(ls.drop_first(), id, id2);
            let (ls21, f1) = remove_from_levels(ls.drop_first(), id);
            if f1 is Some {
                assert(ls2.drop_first() =~= ls21);
                assert(ls2[0] == ls[0]);
                assert(count_in_levels(ls2, id2) == count_in_queue(q0, id2) + count_in_levels(
                    ls21,
                    id2,
                ));
                assert(qty_in_levels(ls2, id2) == qty_in_queue(q0, id2) + qty_in_levels(
                    ls21,
                    id2,
                ));
            }
        }
    }
}

} // verus!
