//! The executable order book. Each side is a vector of price levels ordered
//! best-first; each level is a FIFO vector of resting orders. Every operation
//! is proved equal to its transition function from `model`.

use vstd::prelude::*;

use crate::model::BookModel;
use crate::model::LevelModel;
use crate::model::better;
use crate::model::eligible;
use crate::model::match_levels;
use crate::model::match_queue;
use crate::model::queue_qty_total;
use crate::model::remove_from_levels;
use crate::model::remove_from_queue;
use crate::model::rest_into;
use crate::model::submit_transition;
use crate::model::cancel_transition;
use crate::model::depth;
use crate::model::id_in_book;
use crate::model::sums_fit;
use crate::model::trades_qty_total;
use crate::types::EngineError;
use crate::types::Order;
use crate::types::OrderId;
use crate::types::OrderType;
use crate::types::Side;
use crate::types::Trade;

verus! {

/// One price level of the executable book.
pub struct Level {
    pub price: u64,
    pub queue: Vec<Order>,
}

impl View for Level {
    type V = LevelModel;

    open spec fn view(&self) -> LevelModel {
        LevelModel { price: self.price, queue: self.queue@ }
    }
}

/// The model of a whole side.
pub open spec fn levels_view(ls: Seq<Level>) -> Seq<LevelModel> {
    ls.map_values(|l: Level| l@)
}

/// A two-sided limit-order book with price-time priority.
pub struct OrderBook {
    pub bids: Vec<Level>,
    pub asks: Vec<Level>,
    pub next_id: u64,
    pub ts: u64,
}

impl View for OrderBook {
    type V = BookModel;

    open spec fn view(&self) -> BookModel {
        BookModel {
            bids: levels_view(self.bids@),
            asks: levels_view(self.asks@),
            next_id: self.next_id,
            ts: self.ts,
        }
    }
}

/// Decides `eligible` executably.
fn eligible_at(taker_side: Side, limit: Option<u64>, p: u64) -> (r: bool)
    ensures
        r == eligible(taker_side, limit, p),
{
    match limit {
        None => true,
        Some(l) => match taker_side {
            Side::Buy => p <= l,
            Side::Sell => p >= l,
        },
    }
}

/// Decides `better` executably.
fn better_px(side: Side, a: u64, b: u64) -> (r: bool)
    ensures
        r == better(side, a, b),
{
    match side {
        Side::Buy => a > b,
        Side::Sell => a < b,
    }
}

/// Consumes the head of one FIFO queue at price `p` until the taker is filled
/// or the queue empties, appending the trades; mirrors `match_queue`.
fn fill_from_queue(
    q: &mut Vec<Order>,
    trades: &mut Vec<Trade>,
    taker: OrderId,
    p: u64,
    rem: u64,
) -> (r: u64)
    ensures
        ({
            let (ts, q2, r2) = match_queue(old(q)@, taker, p, rem);
            final(trades)@ == old(trades)@ + ts && final(q)@ == q2 && r == r2
        }),
    decreases q.len(),
{
    if rem == 0 || q.len() == 0 {
        proof {
            assert(final(trades)@ =~= old(trades)@ + Seq::<Trade>::empty());
        }
        return rem;
    }
    let ghost q0 = q@;
    let mut maker = q.remove(0);
    proof {
        assert(q@ =~= q0.drop_first());
    }
    let tq = if rem < maker.qty {
        rem
    } else {
        maker.qty
    };
    let t = Trade { taker_id: taker, maker_id: maker.id, price: p, qty: tq };
    trades.push(t);
    if maker.qty <= rem {
        let r = fill_from_queue(q, trades, taker, p, rem - tq);
        proof {
            let (ts, q2, r2) = match_queue(q0.drop_first(), taker, p, (rem - tq) as u64);
            assert(final(trades)@ =~= old(trades)@ + (seq![t] + ts));
        }
        r
    } else {
        maker.qty = maker.qty - tq;
        q.insert(0, maker);
        proof {
            assert(q@ =~= seq![maker] + q0.drop_first());
            assert(final(trades)@ =~= old(trades)@ + seq![t]);
        }
        0
    }
}

/// Consumes eligible levels best-first, dropping emptied levels; mirrors
/// `match_levels`.
fn fill_from_levels(
    levels: &mut Vec<Level>,
    trades: &mut Vec<Trade>,
    taker: OrderId,
    taker_side: Side,
    limit: Option<u64>,
    rem: u64,
) -> (r: u64)
    ensures
        ({
            let (ts, ls2, r2) = match_levels(levels_view(old(levels)@), taker, taker_side, limit, rem);
            final(trades)@ == old(trades)@ + ts && levels_view(final(levels)@) == ls2 && r == r2
        }),
    decreases levels.len(),
{
    if rem == 0 || levels.len() == 0 {
        proof {
            assert(final(trades)@ =~= old(trades)@ + Seq::<Trade>::empty());
        }
        return rem;
    }
    let p = levels[0].price;
    if !eligible_at(taker_side, limit, p) {
        proof {
            assert(final(trades)@ =~= old(trades)@ + Seq::<Trade>::empty());
        }
        return rem;
    }
    let ghost ls0 = levels_view(levels@);
    let mut lvl = levels.remove(0);
    proof {
        assert(levels_view(levels@) =~= ls0.drop_first());
    }
    let r1 = fill_from_queue(&mut lvl.queue, trades, taker, p, rem);
    if lvl.queue.len() == 0 {
        let r = fill_from_levels(levels, trades, taker, taker_side, limit, r1);
        proof {
            let (ts1, q2, rr1) = match_queue(ls0[0].queue, taker, p, rem);
            let (ts2, ls2, r2) = match_levels(ls0.drop_first(), taker, taker_side, limit, r1);
            assert(final(trades)@ =~= old(trades)@ + (ts1 + ts2));
        }
        r
    } else {
        levels.insert(0, lvl);
        proof {
            let (ts1, q2, rr1) = match_queue(ls0[0].queue, taker, p, rem);
            assert(levels_view(final(levels)@) =~= seq![
                LevelModel { price: ls0[0].price, queue: q2 },
            ] + ls0.drop_first());
        }
        r1
    }
}

/// Rests `o` on its own side: appended to its price's queue, or a fresh level
/// inserted in priority position; mirrors `rest_into`.
fn rest_order(levels: &mut Vec<Level>, o: Order, side: Side)
    ensures
        levels_view(final(levels)@) == rest_into(levels_view(old(levels)@), o, side),
    decreases levels.len(),
{
    let ghost ls0 = levels_view(levels@);
    if levels.len() == 0 {
        let mut q: Vec<Order> = Vec::new();
        let price = o.price;
        q.push(o);
        levels.push(Level { price, queue: q });
        proof {
            assert(levels_view(final(levels)@) =~~= rest_into(ls0, o, side));
        }
        return ;
    }
    if levels[0].price == o.price {
        let mut lvl = levels.remove(0);
        lvl.queue.push(o);
        levels.insert(0, lvl);
        proof {
            assert(levels_view(final(levels)@) =~~= rest_into(ls0, o, side));
        }
    } else if better_px(side, o.price, levels[0].price) {
        let mut q: Vec<Order> = Vec::new();
        let price = o.price;
        q.push(o);
        levels.insert(0, Level { price, queue: q });
        proof {
            assert(levels_view(final(levels)@) =~~= rest_into(ls0, o, side));
        }
    } else {
        let head = levels.remove(0);
        proof {
            assert(levels_view(levels@) =~= ls0.drop_first());
        }
        rest_order(levels, o, side);
        levels.insert(0, head);
        proof {
            assert(levels_view(final(levels)@) =~= seq![head@] + rest_into(
                ls0.drop_first(),
                o,
                side,
            ));
        }
    }
}

/// Removes the first order with id `id` from `q`, if present; mirrors
/// `remove_from_queue`.
fn remove_in_queue(q: &mut Vec<Order>, id: u64) -> (r: Option<Order>)
    ensures
        ({
            let (q2, found) = remove_from_queue(old(q)@, id);
            final(q)@ == q2 && r == found
        }),
    decreases q.len(),
{
    if q.len() == 0 {
        return None;
    }
    let ghost q0 = q@;
    let front = q.remove(0);
    proof {
        assert(q@ =~= q0.drop_first());
    }
    if front.id.0 == id {
        return Some(front);
    }
    let r = remove_in_queue(q, id);
    q.insert(0, front);
    proof {
        let (q2, found) = remove_from_queue(q0.drop_first(), id);
        assert(final(q)@ =~= seq![front] + q2);
    }
    r
}

/// Removes the order with id `id` from one side, dropping its level when
/// emptied; mirrors `remove_from_levels`.
fn cancel_in_levels(levels: &mut Vec<Level>, id: u64) -> (r: Option<Order>)
    ensures
        ({
            let (ls2, found) = remove_from_levels(levels_view(old(levels)@), id);
            levels_view(final(levels)@) == ls2 && r == found
        }),
    decreases levels.len(),
{
    if levels.len() == 0 {
        return None;
    }
    let ghost ls0 = levels_view(levels@);
    let mut lvl = levels.remove(0);
    proof {
        assert(levels_view(levels@) =~= ls0.drop_first());
    }
    let found = remove_in_queue(&mut lvl.queue, id);
    match found {
        Some(o) => {
            let ghost (q2, f) = remove_from_queue(ls0[0].queue, id);
            if lvl.queue.len() > 0 {
                levels.insert(0, lvl);
                proof {
                    assert(levels_view(final(levels)@) =~= seq![
                        LevelModel { price: ls0[0].price, queue: q2 },
                    ] + ls0.drop_first());
                }
            }
            Some(o)
        },
        None => {
            let r = cancel_in_levels(levels, id);
            levels.insert(0, lvl);
            proof {
                crate::lemmas::lemma_remove_from_queue_none(ls0[0].queue, id);
                let (ls2, found2) = remove_from_levels(ls0.drop_first(), id);
                assert(levels_view(final(levels)@) =~= seq![ls0[0]] + ls2);
            }
            r
        },
    }
}

/// Sums the remaining quantities of `q` from position `i` on.
fn sum_queue_from(q: &Vec<Order>, i: usize) -> (s: u64)
    requires
        i <= q.len(),
        queue_qty_total(q@.skip(i as int)) <= u64::MAX,
    ensures
        s as int == queue_qty_total(q@.skip(i as int)),
    decreases q.len() - i,
{
    if i == q.len() {
        proof {
            assert(q@.skip(i as int) =~= Seq::<Order>::empty());
        }
        0
    } else {
        proof {
            crate::lemmas::lemma_queue_total_nonneg(q@.skip(i as int + 1));
            assert(q@.skip(i as int).drop_first() =~= q@.skip(i as int + 1));
            assert(q@.skip(i as int)[0] == q@[i as int]);
        }
        let rest = sum_queue_from(q, i + 1);
        q[i].qty + rest
    }
}

/// The aggregate remaining quantity of one level's queue.
fn sum_queue(q: &Vec<Order>) -> (s: u64)
    requires
        queue_qty_total(q@) <= u64::MAX,
    ensures
        s as int == queue_qty_total(q@),
{
    proof {
        assert(q@.skip(0) =~= q@);
    }
    sum_queue_from(q, 0)
}

/// The top `n` levels of one side with their aggregate quantities.
fn depth_of(levels: &Vec<Level>, n: usize) -> (out: Vec<(u64, u64)>)
    requires
        sums_fit(levels_view(levels@)),
    ensures
        out@ == depth(levels_view(levels@), n as int),
{
    let mut out: Vec<(u64, u64)> = Vec::new();
    let m = if n < levels.len() {
        n
    } else {
        levels.len()
    };
    let ghost ls = levels_view(levels@);
    for i in 0..m
        invariant
            m == if n < levels.len() {
                n as int
            } else {
                levels.len() as int
            },
            ls == levels_view(levels@),
            sums_fit(ls),
            out@.len() == i,
            forall|j: int|
                0 <= j < i ==> out@[j] == (ls[j].price, queue_qty_total(ls[j].queue) as u64),
    {
        proof {
            assert(ls[i as int] == levels@[i as int]@);
            crate::lemmas::lemma_queue_total_nonneg(ls[i as int].queue);
        }
        let total = sum_queue(&levels[i].queue);
        let price = levels[i].price;
        out.push((price, total));
    }
    proof {
        assert(out@ =~= depth(ls, n as int));
    }
    out
}

impl OrderBook {
    /// A fresh, empty book.
    pub fn new() -> (b: OrderBook)
        ensures
            b@ == BookModel::empty(),
            b@.wf(),
    {
        let b = OrderBook { bids: Vec::new(), asks: Vec::new(), next_id: 0, ts: 0 };
        proof {
            assert(b@.bids =~= Seq::<LevelModel>::empty());
            assert(b@.asks =~= Seq::<LevelModel>::empty());
        }
        b
    }

    /// Advances and returns the per-book timestamp counter.
    pub fn now(&mut self) -> (t: u64)
        requires
            old(self)@.ts < u64::MAX,
        ensures
            final(self)@ == (BookModel { ts: (old(self)@.ts + 1) as u64, ..old(self)@ }),
            t == final(self)@.ts,
            old(self)@.wf() ==> final(self)@.wf(),
    {
        self.ts = self.ts + 1;
        self.ts
    }

    /// Issues the next order id; ids start at 1 and never repeat within one
    /// book.
    pub fn next_order_id(&mut self) -> (id: OrderId)
        requires
            old(self)@.next_id < u64::MAX,
        ensures
            final(self)@ == (BookModel { next_id: (old(self)@.next_id + 1) as u64, ..old(self)@ }),
            id == OrderId(final(self)@.next_id),
            old(self)@.wf() ==> final(self)@.wf(),
    {
        self.next_id = self.next_id + 1;
        OrderId(self.next_id)
    }

    /// The shared body of all submits: issues id and timestamp, matches the
    /// opposite side under the bound, and rests any limit residue.
    fn do_submit(
        &mut self,
        side: Side,
        limit: Option<u64>,
        qty: u64,
        trades_out: &mut Vec<Trade>,
    ) -> (r: (OrderId, u64))
        requires
            old(self)@.next_id < u64::MAX,
            old(self)@.ts < u64::MAX,
        ensures
            ({
                let out = submit_transition(old(self)@, side, limit, qty);
                final(self)@ == out.book && r.0 == out.id && r.1 == out.remaining && final(trades_out)@ == old(trades_out)@ + out.trades
            }),
            old(self)@.wf() ==> final(self)@.wf(),
            old(self)@.wf() ==> trades_qty_total(
                submit_transition(old(self)@, side, limit, qty).trades,
            ) + r.1 == qty,
    {
        proof {
            if old(self)@.wf() {
                crate::laws::lemma_submit_wf(old(self)@, side, limit, qty);
            }
        }
        self.next_id = self.next_id + 1;
        let id = OrderId(self.next_id);
        self.ts = self.ts + 1;
        let ts = self.ts;
        let remaining = match side {
            Side::Buy => fill_from_levels(&mut self.asks, trades_out, id, side, limit, qty),
            Side::Sell => fill_from_levels(&mut self.bids, trades_out, id, side, limit, qty),
        };
        if remaining > 0 {
            if let Some(price) = limit {
                let o = Order { id, side, price, qty: remaining, order_type: OrderType::Limit, ts };
                match side {
                    Side::Buy => rest_order(&mut self.bids, o, side),
                    Side::Sell => rest_order(&mut self.asks, o, side),
                }
            }
        }
        (id, remaining)
    }

    /// Submits a limit order, returning the issued id, the trades it caused
    /// in matching order, and the unfilled remainder (which rests whenever it
    /// is positive).
    pub fn submit_limit(&mut self, side: Side, price: u64, qty: u64) -> (r: (
        OrderId,
        Vec<Trade>,
        u64,
    ))
        requires
            old(self)@.next_id < u64::MAX,
            old(self)@.ts < u64::MAX,
        ensures
            ({
                let out = submit_transition(old(self)@, side, Some(price), qty);
                final(self)@ == out.book && r.0 == out.id && r.1@ == out.trades && r.2
                    == out.remaining
            }),
            old(self)@.wf() ==> final(self)@.wf(),
            old(self)@.wf() ==> trades_qty_total(
                submit_transition(old(self)@, side, Some(price), qty).trades,
            ) + r.2 == qty,
    {
        let mut trades: Vec<Trade> = Vec::new();
        let (id, remaining) = self.do_submit(side, Some(price), qty, &mut trades);
        proof {
            assert(trades@ =~= Seq::<Trade>::empty() + submit_transition(
                old(self)@,
                side,
                Some(price),
                qty,
            ).trades);
        }
        (id, trades, remaining)
    }

    /// Submits a market order: consumes the opposite side greedily and never
    /// rests; the remainder is returned unfilled when the side empties.
    pub fn submit_market(&mut self, side: Side, qty: u64) -> (r: (OrderId, Vec<Trade>, u64))
        requires
            old(self)@.next_id < u64::MAX,
            old(self)@.ts < u64::MAX,
        ensures
            ({
                let out = submit_transition(old(self)@, side, None, qty);
                final(self)@ == out.book && r.0 == out.id && r.1@ == out.trades && r.2
                    == out.remaining
            }),
            old(self)@.wf() ==> final(self)@.wf(),
            old(self)@.wf() ==> trades_qty_total(
                submit_transition(old(self)@, side, None, qty).trades,
            ) + r.2 == qty,
    {
        let mut trades: Vec<Trade> = Vec::new();
        let (id, remaining) = self.do_submit(side, None, qty, &mut trades);
        proof {
            assert(trades@ =~= Seq::<Trade>::empty() + submit_transition(
                old(self)@,
                side,
                None,
                qty,
            ).trades);
        }
        (id, trades, remaining)
    }

    /// As `submit_limit`, but appends the trades to a caller-provided buffer
    /// in the same order.
    pub fn submit_limit_into(
        &mut self,
        side: Side,
        price: u64,
        qty: u64,
        trades_out: &mut Vec<Trade>,
    ) -> (r: (OrderId, u64))
        requires
            old(self)@.next_id < u64::MAX,
            old(self)@.ts < u64::MAX,
        ensures
            ({
                let out = submit_transition(old(self)@, side, Some(price), qty);
                final(self)@ == out.book && r.0 == out.id && r.1 == out.remaining && final(trades_out)@ == old(trades_out)@ + out.trades
            }),
            old(self)@.wf() ==> final(self)@.wf(),
            old(self)@.wf() ==> trades_qty_total(
                submit_transition(old(self)@, side, Some(price), qty).trades,
            ) + r.1 == qty,
    {
        self.do_submit(side, Some(price), qty, trades_out)
    }

    /// As `submit_market`, but appends the trades to a caller-provided buffer
    /// in the same order.
    pub fn submit_market_into(
        &mut self,
        side: Side,
        qty: u64,
        trades_out: &mut Vec<Trade>,
    ) -> (r: (OrderId, u64))
        requires
            old(self)@.next_id < u64::MAX,
            old(self)@.ts < u64::MAX,
        ensures
            ({
                let out = submit_transition(old(self)@, side, None, qty);
                final(self)@ == out.book && r.0 == out.id && r.1 == out.remaining && final(trades_out)@ == old(trades_out)@ + out.trades
            }),
            old(self)@.wf() ==> final(self)@.wf(),
            old(self)@.wf() ==> trades_qty_total(
                submit_transition(old(self)@, side, None, qty).trades,
            ) + r.1 == qty,
    {
        self.do_submit(side, None, qty, trades_out)
    }

    /// Cancels the resting order with id `id`, returning it with its
    /// remaining quantity; fails with `UnknownOrder`, and changes nothing,
    /// exactly when no such order rests.
    pub fn cancel(&mut self, id: OrderId) -> (r: Result<Order, EngineError>)
        ensures
            ({
                let (b2, found) = cancel_transition(old(self)@, id);
                match r {
                    Ok(o) => found == Some(o) && final(self)@ == b2,
                    Err(e) => e == EngineError::UnknownOrder && found is None && final(self)@
                        == old(self)@,
                }
            }),
            r is Ok <==> id_in_book(old(self)@, id.0),
            old(self)@.wf() ==> final(self)@.wf(),
    {
        proof {
            crate::lemmas::lemma_remove_from_levels_found(old(self)@.bids, id.0);
            crate::lemmas::lemma_remove_from_levels_found(old(self)@.asks, id.0);
            if old(self)@.wf() {
                crate::laws::lemma_cancel_wf(old(self)@, id);
            }
        }
        let rb = cancel_in_levels(&mut self.bids, id.0);
        match rb {
            Some(o) => Ok(o),
            None => {
                proof {
                    crate::lemmas::lemma_remove_from_levels_none(old(self)@.bids, id.0);
                }
                let ra = cancel_in_levels(&mut self.asks, id.0);
                match ra {
                    Some(o) => Ok(o),
                    None => {
                        proof {
                            crate::lemmas::lemma_remove_from_levels_none(old(self)@.asks, id.0);
                        }
                        Err(EngineError::UnknownOrder)
                    },
                }
            },
        }
    }

    /// The best bid price with its level's aggregate resting quantity, `None`
    /// when no bid rests.
    pub fn best_bid(&self) -> (r: Option<(u64, u64)>)
        requires
            self@.bids.len() > 0 ==> queue_qty_total(self@.bids[0].queue) <= u64::MAX,
        ensures
            r == self@.best_bid(),
    {
        if self.bids.len() == 0 {
            None
        } else {
            proof {
                assert(self@.bids[0] == self.bids@[0]@);
            }
            let total = sum_queue(&self.bids[0].queue);
            Some((self.bids[0].price, total))
        }
    }

    /// The best ask price with its level's aggregate resting quantity, `None`
    /// when no ask rests.
    pub fn best_ask(&self) -> (r: Option<(u64, u64)>)
        requires
            self@.asks.len() > 0 ==> queue_qty_total(self@.asks[0].queue) <= u64::MAX,
        ensures
            r == self@.best_ask(),
    {
        if self.asks.len() == 0 {
            None
        } else {
            proof {
                assert(self@.asks[0] == self.asks@[0]@);
            }
            let total = sum_queue(&self.asks[0].queue);
            Some((self.asks[0].price, total))
        }
    }

    /// The top `n` levels of each side in priority order, each price with its
    /// aggregate resting quantity.
    pub fn top_n(&self, n: usize) -> (r: (Vec<(u64, u64)>, Vec<(u64, u64)>))
        requires
            sums_fit(self@.bids),
            sums_fit(self@.asks),
        ensures
            r.0@ == depth(self@.bids, n as int),
            r.1@ == depth(self@.asks, n as int),
    {
        (depth_of(&self.bids, n), depth_of(&self.asks, n))
    }
}

impl Default for OrderBook {
    /// The empty book.
    fn default() -> (b: OrderBook)
        ensures
            b@ == BookModel::empty(),
            b@.wf(),
    {
        OrderBook::new()
    }
}

} // verus!
