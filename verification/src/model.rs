//! The mathematical model of a book: sequences of price levels, each a FIFO
//! queue of resting orders, and the transition functions that say exactly what
//! each book operation does. Contracts of the executable code are stated over
//! these functions.

use vstd::prelude::*;

use crate::types::Command;
use crate::types::Order;
use crate::types::OrderId;
use crate::types::OrderType;
use crate::types::Side;
use crate::types::Trade;

verus! {

/// One price level: a FIFO queue of resting orders, earliest first.
pub struct LevelModel {
    pub price: u64,
    pub queue: Seq<Order>,
}

/// The whole book. `bids` is ordered best-first (descending prices),
/// `asks` best-first as well (ascending prices).
pub struct BookModel {
    pub bids: Seq<LevelModel>,
    pub asks: Seq<LevelModel>,
    pub next_id: u64,
    pub ts: u64,
}

/// The side opposite to `side`.
pub open spec fn opp(side: Side) -> Side {
    match side {
        Side::Buy => Side::Sell,
        Side::Sell => Side::Buy,
    }
}

/// Price `a` has strictly better priority than `b` on the book side owned by
/// `side`: higher for bids, lower for asks.
pub open spec fn better(side: Side, a: u64, b: u64) -> bool {
    match side {
        Side::Buy => a > b,
        Side::Sell => a < b,
    }
}

/// A maker level at price `p` is eligible for a taker on `taker_side` bounded
/// by `limit`: any price for a market order, else at or inside the limit.
pub open spec fn eligible(taker_side: Side, limit: Option<u64>, p: u64) -> bool {
    match limit {
        Option::None => true,
        Option::Some(l) => match taker_side {
            Side::Buy => p <= l,
            Side::Sell => p >= l,
        },
    }
}

/// Every order in `q` rests with positive remaining quantity at `price` on
/// `side`, is a limit order, and carries an id already issued (`<= next_id`).
pub open spec fn queue_wf(q: Seq<Order>, side: Side, price: u64, next_id: u64) -> bool {
    forall|k: int|
        0 <= k < q.len() ==> {
            let o = #[trigger] q[k];
            &&& o.qty > 0
            &&& o.price == price
            &&& o.side == side
            &&& o.order_type == OrderType::Limit
            &&& 1 <= o.id.0 <= next_id
        }
}

/// Levels on one side: non-empty well-formed queues, prices strictly ordered
/// best-first.
pub open spec fn levels_wf(ls: Seq<LevelModel>, side: Side, next_id: u64) -> bool {
    &&& forall|i: int|
        0 <= i < ls.len() ==> (#[trigger] ls[i]).queue.len() > 0 && queue_wf(
            ls[i].queue,
            side,
            ls[i].price,
            next_id,
        )
    &&& forall|i: int, j: int|
        0 <= i < j < ls.len() ==> better(side, (#[trigger] ls[i]).price, (#[trigger] ls[j]).price)
}

/// How many resting orders in `q` carry the id `id`.
pub open spec fn count_in_queue(q: Seq<Order>, id: u64) -> int
    decreases q.len(),
{
    if q.len() == 0 {
        0
    } else {
        (if q[0].id.0 == id {
            1int
        } else {
            0int
        }) + count_in_queue(q.drop_first(), id)
    }
}

/// How many resting orders across `ls` carry the id `id`.
pub open spec fn count_in_levels(ls: Seq<LevelModel>, id: u64) -> int
    decreases ls.len(),
{
    if ls.len() == 0 {
        0
    } else {
        count_in_queue(ls[0].queue, id) + count_in_levels(ls.drop_first(), id)
    }
}

/// Total remaining quantity in `q` resting under id `id`.
pub open spec fn qty_in_queue(q: Seq<Order>, id: u64) -> int
    decreases q.len(),
{
    if q.len() == 0 {
        0
    } else {
        (if q[0].id.0 == id {
            q[0].qty as int
        } else {
            0int
        }) + qty_in_queue(q.drop_first(), id)
    }
}

/// Total remaining quantity across `ls` resting under id `id`.
pub open spec fn qty_in_levels(ls: Seq<LevelModel>, id: u64) -> int
    decreases ls.len(),
{
    if ls.len() == 0 {
        0
    } else {
        qty_in_queue(ls[0].queue, id) + qty_in_levels(ls.drop_first(), id)
    }
}

/// Aggregate resting quantity of one queue, every order counted.
pub open spec fn queue_qty_total(q: Seq<Order>) -> int
    decreases q.len(),
{
    if q.len() == 0 {
        0
    } else {
        q[0].qty + queue_qty_total(q.drop_first())
    }
}

/// Sum of the quantities of a sequence of trades.
pub open spec fn trades_qty_total(ts: Seq<Trade>) -> int
    decreases ts.len(),
{
    if ts.len() == 0 {
        0
    } else {
        ts[0].qty + trades_qty_total(ts.drop_first())
    }
}

/// Quantity taken from maker `id` by the trades `ts`.
pub open spec fn maker_traded_qty(ts: Seq<Trade>, id: u64) -> int
    decreases ts.len(),
{
    if ts.len() == 0 {
        0
    } else {
        (if ts[0].maker_id.0 == id {
            ts[0].qty as int
        } else {
            0int
        }) + maker_traded_qty(ts.drop_first(), id)
    }
}

/// Some order with id `id` rests in `ls` at price `price`.
pub open spec fn rests_at(ls: Seq<LevelModel>, id: u64, price: u64) -> bool {
    exists|i: int, k: int|
        0 <= i < ls.len() && 0 <= k < ls[i].queue.len() && (#[trigger] ls[i].queue[k]).id.0 == id
            && ls[i].price == price
}

/// Some order with id `id` rests somewhere in `ls`.
pub open spec fn id_in_levels(ls: Seq<LevelModel>, id: u64) -> bool {
    exists|i: int, k: int|
        0 <= i < ls.len() && 0 <= k < ls[i].queue.len() && (#[trigger] ls[i].queue[k]).id.0 == id
}

/// Some order with id `id` rests somewhere in the book.
pub open spec fn id_in_book(b: BookModel, id: u64) -> bool {
    id_in_levels(b.bids, id) || id_in_levels(b.asks, id)
}

/// Some level of `ls` is priced at `p`.
pub open spec fn price_in(ls: Seq<LevelModel>, p: u64) -> bool {
    exists|i: int| 0 <= i < ls.len() && (#[trigger] ls[i]).price == p
}

/// Total remaining quantity resting in the book under id `id`.
pub open spec fn qty_in_book(b: BookModel, id: u64) -> int {
    qty_in_levels(b.bids, id) + qty_in_levels(b.asks, id)
}

impl BookModel {
    /// The book invariant: both sides well formed, each issued id resting at
    /// most once, and the best bid strictly below the best ask whenever both
    /// sides are non-empty.
    pub open spec fn wf(self) -> bool {
        &&& levels_wf(self.bids, Side::Buy, self.next_id)
        &&& levels_wf(self.asks, Side::Sell, self.next_id)
        &&& forall|id: u64|
            count_in_levels(self.bids, id) + count_in_levels(self.asks, id) <= 1
        &&& (self.bids.len() > 0 && self.asks.len() > 0 ==> self.bids[0].price
            < self.asks[0].price)
    }

    /// The empty book.
    pub open spec fn empty() -> BookModel {
        BookModel { bids: Seq::empty(), asks: Seq::empty(), next_id: 0, ts: 0 }
    }

    /// The levels the taker on `taker_side` consumes.
    pub open spec fn opposite(self, taker_side: Side) -> Seq<LevelModel> {
        match taker_side {
            Side::Buy => self.asks,
            Side::Sell => self.bids,
        }
    }

    /// The levels on the taker's own side, where a residue may rest.
    pub open spec fn own(self, taker_side: Side) -> Seq<LevelModel> {
        match taker_side {
            Side::Buy => self.bids,
            Side::Sell => self.asks,
        }
    }

    /// The best price with resting quantity on the bid side, with that
    /// level's aggregate quantity.
    pub open spec fn best_bid(self) -> Option<(u64, u64)> {
        if self.bids.len() == 0 {
            Option::None
        } else {
            Option::Some((self.bids[0].price, queue_qty_total(self.bids[0].queue) as u64))
        }
    }

    /// The best price with resting quantity on the ask side, with that
    /// level's aggregate quantity.
    pub open spec fn best_ask(self) -> Option<(u64, u64)> {
        if self.asks.len() == 0 {
            Option::None
        } else {
            Option::Some((self.asks[0].price, queue_qty_total(self.asks[0].queue) as u64))
        }
    }

    /// The derived cancel index: each id resting in the book, mapped to the
    /// side and price it rests at.
    pub open spec fn index(self) -> Map<u64, (Side, u64)> {
        Map::new(
            |id: u64| id_in_book(self, id),
            |id: u64|
                if id_in_levels(self.bids, id) {
                    (Side::Buy, choose|p: u64| rests_at(self.bids, id, p))
                } else {
                    (Side::Sell, choose|p: u64| rests_at(self.asks, id, p))
                },
        )
    }
}

/// The top `n` levels of one side, best-first, each with its aggregate
/// resting quantity.
pub open spec fn depth(ls: Seq<LevelModel>, n: int) -> Seq<(u64, u64)> {
    Seq::new(
        (if n < ls.len() {
            n
        } else {
            ls.len() as int
        }) as nat,
        |i: int| (ls[i].price, queue_qty_total(ls[i].queue) as u64),
    )
}

/// Every level's aggregate resting quantity fits in a `u64`.
pub open spec fn sums_fit(ls: Seq<LevelModel>) -> bool {
    forall|i: int| 0 <= i < ls.len() ==> queue_qty_total((#[trigger] ls[i]).queue) <= u64::MAX
}

/// Matching one FIFO queue at price `p`: while quantity remains and makers
/// rest, the head maker trades `min(remaining, maker.qty)` at `p`; a fully
/// consumed maker is popped, a partially consumed one stays at the head with
/// its quantity reduced. Returns the trades in order, the remaining queue and
/// the taker's remaining quantity.
pub open spec fn match_queue(q: Seq<Order>, taker: OrderId, p: u64, rem: u64) -> (
    Seq<Trade>,
    Seq<Order>,
    u64,
)
    decreases q.len(),
{
    if rem == 0 || q.len() == 0 {
        (Seq::empty(), q, rem)
    } else {
        let maker = q[0];
        let tq = if rem < maker.qty {
            rem
        } else {
            maker.qty
        };
        let t = Trade { taker_id: taker, maker_id: maker.id, price: p, qty: tq };
        if maker.qty <= rem {
            let (ts, q2, r2) = match_queue(q.drop_first(), taker, p, (rem - tq) as u64);
            (seq![t] + ts, q2, r2)
        } else {
            let reduced = Order { qty: (maker.qty - tq) as u64, ..maker };
            (seq![t], seq![reduced] + q.drop_first(), 0u64)
        }
    }
}

/// Matching against a best-first sequence of levels: while quantity remains
/// and the best level is eligible, consume it FIFO; an emptied level is
/// removed and matching moves to the next one.
pub open spec fn match_levels(
    ls: Seq<LevelModel>,
    taker: OrderId,
    taker_side: Side,
    limit: Option<u64>,
    rem: u64,
) -> (Seq<Trade>, Seq<LevelModel>, u64)
    decreases ls.len(),
{
    if rem == 0 || ls.len() == 0 || !eligible(taker_side, limit, ls[0].price) {
        (Seq::empty(), ls, rem)
    } else {
        let (ts1, q2, r1) = match_queue(ls[0].queue, taker, ls[0].price, rem);
        if q2.len() == 0 {
            let (ts2, ls2, r2) = match_levels(ls.drop_first(), taker, taker_side, limit, r1);
            (ts1 + ts2, ls2, r2)
        } else {
            (ts1, seq![LevelModel { price: ls[0].price, queue: q2 }] + ls.drop_first(), r1)
        }
    }
}

/// Resting an order: appended to the tail of its price's queue, a new level
/// created in priority position when none exists at that price.
pub open spec fn rest_into(ls: Seq<LevelModel>, o: Order, side: Side) -> Seq<LevelModel>
    decreases ls.len(),
{
    if ls.len() == 0 {
        seq![LevelModel { price: o.price, queue: seq![o] }]
    } else if ls[0].price == o.price {
        seq![LevelModel { price: ls[0].price, queue: ls[0].queue.push(o) }] + ls.drop_first()
    } else if better(side, o.price, ls[0].price) {
        seq![LevelModel { price: o.price, queue: seq![o] }] + ls
    } else {
        seq![ls[0]] + rest_into(ls.drop_first(), o, side)
    }
}

/// Removing the first order with id `id` from a queue, if present.
pub open spec fn remove_from_queue(q: Seq<Order>, id: u64) -> (Seq<Order>, Option<Order>)
    decreases q.len(),
{
    if q.len() == 0 {
        (q, Option::None)
    } else if q[0].id.0 == id {
        (q.drop_first(), Option::Some(q[0]))
    } else {
        let (q2, found) = remove_from_queue(q.drop_first(), id);
        (seq![q[0]] + q2, found)
    }
}

/// Removing the order with id `id` from a side, dropping its level if that
/// empties it.
pub open spec fn remove_from_levels(ls: Seq<LevelModel>, id: u64) -> (
    Seq<LevelModel>,
    Option<Order>,
)
    decreases ls.len(),
{
    if ls.len() == 0 {
        (ls, Option::None)
    } else {
        let (q2, found) = remove_from_queue(ls[0].queue, id);
        if found is Some {
            if q2.len() == 0 {
                (ls.drop_first(), found)
            } else {
                (seq![LevelModel { price: ls[0].price, queue: q2 }] + ls.drop_first(), found)
            }
        } else {
            let (ls2, found2) = remove_from_levels(ls.drop_first(), id);
            (seq![ls[0]] + ls2, found2)
        }
    }
}

/// Everything one submit changes: the new book, the id issued to the taker,
/// the trades in matching order, and the taker's unfilled remainder.
pub struct SubmitOutcome {
    pub book: BookModel,
    pub id: OrderId,
    pub trades: Seq<Trade>,
    pub remaining: u64,
}

/// One submit against the book: a fresh id and timestamp are issued, the
/// opposite side is matched under the price bound (`None` for a market
/// order), and a limit residue rests on the taker's own side. Market
/// residues never rest.
pub open spec fn submit_transition(
    b: BookModel,
    side: Side,
    limit: Option<u64>,
    qty: u64,
) -> SubmitOutcome {
    let id = OrderId((b.next_id + 1) as u64);
    let ts2 = (b.ts + 1) as u64;
    let (trades, opp2, rem) = match_levels(b.opposite(side), id, side, limit, qty);
    let rests = limit is Some && rem > 0;
    let own2 = if rests {
        rest_into(
            b.own(side),
            Order {
                id,
                side,
                price: limit->Some_0,
                qty: rem,
                order_type: OrderType::Limit,
                ts: ts2,
            },
            side,
        )
    } else {
        b.own(side)
    };
    let book = match side {
        Side::Buy => BookModel { bids: own2, asks: opp2, next_id: id.0, ts: ts2 },
        Side::Sell => BookModel { bids: opp2, asks: own2, next_id: id.0, ts: ts2 },
    };
    SubmitOutcome { book, id, trades, remaining: rem }
}

/// One cancel: the bid side is searched, then the ask side; the removed
/// order, carrying its remaining quantity, is returned. An absent id leaves
/// the book unchanged.
pub open spec fn cancel_transition(b: BookModel, id: OrderId) -> (BookModel, Option<Order>) {
    let (bids2, found_b) = remove_from_levels(b.bids, id.0);
    if found_b is Some {
        (BookModel { bids: bids2, ..b }, found_b)
    } else {
        let (asks2, found_a) = remove_from_levels(b.asks, id.0);
        (BookModel { asks: asks2, ..b }, found_a)
    }
}

/// Folding a sequence of `(side, price, qty)` limit submissions over the
/// book in order, collecting all trades.
pub open spec fn apply_limits(b: BookModel, orders: Seq<(Side, u64, u64)>) -> (
    BookModel,
    Seq<Trade>,
)
    decreases orders.len(),
{
    if orders.len() == 0 {
        (b, Seq::empty())
    } else {
        let out = submit_transition(b, orders[0].0, Option::Some(orders[0].1), orders[0].2);
        let (b2, ts2) = apply_limits(out.book, orders.drop_first());
        (b2, out.trades + ts2)
    }
}

/// What one sequenced command does: the new book, the trades it produced, and
/// its per-command result (`(id, remaining)` for submits, `(id, 0)` for a
/// successful cancel, an error for a cancel of an absent id).
pub open spec fn apply_command(b: BookModel, c: Command) -> (
    BookModel,
    Seq<Trade>,
    Option<(OrderId, u64)>,
) {
    match c {
        Command::Limit { side, price, qty, .. } => {
            let out = submit_transition(b, side, Option::Some(price), qty);
            (out.book, out.trades, Option::Some((out.id, out.remaining)))
        },
        Command::Market { side, qty, .. } => {
            let out = submit_transition(b, side, Option::None, qty);
            (out.book, out.trades, Option::Some((out.id, out.remaining)))
        },
        Command::Cancel { id, .. } => {
            let (b2, found) = cancel_transition(b, id);
            match found {
                Option::Some(_) => (b2, Seq::empty(), Option::Some((id, 0u64))),
                Option::None => (b2, Seq::empty(), Option::None),
            }
        },
    }
}

/// Folding a sequence of commands over the book in order, stopping at the
/// first failing cancel: the final book, all trades in execution order, and
/// `Some` of the per-command results only when every command succeeded.
/// Trades and state changes before a failure are kept.
pub open spec fn apply_commands(b: BookModel, cs: Seq<Command>) -> (
    BookModel,
    Seq<Trade>,
    Option<Seq<(OrderId, u64)>>,
)
    decreases cs.len(),
{
    if cs.len() == 0 {
        (b, Seq::empty(), Option::Some(Seq::empty()))
    } else {
        let (b1, ts1, r1) = apply_command(b, cs[0]);
        match r1 {
            Option::None => (b1, ts1, Option::None),
            Option::Some(pair) => {
                let (b2, ts2, r2) = apply_commands(b1, cs.drop_first());
                let results = match r2 {
                    Option::Some(rest) => Option::Some(seq![pair] + rest),
                    Option::None => Option::None,
                };
                (b2, ts1 + ts2, results)
            },
        }
    }
}

} // verus!
