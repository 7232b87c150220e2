//! Sequenced batch processing: commands are brought into sequence order by a
//! stable insertion sort, rejected when sequence numbers repeat, and executed
//! in order against the book.

use vstd::prelude::*;

use crate::book::OrderBook;
use crate::model::apply_commands;
use crate::model::cancel_transition;
use crate::model::submit_transition;
use crate::types::Command;
use crate::types::EngineError;
use crate::types::OrderId;
use crate::types::Trade;
use crate::types::seq_of;
use crate::types::spec_seq_of;

verus! {

/// `c` placed into the already-sorted `s`, before the first command with a
/// strictly greater sequence number but after earlier-arrived equals.
pub open spec fn insert_by_seq(c: Command, s: Seq<Command>) -> Seq<Command>
    decreases s.len(),
{
    if s.len() == 0 {
        seq![c]
    } else if spec_seq_of(c) <= spec_seq_of(s[0]) {
        seq![c] + s
    } else {
        seq![s[0]] + insert_by_seq(c, s.drop_first())
    }
}

/// `s` stably sorted by sequence number.
pub open spec fn sort_by_seq(s: Seq<Command>) -> Seq<Command>
    decreases s.len(),
{
    if s.len() == 0 {
        Seq::empty()
    } else {
        insert_by_seq(s[0], sort_by_seq(s.drop_first()))
    }
}

/// Sequence numbers strictly increase along `s`.
pub open spec fn strict_increasing(s: Seq<Command>) -> bool {
    forall|j: int| 0 < j < s.len() ==> spec_seq_of(s[j - 1]) < spec_seq_of(#[trigger] s[j])
}

/// Insertion keeps every command; only the order changes.
pub proof fn lemma_insert_by_seq_len(c: Command, s: Seq<Command>)
    ensures
        insert_by_seq(c, s).len() == s.len() + 1,
    decreases s.len(),
{
    if s.len() > 0 && !(spec_seq_of(c) <= spec_seq_of(s[0])) {
        lemma_insert_by_seq_len(c, s.drop_first());
    }
}

/// Sorting keeps every command; only the order changes.
pub proof fn lemma_sort_by_seq_len(s: Seq<Command>)
    ensures
        sort_by_seq(s).len() == s.len(),
    decreases s.len(),
{
    if s.len() > 0 {
        lemma_sort_by_seq_len(s.drop_first());
        lemma_insert_by_seq_len(s[0], sort_by_seq(s.drop_first()));
    }
}

/// Inserts `c` into the sorted `v`; mirrors `insert_by_seq`.
fn insert_cmd(v: &mut Vec<Command>, c: Command)
    ensures
        final(v)@ == insert_by_seq(c, old(v)@),
    decreases v.len(),
{
    let ghost v0 = v@;
    if v.len() == 0 {
        v.push(c);
        proof {
            assert(final(v)@ =~= seq![c]);
        }
        return ;
    }
    if seq_of(&c) <= seq_of(&v[0]) {
        v.insert(0, c);
        proof {
            assert(final(v)@ =~= seq![c] + v0);
        }
    } else {
        let head = v.remove(0);
        proof {
            assert(v@ =~= v0.drop_first());
        }
        insert_cmd(v, c);
        v.insert(0, head);
        proof {
            assert(final(v)@ =~= seq![head] + insert_by_seq(c, v0.drop_first()));
        }
    }
}

/// Stable insertion sort by sequence number; mirrors `sort_by_seq`.
fn sort_cmds(v: &mut Vec<Command>)
    ensures
        final(v)@ == sort_by_seq(old(v)@),
    decreases v.len(),
{
    let ghost v0 = v@;
    if v.len() == 0 {
        proof {
            assert(final(v)@ =~= sort_by_seq(v0));
        }
        return ;
    }
    let head = v.remove(0);
    proof {
        assert(v@ =~= v0.drop_first());
    }
    sort_cmds(v);
    insert_cmd(v, head);
}

/// Checks that sequence numbers strictly increase along `v`.
fn is_strictly_increasing(v: &Vec<Command>) -> (r: bool)
    ensures
        r == strict_increasing(v@),
{
    let n = v.len();
    let mut i: usize = 1;
    while i < n
        invariant
            1 <= i,
            n == v@.len(),
            forall|j: int| 0 < j < i ==> spec_seq_of(v@[j - 1]) < spec_seq_of(#[trigger] v@[j]),
        decreases n - i,
    {
        if seq_of(&v[i - 1]) >= seq_of(&v[i]) {
            return false;
        }
        i = i + 1;
    }
    true
}

impl OrderBook {
    /// Executes a batch: brings `cmds` into sequence order by a stable sort,
    /// fails with `InvalidSequence` when sequence numbers repeat (the sorted
    /// batch is left in `cmds`, nothing else changes), and otherwise executes
    /// the commands in sequence order, appending trades to `trades_out` in
    /// execution order. Returns `(id, remaining)` per command, a successful
    /// cancel echoing its id with remaining 0. A failing cancel stops the
    /// batch with `UnknownOrder`; trades and state changes already made are
    /// kept.
    pub fn process_commands_batch_checked_into(
        &mut self,
        cmds: &mut Vec<Command>,
        trades_out: &mut Vec<Trade>,
    ) -> (r: Result<Vec<(OrderId, u64)>, EngineError>)
        requires
            old(self)@.next_id + old(cmds)@.len() <= u64::MAX,
            old(self)@.ts + old(cmds)@.len() <= u64::MAX,
        ensures
            final(cmds)@ == sort_by_seq(old(cmds)@),
            ({
                let sorted = sort_by_seq(old(cmds)@);
                if strict_increasing(sorted) {
                    let (b2, ts, results) = apply_commands(old(self)@, sorted);
                    &&& final(self)@ == b2
                    &&& final(trades_out)@ == old(trades_out)@ + ts
                    &&& match r {
                        Ok(res) => results == Some(res@),
                        Err(e) => results is None && e == EngineError::UnknownOrder,
                    }
                } else {
                    &&& r is Err && r->Err_0 == EngineError::InvalidSequence
                    &&& final(self)@ == old(self)@
                    &&& final(trades_out)@ == old(trades_out)@
                }
            }),
            old(self)@.wf() ==> final(self)@.wf(),
    {
        proof {
            lemma_sort_by_seq_len(old(cmds)@);
        }
        sort_cmds(cmds);
        let ghost sorted = cmds@;
        let ghost b0 = self@;
        let ghost full = apply_commands(b0, sorted);
        if !is_strictly_increasing(cmds) {
            proof {
                assert(final(trades_out)@ =~= old(trades_out)@);
            }
            return Err(EngineError::InvalidSequence);
        }
        let mut results: Vec<(OrderId, u64)> = Vec::new();
        let n = cmds.len();
        let mut i: usize = 0;
        proof {
            assert(sorted.skip(0) =~= sorted);
        }
        while i < n
            invariant
                b0 == old(self)@,
                sorted == sort_by_seq(old(cmds)@),
                strict_increasing(sorted),
                n == sorted.len(),
                i <= n,
                cmds@ == sorted,
                b0.next_id + n <= u64::MAX,
                b0.ts + n <= u64::MAX,
                self@.next_id <= b0.next_id + i,
                self@.ts <= b0.ts + i,
                b0.wf() ==> self@.wf(),
                full == apply_commands(b0, sorted),
                full.0 == apply_commands(self@, sorted.skip(i as int)).0,
                old(trades_out)@ + full.1 == trades_out@ + apply_commands(
                    self@,
                    sorted.skip(i as int),
                ).1,
                ({
                    let cont = apply_commands(self@, sorted.skip(i as int));
                    match cont.2 {
                        Some(rest) => full.2 == Some(results@ + rest),
                        None => full.2 is None,
                    }
                }),
            decreases n - i,
        {
            let ghost bpre = self@;
            let ghost trades_pre = trades_out@;
            let ghost results_pre = results@;
            proof {
                assert(sorted.skip(i as int)[0] == sorted[i as int]);
                assert(sorted.skip(i as int).drop_first() =~= sorted.skip(i as int + 1));
            }
            let c = cmds[i];
            match c {
                Command::Limit { side, price, qty, .. } => {
                    let (id, remaining) = self.submit_limit_into(side, price, qty, trades_out);
                    results.push((id, remaining));
                    proof {
                        let out = submit_transition(bpre, side, Some(price), qty);
                        let cont2 = apply_commands(self@, sorted.skip(i as int + 1));
                        assert(old(trades_out)@ + full.1 =~= trades_out@ + cont2.1);
                        if cont2.2 is Some {
                            assert(results_pre + (seq![(out.id, out.remaining)] + cont2.2->Some_0)
                                =~= results@ + cont2.2->Some_0);
                        }
                    }
                },
                Command::Market { side, qty, .. } => {
                    let (id, remaining) = self.submit_market_into(side, qty, trades_out);
                    results.push((id, remaining));
                    proof {
                        let out = submit_transition(bpre, side, None, qty);
                        let cont2 = apply_commands(self@, sorted.skip(i as int + 1));
                        assert(old(trades_out)@ + full.1 =~= trades_out@ + cont2.1);
                        if cont2.2 is Some {
                            assert(results_pre + (seq![(out.id, out.remaining)] + cont2.2->Some_0)
                                =~= results@ + cont2.2->Some_0);
                        }
                    }
                },
                Command::Cancel { id, .. } => {
                    match self.cancel(id) {
                        Ok(_o) => {
                            results.push((id, 0));
                            proof {
                                let cont2 = apply_commands(self@, sorted.skip(i as int + 1));
                                assert(trades_pre + Seq::<Trade>::empty() =~= trades_pre);
                                assert(old(trades_out)@ + full.1 =~= trades_out@ + cont2.1);
                                if cont2.2 is Some {
                                    assert(results_pre + (seq![(id, 0u64)] + cont2.2->Some_0)
                                        =~= results@ + cont2.2->Some_0);
                                }
                            }
                        },
                        Err(e) => {
                            proof {
                                crate::lemmas::lemma_remove_from_levels_none(bpre.bids, id.0);
                                crate::lemmas::lemma_remove_from_levels_none(bpre.asks, id.0);
                                let (bc, found) = cancel_transition(bpre, id);
                                assert(bc == bpre);
                                assert(final(trades_out)@ =~= old(trades_out)@ + full.1);
                            }
                            return Err(e);
                        },
                    }
                },
            }
            i = i + 1;
        }
        proof {
            assert(sorted.skip(n as int) =~= Seq::<Command>::empty());
            assert(final(trades_out)@ =~= old(trades_out)@ + full.1);
            assert(results@ + Seq::<(OrderId, u64)>::empty() =~= results@);
        }
        Ok(results)
    }

    /// As `process_commands_batch_checked_into`, but on a borrowed batch: the
    /// commands are copied, and a batch failure is reported as a single
    /// element instead of per-command results.
    pub fn process_commands_batch_into(
        &mut self,
        cmds: &Vec<Command>,
        trades_out: &mut Vec<Trade>,
    ) -> (r: Vec<Result<(OrderId, u64), EngineError>>)
        requires
            old(self)@.next_id + cmds@.len() <= u64::MAX,
            old(self)@.ts + cmds@.len() <= u64::MAX,
        ensures
            ({
                let sorted = sort_by_seq(cmds@);
                if strict_increasing(sorted) {
                    let (b2, ts, results) = apply_commands(old(self)@, sorted);
                    &&& final(self)@ == b2
                    &&& final(trades_out)@ == old(trades_out)@ + ts
                    &&& match results {
                        Some(rs) => r@.len() == rs.len() && forall|k: int|
                            0 <= k < rs.len() ==> r@[k] == Ok::<(OrderId, u64), EngineError>(
                                rs[k],
                            ),
                        None => r@ =~= seq![
                            Err::<(OrderId, u64), EngineError>(EngineError::UnknownOrder),
                        ],
                    }
                } else {
                    &&& final(self)@ == old(self)@
                    &&& final(trades_out)@ == old(trades_out)@
                    &&& r@ =~= seq![
                        Err::<(OrderId, u64), EngineError>(EngineError::InvalidSequence),
                    ]
                }
            }),
            old(self)@.wf() ==> final(self)@.wf(),
    {
        let mut owned: Vec<Command> = Vec::new();
        let n = cmds.len();
        let mut i: usize = 0;
        while i < n
            invariant
                n == cmds@.len(),
                i <= n,
                owned@ == cmds@.take(i as int),
            decreases n - i,
        {
            owned.push(cmds[i]);
            proof {
                assert(cmds@.take(i as int + 1) =~= cmds@.take(i as int).push(cmds@[i as int]));
            }
            i = i + 1;
        }
        proof {
            assert(cmds@.take(n as int) =~= cmds@);
        }
        match self.process_commands_batch_checked_into(&mut owned, trades_out) {
            Ok(res) => {
                let mut out: Vec<Result<(OrderId, u64), EngineError>> = Vec::new();
                let m = res.len();
                let mut k: usize = 0;
                while k < m
                    invariant
                        m == res@.len(),
                        k <= m,
                        out@.len() == k,
                        forall|j: int|
                            0 <= j < k ==> out@[j] == Ok::<(OrderId, u64), EngineError>(res@[j]),
                    decreases m - k,
                {
                    out.push(Ok(res[k]));
                    k = k + 1;
                }
                out
            },
            Err(e) => {
                let mut out: Vec<Result<(OrderId, u64), EngineError>> = Vec::new();
                out.push(Err(e));
                proof {
                    assert(out@ =~= seq![Err::<(OrderId, u64), EngineError>(e)]);
                }
                out
            },
        }
    }

    /// Submits a sequence of limit orders in order, appending all trades to
    /// `trades_out`.
    pub fn submit_limits_batch(
        &mut self,
        orders: &Vec<(crate::types::Side, u64, u64)>,
        trades_out: &mut Vec<Trade>,
    )
        requires
            old(self)@.next_id + orders@.len() <= u64::MAX,
            old(self)@.ts + orders@.len() <= u64::MAX,
        ensures
            ({
                let (b2, ts) = crate::model::apply_limits(old(self)@, orders@);
                final(self)@ == b2 && final(trades_out)@ == old(trades_out)@ + ts
            }),
            old(self)@.wf() ==> final(self)@.wf(),
    {
        let ghost b0 = self@;
        let ghost full = crate::model::apply_limits(b0, orders@);
        let n = orders.len();
        let mut i: usize = 0;
        proof {
            assert(orders@.skip(0) =~= orders@);
        }
        while i < n
            invariant
                b0 == old(self)@,
                n == orders@.len(),
                i <= n,
                b0.next_id + n <= u64::MAX,
                b0.ts + n <= u64::MAX,
                self@.next_id <= b0.next_id + i,
                self@.ts <= b0.ts + i,
                b0.wf() ==> self@.wf(),
                full == crate::model::apply_limits(b0, orders@),
                full.0 == crate::model::apply_limits(self@, orders@.skip(i as int)).0,
                old(trades_out)@ + full.1 == trades_out@ + crate::model::apply_limits(
                    self@,
                    orders@.skip(i as int),
                ).1,
            decreases n - i,
        {
            let ghost bpre = self@;
            proof {
                assert(orders@.skip(i as int)[0] == orders@[i as int]);
                assert(orders@.skip(i as int).drop_first() =~= orders@.skip(i as int + 1));
            }
            let (side, price, qty) = orders[i];
            let _ = self.submit_limit_into(side, price, qty, trades_out);
            proof {
                let out = submit_transition(bpre, side, Some(price), qty);
                let cont2 = crate::model::apply_limits(self@, orders@.skip(i as int + 1));
                assert(old(trades_out)@ + full.1 =~= trades_out@ + cont2.1);
            }
            i = i + 1;
        }
        proof {
            assert(orders@.skip(n as int) =~= Seq::<(crate::types::Side, u64, u64)>::empty());
            assert(final(trades_out)@ =~= old(trades_out)@ + full.1);
        }
    }
}

} // verus!
