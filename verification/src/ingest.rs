//! The pure part of the ingestion workers: assigning per-symbol sequence
//! numbers to a batch of raw commands in arrival order. The worker's counter
//! wraps at the width of `u64`; only per-batch monotonicity matters.

use vstd::prelude::*;

use crate::types::Command;
use crate::types::RawCommand;

verus! {

/// The sequence counter after one admission: wraps at the width of `u64`.
pub open spec fn wrap_inc(s: u64) -> u64 {
    if s == u64::MAX {
        0
    } else {
        (s + 1) as u64
    }
}

/// The sequence counter after `n` admissions.
pub open spec fn seq_after(s0: u64, n: nat) -> u64
    decreases n,
{
    if n == 0 {
        s0
    } else {
        seq_after(wrap_inc(s0), (n - 1) as nat)
    }
}

/// A raw command tagged with the sequence number `s`.
pub open spec fn raw_to_cmd(rc: RawCommand, s: u64) -> Command {
    match rc {
        RawCommand::Limit { side, price, qty } => Command::Limit { seq: s, side, price, qty },
        RawCommand::Market { side, qty } => Command::Market { seq: s, side, qty },
        RawCommand::Cancel { id } => Command::Cancel { seq: s, id },
    }
}

/// The batch `raws` sequenced in arrival order starting at `s0`.
pub open spec fn sequenced(raws: Seq<RawCommand>, s0: u64) -> Seq<Command>
    decreases raws.len(),
{
    if raws.len() == 0 {
        Seq::empty()
    } else {
        seq![raw_to_cmd(raws[0], s0)] + sequenced(raws.drop_first(), wrap_inc(s0))
    }
}

/// Tags one raw command with a sequence number.
fn with_seq(rc: &RawCommand, s: u64) -> (c: Command)
    ensures
        c == raw_to_cmd(*rc, s),
{
    match *rc {
        RawCommand::Limit { side, price, qty } => Command::Limit { seq: s, side, price, qty },
        RawCommand::Market { side, qty } => Command::Market { seq: s, side, qty },
        RawCommand::Cancel { id } => Command::Cancel { seq: s, id },
    }
}

/// Sequences `raws` from position `i` on, starting at counter `s`, appending
/// to `out`; returns the counter after the batch.
fn sequence_from(raws: &Vec<RawCommand>, i: usize, s: u64, out: &mut Vec<Command>) -> (s2: u64)
    requires
        i <= raws.len(),
    ensures
        final(out)@ == old(out)@ + sequenced(raws@.skip(i as int), s),
        s2 == seq_after(s, (raws@.len() - i) as nat),
    decreases raws.len() - i,
{
    if i == raws.len() {
        proof {
            assert(raws@.skip(i as int) =~= Seq::<RawCommand>::empty());
            assert(final(out)@ =~= old(out)@ + sequenced(raws@.skip(i as int), s));
        }
        return s;
    }
    let c = with_seq(&raws[i], s);
    out.push(c);
    let s_next = if s == u64::MAX {
        0
    } else {
        s + 1
    };
    let s2 = sequence_from(raws, i + 1, s_next, out);
    proof {
        assert(raws@.skip(i as int).drop_first() =~= raws@.skip(i as int + 1));
        assert(raws@.skip(i as int)[0] == raws@[i as int]);
        assert(final(out)@ =~= old(out)@ + (seq![c] + sequenced(raws@.skip(i as int + 1), s_next)));
    }
    s2
}

/// Sequences a whole batch in arrival order: command `k` of the batch gets
/// the `k`-th successor of `seq0`, wrapping at the width of `u64`. Returns
/// the sequenced commands and the counter to carry to the next batch.
pub fn sequence_batch(raws: &Vec<RawCommand>, seq0: u64) -> (r: (Vec<Command>, u64))
    ensures
        r.0@ == sequenced(raws@, seq0),
        r.1 == seq_after(seq0, raws@.len()),
{
    let mut out: Vec<Command> = Vec::new();
    let s2 = sequence_from(raws, 0, seq0, &mut out);
    proof {
        assert(raws@.skip(0) =~= raws@);
        assert(out@ =~= Seq::<Command>::empty() + sequenced(raws@, seq0));
    }
    (out, s2)
}

} // verus!
