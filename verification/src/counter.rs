//! The grow-only counter workload over a sequentially consistent
//! key-value store. Each node accumulates a local delta and publishes it
//! under its own key; a read sums every node's delta, forcing the store
//! to serve each peer's latest value by writing a fresh sequence number
//! first. The store calls themselves run in the surrounding event loop;
//! this module fixes what is written, read and summed.

use vstd::prelude::*;
use crate::ids::{spec_node_text, NodeId};
use crate::node::wrap_inc;
use crate::protocol::{ErrorCode, ErrorResponse};

verus! {

/// The counter state of one node.
#[derive(Debug)]
pub struct GCounterHandler {
    /// The sequence numbers used for the serializing writes.
    pub counter: u64,
    /// This node's accumulated delta.
    pub delta: i64,
}

/// The mathematical sum of a list of deltas.
pub open spec fn spec_sum(s: Seq<i64>) -> int
    decreases s.len(),
{
    if s.len() == 0 {
        0
    } else {
        spec_sum(s.drop_last()) + s.last()
    }
}

impl GCounterHandler {
    /// A fresh counter: no delta accumulated, no sequence number used.
    pub fn new() -> (h: GCounterHandler)
        ensures
            h.counter == 0,
            h.delta == 0,
    {
        GCounterHandler { counter: 0, delta: 0 }
    }

    /// Accumulates one `add` request's delta; the returned value is the
    /// new delta, to be published under this node's key.
    pub fn add(&mut self, delta: i64) -> (published: i64)
        requires
            i64::MIN <= old(self).delta + delta <= i64::MAX,
        ensures
            final(self).delta == old(self).delta + delta,
            final(self).counter == old(self).counter,
            published == final(self).delta,
    {
        self.delta = self.delta + delta;
        self.delta
    }

    /// This node's contribution to a read.
    pub fn local_delta(&self) -> (d: i64)
        ensures
            d == self.delta,
    {
        self.delta
    }

    /// The next sequence number for a serializing write; the counter
    /// wraps at the top of the range.
    pub fn next_seq(&mut self) -> (c: u64)
        ensures
            c == old(self).counter,
            final(self).counter == wrap_inc(old(self).counter),
            final(self).delta == old(self).delta,
    {
        let c = self.counter;
        self.counter = self.counter.wrapping_add(1);
        c
    }

    /// The key a node publishes its delta under: its textual id.
    pub fn delta_key(peer: NodeId) -> (k: Vec<u8>)
        ensures
            k@ == spec_node_text(peer),
    {
        peer.encode()
    }

    /// The key of the serializing write before reading a peer's delta:
    /// the peer's id followed by `_seq`.
    pub fn seq_key(peer: NodeId) -> (k: Vec<u8>)
        ensures
            k@ == spec_node_text(peer) + seq![0x5fu8, 0x73, 0x65, 0x71],
    {
        let mut k = peer.encode();
        k.push(0x5f);
        k.push(0x73);
        k.push(0x65);
        k.push(0x71);
        proof {
            assert(k@ =~= spec_node_text(peer) + seq![0x5fu8, 0x73, 0x65, 0x71]);
        }
        k
    }

    /// What a peer's delta read yields: a missing key stands for delta
    /// zero; any other store error is surfaced to the caller.
    pub fn interpret_delta_read(r: Result<i64, ErrorResponse>) -> (d: Result<i64, ErrorResponse>)
        ensures
            match r {
                Ok(v) => d == Ok::<i64, ErrorResponse>(v),
                Err(e) => if e.code == ErrorCode::KeyDoesNotExist {
                    d == Ok::<i64, ErrorResponse>(0)
                } else {
                    d == Err::<i64, ErrorResponse>(e)
                },
            },
    {
        match r {
            Ok(v) => Ok(v),
            Err(e) => {
                if e.code.code() == 20 {
                    proof {
                        assert(e.code == ErrorCode::KeyDoesNotExist);
                    }
                    Ok(0)
                } else {
                    Err(e)
                }
            },
        }
    }

    /// The shared counter: the sum of every node's delta, added left to
    /// right; `None` when some partial sum leaves the 64-bit signed
    /// range.
    pub fn sum_deltas(deltas: &Vec<i64>) -> (r: Option<i64>)
        ensures
            r matches Some(t) ==> t == spec_sum(deltas@),
            r is None ==> exists|j: int|
                0 <= j <= deltas@.len() && !(i64::MIN <= spec_sum(
                    #[trigger] deltas@.subrange(0, j),
                ) <= i64::MAX),
    {
        let n = deltas.len();
        let mut acc: i64 = 0;
        let mut i: usize = 0;
        while i < n
            invariant
                0 <= i <= n,
                n == deltas@.len(),
                acc == spec_sum(deltas@.subrange(0, i as int)),
            decreases n - i,
        {
            proof {
                assert(deltas@.subrange(0, i as int + 1).drop_last() =~= deltas@.subrange(
                    0,
                    i as int,
                ));
                assert(deltas@.subrange(0, i as int + 1).last() == deltas@[i as int]);
            }
            match acc.checked_add(deltas[i]) {
                Some(next) => {
                    acc = next;
                },
                None => {
                    proof {
                        assert(!(i64::MIN <= spec_sum(deltas@.subrange(0, i as int + 1))
                            <= i64::MAX));
                    }
                    return None;
                },
            }
            i = i + 1;
        }
        proof {
            assert(deltas@.subrange(0, n as int) =~= deltas@);
        }
        Some(acc)
    }
}

} // verus!
