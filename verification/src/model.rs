use vstd::prelude::*;

use crate::alphabet::Code;

verus! {

/// The decoder's mathematical state: either still running, with the count
/// of pad markers seen (`pads`), the pending 6-bit symbol values of the
/// current group (`group`), and the bytes emitted so far (`out`); or
/// failed, with the bytes emitted before the failure and the 0-based input
/// offset `at` it was detected at.
pub enum Machine {
    Running { pads: int, group: Seq<u8>, out: Seq<u8> },
    Failed { out: Seq<u8>, at: int },
}

/// The state before any input byte has been consumed.
pub open spec fn init() -> Machine {
    Machine::Running { pads: 0, group: Seq::empty(), out: Seq::empty() }
}

/// Standard base64 bit packing: four 6-bit values `a,b,c,d` form the
/// 24-bit quantity `a*2^18 + b*2^12 + c*2^6 + d`, emitted as three bytes,
/// most significant bits first.
pub open spec fn pack3(g: Seq<u8>) -> Seq<u8>
    recommends
        g.len() == 4,
{
    seq![
        (g[0] << 2) | (g[1] >> 4),
        ((g[1] & 0xf) << 4) | (g[2] >> 2),
        ((g[2] & 0x3) << 6) | g[3],
    ]
}

/// One transition of the decode state machine: the effect of the input
/// byte at offset `i`, classified as `c`, on state `m`.  Skip bytes leave
/// the state alone in every state; pad markers only count up from `Running
/// { pads: 0 }` to `pads: 2`; a symbol value extends the group, flushing
/// it into three output bytes when it reaches four values, and may not
/// follow a pad marker; everything else fails at offset `i`.  A failed
/// state absorbs all further input.
pub open spec fn step(m: Machine, c: Code, i: int) -> Machine {
    match m {
        Machine::Failed { .. } => m,
        Machine::Running { pads, group, out } => {
            if c.is_skip() {
                m
            } else if c.is_pad() {
                if pads < 2 {
                    Machine::Running { pads: pads + 1, group, out }
                } else {
                    Machine::Failed { out, at: i }
                }
            } else if c.is_value() {
                if pads != 0 {
                    Machine::Failed { out, at: i }
                } else if group.len() == 3 {
                    Machine::Running {
                        pads: 0,
                        group: Seq::empty(),
                        out: out + pack3(group.push(c.spec_code())),
                    }
                } else {
                    Machine::Running { pads, group: group.push(c.spec_code()), out }
                }
            } else {
                Machine::Failed { out, at: i }
            }
        },
    }
}

/// The machine state after the first `n` bytes of `input`, classified by
/// table `t`.
pub open spec fn machine_at(t: Seq<Code>, input: Seq<u8>, n: int) -> Machine
    decreases n,
{
    if n <= 0 {
        init()
    } else {
        step(machine_at(t, input, n - 1), t[input[n - 1] as int], n - 1)
    }
}

/// The bytes a final group still owes, if the tail is well formed: counting
/// the `pads` explicit pad markers as zero-valued fill, the group must
/// reach exactly zero or four symbols, and of a filled group only the bytes
/// not covered by padding (explicit or implied by a short group) are
/// emitted.  `None` marks a malformed tail.
pub open spec fn tail_bytes(group: Seq<u8>, pads: int) -> Option<Seq<u8>> {
    if group.len() == 0 && pads == 0 {
        Some(Seq::empty())
    } else if group.len() == 2 && (pads == 0 || pads == 2) {
        Some(pack3(group + seq![0u8, 0u8]).take(1))
    } else if group.len() == 3 && (pads == 0 || pads == 1) {
        Some(pack3(group.push(0u8)).take(2))
    } else {
        None
    }
}

/// How many bytes a well-formed tail still owes; 0 for a malformed one.
pub open spec fn tail_len(group: Seq<u8>, pads: int) -> int {
    match tail_bytes(group, pads) {
        Some(tail) => tail.len() as int,
        None => 0,
    }
}

/// End-of-input resolution: a running machine with a well-formed tail
/// emits the owed bytes and succeeds; a malformed tail fails, reported at
/// offset 0 because no single input byte is to blame.
pub open spec fn finish(m: Machine) -> Machine {
    match m {
        Machine::Failed { .. } => m,
        Machine::Running { pads, group, out } => match tail_bytes(group, pads) {
            Some(tail) => Machine::Running { pads: 0, group: Seq::empty(), out: out + tail },
            None => Machine::Failed { out, at: 0 },
        },
    }
}

/// The complete outcome of decoding `input` under table `t`: a `Running`
/// machine holds the decoded bytes in `out`; a `Failed` machine holds the
/// bytes emitted before the first error and its offset.
pub open spec fn spec_decode(t: Seq<Code>, input: Seq<u8>) -> Machine {
    finish(machine_at(t, input, input.len() as int))
}

/// The bytes decoding writes into the output buffer: all decoded bytes on
/// success, the bytes emitted before the first error on failure.
pub open spec fn spec_written(t: Seq<Code>, input: Seq<u8>) -> Seq<u8> {
    match spec_decode(t, input) {
        Machine::Running { out, .. } => out,
        Machine::Failed { out, .. } => out,
    }
}

/// `input` with every skip byte removed.
pub open spec fn strip(t: Seq<Code>, s: Seq<u8>) -> Seq<u8>
    decreases s.len(),
{
    if s.len() == 0 {
        Seq::empty()
    } else if t[s.last() as int].is_skip() {
        strip(t, s.drop_last())
    } else {
        strip(t, s.drop_last()).push(s.last())
    }
}

/// A failed machine state absorbs all further input.
pub proof fn lemma_failed_absorbs(t: Seq<Code>, input: Seq<u8>, n1: int, n2: int)
    requires
        0 <= n1 <= n2,
        machine_at(t, input, n1) is Failed,
    ensures
        machine_at(t, input, n2) == machine_at(t, input, n1),
    decreases n2 - n1,
{
    if n1 < n2 {
        lemma_failed_absorbs(t, input, n1, n2 - 1);
    }
}

} // verus!
