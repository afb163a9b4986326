use vstd::prelude::*;

use crate::alphabet::Alphabet;
use crate::alphabet::Code;
use crate::alphabet::PAD;
use crate::alphabet::SKIP;
use crate::model::Machine;
use crate::model::machine_at;
use crate::model::lemma_failed_absorbs;
use crate::model::pack3;
use crate::model::spec_decode;
use crate::model::spec_written;
use crate::model::tail_bytes;
use crate::model::step;
use crate::model::tail_len;

verus! {

/// The single error kind: the input is not a well-formed encoding, first
/// detected at the 0-based input offset `at_offset`.  For a malformed
/// final group the failure is not tied to a single byte and the offset is
/// 0.
#[derive(Debug, PartialEq, Eq)]
pub enum Error {
    InvalidInput { at_offset: usize },
}

/// An upper bound on the decoded length of `n` input bytes:
/// `ceil(n / 4) * 3`.
pub open spec fn spec_estimate(n: int) -> int {
    ((n + 3) / 4) * 3
}

/// The result decoding returns: the count of bytes written on success, or
/// the first error.
pub open spec fn spec_result(t: Seq<crate::alphabet::Code>, input: Seq<u8>) -> Result<
    usize,
    Error,
> {
    match spec_decode(t, input) {
        Machine::Running { out, .. } => Ok(out.len() as usize),
        Machine::Failed { at, .. } => Err(Error::InvalidInput { at_offset: at as usize }),
    }
}

/// A constant-time upper bound on the length `decode` can return for an
/// input of `input_len` bytes, `ceil(input_len / 4) * 3`; never less than
/// the true decoded length.
pub fn decode_len_estimate(input_len: usize) -> (r: usize)
    ensures
        r == spec_estimate(input_len as int),
{
    let q = input_len / 4;
    let rem = input_len % 4;
    proof {
        assert(q * 3 + 3 <= usize::MAX && q * 3 == (input_len as int / 4) * 3) by (nonlinear_arith)
            requires
                q == input_len as int / 4,
                input_len <= usize::MAX,
        ;
        assert(spec_estimate(input_len as int) == q * 3 + if rem == 0 { 0int } else { 3int })
            by (nonlinear_arith)
            requires
                q == input_len as int / 4,
                rem == input_len as int % 4,
                input_len >= 0,
        ;
    }
    if rem == 0 {
        q * 3
    } else {
        q * 3 + 3
    }
}

/// The group accumulator: up to four pending 6-bit symbol values and the
/// count of filled slots.  It is created once per decode call and reset in
/// place after every flush.
struct Quad {
    codes: [u8; 4],
    used: usize,
}

impl Quad {
    /// The pending symbol values, oldest first.
    spec fn pending(self) -> Seq<u8> {
        self.codes@.take(self.used as int)
    }

    fn new() -> (q: Quad)
        ensures
            q.used == 0,
            q.pending() == Seq::<u8>::empty(),
    {
        let q = Quad { codes: [0u8; 4], used: 0 };
        proof {
            assert(q.pending() =~= Seq::<u8>::empty());
        }
        q
    }

    fn add(&mut self, v: u8)
        requires
            old(self).used < 4,
        ensures
            final(self).used == old(self).used + 1,
            final(self).pending() == old(self).pending().push(v),
    {
        self.codes[self.used] = v;
        self.used = self.used + 1;
        proof {
            assert(self.pending() =~= old(self).pending().push(v));
        }
    }

    fn complete(&self) -> (b: bool)
        ensures
            b == (self.used == 4),
    {
        self.used == 4
    }

    /// Packs a full group into its three bytes and resets the group.
    fn to_triple(&mut self) -> (r: [u8; 3])
        requires
            old(self).used == 4,
        ensures
            final(self).used == 0,
            final(self).pending() == Seq::<u8>::empty(),
            r@ == pack3(old(self).pending()),
    {
        let a = self.codes[0];
        let b = self.codes[1];
        let c = self.codes[2];
        let d = self.codes[3];
        self.used = 0;
        let r = [a << 2 | b >> 4, ((b & 0xf) << 4) | (c >> 2), (c & 0x3) << 6 | d];
        proof {
            assert(self.pending() =~= Seq::<u8>::empty());
            assert(r@ =~= pack3(old(self).pending()));
        }
        r
    }

    /// Packs the full group and copies only the first `3 - pad` of its
    /// bytes into `out` at offset `at`; the trailing `pad` bytes are
    /// padding artifacts and are dropped, not written.
    fn emit_pad(&mut self, out: &mut Vec<u8>, at: usize, pad: usize) -> (r: usize)
        requires
            old(self).used == 4,
            pad <= 2,
            at + 3 - pad <= old(out).len(),
        ensures
            final(self).used == 0,
            r == 3 - pad,
            final(out)@.len() == old(out)@.len(),
            final(out)@.subrange(at as int, at + r) == pack3(old(self).pending()).take(r as int),
            forall|j: int| 0 <= j < at ==> final(out)@[j] == old(out)@[j],
            forall|j: int| at + r <= j < final(out)@.len() ==> final(out)@[j] == old(out)@[j],
    {
        let len = 3 - pad;
        let outlen = out.len();
        let t = self.to_triple();
        let mut k: usize = 0;
        while k < len
            invariant
                k <= len,
                len == 3 - pad,
                old(self).used == 4,
                at + len <= outlen,
                outlen == out@.len(),
                out@.len() == old(out)@.len(),
                t@ == pack3(old(self).pending()),
                forall|j: int| 0 <= j < at ==> out@[j] == old(out)@[j],
                forall|j: int| at + k <= j < out@.len() ==> out@[j] == old(out)@[j],
                forall|j: int| 0 <= j < k ==> out@[at + j] == t@[j],
            decreases len - k,
        {
            out[at + k] = t[k];
            k = k + 1;
        }
        proof {
            assert(out@.subrange(at as int, at + len) =~= pack3(old(self).pending()).take(
                len as int,
            ));
        }
        len
    }

    /// Packs the full group and writes all three of its bytes.
    fn emit(&mut self, out: &mut Vec<u8>, at: usize) -> (r: usize)
        requires
            old(self).used == 4,
            at + 3 <= old(out).len(),
        ensures
            final(self).used == 0,
            r == 3,
            final(out)@.len() == old(out)@.len(),
            final(out)@.subrange(at as int, at + 3) == pack3(old(self).pending()),
            forall|j: int| 0 <= j < at ==> final(out)@[j] == old(out)@[j],
            forall|j: int| at + 3 <= j < final(out)@.len() ==> final(out)@[j] == old(out)@[j],
    {
        let r = self.emit_pad(out, at, 0);
        proof {
            assert(pack3(old(self).pending()).take(3) =~= pack3(old(self).pending()));
        }
        r
    }

    /// Resolves the final group at end of input, with `pad` explicit pad
    /// markers consumed.  Counting the pad markers as zero-valued fill,
    /// the group must reach exactly zero or four symbols; of a filled
    /// group only the bytes not covered by padding - explicit markers or
    /// the fill a short group implies - are written.  Anything else is a
    /// malformed tail, reported at offset 0 because no single input byte
    /// is to blame.
    fn emit_final(&mut self, pad: usize, out: &mut Vec<u8>, at: usize) -> (r: Result<usize, Error>)
        requires
            old(self).used <= 3,
            pad <= 2,
            at + tail_len(old(self).pending(), pad as int) <= old(out).len(),
        ensures
            final(out)@.len() == old(out)@.len(),
            (match tail_bytes(old(self).pending(), pad as int) {
                Some(tail) => {
                    &&& r == Result::<usize, Error>::Ok(tail.len() as usize)
                    &&& final(self).used == 0
                    &&& final(out)@.subrange(at as int, at + tail.len()) == tail
                    &&& (forall|j: int| 0 <= j < at ==> final(out)@[j] == old(out)@[j])
                    &&& (forall|j: int|
                        at + tail.len() <= j < final(out)@.len() ==> final(out)@[j] == old(
                            out,
                        )@[j])
                },
                None => {
                    &&& r == Result::<usize, Error>::Err(Error::InvalidInput { at_offset: 0 })
                    &&& final(out)@ == old(out)@
                },
            }),
    {
        let ghost g = old(self).pending();
        if self.used == 2 && (pad == 2 || pad == 0) {
            // two symbols left: the last two bytes of the packed group are
            // padding, explicit (`pad == 2`) or implied by the length
            self.add(0);
            self.add(0);
            proof {
                assert(self.pending() =~= g + seq![0u8, 0u8]);
            }
            Ok(self.emit_pad(out, at, 2))
        } else if self.used == 3 && (pad == 1 || pad == 0) {
            // three symbols left: the last byte of the packed group is
            // padding, explicit (`pad == 1`) or implied by the length
            self.add(0);
            proof {
                assert(self.pending() =~= g.push(0u8));
            }
            Ok(self.emit_pad(out, at, 1))
        } else if self.used == 0 && pad == 0 {
            // no data, nothing to emit
            Ok(0)
        } else {
            Err(Error::InvalidInput { at_offset: 0 })
        }
    }
}

/// The decoder's position in the padding protocol: accepting data, or one
/// or two pad markers consumed.
#[derive(Debug, Copy, Clone)]
enum State {
    Data,
    Pad1,
    Pad2,
}

/// The count of pad markers a state stands for.
spec fn state_pads(s: State) -> int {
    match s {
        State::Data => 0,
        State::Pad1 => 1,
        State::Pad2 => 2,
    }
}

/// What `decode` guarantees under table `t`: of the buffer, `out0` before
/// the call and `out1` after it, and of the result `r`.  The result is
/// exactly [`spec_result`], the bytes [`spec_written`] stand at the front
/// of the buffer, and every byte past them is untouched.
pub open spec fn decode_post(
    t: Seq<Code>,
    input: Seq<u8>,
    out0: Seq<u8>,
    out1: Seq<u8>,
    r: Result<usize, Error>,
) -> bool {
    &&& out1.len() == out0.len()
    &&& r == spec_result(t, input)
    &&& spec_written(t, input).len() <= out1.len()
    &&& out1.take(spec_written(t, input).len() as int) == spec_written(t, input)
    &&& (forall|j: int| spec_written(t, input).len() <= j < out1.len() ==> out1[j] == out0[j])
}

/// Decodes `input` under `alphabet` into the front of `output`, which must
/// hold at least `decode_len_estimate(input.len())` bytes.  Returns the
/// count of bytes written, or the first error, exactly as the state
/// machine of [`spec_decode`] prescribes; the decoder never touches a byte
/// past the count it returns (or, on failure, past the bytes emitted
/// before the error).
pub fn decode<A: Alphabet>(alphabet: A, input: &[u8], output: &mut Vec<u8>) -> (r: Result<
    usize,
    Error,
>)
    requires
        old(output).len() >= spec_estimate(input.len() as int),
    ensures
        decode_post(alphabet.table_spec(), input@, old(output)@, final(output)@, r),
{
    let ghost t = alphabet.table_spec();
    let table = alphabet.decode_table();
    let mut quad = Quad::new();
    let mut offs: usize = 0;
    let mut state = State::Data;
    let n = input.len();
    let outlen = output.len();

    proof {
        assert(output@.take(0) =~= Seq::<u8>::empty());
        assert(3 * (n as int) <= 4 * spec_estimate(n as int)) by (nonlinear_arith);
    }

    for i in 0..n
        invariant
            t == alphabet.table_spec(),
            table@ == t,
            n == input@.len(),
            outlen == output@.len(),
            output@.len() == old(output)@.len(),
            outlen >= spec_estimate(n as int),
            3 * (n as int) <= 4 * spec_estimate(n as int),
            quad.used <= 3,
            4 * (offs as int) + 3 * (quad.used as int) <= 3 * (i as int),
            offs <= outlen,
            machine_at(t, input@, i as int) == (Machine::Running {
                pads: state_pads(state),
                group: quad.pending(),
                out: output@.take(offs as int),
            }),
            forall|j: int| offs <= j < output@.len() ==> output@[j] == old(output)@[j],
    {
        let b = input[i];
        let code = table[b as usize];
        let v = code.raw();
        let ghost m_pre = machine_at(t, input@, i as int);
        proof {
            assert(code == t[b as int]);
        }
        if v == SKIP {
            // ignorable byte: no effect in any state
        } else if v == PAD {
            match state {
                State::Data => {
                    state = State::Pad1;
                },
                State::Pad1 => {
                    state = State::Pad2;
                },
                State::Pad2 => {
                    // a third pad marker is never valid
                    proof {
                        lemma_failed_absorbs(t, input@, i + 1, n as int);
                        assert(output@.take(offs as int).len() == offs as int);
                        assert(output@.take(offs as int) =~= output@.take(output@.take(
                            offs as int,
                        ).len() as int));
                    }
                    return Err(Error::InvalidInput { at_offset: i });
                },
            }
        } else if v < 64 {
            match state {
                State::Data => {
                    quad.add(v);
                    if quad.complete() {
                        proof {
                            assert(4 * (offs as int) + 12 <= 3 * (i as int) + 3);
                            assert(offs + 3 <= spec_estimate(n as int));
                        }
                        let ghost before = output@;
                        let ghost grown = quad.pending();
                        let w = quad.emit(output, offs);
                        proof {
                            assert(quad.pending() =~= Seq::<u8>::empty());
                            assert(output@.take((offs + w) as int) =~= before.take(offs as int)
                                + pack3(grown));
                        }
                        offs = offs + w;
                    }
                },
                _ => {
                    // a symbol value may never follow a pad marker
                    proof {
                        lemma_failed_absorbs(t, input@, i + 1, n as int);
                        assert(output@.take(offs as int) =~= output@.take(output@.take(
                            offs as int,
                        ).len() as int));
                    }
                    return Err(Error::InvalidInput { at_offset: i });
                },
            }
        } else {
            // not a symbol, not a skip byte, not the pad marker: invalid
            proof {
                lemma_failed_absorbs(t, input@, i + 1, n as int);
                assert(output@.take(offs as int) =~= output@.take(output@.take(
                    offs as int,
                ).len() as int));
            }
            return Err(Error::InvalidInput { at_offset: i });
        }
        proof {
            assert(machine_at(t, input@, i + 1) == step(m_pre, code, i as int));
        }
    }

    let pad: usize = match state {
        State::Data => 0,
        State::Pad1 => 1,
        State::Pad2 => 2,
    };
    let ghost g = quad.pending();
    let ghost pre_out = output@;
    proof {
        assert(pad as int == state_pads(state));
        // room for the owed tail bytes
        if quad.used == 2 {
            assert(4 * (offs as int) + 6 <= 3 * (n as int));
            assert(offs + 1 <= spec_estimate(n as int));
        } else if quad.used == 3 {
            assert(4 * (offs as int) + 9 <= 3 * (n as int));
            assert(offs + 2 <= spec_estimate(n as int));
        }
        assert(tail_len(g, pad as int) <= 2);
    }
    match quad.emit_final(pad, output, offs) {
        Ok(w) => {
            proof {
                let tail = tail_bytes(g, pad as int)->Some_0;
                assert(output@.take((offs + w) as int) =~= pre_out.take(offs as int) + tail);
                assert(spec_written(t, input@) == pre_out.take(offs as int) + tail);
                assert(output@.take((offs + w) as int) == spec_written(t, input@));
            }
            Ok(offs + w)
        },
        Err(e) => {
            proof {
                assert(output@.take(offs as int) =~= pre_out.take(offs as int));
            }
            Err(e)
        },
    }
}

/// Allocates a buffer sized by `decode_len_estimate`, decodes `input`
/// into it, and truncates it to the decoded length: the convenience
/// wrapper over [`decode`].
pub fn decode_into_vec<A: Alphabet>(alphabet: A, input: &[u8]) -> (r: Result<Vec<u8>, Error>)
    ensures
        (match spec_result(alphabet.table_spec(), input@) {
            Ok(len) => r matches Ok(v) && v@ == spec_written(alphabet.table_spec(), input@)
                && v@.len() == len,
            Err(e) => r matches Err(e2) && e2 == e,
        }),
{
    let est = decode_len_estimate(input.len());
    let mut out: Vec<u8> = Vec::new();
    let mut k: usize = 0;
    while k < est
        invariant
            out@.len() == k,
            k <= est,
        decreases est - k,
    {
        out.push(0);
        k = k + 1;
    }
    match decode(alphabet, input, &mut out) {
        Ok(len) => {
            out.truncate(len);
            proof {
                let t = alphabet.table_spec();
                assert(out@ == spec_written(t, input@));
            }
            Ok(out)
        },
        Err(e) => Err(e),
    }
}

} // verus!
