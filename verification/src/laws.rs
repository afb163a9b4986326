use vstd::prelude::*;

use crate::alphabet::Code;
use crate::decoder::Error;
use crate::decoder::decode_post;
use crate::decoder::spec_estimate;
use crate::decoder::spec_result;
use crate::model::Machine;
use crate::model::finish;
use crate::model::lemma_failed_absorbs;
use crate::model::machine_at;
use crate::model::pack3;
use crate::model::spec_decode;
use crate::model::spec_written;
use crate::model::step;
use crate::model::strip;

verus! {

/// The four 6-bit symbol values an encoder derives from three bytes,
/// most significant bits first: the inverse of [`pack3`].
pub open spec fn unpack3(bytes: Seq<u8>) -> Seq<u8>
    recommends
        bytes.len() == 3,
{
    seq![
        bytes[0] >> 2,
        ((bytes[0] & 0x3) << 4) | (bytes[1] >> 4),
        ((bytes[1] & 0xf) << 2) | (bytes[2] >> 6),
        bytes[2] & 0x3f,
    ]
}

/// Bit packing round-trips at the group level: packing the four symbol
/// values an encoder derives from any three bytes gives those bytes back,
/// and unpacking the three bytes packed from any four 6-bit values gives
/// the values back.
pub proof fn lemma_group_round_trip(x: u8, y: u8, z: u8, a: u8, b: u8, c: u8, d: u8)
    requires
        a < 64,
        b < 64,
        c < 64,
        d < 64,
    ensures
        pack3(unpack3(seq![x, y, z])) == seq![x, y, z],
        unpack3(pack3(seq![a, b, c, d])) == seq![a, b, c, d],
{
    assert(((x >> 2) << 2) | ((((x & 0x3) << 4) | (y >> 4)) >> 4) == x) by (bit_vector);
    assert(((((x & 0x3) << 4) | (y >> 4)) & 0xf) << 4 | ((((y & 0xf) << 2) | (z >> 6)) >> 2)
        == y) by (bit_vector);
    assert(((((y & 0xf) << 2) | (z >> 6)) & 0x3) << 6 | (z & 0x3f) == z) by (bit_vector);
    assert(pack3(unpack3(seq![x, y, z])) =~= seq![x, y, z]);
    assert(((a << 2) | (b >> 4)) >> 2 == a) by (bit_vector)
        requires
            a < 64,
            b < 64,
    ;
    assert(((((a << 2) | (b >> 4)) & 0x3) << 4) | ((((b & 0xf) << 4) | (c >> 2)) >> 4) == b)
        by (bit_vector)
        requires
            b < 64,
            c < 64,
    ;
    assert(((((b & 0xf) << 4) | (c >> 2)) & 0xf) << 2 | ((((c & 0x3) << 6) | d) >> 6) == c)
        by (bit_vector)
        requires
            c < 64,
            d < 64,
    ;
    assert((((c & 0x3) << 6) | d) & 0x3f == d) by (bit_vector)
        requires
            d < 64,
    ;
    assert(unpack3(pack3(seq![a, b, c, d])) =~= seq![a, b, c, d]);
}

/// The symbol values an encoder derives from `bytes`: each full group of
/// three bytes becomes four symbols; a two-byte tail becomes three
/// symbols and a one-byte tail two, the final symbol carrying the spare
/// bits in its high end.
pub open spec fn encode_symbols(bytes: Seq<u8>) -> Seq<u8>
    decreases bytes.len(),
{
    if bytes.len() == 0 {
        Seq::empty()
    } else if bytes.len() == 1 {
        seq![bytes[0] >> 2, (bytes[0] & 0x3) << 4]
    } else if bytes.len() == 2 {
        seq![bytes[0] >> 2, ((bytes[0] & 0x3) << 4) | (bytes[1] >> 4), (bytes[1] & 0xf) << 2]
    } else {
        unpack3(bytes.take(3)) + encode_symbols(bytes.skip(3))
    }
}

/// Byte `input[i + k]` classifies under `t` as the symbol value
/// `symbols[k]`, for every `k`: the input carries exactly these symbols,
/// with no skip bytes, pad markers, or invalid bytes among them.
pub open spec fn classifies_as(t: Seq<Code>, input: Seq<u8>, i: int, symbols: Seq<u8>) -> bool {
    &&& 0 <= i
    &&& i + symbols.len() <= input.len()
    &&& (forall|j: int|
        i <= j < i + symbols.len() ==> t[(#[trigger] input[j]) as int].is_value() && t[input[j] as int].spec_code()
            == symbols[j - i])
}

/// From a group-free running state, consuming the encoding of `bytes` as
/// the rest of the input ends in the decoded `bytes` appended to the
/// output.
proof fn lemma_decode_encoded_from(
    t: Seq<Code>,
    input: Seq<u8>,
    i: int,
    bytes: Seq<u8>,
    out0: Seq<u8>,
)
    requires
        0 <= i <= input.len(),
        i + encode_symbols(bytes).len() == input.len(),
        classifies_as(t, input, i, encode_symbols(bytes)),
        machine_at(t, input, i) == (Machine::Running {
            pads: 0,
            group: Seq::<u8>::empty(),
            out: out0,
        }),
    ensures
        spec_decode(t, input) == (Machine::Running {
            pads: 0,
            group: Seq::<u8>::empty(),
            out: out0 + bytes,
        }),
    decreases bytes.len(),
{
    let syms = encode_symbols(bytes);
    if bytes.len() == 0 {
        assert(out0 + bytes =~= out0);
        assert(Seq::<u8>::empty() + bytes =~= Seq::<u8>::empty());
    } else if bytes.len() == 1 {
        let b0 = bytes[0];
        let s0 = b0 >> 2;
        let s1 = (b0 & 0x3) << 4;
        let c0 = t[input[i] as int];
        let c1 = t[input[i + 1] as int];
        assert(c0.is_value() && c0.spec_code() == s0);
        assert(c1.is_value() && c1.spec_code() == s1);
        assert(machine_at(t, input, i + 1) == step(machine_at(t, input, i), c0, i));
        assert(machine_at(t, input, i + 2) == step(machine_at(t, input, i + 1), c1, i + 1));
        let group = Seq::<u8>::empty().push(s0).push(s1);
        assert(machine_at(t, input, i + 2) == (Machine::Running {
            pads: 0,
            group,
            out: out0,
        }));
        assert(group + seq![0u8, 0u8] =~= seq![s0, s1, 0u8, 0u8]);
        assert(((b0 >> 2) << 2) | ((((b0 & 0x3) << 4)) >> 4) == b0) by (bit_vector);
        assert(pack3(seq![s0, s1, 0u8, 0u8]).take(1) =~= bytes);
        assert(out0 + pack3(group + seq![0u8, 0u8]).take(1) == out0 + bytes);
    } else if bytes.len() == 2 {
        let b0 = bytes[0];
        let b1 = bytes[1];
        let s0 = b0 >> 2;
        let s1 = ((b0 & 0x3) << 4) | (b1 >> 4);
        let s2 = (b1 & 0xf) << 2;
        let c0 = t[input[i] as int];
        let c1 = t[input[i + 1] as int];
        let c2 = t[input[i + 2] as int];
        assert(c0.is_value() && c0.spec_code() == s0);
        assert(c1.is_value() && c1.spec_code() == s1);
        assert(c2.is_value() && c2.spec_code() == s2);
        assert(machine_at(t, input, i + 1) == step(machine_at(t, input, i), c0, i));
        assert(machine_at(t, input, i + 2) == step(machine_at(t, input, i + 1), c1, i + 1));
        assert(machine_at(t, input, i + 3) == step(machine_at(t, input, i + 2), c2, i + 2));
        let group = Seq::<u8>::empty().push(s0).push(s1).push(s2);
        assert(machine_at(t, input, i + 3) == (Machine::Running {
            pads: 0,
            group,
            out: out0,
        }));
        assert(group.push(0u8) =~= seq![s0, s1, s2, 0u8]);
        assert(((b0 >> 2) << 2) | ((((b0 & 0x3) << 4) | (b1 >> 4)) >> 4) == b0) by (bit_vector);
        assert((((((b0 & 0x3) << 4) | (b1 >> 4)) & 0xf) << 4) | (((b1 & 0xf) << 2) >> 2) == b1)
            by (bit_vector);
        assert(pack3(seq![s0, s1, s2, 0u8]).take(2) =~= bytes);
        assert(out0 + pack3(group.push(0u8)).take(2) == out0 + bytes);
    } else {
        let blk = bytes.take(3);
        let rest = bytes.skip(3);
        let s = unpack3(blk);
        assert(syms == s + encode_symbols(rest));
        let c0 = t[input[i] as int];
        let c1 = t[input[i + 1] as int];
        let c2 = t[input[i + 2] as int];
        let c3 = t[input[i + 3] as int];
        assert(c0.is_value() && c0.spec_code() == s[0]);
        assert(c1.is_value() && c1.spec_code() == s[1]);
        assert(c2.is_value() && c2.spec_code() == s[2]);
        assert(c3.is_value() && c3.spec_code() == s[3]);
        assert(machine_at(t, input, i + 1) == step(machine_at(t, input, i), c0, i));
        assert(machine_at(t, input, i + 2) == step(machine_at(t, input, i + 1), c1, i + 1));
        assert(machine_at(t, input, i + 3) == step(machine_at(t, input, i + 2), c2, i + 2));
        assert(machine_at(t, input, i + 4) == step(machine_at(t, input, i + 3), c3, i + 3));
        let group = Seq::<u8>::empty().push(s[0]).push(s[1]).push(s[2]);
        assert(machine_at(t, input, i + 3) == (Machine::Running {
            pads: 0,
            group,
            out: out0,
        }));
        assert(group.push(s[3]) =~= s);
        lemma_group_round_trip(blk[0], blk[1], blk[2], 0, 0, 0, 0);
        assert(seq![blk[0], blk[1], blk[2]] =~= blk);
        assert(pack3(s) == blk);
        assert(machine_at(t, input, i + 4) == (Machine::Running {
            pads: 0,
            group: Seq::<u8>::empty(),
            out: out0 + blk,
        }));
        lemma_decode_encoded_from(t, input, i + 4, rest, out0 + blk);
        assert((out0 + blk) + rest =~= out0 + bytes);
    }
}

/// Decoding inverts encoding: an input whose bytes classify, in order, as
/// exactly the symbol values an encoder derives from `bytes` - correctly
/// padded by its length, with no pad markers and no skip bytes - decodes
/// to `bytes`, and returns their count.
pub proof fn lemma_decode_inverts_encoding(t: Seq<Code>, input: Seq<u8>, bytes: Seq<u8>)
    requires
        input.len() == encode_symbols(bytes).len(),
        classifies_as(t, input, 0, encode_symbols(bytes)),
    ensures
        spec_decode(t, input) == (Machine::Running {
            pads: 0,
            group: Seq::<u8>::empty(),
            out: bytes,
        }),
        spec_result(t, input) == Result::<usize, Error>::Ok(bytes.len() as usize),
{
    assert(machine_at(t, input, 0) == (Machine::Running {
        pads: 0,
        group: Seq::<u8>::empty(),
        out: Seq::<u8>::empty(),
    }));
    lemma_decode_encoded_from(t, input, 0, bytes, Seq::<u8>::empty());
    assert(Seq::<u8>::empty() + bytes =~= bytes);
}

/// The running measure behind the length estimate: every three output
/// bytes cost four input bytes, and pending symbols cost one each.
proof fn lemma_machine_measure(t: Seq<Code>, input: Seq<u8>, n: int)
    requires
        0 <= n,
    ensures
        (match machine_at(t, input, n) {
            Machine::Running { pads, group, out } => {
                &&& 4 * out.len() + 3 * group.len() <= 3 * n
                &&& group.len() <= 3
                &&& 0 <= pads <= 2
            },
            Machine::Failed { out, .. } => 4 * out.len() <= 3 * n,
        }),
    decreases n,
{
    if n > 0 {
        lemma_machine_measure(t, input, n - 1);
    }
}

/// The estimate `ceil(n / 4) * 3` is never less than the count of bytes
/// decoding writes for an input of length `n` - on success the decoded
/// length, on failure the bytes emitted before the error.
pub proof fn lemma_written_within_estimate(t: Seq<Code>, input: Seq<u8>)
    ensures
        spec_written(t, input).len() <= spec_estimate(input.len() as int),
{
    let n = input.len() as int;
    lemma_machine_measure(t, input, n);
    assert(3 * n <= 4 * spec_estimate(n)) by (nonlinear_arith);
}

/// A symbol value arriving while pad markers have been consumed fails
/// exactly at its own offset, keeping the bytes emitted before it.
pub proof fn lemma_value_after_pad_fails(t: Seq<Code>, input: Seq<u8>, i: int)
    requires
        0 <= i < input.len(),
        machine_at(t, input, i) matches Machine::Running { pads, .. } && pads > 0,
        t[input[i] as int].is_value(),
    ensures
        spec_result(t, input) == Result::<usize, Error>::Err(
            Error::InvalidInput { at_offset: i as usize },
        ),
        (machine_at(t, input, i) matches Machine::Running { out, .. } ==> spec_decode(t, input)
            == (Machine::Failed { out, at: i })),
{
    lemma_failed_absorbs(t, input, i + 1, input.len() as int);
}

/// Decoding is deterministic: any two calls of `decode` on the same table
/// and input - whatever buffers they wrote into - return the same result,
/// so the same invalid input always fails at the same offset with the
/// same error kind.
pub proof fn lemma_decode_deterministic(
    t: Seq<Code>,
    input: Seq<u8>,
    out0a: Seq<u8>,
    out1a: Seq<u8>,
    ra: Result<usize, Error>,
    out0b: Seq<u8>,
    out1b: Seq<u8>,
    rb: Result<usize, Error>,
)
    requires
        decode_post(t, input, out0a, out1a, ra),
        decode_post(t, input, out0b, out1b, rb),
    ensures
        ra == rb,
{
}

/// Two machine states that agree except possibly in the offset a failure
/// was detected at.
pub open spec fn similar(m1: Machine, m2: Machine) -> bool {
    match (m1, m2) {
        (
            Machine::Running { pads: p1, group: g1, out: o1 },
            Machine::Running { pads: p2, group: g2, out: o2 },
        ) => p1 == p2 && g1 == g2 && o1 == o2,
        (Machine::Failed { out: o1, .. }, Machine::Failed { out: o2, .. }) => o1 == o2,
        _ => false,
    }
}

proof fn lemma_step_similar(m1: Machine, m2: Machine, c: Code, i: int, j: int)
    requires
        similar(m1, m2),
    ensures
        similar(step(m1, c, i), step(m2, c, j)),
{
}

/// The machine state after `k` bytes only reads the first `k` bytes.
proof fn lemma_machine_agrees(t: Seq<Code>, s1: Seq<u8>, s2: Seq<u8>, k: int)
    requires
        k <= s1.len(),
        k <= s2.len(),
        forall|j: int| 0 <= j < k ==> s1[j] == s2[j],
    ensures
        machine_at(t, s1, k) == machine_at(t, s2, k),
    decreases k,
{
    if k > 0 {
        lemma_machine_agrees(t, s1, s2, k - 1);
    }
}

/// After `n` input bytes the machine is in the same state - up to failure
/// offsets - as after the skip-stripped prefix of those bytes.
proof fn lemma_strip_prefix(t: Seq<Code>, input: Seq<u8>, n: int)
    requires
        0 <= n <= input.len(),
    ensures
        strip(t, input.take(n)).len() <= n,
        similar(
            machine_at(t, input, n),
            machine_at(t, strip(t, input.take(n)), strip(t, input.take(n)).len() as int),
        ),
    decreases n,
{
    if n == 0 {
        assert(input.take(0) =~= Seq::<u8>::empty());
    } else {
        lemma_strip_prefix(t, input, n - 1);
        let pre = input.take(n - 1);
        let cur = input.take(n);
        assert(cur.drop_last() =~= pre);
        assert(cur.last() == input[n - 1]);
        let b = input[n - 1];
        let c = t[b as int];
        let s_pre = strip(t, pre);
        let s_cur = strip(t, cur);
        if c.is_skip() {
            assert(s_cur == s_pre);
            assert(step(machine_at(t, input, n - 1), c, n - 1) == machine_at(t, input, n - 1));
        } else {
            assert(s_cur == s_pre.push(b));
            let k = s_pre.len() as int;
            lemma_machine_agrees(t, s_pre, s_cur, k);
            assert(s_cur[k] == b);
            assert(machine_at(t, s_cur, k + 1) == step(machine_at(t, s_cur, k), c, k));
            lemma_step_similar(machine_at(t, input, n - 1), machine_at(t, s_cur, k), c, n - 1, k);
        }
    }
}

/// Skip bytes may stand at any position - between pad markers included -
/// without changing the outcome: decoding an input and decoding the same
/// input with every skip byte removed succeed or fail together, write the
/// same bytes, and on success return the same count.  Only the offset a
/// failure is reported at may differ, since offsets count skip bytes too.
pub proof fn lemma_skip_insensitive(t: Seq<Code>, input: Seq<u8>)
    ensures
        spec_result(t, input) is Ok <==> spec_result(t, strip(t, input)) is Ok,
        spec_result(t, input) is Ok ==> spec_result(t, input) == spec_result(
            t,
            strip(t, input),
        ),
        spec_written(t, input) == spec_written(t, strip(t, input)),
{
    let n = input.len() as int;
    assert(input.take(n) =~= input);
    lemma_strip_prefix(t, input, n);
    let s = strip(t, input);
    let m1 = machine_at(t, input, n);
    let m2 = machine_at(t, s, s.len() as int);
    assert(similar(m1, m2));
    assert(spec_decode(t, input) == finish(m1));
    assert(spec_decode(t, s) == finish(m2));
}

} // verus!
