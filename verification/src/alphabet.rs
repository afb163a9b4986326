use vstd::prelude::*;

verus! {

/// Marker for a byte that is not part of the alphabet.
pub const INVALID: u8 = 128;

/// Marker for a byte the decoder passes over (whitespace).
pub const SKIP: u8 = 129;

/// Marker for the padding byte (`=` in the standard alphabet).
pub const PAD: u8 = 130;

/// One entry of a decode table: a 6-bit symbol value in `0..=63`, or one of
/// the markers for a skip byte, the pad byte, or an invalid byte.
#[derive(Debug, Copy, Clone, PartialEq, Eq)]
pub struct Code(u8);

impl Code {
    /// The raw table entry, as the contracts speak of it.
    pub closed spec fn spec_code(self) -> u8 {
        self.0
    }

    /// The entry classifies its byte as a 6-bit symbol value.
    pub open spec fn is_value(self) -> bool {
        self.spec_code() < 64
    }

    /// The entry classifies its byte as ignorable whitespace.
    pub open spec fn is_skip(self) -> bool {
        self.spec_code() == SKIP
    }

    /// The entry classifies its byte as the pad marker.
    pub open spec fn is_pad(self) -> bool {
        self.spec_code() == PAD
    }

    /// The entry classifies its byte as invalid.
    pub open spec fn is_invalid(self) -> bool {
        !self.is_value() && !self.is_skip() && !self.is_pad()
    }

    pub(crate) fn raw(self) -> (v: u8)
        ensures
            v == self.spec_code(),
    {
        self.0
    }
}

/// An immutable classification capability: a total mapping from each of the
/// 256 byte values to a [`Code`], plus the inverse table a paired encoder
/// would use (the decoder never reads it).
pub trait Alphabet {
    /// The decode table as the sequence the decoder's contracts speak of.
    spec fn table_spec(&self) -> Seq<Code>;

    /// The 256-entry classification table, one entry per byte value.
    fn decode_table(&self) -> (t: [Code; 256])
        ensures
            t@ == self.table_spec(),
    ;

    /// The symbol for each 6-bit value, for a paired encoder: the inverse
    /// of the value classification, so each of the 64 symbols classifies
    /// back to its own value (which makes the symbols pairwise distinct).
    fn encode_table(&self) -> (t: [u8; 64])
        ensures
            forall|v: int|
                0 <= v < 64 ==> self.table_spec()[(#[trigger] t@[v]) as int].is_value()
                    && self.table_spec()[t@[v] as int].spec_code() == v,
    ;
}

/// The classic base64 alphabet: `A`-`Z`, `a`-`z`, `0`-`9`, `+`, `/`, with
/// `=` as the pad marker and newline, carriage return, and horizontal tab
/// as skip bytes.
pub struct Standard;

/// The standard classification of byte value `i`.
spec fn standard_code(i: int) -> Code {
    if 65 <= i <= 90 {  // 'A'..='Z'
        Code((i - 65) as u8)
    } else if 97 <= i <= 122 {  // 'a'..='z'
        Code((i - 97 + 26) as u8)
    } else if 48 <= i <= 57 {  // '0'..='9'
        Code((i - 48 + 52) as u8)
    } else if i == 43 {  // '+'
        Code(62)
    } else if i == 47 {  // '/'
        Code(63)
    } else if i == 61 {  // '='
        Code(PAD)
    } else if i == 9 || i == 10 || i == 13 {  // '\t', '\n', '\r'
        Code(SKIP)
    } else {
        Code(INVALID)
    }
}

fn standard_classify(b: u8) -> (c: Code)
    ensures
        c == standard_code(b as int),
{
    if 65 <= b && b <= 90 {  // 'A'..='Z'
        Code(b - 65)
    } else if 97 <= b && b <= 122 {  // 'a'..='z'
        Code(b - 97 + 26)
    } else if 48 <= b && b <= 57 {  // '0'..='9'
        Code(b - 48 + 52)
    } else if b == 43 {  // '+'
        Code(62)
    } else if b == 47 {  // '/'
        Code(63)
    } else if b == 61 {  // '='
        Code(PAD)
    } else if b == 10 || b == 13 || b == 9 {  // '\n', '\r', '\t'
        Code(SKIP)
    } else {
        Code(INVALID)
    }
}

/// The standard symbol for 6-bit value `v`: the byte that
/// [`standard_code`] classifies back as `Value(v)`.
fn standard_symbol(v: u8) -> (b: u8)
    requires
        v < 64,
    ensures
        standard_code(b as int) == Code(v),
{
    if v < 26 {
        65 + v  // 'A'..='Z'
    } else if v < 52 {
        71 + v  // 'a'..='z'
    } else if v < 62 {
        v - 4  // '0'..='9'
    } else if v == 62 {
        43  // '+'
    } else {
        47  // '/'
    }
}

impl Standard {
    /// The concrete content of the standard table, byte for byte, and the
    /// injectivity of its value classifications: no two bytes carry the
    /// same 6-bit value.
    pub proof fn lemma_classification(&self)
        ensures
            self.table_spec().len() == 256,
            forall|b: int|
                0 <= b < 256 ==> {
                    let c = #[trigger] self.table_spec()[b];
                    if 65 <= b <= 90 {  // 'A'..='Z'
                        c.is_value() && c.spec_code() == b - 65
                    } else if 97 <= b <= 122 {  // 'a'..='z'
                        c.is_value() && c.spec_code() == b - 71
                    } else if 48 <= b <= 57 {  // '0'..='9'
                        c.is_value() && c.spec_code() == b + 4
                    } else if b == 43 {  // '+'
                        c.is_value() && c.spec_code() == 62
                    } else if b == 47 {  // '/'
                        c.is_value() && c.spec_code() == 63
                    } else if b == 61 {  // '='
                        c.is_pad()
                    } else if b == 9 || b == 10 || b == 13 {  // '\t', '\n', '\r'
                        c.is_skip()
                    } else {
                        c.is_invalid()
                    }
                },
            forall|b1: int, b2: int|
                0 <= b1 < 256 && 0 <= b2 < 256 && b1 != b2
                    && (#[trigger] self.table_spec()[b1]).is_value()
                    && (#[trigger] self.table_spec()[b2]).is_value()
                    ==> self.table_spec()[b1].spec_code() != self.table_spec()[b2].spec_code(),
    {
        assert forall|b: int| 0 <= b < 256 implies self.table_spec()[b] == standard_code(b) by {}
    }
}

impl Alphabet for Standard {
    closed spec fn table_spec(&self) -> Seq<Code> {
        Seq::new(256, |i: int| standard_code(i))
    }

    fn decode_table(&self) -> (t: [Code; 256]) {
        let mut t = [Code(INVALID); 256];
        for i in 0..256usize
            invariant
                forall|j: int| 0 <= j < i ==> t@[j] == standard_code(j),
        {
            t[i] = standard_classify(i as u8);
        }
        proof {
            assert(t@ =~= self.table_spec());
        }
        t
    }

    fn encode_table(&self) -> (t: [u8; 64]) {
        let mut t = [0u8; 64];
        for v in 0..64usize
            invariant
                forall|k: int| 0 <= k < v ==> standard_code(t@[k] as int) == Code(k as u8),
        {
            t[v] = standard_symbol(v as u8);
        }
        proof {
            assert forall|v: int|
                0 <= v < 64 implies self.table_spec()[(t@[v]) as int].is_value()
                && self.table_spec()[t@[v] as int].spec_code() == v by {
                assert(standard_code(t@[v] as int) == Code(v as u8));
                assert(self.table_spec()[t@[v] as int] == standard_code(t@[v] as int));
            }
        }
        t
    }
}

} // verus!
