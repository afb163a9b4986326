//! A streaming base64-style decoder.
//!
//! The decoder converts text under a pluggable base64-style alphabet back
//! into raw bytes, writing directly into a caller-supplied buffer.  The
//! alphabet classifies every input byte as a 6-bit symbol value, a skip
//! byte (whitespace), the pad marker, or invalid; the decoder is a
//! single-pass state machine that packs symbols four at a time into three
//! output bytes and resolves explicit or implied padding at end of input.
//!
//! Every function is verified against the mathematical model in
//! [`model`]: the result, the exact bytes written, and the first error
//! offset are all pinned down by the contracts of [`decoder::decode`] and
//! its companions.

mod alphabet;
mod model;
mod decoder;
mod laws;

pub use alphabet::Alphabet;
pub use alphabet::Code;
pub use alphabet::Standard;
pub use decoder::Error;
pub use decoder::decode;
pub use decoder::decode_into_vec;
pub use decoder::decode_post;
pub use decoder::decode_len_estimate;
pub use decoder::spec_estimate;
pub use decoder::spec_result;
pub use model::Machine;
pub use model::finish;
pub use model::init;
pub use model::machine_at;
pub use model::pack3;
pub use model::spec_decode;
pub use model::spec_written;
pub use model::step;
pub use model::strip;
pub use model::tail_bytes;
pub use model::tail_len;
pub use laws::classifies_as;
pub use laws::encode_symbols;
pub use laws::lemma_decode_deterministic;
pub use laws::lemma_decode_inverts_encoding;
pub use laws::lemma_group_round_trip;
pub use laws::lemma_skip_insensitive;
pub use laws::lemma_value_after_pad_fails;
pub use laws::lemma_written_within_estimate;
pub use laws::similar;
pub use laws::unpack3;
