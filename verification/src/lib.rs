//! A compact word-oriented binary codec.
//!
//! Structured data — integers of varying width, booleans, options, text,
//! byte buffers, sequences, records, tagged variants, maps — is losslessly
//! converted to and from a stream of 32-bit words. Consecutive single-byte
//! values emitted inside a composite are packed four to a word; everything
//! else is written as one or more whole words.

use vstd::prelude::*;

mod err;
mod words;
mod packer;
mod value;
mod serializer;
mod deserializer;
mod laws;

pub use err::Error;
pub use words::{le_val, byte_at, words_of_bytes, word_of};
pub use packer::{ByteHandler, PackState};
pub use value::{Value, Shape, VariantShape, SpecVal};
pub use serializer::{Serializer, to_vec_compact, to_vec_compact_with_capacity, enc};
pub use deserializer::{Deserializer, ReadState, from_slice, dec};
pub use laws::{lemma_float_bits_encode, lemma_option_encoding, lemma_depth_zero_flush_zero_lanes, lemma_round_trip_primitive_at, lemma_round_trip_option, lemma_round_trip_record, lemma_round_trip_list, lemma_round_trip_dict, is_primitive, is_direct, is_direct_pair};

verus! {

/// Align `addr` upwards to the next multiple of `align`.
///
/// `align` must be a power of two, and the aligned result must fit in
/// `usize`.
pub fn align_up(addr: usize, align: usize) -> (r: usize)
    requires
        align > 0,
        (align & (align - 1) as usize) == 0,
        addr + align - 1 <= usize::MAX,
    ensures
        r % align == 0,
        addr <= r < addr + align,
{
    let q = (addr + (align - 1)) / align;
    proof {
        let s = (addr + (align - 1)) as int;
        let a = align as int;
        vstd::arithmetic::div_mod::lemma_fundamental_div_mod(s, a);
        vstd::arithmetic::div_mod::lemma_mod_pos_bound(s, a);
        vstd::arithmetic::div_mod::lemma_mod_multiples_basic(q as int, a);
        assert(a * (s / a) == (s / a) * a) by (nonlinear_arith);
        assert((q as int) * a == s - s % a);
    }
    q * align
}

} // verus!
