//! The header codec: every chunk in the arena starts with one 64-bit header
//! word holding, from the least significant bit up,
//!
//! * 1 bit — the raw flag (a raw chunk's payload is opaque to the collector),
//! * 7 bits — the type tag,
//! * 56 bits — the chunk's total size in words, header word included.
//!
//! Encoding and decoding are exact inverses for every in-range header.

use vstd::prelude::*;

verus! {

/// Number of tag values: the tag field is 7 bits wide.
pub const TAG_LIMIT: u64 = 128;

/// Number of size values: the size field is 56 bits wide.
pub const SIZE_LIMIT: u64 = 0x100_0000_0000_0000;

/// The decoded form of a chunk's header word.
#[derive(Clone, Copy, PartialEq, Eq, Structural, Debug)]
pub struct Header {
    /// A raw chunk's payload holds no references and is never traced.
    pub is_raw: bool,
    /// Small integer identifying the object's type and payload layout.
    pub tag: u64,
    /// Total word count of the chunk, the header word included.
    pub size: u64,
}

impl Header {
    /// A header is well formed when both fields fit their bit widths and the
    /// chunk spans at least its own header word.
    pub open spec fn wf(self) -> bool {
        &&& self.tag < TAG_LIMIT
        &&& 1 <= self.size < SIZE_LIMIT
    }

    /// Checked construction: yields a header exactly when the requested tag
    /// and size fit the fields, so range violations surface at allocation
    /// time and never later.
    pub fn initialize(is_raw: bool, tag: u64, size: u64) -> (r: Option<Header>)
        ensures
            r is Some <==> (tag < TAG_LIMIT && 1 <= size < SIZE_LIMIT),
            r matches Some(h) ==> h == (Header { is_raw, tag, size }) && h.wf(),
    {
        if tag < TAG_LIMIT && 1 <= size && size < SIZE_LIMIT {
            Some(Header { is_raw, tag, size })
        } else {
            None
        }
    }

    /// Packs the header into its word form.
    pub fn encode(self) -> (w: u64)
        requires
            self.wf(),
        ensures
            w == encode_word(self.is_raw, self.tag, self.size),
            decode(w) == self,
    {
        let w = (if self.is_raw { 1u64 } else { 0u64 }) | (self.tag << 1u64) | (self.size << 8u64);
        proof {
            lemma_encode_decode(self.is_raw, self.tag, self.size);
        }
        w
    }

    /// Unpacks a header word.
    pub fn decode(w: u64) -> (h: Header)
        ensures
            h == decode(w),
    {
        Header { is_raw: w & 1 == 1, tag: (w >> 1u64) & 0x7f, size: w >> 8u64 }
    }
}

/// The word a well-formed header packs into.
pub open spec fn encode_word(is_raw: bool, tag: u64, size: u64) -> u64 {
    (if is_raw {
        1u64
    } else {
        0u64
    }) | (tag << 1u64) | (size << 8u64)
}

/// The raw flag stored in a header word.
pub open spec fn decode_raw(w: u64) -> bool {
    w & 1 == 1
}

/// The tag stored in a header word.
pub open spec fn decode_tag(w: u64) -> u64 {
    (w >> 1u64) & 0x7f
}

/// The size stored in a header word.
pub open spec fn decode_size(w: u64) -> u64 {
    w >> 8u64
}

/// The decoded form of a header word.
pub open spec fn decode(w: u64) -> Header {
    Header { is_raw: decode_raw(w), tag: decode_tag(w), size: decode_size(w) }
}

/// Decoding inverts encoding: every in-range header comes back from its word
/// form unchanged.
pub proof fn lemma_encode_decode(is_raw: bool, tag: u64, size: u64)
    requires
        tag < TAG_LIMIT,
        1 <= size < SIZE_LIMIT,
    ensures
        decode_raw(encode_word(is_raw, tag, size)) == is_raw,
        decode_tag(encode_word(is_raw, tag, size)) == tag,
        decode_size(encode_word(is_raw, tag, size)) == size,
        decode(encode_word(is_raw, tag, size)) == (Header { is_raw, tag, size }),
{
    let b: u64 = if is_raw {
        1u64
    } else {
        0u64
    };
    assert((b | (tag << 1u64) | (size << 8u64)) & 1 == b) by (bit_vector)
        requires
            b == 0 || b == 1,
            tag < 128,
    ;
    assert(((b | (tag << 1u64) | (size << 8u64)) >> 1u64) & 0x7f == tag) by (bit_vector)
        requires
            b == 0 || b == 1,
            tag < 128,
    ;
    assert((b | (tag << 1u64) | (size << 8u64)) >> 8u64 == size) by (bit_vector)
        requires
            b == 0 || b == 1,
            tag < 128,
            size < 0x100_0000_0000_0000,
    ;
}

/// Encoding inverts decoding: every word is the word form of the header
/// decoded from it.
pub proof fn lemma_decode_encode(w: u64)
    ensures
        encode_word(decode(w).is_raw, decode(w).tag, decode(w).size) == w,
{
    assert((w & 1) | (((w >> 1u64) & 0x7f) << 1u64) | ((w >> 8u64) << 8u64) == w) by (bit_vector);
    assert((if w & 1 == 1 {
        1u64
    } else {
        0u64
    }) == w & 1) by (bit_vector);
}

} // verus!
