use vstd::prelude::*;
use vstd::string::StrSliceExecFns;
use vstd::utf8::{encode_scalar, encode_utf8};

verus! {

/// A deterministic bit stream drawn from the UTF-8 bytes of a string.
///
/// The stream walks the bytes from the least significant bit of each
/// byte upwards, wrapping back to the first byte once the last one is
/// spent, so it never runs out.
pub struct Seed {
    bytes: Vec<u8>,
    index: usize,
    bit: u8,
}

/// The abstract state of a [`Seed`]: its byte material and the cursor
/// (byte index and bit position) of the next draw.
pub ghost struct SeedView {
    pub bytes: Seq<u8>,
    pub index: int,
    pub bit: int,
}

impl View for Seed {
    type V = SeedView;

    closed spec fn view(&self) -> SeedView {
        SeedView { bytes: self.bytes@, index: self.index as int, bit: self.bit as int }
    }
}

/// Where the cursor actually reads, once a spent byte and a spent byte
/// vector have been wrapped around.
pub open spec fn cursor_norm(v: SeedView) -> SeedView {
    let index = if v.bit > 7 { v.index + 1 } else { v.index };
    let bit = if v.bit > 7 { 0int } else { v.bit };
    let index = if index >= v.bytes.len() { 0int } else { index };
    SeedView { bytes: v.bytes, index, bit }
}

/// The bit that a normalized cursor denotes.
pub open spec fn cursor_bit(v: SeedView) -> bool {
    (v.bytes[v.index] >> (v.bit as u8)) & 1 == 1
}

impl Seed {
    /// A seed that can be drawn from: at least one byte, the cursor over
    /// a byte that exists, the bit position at most one past the last bit.
    pub open spec fn wf(&self) -> bool {
        &&& self@.bytes.len() > 0
        &&& 0 <= self@.index < self@.bytes.len()
        &&& 0 <= self@.bit <= 8
    }

    /// Build a seed over the UTF-8 bytes of `seed`, with the cursor at the
    /// first bit of the first byte.
    pub fn from_str(seed: &str) -> (r: Seed)
        ensures
            r@.bytes == encode_utf8(seed@),
            r@.index == 0,
            r@.bit == 0,
            seed@.len() > 0 ==> r.wf(),
    {
        let string = seed.as_bytes_vec();
        let mut bytes: Vec<u8> = Vec::new();

        for i in 0..string.len()
            invariant
                bytes@ =~= string@.subrange(0, i as int),
        {
            bytes.push(string[i]);
        }

        proof {
            assert(bytes@ =~= string@);
            if seed@.len() > 0 {
                lemma_encode_utf8_len(seed@);
            }
        }

        let index: usize = 0;
        let bit: u8 = 0;

        Seed { bytes, index, bit }
    }

    /// Draw the next bit of the stream: normalize the cursor, read the
    /// denoted bit, and step the bit position past it.
    pub fn next_bool(&mut self) -> (r: bool)
        requires
            old(self).wf(),
        ensures
            final(self).wf(),
            final(self)@.bytes == old(self)@.bytes,
            final(self)@.index == cursor_norm(old(self)@).index,
            final(self)@.bit == cursor_norm(old(self)@).bit + 1,
            r == cursor_bit(cursor_norm(old(self)@)),
    {
        if 7 < self.bit {
            proof {
                assert(self.bytes.len() == self.bytes@.len());
            }
            self.bit = 0;
            self.index += 1;
        }

        if self.bytes.len() - 1 < self.index {
            self.index = 0;
        }

        let byte: u8 = self.bytes[self.index];
        let shifted: u8 = byte >> self.bit;
        let new_byte: u8 = shifted & 1;

        self.bit += 1;
        new_byte == 1
    }
}

/// A non-empty string encodes to at least as many bytes as it has
/// characters: every scalar takes at least one byte.
pub proof fn lemma_encode_utf8_len(chars: Seq<char>)
    ensures
        encode_utf8(chars).len() >= chars.len(),
    decreases chars.len(),
{
    if chars.len() > 0 {
        assert(encode_scalar(chars[0] as u32).len() >= 1);
        lemma_encode_utf8_len(chars.drop_first());
    }
}

} // verus!
