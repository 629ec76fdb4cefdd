use vstd::prelude::*;
use vstd::arithmetic::power2::{pow2, lemma2_to64};
use crate::errors::Error;

verus! {

/// The byte whose low `bits` bits are set and no others: `2^bits - 1`.
pub open spec fn low_mask(bits: u8) -> u8 {
    (pow2(bits as nat) - 1) as u8
}

/// How many chunks of `bits` bits it takes to hold a byte: `ceil(8 / bits)`.
pub open spec fn chunk_count(bits: u8) -> u8 {
    ((8 + bits - 1) / (bits as int)) as u8
}

/// Where the `k`-th chunk (counted from 1) is put back into a byte:
/// `8 - bits * k`, or 0 once that would be negative.
pub open spec fn shift_after(bits: u8, k: int) -> u8 {
    if 8 - bits * k > 0 {
        (8 - bits * k) as u8
    } else {
        0u8
    }
}

/// The values of `low_mask` and `chunk_count` for each of the eight widths.
pub proof fn lemma_width_table(bits: u8)
    requires
        1 <= bits <= 8,
    ensures
        bits == 1 ==> low_mask(bits) == 0x01 && chunk_count(bits) == 8,
        bits == 2 ==> low_mask(bits) == 0x03 && chunk_count(bits) == 4,
        bits == 3 ==> low_mask(bits) == 0x07 && chunk_count(bits) == 3,
        bits == 4 ==> low_mask(bits) == 0x0f && chunk_count(bits) == 2,
        bits == 5 ==> low_mask(bits) == 0x1f && chunk_count(bits) == 2,
        bits == 6 ==> low_mask(bits) == 0x3f && chunk_count(bits) == 2,
        bits == 7 ==> low_mask(bits) == 0x7f && chunk_count(bits) == 2,
        bits == 8 ==> low_mask(bits) == 0xff && chunk_count(bits) == 1,
        bits * chunk_count(bits) >= 8,
        bits * (chunk_count(bits) - 1) < 8,
{
    lemma2_to64();
}

/// Only the widths that divide 8 leave no short last chunk.
pub proof fn lemma_padded_widths(mask: ByteMask)
    requires
        mask.wf(),
    ensures
        mask.bits * mask.chunks >= 8,
        mask.padded <==> !(mask.bits == 1 || mask.bits == 2 || mask.bits == 4 || mask.bits == 8),
{
    lemma_width_table(mask.bits);
}

/// A chunk width together with a cursor over the chunks of one byte.
///
/// `bits`, `mask`, `chunks` and `padded` describe the width and never change
/// once built; `byte` and `step` are the cursor that `set_byte` re-arms and
/// `next` advances.
#[derive(Clone, Copy, Debug)]
pub struct ByteMask {
    /// Payload bits per chunk, 1 to 8.
    pub bits: u8,
    /// `2^bits - 1`.
    pub mask: u8,
    /// Chunks per byte, `ceil(8 / bits)`.
    pub chunks: u8,
    /// Whether `bits` fails to divide 8, so that the last chunk is short.
    pub padded: bool,
    /// The byte being cut up.
    pub byte: u8,
    /// How many chunks of `byte` have been handed out.
    pub step: u8,
}

impl ByteMask {
    /// The width is in range and the derived fields agree with it.
    pub open spec fn wf(self) -> bool {
        &&& 1 <= self.bits <= 8
        &&& self.mask == low_mask(self.bits)
        &&& self.chunks == chunk_count(self.bits)
        &&& self.padded == (self.chunks * self.bits > 8)
    }

    /// Two values describe the same width (their cursors may differ).
    pub open spec fn same_width(self, other: ByteMask) -> bool {
        &&& self.bits == other.bits
        &&& self.mask == other.mask
        &&& self.chunks == other.chunks
        &&& self.padded == other.padded
    }

    /// The `k`-th chunk of `byte`, counted from 0 at the most significant
    /// end. Every chunk but a short last one is `bits` wide and shifted down
    /// to the low end; a short last one is the remaining low bits as they are.
    pub open spec fn chunk_at(self, byte: u8, k: int) -> u8 {
        let s = k + 1;
        if self.padded && s == self.chunks {
            byte & (self.mask >> ((self.bits * s - 8) as u8))
        } else {
            (byte >> ((8 - self.bits * s) as u8)) & self.mask
        }
    }

    /// All chunks of `byte`, most significant first.
    pub open spec fn split(self, byte: u8) -> Seq<u8> {
        Seq::new(self.chunks as nat, |k: int| self.chunk_at(byte, k))
    }

    /// The byte built from the first `n` of `chunks`: each is shifted to
    /// its place and or-ed in.
    pub open spec fn join_prefix(self, chunks: Seq<u8>, n: nat) -> u8
        decreases n,
    {
        if n == 0 {
            0u8
        } else {
            let placed = chunks[n - 1] << shift_after(self.bits, n as int);
            self.join_prefix(chunks, (n - 1) as nat) | placed
        }
    }

    /// The byte built from all of `chunks`.
    pub open spec fn join(self, chunks: Seq<u8>) -> u8 {
        self.join_prefix(chunks, chunks.len())
    }

    /// The shifts of every step stay inside a byte: a step that is not a
    /// short last one ends at or above bit 0, and a short last one overshoots
    /// by fewer than `bits` bits.
    pub proof fn lemma_step_bounds(self, s: int)
        requires
            self.wf(),
            1 <= s <= self.chunks,
        ensures
            self.bits <= self.bits * s <= 14,
            self.padded && s == self.chunks ==> 8 < self.bits * s < 8 + self.bits,
            !(self.padded && s == self.chunks) ==> self.bits * s <= 8,
    {
        lemma_width_table(self.bits);
        let b = self.bits as int;
        assert(b <= b * s) by (nonlinear_arith)
            requires
                b >= 1,
                s >= 1,
        ;
        assert(b * s <= b * self.chunks) by (nonlinear_arith)
            requires
                b >= 1,
                s <= self.chunks,
        ;
        assert(s < self.chunks ==> b * s <= b * (self.chunks - 1)) by (nonlinear_arith)
            requires
                b >= 1,
        ;
    }

    /// Builds the mask for chunks of `bits` bits, with the cursor at rest.
    pub fn new(bits: u8) -> (made: Result<Self, Error>)
        ensures
            made is Err <==> (bits == 0 || bits > 8),
            made matches Err(e) ==> e == Error::InvalidNumberOfBits,
            made matches Ok(m) ==> m.wf() && m.bits == bits && m.byte == 0 && m.step == 0,
    {
        if (bits == 0) || (bits > 8) {
            Err(Error::InvalidNumberOfBits)
        } else {
            let mask: u8 = 0xffu8 >> (8 - bits);
            let chunks: u8 = (7 + bits) / bits;
            proof {
                lemma_width_table(bits);
                let down: u8 = (8 - bits) as u8;
                assert(mask == 0xffu8 >> down);
                assert({
                    &&& down == 7 ==> mask == 0x01
                    &&& down == 6 ==> mask == 0x03
                    &&& down == 5 ==> mask == 0x07
                    &&& down == 4 ==> mask == 0x0f
                    &&& down == 3 ==> mask == 0x1f
                    &&& down == 2 ==> mask == 0x3f
                    &&& down == 1 ==> mask == 0x7f
                    &&& down == 0 ==> mask == 0xff
                }) by (bit_vector)
                    requires
                        mask == 0xffu8 >> down,
                ;
            }
            let padded = 8 < chunks * bits;
            Ok(ByteMask { bits, mask, chunks, padded, byte: 0, step: 0 })
        }
    }

    /// Points the cursor at the start of `byte` and returns a copy.
    pub fn set_byte(&mut self, byte: u8) -> (armed: Self)
        ensures
            final(self).same_width(*old(self)),
            final(self).byte == byte,
            final(self).step == 0,
            armed == *final(self),
    {
        self.byte = byte;
        self.step = 0;
        *self
    }

    /// Hands out the next chunk of the current byte, or `None` once all
    /// `chunks` of them are out.
    pub fn next(&mut self) -> (chunk: Option<u8>)
        requires
            old(self).wf(),
        ensures
            final(self).same_width(*old(self)),
            final(self).byte == old(self).byte,
            old(self).step >= old(self).chunks ==> {
                &&& chunk is None
                &&& final(self).step == old(self).step
            },
            old(self).step < old(self).chunks ==> {
                &&& chunk == Some(old(self).chunk_at(old(self).byte, old(self).step as int))
                &&& final(self).step == old(self).step + 1
            },
    {
        if self.step >= self.chunks {
            return None;
        }
        proof {
            self.lemma_step_bounds(self.step + 1);
        }
        self.step += 1;
        if self.padded && (self.step == self.chunks) {
            let shift: u8 = self.bits * self.step - 8;
            Some(self.byte & (self.mask >> shift))
        } else {
            let shift: u8 = 8 - self.bits * self.step;
            Some((self.byte >> shift) & self.mask)
        }
    }

    /// Cuts `byte` into its chunks, most significant first.
    pub fn split_byte(&self, byte: u8) -> (parts: Vec<u8>)
        requires
            self.wf(),
        ensures
            parts@ == self.split(byte),
    {
        let mut cursor = *self;
        cursor.set_byte(byte);
        let mut parts: Vec<u8> = Vec::new();
        while cursor.step < cursor.chunks
            invariant
                cursor.wf(),
                cursor.same_width(*self),
                cursor.byte == byte,
                cursor.step <= cursor.chunks,
                parts@ == Seq::new(cursor.step as nat, |k: int| self.chunk_at(byte, k)),
            decreases cursor.chunks - cursor.step,
        {
            let chunk = cursor.next();
            match chunk {
                Some(c) => {
                    parts.push(c);
                },
                None => {},
            }
            assert(parts@ =~= Seq::new(cursor.step as nat, |k: int| self.chunk_at(byte, k)));
        }
        parts
    }

    /// Puts chunks back together into one byte: the first goes to the top,
    /// each following one `bits` lower, and none lower than bit 0.
    pub fn join_chunks(self, chunks: &[u8]) -> (byte: u8)
        requires
            self.wf(),
        ensures
            byte == self.join(chunks@),
    {
        let mut byte: u8 = 0;
        let mut shift: u8 = 8;
        let mut i: usize = 0;
        while i < chunks.len()
            invariant
                self.wf(),
                i <= chunks@.len(),
                shift == shift_after(self.bits, i as int),
                byte == self.join_prefix(chunks@, i as nat),
            decreases chunks@.len() - i,
        {
            assert(self.bits * (i + 1) == self.bits * i + self.bits) by (nonlinear_arith);
            shift = shift.saturating_sub(self.bits);
            byte |= chunks[i] << shift;
            i += 1;
        }
        byte
    }
}

} // verus!
