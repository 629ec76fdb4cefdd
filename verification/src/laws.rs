use vstd::prelude::*;
use vstd::arithmetic::div_mod::lemma_fundamental_div_mod_converse;
use crate::utils::{ByteMask, lemma_width_table};
use crate::encoder::{embed_byte, embedded, fits, payload_at, zero_padding};
use crate::decoder::{cell, data_start, data_start_from, extracted, group, group_base, group_count};

verus! {

/// Every chunk of a byte fits under the mask: it has no bit above the low
/// `bits` bits.
pub proof fn lemma_chunk_under_mask(mask: ByteMask, byte: u8, k: int)
    requires
        mask.wf(),
        0 <= k < mask.chunks,
    ensures
        mask.chunk_at(byte, k) & !mask.mask == 0,
        mask.chunk_at(byte, k) & mask.mask == mask.chunk_at(byte, k),
{
    lemma_width_table(mask.bits);
    let m = mask.mask;
    let c = mask.chunk_at(byte, k);
    if mask.padded && k + 1 == mask.chunks {
        let down = (mask.bits * (k + 1) - 8) as u8;
        assert(c & !m == 0 && c & m == c) by (bit_vector)
            requires
                c == byte & (m >> down),
                m == 0x01 || m == 0x03 || m == 0x07 || m == 0x0f || m == 0x1f || m == 0x3f || m
                    == 0x7f || m == 0xff,
        ;
    } else {
        let moved = byte >> ((8 - mask.bits * (k + 1)) as u8);
        assert(c & !m == 0 && c & m == c) by (bit_vector)
            requires
                c == moved & m,
        ;
    }
}

/// Cutting a byte into chunks and joining them again gives the byte back,
/// for every byte and every width from 1 to 8.
pub proof fn lemma_join_split(mask: ByteMask, byte: u8)
    requires
        mask.wf(),
    ensures
        mask.join(mask.split(byte)) == byte,
{
    lemma_width_table(mask.bits);
    reveal_with_fuel(ByteMask::join_prefix, 9);
    let parts = mask.split(byte);
    let b = byte;
    if mask.bits == 1 {
        let (c0, c1, c2, c3) = (parts[0], parts[1], parts[2], parts[3]);
        let (c4, c5, c6, c7) = (parts[4], parts[5], parts[6], parts[7]);
        assert((((((((0u8 | (c0 << 7u8)) | (c1 << 6u8)) | (c2 << 5u8)) | (c3 << 4u8)) | (c4
            << 3u8)) | (c5 << 2u8)) | (c6 << 1u8)) | (c7 << 0u8) == b) by (bit_vector)
            requires
                c0 == (b >> 7u8) & 1u8,
                c1 == (b >> 6u8) & 1u8,
                c2 == (b >> 5u8) & 1u8,
                c3 == (b >> 4u8) & 1u8,
                c4 == (b >> 3u8) & 1u8,
                c5 == (b >> 2u8) & 1u8,
                c6 == (b >> 1u8) & 1u8,
                c7 == (b >> 0u8) & 1u8,
        ;
    } else if mask.bits == 2 {
        let (c0, c1, c2, c3) = (parts[0], parts[1], parts[2], parts[3]);
        assert((((0u8 | (c0 << 6u8)) | (c1 << 4u8)) | (c2 << 2u8)) | (c3 << 0u8) == b)
            by (bit_vector)
            requires
                c0 == (b >> 6u8) & 3u8,
                c1 == (b >> 4u8) & 3u8,
                c2 == (b >> 2u8) & 3u8,
                c3 == (b >> 0u8) & 3u8,
        ;
    } else if mask.bits == 3 {
        let (c0, c1, c2) = (parts[0], parts[1], parts[2]);
        assert(((0u8 | (c0 << 5u8)) | (c1 << 2u8)) | (c2 << 0u8) == b) by (bit_vector)
            requires
                c0 == (b >> 5u8) & 7u8,
                c1 == (b >> 2u8) & 7u8,
                c2 == b & (7u8 >> 1u8),
        ;
    } else if mask.bits == 4 {
        let (c0, c1) = (parts[0], parts[1]);
        assert((0u8 | (c0 << 4u8)) | (c1 << 0u8) == b) by (bit_vector)
            requires
                c0 == (b >> 4u8) & 15u8,
                c1 == (b >> 0u8) & 15u8,
        ;
    } else if mask.bits == 5 {
        let (c0, c1) = (parts[0], parts[1]);
        assert((0u8 | (c0 << 3u8)) | (c1 << 0u8) == b) by (bit_vector)
            requires
                c0 == (b >> 3u8) & 31u8,
                c1 == b & (31u8 >> 2u8),
        ;
    } else if mask.bits == 6 {
        let (c0, c1) = (parts[0], parts[1]);
        assert((0u8 | (c0 << 2u8)) | (c1 << 0u8) == b) by (bit_vector)
            requires
                c0 == (b >> 2u8) & 63u8,
                c1 == b & (63u8 >> 4u8),
        ;
    } else if mask.bits == 7 {
        let (c0, c1) = (parts[0], parts[1]);
        assert((0u8 | (c0 << 1u8)) | (c1 << 0u8) == b) by (bit_vector)
            requires
                c0 == (b >> 1u8) & 127u8,
                c1 == b & (127u8 >> 6u8),
        ;
    } else {
        let c0 = parts[0];
        assert(0u8 | (c0 << 0u8) == b) by (bit_vector)
            requires
                c0 == (b >> 0u8) & 255u8,
        ;
    }
}

/// Reading back an embedded byte: its low bits are the chunk that was
/// written, and its high bits are those of the pixel it was written into.
pub proof fn lemma_embed_byte(mask: u8, pixel: u8, chunk: u8)
    requires
        chunk & !mask == 0,
    ensures
        embed_byte(mask, pixel, chunk) & mask == chunk,
        embed_byte(mask, pixel, chunk) & !mask == pixel & !mask,
{
    assert(((pixel & !mask) | chunk) & mask == chunk && ((pixel & !mask) | chunk) & !mask == pixel
        & !mask) by (bit_vector)
        requires
            chunk & !mask == 0,
    ;
}

/// The chunk for every position of the image fits under the mask.
pub proof fn lemma_payload_under_mask(mask: ByteMask, zeroes: int, secret: Seq<u8>, i: int)
    requires
        mask.wf(),
    ensures
        payload_at(mask, zeroes, secret, i) & !mask.mask == 0,
{
    lemma_width_table(mask.bits);
    let m = mask.mask;
    if i < zeroes {
        assert(0u8 & !m == 0) by (bit_vector);
    } else {
        let n = mask.chunks as int;
        lemma_chunk_under_mask(mask, secret[(i - zeroes) / n], (i - zeroes) % n);
    }
}

/// Embedding leaves the high bits of every image byte as they were: only
/// the low `bits` bits can differ from the cover.
pub proof fn lemma_high_bits_kept(mask: ByteMask, image: Seq<u8>, secret: Seq<u8>, i: int)
    requires
        mask.wf(),
        0 <= i < image.len(),
    ensures
        embedded(mask, image, secret)[i] & !mask.mask == image[i] & !mask.mask,
{
    let zeroes = zero_padding(mask, image.len() as int, secret.len() as int);
    lemma_payload_under_mask(mask, zeroes, secret, i);
    lemma_embed_byte(mask.mask, image[i], payload_at(mask, zeroes, secret, i));
}

/// The low bits of every byte of the embedded image are the chunk for its
/// position.
pub proof fn lemma_low_bits_carry(mask: ByteMask, image: Seq<u8>, secret: Seq<u8>, i: int)
    requires
        mask.wf(),
        0 <= i < image.len(),
    ensures
        embedded(mask, image, secret)[i] & mask.mask == payload_at(
            mask,
            zero_padding(mask, image.len() as int, secret.len() as int),
            secret,
            i,
        ),
{
    let zeroes = zero_padding(mask, image.len() as int, secret.len() as int);
    lemma_payload_under_mask(mask, zeroes, secret, i);
    lemma_embed_byte(mask.mask, image[i], payload_at(mask, zeroes, secret, i));
}

/// The start of the data is a position of the image or its end; every byte
/// before it has zero low bits, and the byte at it, if there is one, has not.
pub proof fn lemma_data_start(mask: u8, image: Seq<u8>, from: int)
    requires
        0 <= from <= image.len(),
    ensures
        from <= data_start_from(mask, image, from) <= image.len(),
        forall|j: int|
            from <= j < data_start_from(mask, image, from) ==> #[trigger] image[j] & mask == 0,
        data_start_from(mask, image, from) < image.len() ==> image[data_start_from(
            mask,
            image,
            from,
        )] & mask != 0,
    decreases image.len() - from,
{
    if from < image.len() && image[from] & mask == 0 {
        lemma_data_start(mask, image, from + 1);
    }
}

/// Extraction undoes embedding: a secret that fits in the image and whose
/// first byte has a nonzero chunk comes back exactly. (An empty secret
/// comes back too. A secret whose first byte is all zero chunks does not:
/// that byte cannot be told from the padding before it.)
pub proof fn lemma_round_trip(mask: ByteMask, image: Seq<u8>, secret: Seq<u8>)
    requires
        mask.wf(),
        fits(mask, image.len() as int, secret.len() as int),
        secret.len() > 0 ==> exists|k: int|
            0 <= k < mask.chunks && #[trigger] mask.chunk_at(secret[0], k) != 0,
    ensures
        extracted(mask, embedded(mask, image, secret)) == secret,
{
    lemma_width_table(mask.bits);
    let stego = embedded(mask, image, secret);
    let n = mask.chunks as int;
    let total = image.len() as int;
    let count = secret.len() as int;
    let zeroes = zero_padding(mask, total, count);
    let m = mask.mask;
    let s = data_start(m, stego);
    assert forall|i: int| 0 <= i < total implies #[trigger] stego[i] & m == payload_at(
        mask,
        zeroes,
        secret,
        i,
    ) by {
        lemma_low_bits_carry(mask, image, secret, i);
    }
    lemma_data_start(m, stego, 0);
    assert(0u8 & m == 0) by (bit_vector);
    if count == 0 {
        if s < total {
            assert(stego[s] & m == payload_at(mask, zeroes, secret, s));
        }
        assert(s == total);
        assert((n - 1) / n == 0) by {
            lemma_fundamental_div_mod_converse(n - 1, n, 0, n - 1);
        }
        assert(extracted(mask, stego) =~= secret);
    } else {
        let w = choose|k: int| 0 <= k < mask.chunks && #[trigger] mask.chunk_at(secret[0], k) != 0;
        assert(n <= count * n) by (nonlinear_arith)
            requires
                1 <= count,
                0 <= n,
        ;
        lemma_fundamental_div_mod_converse(w, n, 0, w);
        assert(payload_at(mask, zeroes, secret, zeroes + w) == mask.chunk_at(secret[0], w));
        assert(stego[zeroes + w] & m != 0);
        assert(s <= zeroes + w);
        if s < zeroes {
            assert(stego[s] & m == payload_at(mask, zeroes, secret, s));
        }
        assert(zeroes <= s);
        let t = s - zeroes;
        lemma_fundamental_div_mod_converse(total - s + n - 1, n, count, n - 1 - t);
        assert(group_count(mask, stego) == count);
        assert(group_base(mask, stego) == zeroes);
        assert forall|j: int| 0 <= j < count implies mask.join(group(mask, stego, j))
            == #[trigger] secret[j] by {
            assert((j + 1) * n <= count * n) by (nonlinear_arith)
                requires
                    j + 1 <= count,
                    0 <= n,
            ;
            assert((j + 1) * n == j * n + n) by (nonlinear_arith);
            assert(0 <= j * n) by (nonlinear_arith)
                requires
                    0 <= j,
                    0 <= n,
            ;
            assert forall|k: int| 0 <= k < n implies #[trigger] group(mask, stego, j)[k]
                == mask.split(secret[j])[k] by {
                let idx = zeroes + j * n + k;
                lemma_fundamental_div_mod_converse(idx - zeroes, n, j, k);
                assert(stego[idx] & m == payload_at(mask, zeroes, secret, idx));
                assert(cell(m, stego, s, idx) == payload_at(mask, zeroes, secret, idx));
            }
            assert(group(mask, stego, j) =~= mask.split(secret[j]));
            lemma_join_split(mask, secret[j]);
        }
        assert(extracted(mask, stego) =~= secret);
    }
}

} // verus!
