use stegno::decoder::{decode, Decoder};
use stegno::encoder::{encode, Encoder};
use stegno::errors::Error;
use stegno::utils::ByteMask;

fn width(bits: u8) -> ByteMask {
    ByteMask::new(bits).unwrap()
}

#[test]
fn eight_bit_secret_sits_at_the_end_of_the_image() {
    let image = vec![0xabu8; 100];
    let secret: Vec<u8> = (1..=10).collect();
    let encoder = Encoder::new(image, secret.clone(), width(8)).unwrap();
    assert_eq!(encoder.zeroes(), 90);
    let stego = encoder.save();
    assert_eq!(stego.len(), 100);
    assert!(stego[..90].iter().all(|b| *b == 0));
    assert_eq!(&stego[90..], &secret[..]);
}

#[test]
fn two_bit_embedding_byte_by_byte() {
    let stego = encode(vec![0xff; 6], vec![0x41], width(2)).unwrap();
    assert_eq!(stego, vec![0xfc, 0xfc, 0xfd, 0xfc, 0xfc, 0xfd]);
}

#[test]
fn three_bit_embedding_byte_by_byte() {
    let stego = encode(vec![0x50, 0x51, 0x52, 0x53], vec![0xff], width(3)).unwrap();
    assert_eq!(stego, vec![0x50, 0x57, 0x57, 0x53]);
}

#[test]
fn secret_that_fills_the_image_exactly_is_taken() {
    let encoder = Encoder::new(vec![0; 12], vec![0x80, 2, 3], width(2)).unwrap();
    assert_eq!(encoder.zeroes(), 0);
    assert_eq!(encoder.save().len(), 12);
}

#[test]
fn secret_one_chunk_too_long_is_refused() {
    assert_eq!(
        Encoder::new(vec![0; 11], vec![0x80, 2, 3], width(2)).err(),
        Some(Error::SecretTooLarge)
    );
    assert_eq!(encode(vec![0; 11], vec![0x80, 2, 3], width(2)), Err(Error::SecretTooLarge));
    assert_eq!(encode(vec![], vec![1], width(8)), Err(Error::SecretTooLarge));
}

#[test]
fn capacity_boundary_for_every_width() {
    for bits in 1..=8u8 {
        let m = width(bits);
        let need = 5 * m.chunks as usize;
        assert!(encode(vec![0; need], vec![0xff; 5], m).is_ok());
        assert!(encode(vec![0; need + 1], vec![0xff; 5], m).is_ok());
        assert_eq!(encode(vec![0; need - 1], vec![0xff; 5], m), Err(Error::SecretTooLarge));
    }
}

#[test]
fn empty_secret_only_clears_the_low_bits() {
    let stego = encode(vec![0xff, 0x0f, 0xf0], vec![], width(4)).unwrap();
    assert_eq!(stego, vec![0xf0, 0x00, 0xf0]);
    assert_eq!(decode(stego, width(4)), Vec::<u8>::new());
}

#[test]
fn high_bits_of_the_cover_survive() {
    for bits in 1..=8u8 {
        let m = width(bits);
        let cover: Vec<u8> = (0..64u8).map(|i| i.wrapping_mul(37).wrapping_add(11)).collect();
        let secret: Vec<u8> = vec![0xde, 0xad, 0xbe, 0xef];
        let stego = encode(cover.clone(), secret, m).unwrap();
        assert_eq!(stego.len(), cover.len());
        for (before, after) in cover.iter().zip(stego.iter()) {
            assert_eq!(before & !m.mask, after & !m.mask);
        }
    }
}

#[test]
fn round_trip_for_every_width() {
    let secret: Vec<u8> = vec![0x80, 0x00, 0xff, 0x41, 0x00, 0x7e, 0x01];
    for bits in 1..=8u8 {
        let m = width(bits);
        for spare in 0..10usize {
            let len = secret.len() * m.chunks as usize + spare;
            let cover: Vec<u8> = (0..len).map(|i| (i * 31 + 7) as u8).collect();
            let stego = encode(cover, secret.clone(), m).unwrap();
            assert_eq!(decode(stego, m), secret);
        }
    }
}

#[test]
fn round_trip_when_the_first_chunk_is_zero() {
    let stego = encode(vec![0xf8; 7], vec![0x05], width(3)).unwrap();
    assert_eq!(stego, vec![0xf8, 0xf8, 0xf8, 0xf8, 0xf8, 0xf9, 0xf9]);
    assert_eq!(decode(stego, width(3)), vec![0x05]);
}

#[test]
fn leading_zero_byte_is_lost() {
    let stego = encode(vec![0; 8], vec![0x00, 0x41], width(2)).unwrap();
    assert_eq!(stego, vec![0, 0, 0, 0, 1, 0, 0, 1]);
    assert_eq!(decode(stego, width(2)), vec![0x41]);
}

#[test]
fn image_without_data_gives_nothing() {
    assert_eq!(decode(vec![0xf0; 9], width(4)), Vec::<u8>::new());
    assert_eq!(decode(vec![], width(1)), Vec::<u8>::new());
}

#[test]
fn extraction_is_aligned_to_the_end() {
    assert_eq!(decode(vec![0xff; 5], width(2)), vec![0x03, 0xff]);
    assert_eq!(decode(vec![0x00, 0x00, 0x01, 0x02, 0x03], width(2)), vec![0x1b]);
    assert_eq!(decode(vec![0x00, 0x01, 0x02, 0x03], width(2)), vec![0x1b]);
}

#[test]
fn extraction_ignores_the_high_bits() {
    assert_eq!(decode(vec![0xf0, 0xf1, 0xf2, 0xf3, 0xf4], width(2)), vec![0x6c]);
}

#[test]
fn wrong_width_reads_other_bytes() {
    let stego = encode(vec![0; 4], vec![0x41], width(2)).unwrap();
    assert_eq!(decode(stego.clone(), width(2)), vec![0x41]);
    assert_eq!(decode(stego, width(4)), vec![0x10, 0x01]);
}

#[test]
fn decoder_can_be_read_twice() {
    let decoder = Decoder::new(vec![0x01, 0x02], width(4));
    assert_eq!(decoder.save(), vec![0x12]);
    assert_eq!(decoder.save(), vec![0x12]);
}
