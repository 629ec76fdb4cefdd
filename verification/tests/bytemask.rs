use stegno::errors::Error;
use stegno::utils::ByteMask;

fn mask(bits: u8) -> ByteMask {
    ByteMask::new(bits).unwrap()
}

#[test]
fn width_zero_is_refused() {
    assert_eq!(ByteMask::new(0).unwrap_err(), Error::InvalidNumberOfBits);
}

#[test]
fn width_nine_is_refused() {
    assert_eq!(ByteMask::new(9).unwrap_err(), Error::InvalidNumberOfBits);
    assert_eq!(ByteMask::new(255).unwrap_err(), Error::InvalidNumberOfBits);
}

#[test]
fn width_one_and_eight_are_accepted() {
    let one = mask(1);
    assert_eq!((one.bits, one.mask, one.chunks, one.padded), (1, 0x01, 8, false));
    let eight = mask(8);
    assert_eq!((eight.bits, eight.mask, eight.chunks, eight.padded), (8, 0xff, 1, false));
}

#[test]
fn derived_fields_for_every_width() {
    let expected: [(u8, u8, u8, bool); 8] = [
        (1, 0x01, 8, false),
        (2, 0x03, 4, false),
        (3, 0x07, 3, true),
        (4, 0x0f, 2, false),
        (5, 0x1f, 2, true),
        (6, 0x3f, 2, true),
        (7, 0x7f, 2, true),
        (8, 0xff, 1, false),
    ];
    for (bits, low, chunks, padded) in expected {
        let m = mask(bits);
        assert_eq!((m.bits, m.mask, m.chunks, m.padded), (bits, low, chunks, padded));
        assert_eq!((m.byte, m.step), (0, 0));
        assert!(m.bits * m.chunks >= 8);
    }
}

#[test]
fn two_bit_chunks_of_0x41() {
    let m = mask(2);
    assert_eq!(m.chunks, 4);
    assert_eq!(m.split_byte(0x41), vec![1, 0, 0, 1]);
    assert_eq!(m.join_chunks(&[1, 0, 0, 1]), 0x41);
}

#[test]
fn three_bit_chunks_of_0xff() {
    let m = mask(3);
    assert_eq!(m.chunks, 3);
    assert!(m.padded);
    assert_eq!(m.split_byte(0xff), vec![0b111, 0b111, 0b011]);
    assert_eq!(m.join_chunks(&[0b111, 0b111, 0b011]), 0xff);
}

#[test]
fn chunks_of_other_widths() {
    assert_eq!(mask(1).split_byte(0xa5), vec![1, 0, 1, 0, 0, 1, 0, 1]);
    assert_eq!(mask(4).split_byte(0xa5), vec![0x0a, 0x05]);
    assert_eq!(mask(5).split_byte(0xa5), vec![0b10100, 0b101]);
    assert_eq!(mask(6).split_byte(0xa5), vec![0b101001, 0b01]);
    assert_eq!(mask(7).split_byte(0xa5), vec![0b1010010, 0b1]);
    assert_eq!(mask(8).split_byte(0xa5), vec![0xa5]);
}

#[test]
fn join_undoes_split_for_every_byte_and_width() {
    for bits in 1..=8u8 {
        let m = mask(bits);
        for byte in 0..=255u8 {
            let parts = m.split_byte(byte);
            assert_eq!(parts.len(), m.chunks as usize);
            assert!(parts.iter().all(|c| *c <= m.mask));
            assert_eq!(m.join_chunks(&parts), byte);
        }
    }
}

#[test]
fn next_walks_the_chunks_and_then_stops() {
    let mut m = mask(3);
    let armed = m.set_byte(0b1011_0110);
    assert_eq!((armed.byte, armed.step), (0b1011_0110, 0));
    assert_eq!(m.next(), Some(0b101));
    assert_eq!(m.step, 1);
    assert_eq!(m.next(), Some(0b101));
    assert_eq!(m.next(), Some(0b10));
    assert_eq!(m.step, 3);
    assert_eq!(m.next(), None);
    assert_eq!(m.next(), None);
    assert_eq!(m.step, 3);
    assert_eq!(m.byte, 0b1011_0110);
}

#[test]
fn set_byte_starts_over() {
    let mut m = mask(4);
    m.set_byte(0x12);
    assert_eq!(m.next(), Some(0x1));
    let armed = m.set_byte(0x34);
    assert_eq!((armed.bits, armed.mask, armed.chunks, armed.padded), (4, 0x0f, 2, false));
    assert_eq!((m.byte, m.step), (0x34, 0));
    assert_eq!(m.next(), Some(0x3));
    assert_eq!(m.next(), Some(0x4));
    assert_eq!(m.next(), None);
}

#[test]
fn a_fresh_mask_holds_the_zero_byte() {
    let mut m = mask(2);
    assert_eq!(m.next(), Some(0));
    assert_eq!(m.next(), Some(0));
    assert_eq!(m.next(), Some(0));
    assert_eq!(m.next(), Some(0));
    assert_eq!(m.next(), None);
}

#[test]
fn join_of_nothing_is_zero() {
    assert_eq!(mask(2).join_chunks(&[]), 0);
}

#[test]
fn join_of_too_few_chunks_fills_from_the_top() {
    assert_eq!(mask(2).join_chunks(&[1, 2]), 0x60);
    assert_eq!(mask(3).join_chunks(&[0b101]), 0b1010_0000);
}

#[test]
fn join_of_too_many_chunks_piles_up_at_bit_zero() {
    assert_eq!(mask(4).join_chunks(&[1, 2, 4]), 0x16);
}

#[test]
fn join_drops_bits_pushed_off_the_top() {
    assert_eq!(mask(2).join_chunks(&[0xff]), 0xc0);
    assert_eq!(mask(2).join_chunks(&[0xff, 0, 0, 0]), 0xc0);
}

#[test]
fn join_takes_a_vec() {
    let parts: Vec<u8> = vec![0x0a, 0x05];
    assert_eq!(mask(4).join_chunks(&parts), 0xa5);
}

#[test]
fn every_error_has_its_sentence() {
    assert_eq!(Error::SecretReadError.message(), "Something when while reading secret file");
    assert_eq!(Error::SecretTooLarge.message(), "Secret is too large to fit in image");
    assert_eq!(Error::InvalidNumberOfBits.message(), "Only 1 to 8 LSB bits are allowed");
    assert_eq!(
        Error::ImageReadWriteError.message(),
        "Something went wrong while processing the image"
    );
}
