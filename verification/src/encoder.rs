use vstd::prelude::*;
use vstd::arithmetic::div_mod::lemma_fundamental_div_mod_converse;
use crate::errors::Error;
use crate::utils::{ByteMask, lemma_width_table};

verus! {

/// How many image bytes are left over in front of the secret: the image's
/// length less one byte per chunk of the secret.
pub open spec fn zero_padding(mask: ByteMask, image_len: int, secret_len: int) -> int {
    image_len - secret_len * mask.chunks
}

/// Whether `secret_len` bytes can be hidden in `image_len` bytes.
pub open spec fn fits(mask: ByteMask, image_len: int, secret_len: int) -> bool {
    secret_len * mask.chunks <= image_len
}

/// The chunk that goes into the image byte at position `i`: zero for the
/// first `zeroes` positions, then the chunks of each secret byte in turn.
pub open spec fn payload_at(mask: ByteMask, zeroes: int, secret: Seq<u8>, i: int) -> u8 {
    if i < zeroes {
        0u8
    } else {
        let n = mask.chunks as int;
        mask.chunk_at(secret[(i - zeroes) / n], (i - zeroes) % n)
    }
}

/// An image byte with its low bits replaced by `chunk`.
pub open spec fn embed_byte(mask: u8, pixel: u8, chunk: u8) -> u8 {
    (pixel & !mask) | chunk
}

/// The image that carries `secret`: byte for byte the cover, with the low
/// bits of each replaced by the chunk for its position.
pub open spec fn embedded(mask: ByteMask, image: Seq<u8>, secret: Seq<u8>) -> Seq<u8> {
    Seq::new(
        image.len(),
        |i: int|
            embed_byte(
                mask.mask,
                image[i],
                payload_at(
                    mask,
                    zero_padding(mask, image.len() as int, secret.len() as int),
                    secret,
                    i,
                ),
            ),
    )
}

/// Hides a secret in the low bits of an image.
pub struct Encoder {
    image: Vec<u8>,
    secret: Vec<u8>,
    mask: ByteMask,
    zeroes: usize,
}

impl Encoder {
    #[verifier::type_invariant]
    spec fn inv(self) -> bool {
        &&& self.mask.wf()
        &&& self.zeroes + self.secret@.len() * self.mask.chunks == self.image@.len()
    }

    /// The cover image's bytes.
    pub closed spec fn cover(self) -> Seq<u8> {
        self.image@
    }

    /// The bytes to hide.
    pub closed spec fn secret_bytes(self) -> Seq<u8> {
        self.secret@
    }

    /// The chunk width to hide them with.
    pub closed spec fn width(self) -> ByteMask {
        self.mask
    }

    /// The number of leading image bytes that carry a zero chunk.
    pub closed spec fn padding(self) -> int {
        self.zeroes as int
    }

    /// Takes the flat bytes of a cover image, the secret, and the chunk
    /// width. Refuses a secret that needs more chunks than the image has
    /// bytes.
    pub fn new(image: Vec<u8>, secret: Vec<u8>, mask: ByteMask) -> (made: Result<Self, Error>)
        requires
            mask.wf(),
        ensures
            made is Err <==> !fits(mask, image@.len() as int, secret@.len() as int),
            made matches Err(e) ==> e == Error::SecretTooLarge,
            made matches Ok(enc) ==> {
                &&& enc.cover() == image@
                &&& enc.secret_bytes() == secret@
                &&& enc.width() == mask
                &&& enc.padding() == zero_padding(mask, image@.len() as int, secret@.len() as int)
            },
    {
        let image_size: usize = image.len();
        match secret.len().checked_mul(mask.chunks as usize) {
            None => Err(Error::SecretTooLarge),
            Some(secret_size) => {
                if image_size < secret_size {
                    Err(Error::SecretTooLarge)
                } else {
                    let zeroes: usize = image_size - secret_size;
                    Ok(Encoder { image, secret, mask, zeroes })
                }
            },
        }
    }

    /// The number of leading image bytes that will carry a zero chunk.
    pub fn zeroes(&self) -> (count: usize)
        ensures
            count == self.padding(),
            count == zero_padding(
                self.width(),
                self.cover().len() as int,
                self.secret_bytes().len() as int,
            ),
    {
        proof {
            use_type_invariant(self);
        }
        self.zeroes
    }

    /// Writes the secret into the image and hands the image back: zero
    /// chunks first, then the chunks of each secret byte, so that the last
    /// chunk lands in the last image byte.
    pub fn save(self) -> (stego: Vec<u8>)
        ensures
            stego@ == embedded(self.width(), self.cover(), self.secret_bytes()),
    {
        proof {
            use_type_invariant(&self);
            lemma_width_table(self.mask.bits);
        }
        let ghost cover = self.image@;
        let ghost m = self.mask;
        let ghost hidden = self.secret@;
        let keep: u8 = !self.mask.mask;
        let n: usize = self.mask.chunks as usize;
        let zeroes: usize = self.zeroes;
        let mut cursor = self.mask;
        let secret = self.secret;
        let mut image = self.image;
        let total: usize = image.len();
        let mut i: usize = 0;
        while i < zeroes
            invariant
                image@.len() == cover.len(),
                total == cover.len(),
                i <= total,
                i <= zeroes <= cover.len(),
                keep == !m.mask,
                forall|t: int|
                    0 <= t < i ==> #[trigger] image@[t] == embed_byte(
                        m.mask,
                        cover[t],
                        payload_at(m, zeroes as int, hidden, t),
                    ),
                forall|t: int| i <= t < cover.len() ==> #[trigger] image@[t] == cover[t],
            decreases zeroes - i,
        {
            let p: u8 = image[i];
            image.set(i, (p & keep) | 0);
            i += 1;
        }
        let mut j: usize = 0;
        while j < secret.len()
            invariant
                m.wf(),
                cursor.wf(),
                cursor.same_width(m),
                n == m.chunks,
                1 <= n <= 8,
                secret@ == hidden,
                image@.len() == cover.len(),
                total == cover.len(),
                i <= total,
                zeroes + hidden.len() * n == cover.len(),
                j <= hidden.len(),
                i == zeroes + j * n,
                keep == !m.mask,
                forall|t: int|
                    0 <= t < i ==> #[trigger] image@[t] == embed_byte(
                        m.mask,
                        cover[t],
                        payload_at(m, zeroes as int, hidden, t),
                    ),
                forall|t: int| i <= t < cover.len() ==> #[trigger] image@[t] == cover[t],
            decreases hidden.len() - j,
        {
            let byte: u8 = secret[j];
            cursor.set_byte(byte);
            proof {
                assert((j + 1) * n == j * n + n) by (nonlinear_arith);
                assert((j + 1) * n <= hidden.len() * n) by (nonlinear_arith)
                    requires
                        j + 1 <= hidden.len(),
                        0 <= n,
                ;
            }
            while cursor.step < cursor.chunks
                invariant
                    m.wf(),
                    cursor.wf(),
                    cursor.same_width(m),
                    cursor.byte == byte,
                    byte == hidden[j as int],
                    cursor.step <= cursor.chunks,
                    n == m.chunks,
                    1 <= n <= 8,
                    image@.len() == cover.len(),
                    total == cover.len(),
                    i <= total,
                total == cover.len(),
                i <= total,
                    zeroes + hidden.len() * n == cover.len(),
                    j < hidden.len(),
                    j * n + n <= hidden.len() * n,
                    i == zeroes + j * n + cursor.step,
                    keep == !m.mask,
                    forall|t: int|
                        0 <= t < i ==> #[trigger] image@[t] == embed_byte(
                            m.mask,
                            cover[t],
                            payload_at(m, zeroes as int, hidden, t),
                        ),
                    forall|t: int| i <= t < cover.len() ==> #[trigger] image@[t] == cover[t],
                decreases cursor.chunks - cursor.step,
            {
                proof {
                    lemma_fundamental_div_mod_converse(
                        i - zeroes,
                        n as int,
                        j as int,
                        cursor.step as int,
                    );
                }
                match cursor.next() {
                    Some(chunk) => {
                        let p: u8 = image[i];
                        image.set(i, (p & keep) | chunk);
                        i += 1;
                    },
                    None => {},
                }
            }
            j += 1;
        }
        proof {
            assert(image@ =~= embedded(m, cover, hidden));
        }
        image
    }
}

/// Hides `secret` in `image` with chunk width `mask` and returns the new
/// image, or refuses a secret that does not fit.
pub fn encode(image: Vec<u8>, secret: Vec<u8>, mask: ByteMask) -> (made: Result<Vec<u8>, Error>)
    requires
        mask.wf(),
    ensures
        made is Err <==> !fits(mask, image@.len() as int, secret@.len() as int),
        made matches Err(e) ==> e == Error::SecretTooLarge,
        made matches Ok(stego) ==> stego@ == embedded(mask, image@, secret@),
{
    match Encoder::new(image, secret, mask) {
        Ok(encoder) => Ok(encoder.save()),
        Err(e) => Err(e),
    }
}

} // verus!
