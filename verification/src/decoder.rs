use vstd::prelude::*;
use vstd::arithmetic::div_mod::{lemma_fundamental_div_mod, lemma_fundamental_div_mod_converse};
use crate::utils::{ByteMask, lemma_width_table};

verus! {

/// The first index at or after `from` whose byte has a nonzero bit under
/// `mask`; the length of `image` if there is none.
pub open spec fn data_start_from(mask: u8, image: Seq<u8>, from: int) -> int
    decreases image.len() - from,
{
    if from < 0 || from >= image.len() {
        image.len() as int
    } else if image[from] & mask != 0 {
        from
    } else {
        data_start_from(mask, image, from + 1)
    }
}

/// Where the hidden data begins: the first byte of `image` whose low bits
/// are not all zero, or the length of `image` if every byte's are.
pub open spec fn data_start(mask: u8, image: Seq<u8>) -> int {
    data_start_from(mask, image, 0)
}

/// The chunk read at position `idx`: the low bits of that byte, or zero for
/// a position before `start` (also one before the image begins).
pub open spec fn cell(mask: u8, image: Seq<u8>, start: int, idx: int) -> u8 {
    if idx < start {
        0u8
    } else {
        image[idx] & mask
    }
}

/// How many zero chunks are put before `len` chunks so that the total is a
/// multiple of `n`.
pub open spec fn lead_pad(len: int, n: int) -> int {
    if len % n == 0 {
        0
    } else {
        n - len % n
    }
}

/// How many bytes extraction yields: the chunks from the start of the data
/// to the end of the image, in groups of `chunks`, rounded up.
pub open spec fn group_count(mask: ByteMask, image: Seq<u8>) -> int {
    let n = mask.chunks as int;
    (image.len() - data_start(mask.mask, image) + n - 1) / n
}

/// The position in `image` of the first chunk of the first group. Groups
/// are laid out backwards from the end of the image, so this may lie before
/// the start of the data, and even before the image.
pub open spec fn group_base(mask: ByteMask, image: Seq<u8>) -> int {
    image.len() - group_count(mask, image) * mask.chunks
}

/// The chunks that make up the `j`-th extracted byte.
pub open spec fn group(mask: ByteMask, image: Seq<u8>, j: int) -> Seq<u8> {
    Seq::new(
        mask.chunks as nat,
        |k: int|
            cell(
                mask.mask,
                image,
                data_start(mask.mask, image),
                group_base(mask, image) + j * mask.chunks + k,
            ),
    )
}

/// The bytes hidden in `image`: one per group, each group joined.
pub open spec fn extracted(mask: ByteMask, image: Seq<u8>) -> Seq<u8> {
    Seq::new(group_count(mask, image) as nat, |j: int| mask.join(group(mask, image, j)))
}

/// Rounding `len` up to groups of `n` adds exactly the leading pad.
pub proof fn lemma_round_up(len: int, n: int)
    requires
        0 <= len,
        1 <= n,
    ensures
        ((len + n - 1) / n) * n == len + lead_pad(len, n),
        0 <= lead_pad(len, n) < n,
        0 <= (len + n - 1) / n,
{
    lemma_fundamental_div_mod(len, n);
    let q = len / n;
    let r = len % n;
    if r == 0 {
        assert(q * n == n * q) by (nonlinear_arith);
        lemma_fundamental_div_mod_converse(len + n - 1, n, q, n - 1);
    } else {
        assert((q + 1) * n == n * q + n) by (nonlinear_arith);
        lemma_fundamental_div_mod_converse(len + n - 1, n, q + 1, r - 1);
    }
    assert(q >= 0) by (nonlinear_arith)
        requires
            len == n * q + r,
            0 <= r < n,
            0 <= len,
    ;
}

/// Reads the bytes hidden in the low bits of an image.
pub struct Decoder {
    image: Vec<u8>,
    mask: ByteMask,
}

impl Decoder {
    #[verifier::type_invariant]
    spec fn inv(self) -> bool {
        self.mask.wf()
    }

    /// The image bytes this decoder reads.
    pub closed spec fn image_bytes(self) -> Seq<u8> {
        self.image@
    }

    /// The chunk width this decoder reads with.
    pub closed spec fn width(self) -> ByteMask {
        self.mask
    }

    /// Takes the flat bytes of an image and the chunk width to read with.
    pub fn new(image: Vec<u8>, mask: ByteMask) -> (made: Self)
        requires
            mask.wf(),
        ensures
            made.image_bytes() == image@,
            made.width() == mask,
    {
        Decoder { image, mask }
    }

    /// Extracts the hidden bytes: everything from the first nonzero chunk
    /// to the end of the image, grouped from the end.
    ///
    /// The image carries no length and no marker. An image whose chunks are
    /// all zero yields nothing, and a secret that began with bytes of zero
    /// chunks comes back without them: they look like the padding.
    pub fn save(&self) -> (secret: Vec<u8>)
        ensures
            secret@ == extracted(self.width(), self.image_bytes()),
    {
        proof {
            use_type_invariant(self);
            lemma_width_table(self.mask.bits);
        }
        let n: usize = self.mask.chunks as usize;
        let total: usize = self.image.len();
        let mut secret: Vec<u8> = Vec::new();
        let mut chunks: Vec<u8> = Vec::with_capacity(n);
        let mut start = false;
        let ghost img = self.image@;
        let ghost m = self.mask;
        let ghost s = data_start(m.mask, img);
        let ghost base = group_base(m, img);
        let mut i: usize = 0;
        while i < total
            invariant
                m == self.mask,
                m.wf(),
                img == self.image@,
                n == m.chunks,
                1 <= n <= 8,
                total == img.len(),
                i <= total,
                s == data_start(m.mask, img),
                base == group_base(m, img),
                !start ==> chunks@.len() == 0 && secret@.len() == 0 && data_start_from(
                    m.mask,
                    img,
                    i as int,
                ) == s,
                start ==> s < i,
                start ==> i - base == secret@.len() * n + chunks@.len(),
                chunks@.len() < n,
                forall|k: int|
                    0 <= k < chunks@.len() ==> #[trigger] chunks@[k] == cell(
                        m.mask,
                        img,
                        s,
                        base + secret@.len() * n + k,
                    ),
                forall|j: int|
                    0 <= j < secret@.len() ==> #[trigger] secret@[j] == m.join(group(m, img, j)),
            decreases total - i,
        {
            let b: u8 = self.image[i] & self.mask.mask;
            if !start && (b > 0) {
                let offset: usize = (total - i) % n;
                proof {
                    assert(s == i);
                    lemma_round_up(total - i, n as int);
                    assert(base == i - lead_pad(total - i, n as int));
                }
                if offset != 0 {
                    let mut z: usize = 0;
                    while z < n - offset
                        invariant
                            0 < offset < n,
                            z <= n - offset,
                            chunks@.len() == z,
                            forall|k: int| 0 <= k < chunks@.len() ==> #[trigger] chunks@[k] == 0,
                        decreases n - offset - z,
                    {
                        chunks.push(0);
                        z += 1;
                    }
                }
                start = true;
            }
            if start {
                chunks.push(b);
            }
            if chunks.len() == n {
                let byte = self.mask.join_chunks(chunks.as_slice());
                proof {
                    let q = secret@.len() as int;
                    assert(chunks@ =~= group(m, img, q));
                    assert((q + 1) * n == q * n + n) by (nonlinear_arith);
                }
                secret.push(byte);
                chunks.clear();
            }
            i += 1;
        }
        proof {
            lemma_round_up(total - s, n as int);
            let count = group_count(m, img);
            let q = secret@.len() as int;
            let r = chunks@.len() as int;
            assert(q == count && r == 0) by (nonlinear_arith)
                requires
                    count * n == q * n + r,
                    0 <= r < n,
                    0 <= count,
                    0 <= q,
            ;
            assert(secret@ =~= extracted(m, img));
        }
        secret
    }
}

/// Extracts the bytes hidden in `image` with chunk width `mask`.
pub fn decode(image: Vec<u8>, mask: ByteMask) -> (secret: Vec<u8>)
    requires
        mask.wf(),
    ensures
        secret@ == extracted(mask, image@),
{
    let decoder = Decoder::new(image, mask);
    decoder.save()
}

} // verus!
