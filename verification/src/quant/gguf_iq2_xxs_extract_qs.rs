//! Extraction of the quant words of raw IQ2_XXS blocks: 66 bytes, of which the first two
//! are the scale.
use crate::layout::digits;
use crate::tensor::filled;
use vstd::arithmetic::div_mod::lemma_fundamental_div_mod_converse;
use vstd::arithmetic::power2::{lemma2_to64, pow2};
use vstd::prelude::*;

verus! {

/// The little-endian word at byte `at`.
pub open spec fn word_at(bytes: Seq<u8>, at: int) -> int {
    bytes[at] + 256 * bytes[at + 1] + 65536 * bytes[at + 2] + 16777216 * bytes[at + 3]
}

/// The quant words in order: sixteen per block.
pub open spec fn quant_words(bytes: Seq<u8>) -> spec_fn(int) -> u32 {
    |w: int| word_at(bytes, w / 16 * 66 + 2 + w % 16 * 4) as u32
}

/// Four bytes put together are their little-endian word.
pub(crate) proof fn lemma_packed(b0: u32, b1: u32, b2: u32, b3: u32)
    by (bit_vector)
    requires
        b0 < 256,
        b1 < 256,
        b2 < 256,
        b3 < 256,
    ensures
        (b0 | (b1 << 8) | (b2 << 16) | (b3 << 24)) == b0 + 256 * b1 + 65536 * b2 + 16777216 * b3,
{
}

/// Assembles the sixteen quant words of every block, one thread per word.
#[verifier::loop_isolation(false)]
pub fn iron_gguf_iq2_xxs_extract_qs(raw_bytes: &[u8], qs_u32: &mut Vec<u32>, n_blocks: u32)
    requires
        n_blocks * 66 <= raw_bytes@.len(),
        n_blocks * 16 <= old(qs_u32)@.len(),
    ensures
        filled(old(qs_u32)@, final(qs_u32)@, n_blocks * 16, quant_words(raw_bytes@)),
{
    let ghost was = qs_u32@;
    assert(raw_bytes@.len() == raw_bytes.len() && qs_u32@.len() == qs_u32.len());
    let n_words: usize = n_blocks as usize * 16;
    let mut w: usize = 0;
    while w < n_words
        invariant
            w <= n_words,
            filled(was, qs_u32@, w as int, quant_words(raw_bytes@)),
        decreases n_words - w,
    {
        let block: usize = w / 16;
        let word_in_block: usize = w - block * 16;
        let at: usize = block * 66 + 2 + word_in_block * 4;
        let b0: u32 = raw_bytes[at] as u32;
        let b1: u32 = raw_bytes[at + 1] as u32;
        let b2: u32 = raw_bytes[at + 2] as u32;
        let b3: u32 = raw_bytes[at + 3] as u32;
        proof {
            lemma_packed(b0, b1, b2, b3);
        }
        qs_u32[w] = b0 | (b1 << 8) | (b2 << 16) | (b3 << 24);
        w = w + 1;
    }
}

/// Byte `j` of word `w` of block `b` is byte `2 + 4 * w + j` of the block.
#[allow(clippy::too_many_arguments)]
pub proof fn law_extracted_bytes(
    bytes: Seq<u8>,
    before: Seq<u32>,
    out: Seq<u32>,
    n_blocks: int,
    b: int,
    w: int,
    j: int,
)
    requires
        filled(before, out, n_blocks * 16, quant_words(bytes)),
        0 <= b < n_blocks,
        0 <= w < 16,
        0 <= j < 4,
    ensures
        digits(out[b * 16 + w] as int, 8 * j, 8) == bytes[b * 66 + 2 + 4 * w + j],
{
    let i = b * 16 + w;
    assert(i / 16 == b && i % 16 == w);
    assert(out[i] == (quant_words(bytes))(i));
    let at = b * 66 + 2 + w * 4;
    let (k0, k1, k2, k3) = (
        bytes[at] as int,
        bytes[at + 1] as int,
        bytes[at + 2] as int,
        bytes[at + 3] as int,
    );
    let n = k0 + 256 * k1 + 65536 * k2 + 16777216 * k3;
    assert(out[i] == n);
    lemma2_to64();
    if j == 0 {
        assert(pow2((8 * j) as nat) == 1);
        lemma_fundamental_div_mod_converse(n, 256, k1 + 256 * k2 + 65536 * k3, k0);
    } else if j == 1 {
        assert(pow2((8 * j) as nat) == 256);
        lemma_fundamental_div_mod_converse(n, 256, k1 + 256 * k2 + 65536 * k3, k0);
        lemma_fundamental_div_mod_converse(k1 + 256 * k2 + 65536 * k3, 256, k2 + 256 * k3, k1);
    } else if j == 2 {
        assert(pow2((8 * j) as nat) == 65536);
        lemma_fundamental_div_mod_converse(n, 65536, k2 + 256 * k3, k0 + 256 * k1);
        lemma_fundamental_div_mod_converse(k2 + 256 * k3, 256, k3, k2);
    } else {
        assert(pow2((8 * j) as nat) == 16777216);
        lemma_fundamental_div_mod_converse(n, 16777216, k3, k0 + 256 * k1 + 65536 * k2);
        lemma_fundamental_div_mod_converse(k3, 256, 0, k3);
    }
}

} // verus!
