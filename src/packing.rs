//! Little-endian packing of bytes into 32-bit words and back.
use vstd::prelude::*;
use crate::reverse::{CollectRev, FromIteratorRev};

verus! {

/// The word whose least significant byte is `b0` and most significant is `b3`.
pub open spec fn le_word(b0: u8, b1: u8, b2: u8, b3: u8) -> u32 {
    (b0 as u32) | ((b1 as u32) << 8u32) | ((b2 as u32) << 16u32) | ((b3 as u32) << 24u32)
}

/// Word `i` of `bytes`: bytes `4i .. 4i + 4`, least significant first.
pub open spec fn word_at(bytes: Seq<u8>, i: int) -> u32 {
    le_word(bytes[4 * i], bytes[4 * i + 1], bytes[4 * i + 2], bytes[4 * i + 3])
}

/// The words that `bytes` packs into, one for each group of four bytes.
pub open spec fn words_of(bytes: Seq<u8>) -> Seq<u32> {
    Seq::new(bytes.len() / 4, |i: int| word_at(bytes, i))
}

/// Byte `j` (0 is the least significant) of the word `w`.
pub open spec fn byte_of(w: u32, j: int) -> u8 {
    #[verifier::truncate] (((w >> ((8 * j) as u32)) & 0xffu32) as u8)
}

/// The bytes of `words`, four for each word, least significant first.
pub open spec fn bytes_of(words: Seq<u32>) -> Seq<u8> {
    Seq::new(4 * words.len(), |k: int| byte_of(words[k / 4], k % 4))
}

proof fn lemma_fold_chunk(b0: u32, b1: u32, b2: u32, b3: u32)
    by (bit_vector)
    requires
        b0 < 256,
        b1 < 256,
        b2 < 256,
        b3 < 256,
    ensures
        (b3 << 8u32) + b2 < 0x1_0000,
        ((((b3 << 8u32) + b2) as u32) << 8u32) + b1 < 0x100_0000,
        (((((((b3 << 8u32) + b2) as u32) << 8u32) + b1) as u32) << 8u32) + b0 == b0 | (b1 << 8u32)
            | (b2 << 16u32) | (b3 << 24u32),
{
}

/// Folds bytes `base + 3` down to `base` into one word, most significant first.
fn fold_chunk(bytes: &Vec<u8>, base: usize) -> (r: u32)
    requires
        base + 4 <= bytes@.len(),
    ensures
        r == le_word(bytes@[base as int], bytes@[base + 1], bytes@[base + 2], bytes@[base + 3]),
{
    let n = bytes.len();
    assert(base + 3 < n);
    let b3 = bytes[base + 3] as u32;
    let b2 = bytes[base + 2] as u32;
    let b1 = bytes[base + 1] as u32;
    let b0 = bytes[base] as u32;
    proof {
        lemma_fold_chunk(b0, b1, b2, b3);
    }
    let mut v: u32 = b3;
    v = (v << 8) + b2;
    v = (v << 8) + b1;
    v = (v << 8) + b0;
    v
}

/// Packs `bytes` into `word_count` little-endian words.
///
/// The bytes are scanned from the last one back to the first, so the words
/// come out last to first and are collected in reverse.
pub fn bytes_to_words(bytes: &Vec<u8>, word_count: usize) -> (r: Vec<u32>)
    requires
        bytes@.len() == word_count * 4,
    ensures
        r@ == words_of(bytes@),
        r@.len() == word_count,
{
    let mut backwards: Vec<u32> = Vec::new();
    let mut j: usize = 0;
    while j < word_count
        invariant
            j <= word_count,
            bytes@.len() == word_count * 4,
            backwards@.len() == j,
            forall|k: int|
                0 <= k < j ==> #[trigger] backwards@[k] == word_at(bytes@, word_count - 1 - k),
        decreases word_count - j,
    {
        let base: usize = bytes.len() - 4 * (j + 1);
        let w = fold_chunk(bytes, base);
        backwards.push(w);
        j = j + 1;
    }
    let r: Vec<u32> = backwards.collect_rev();
    assert(r@ =~= words_of(bytes@));
    r
}

proof fn lemma_split_word(w: u32)
    ensures
        le_word(byte_of(w, 0), byte_of(w, 1), byte_of(w, 2), byte_of(w, 3)) == w,
{
    assert(le_word(
        ((w >> 0u32) & 0xffu32) as u8,
        ((w >> 8u32) & 0xffu32) as u8,
        ((w >> 16u32) & 0xffu32) as u8,
        ((w >> 24u32) & 0xffu32) as u8,
    ) == w) by (bit_vector);
}

proof fn lemma_join_bytes(b0: u8, b1: u8, b2: u8, b3: u8)
    ensures
        byte_of(le_word(b0, b1, b2, b3), 0) == b0,
        byte_of(le_word(b0, b1, b2, b3), 1) == b1,
        byte_of(le_word(b0, b1, b2, b3), 2) == b2,
        byte_of(le_word(b0, b1, b2, b3), 3) == b3,
{
    let w = le_word(b0, b1, b2, b3);
    assert(w == (b0 as u32) | ((b1 as u32) << 8u32) | ((b2 as u32) << 16u32) | ((b3 as u32)
        << 24u32));
    assert(((w >> 0u32) & 0xffu32) as u8 == b0 && ((w >> 8u32) & 0xffu32) as u8 == b1 && ((w
        >> 16u32) & 0xffu32) as u8 == b2 && ((w >> 24u32) & 0xffu32) as u8 == b3) by (bit_vector)
        requires
            w == (b0 as u32) | ((b1 as u32) << 8u32) | ((b2 as u32) << 16u32) | ((b3 as u32)
                << 24u32),
    ;
}

/// Unpacks `words` into bytes, four for each word, least significant first.
pub fn words_to_bytes(words: &Vec<u32>) -> (r: Vec<u8>)
    requires
        4 * words@.len() <= usize::MAX,
    ensures
        r@ == bytes_of(words@),
{
    let mut out: Vec<u8> = Vec::new();
    let mut i: usize = 0;
    while i < words.len()
        invariant
            i <= words@.len(),
            4 * words@.len() <= usize::MAX,
            out@.len() == 4 * i,
            forall|k: int| 0 <= k < 4 * i ==> #[trigger] out@[k] == byte_of(words@[k / 4], k % 4),
        decreases words@.len() - i,
    {
        let w = words[i];
        proof {
            assert(w >> 0u32 == w) by (bit_vector);
        }
        out.push(#[verifier::truncate] ((w & 0xff) as u8));
        out.push(#[verifier::truncate] (((w >> 8) & 0xff) as u8));
        out.push(#[verifier::truncate] (((w >> 16) & 0xff) as u8));
        out.push(#[verifier::truncate] (((w >> 24) & 0xff) as u8));
        assert forall|k: int| 4 * i <= k < 4 * i + 4 implies #[trigger] out@[k] == byte_of(
            words@[k / 4],
            k % 4,
        ) by {
            assert(k / 4 == i as int);
            assert(k % 4 == k - 4 * i);
        }
        i = i + 1;
    }
    assert(out@ =~= bytes_of(words@));
    out
}

/// Unpacking words into bytes and packing them again gives back the words.
pub proof fn lemma_words_round_trip(words: Seq<u32>)
    ensures
        words_of(bytes_of(words)) == words,
{
    let b = bytes_of(words);
    assert forall|i: int| 0 <= i < words.len() implies #[trigger] words_of(b)[i] == words[i] by {
        assert((4 * i) / 4 == i && (4 * i + 1) / 4 == i && (4 * i + 2) / 4 == i && (4 * i + 3) / 4
            == i);
        assert((4 * i) % 4 == 0 && (4 * i + 1) % 4 == 1 && (4 * i + 2) % 4 == 2 && (4 * i + 3) % 4
            == 3);
        lemma_split_word(words[i]);
    }
    assert(words_of(b) =~= words);
}

/// Packing bytes into words and unpacking them again gives back the bytes,
/// when their number is a multiple of four.
pub proof fn lemma_bytes_round_trip(bytes: Seq<u8>)
    requires
        bytes.len() % 4 == 0,
    ensures
        bytes_of(words_of(bytes)) == bytes,
{
    let w = words_of(bytes);
    assert forall|k: int| 0 <= k < bytes.len() implies #[trigger] bytes_of(w)[k] == bytes[k] by {
        let i = k / 4;
        lemma_join_bytes(bytes[4 * i], bytes[4 * i + 1], bytes[4 * i + 2], bytes[4 * i + 3]);
    }
    assert(bytes_of(w) =~= bytes);
}

} // verus!
