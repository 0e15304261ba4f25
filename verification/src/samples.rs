//! Sample buffers and the bytes of a band file.
//!
//! A band file is a run of samples with nothing before, between or after
//! them: four bytes each, the lowest byte first.

use byteorder::{ByteOrder, LittleEndian};
use vstd::prelude::*;

verus! {

/// The word that four bytes stand for, the lowest byte first.
pub open spec fn word_of(b0: u8, b1: u8, b2: u8, b3: u8) -> u32 {
    (b0 + 0x100 * b1 + 0x1_0000 * b2 + 0x100_0000 * b3) as u32
}

/// Byte `k` of a word, counted from the lowest.
pub open spec fn byte_of(word: u32, k: int) -> u8 {
    if k == 0 {
        (word % 0x100) as u8
    } else if k == 1 {
        (word / 0x100 % 0x100) as u8
    } else if k == 2 {
        (word / 0x1_0000 % 0x100) as u8
    } else {
        (word / 0x100_0000 % 0x100) as u8
    }
}

/// The samples that the bytes of a band file stand for. Bytes after the last
/// whole group of four stand for nothing.
pub open spec fn decoded(bytes: Seq<u8>) -> Seq<u32> {
    Seq::new(
        bytes.len() / 4,
        |i: int| word_of(bytes[4 * i], bytes[4 * i + 1], bytes[4 * i + 2], bytes[4 * i + 3]),
    )
}

/// The bytes of the band file that holds the given samples.
pub open spec fn encoded(samples: Seq<u32>) -> Seq<u8> {
    Seq::new(4 * samples.len(), |j: int| byte_of(samples[j / 4], j % 4))
}

/// Four bytes taken from a word give the word back.
pub proof fn lemma_word_of_its_bytes(word: u32)
    ensures
        word_of(byte_of(word, 0), byte_of(word, 1), byte_of(word, 2), byte_of(word, 3)) == word,
{
}

/// A word made of four bytes has those bytes.
pub proof fn lemma_bytes_of_a_word(b0: u8, b1: u8, b2: u8, b3: u8)
    ensures
        byte_of(word_of(b0, b1, b2, b3), 0) == b0,
        byte_of(word_of(b0, b1, b2, b3), 1) == b1,
        byte_of(word_of(b0, b1, b2, b3), 2) == b2,
        byte_of(word_of(b0, b1, b2, b3), 3) == b3,
{
}

/// Decoding what was encoded gives the samples back, bit for bit.
pub proof fn lemma_decode_inverts_encode(samples: Seq<u32>)
    ensures
        decoded(encoded(samples)) == samples,
{
    let bytes = encoded(samples);
    assert forall|i: int| 0 <= i < samples.len() implies decoded(bytes)[i] == samples[i] by {
        lemma_word_of_its_bytes(samples[i]);
    }
}

/// Encoding what was decoded gives the bytes back, where they come in whole
/// groups of four.
pub proof fn lemma_encode_inverts_decode(bytes: Seq<u8>)
    requires
        bytes.len() % 4 == 0,
    ensures
        encoded(decoded(bytes)) == bytes,
{
    let samples = decoded(bytes);
    assert forall|j: int| 0 <= j < bytes.len() implies encoded(samples)[j] == bytes[j] by {
        let i = j / 4;
        lemma_bytes_of_a_word(bytes[4 * i], bytes[4 * i + 1], bytes[4 * i + 2], bytes[4 * i + 3]);
    }
}

/// `LittleEndian::read_u32_into` of byteorder, which fills `words` from
/// `bytes`: each word from the next four bytes, the lowest byte first. It
/// panics unless the bytes number four times the words.
#[verifier::external_body]
fn read_words(bytes: &[u8], words: &mut Vec<u32>)
    requires
        bytes.len() == 4 * old(words).len(),
    ensures
        final(words)@ == decoded(bytes@),
{
    LittleEndian::read_u32_into(bytes, words.as_mut_slice())
}

/// `LittleEndian::write_u32_into` of byteorder, which fills `bytes` from
/// `words`: four bytes from each word, the lowest byte first. It panics
/// unless the bytes number four times the words.
#[verifier::external_body]
fn write_words(words: &[u32], bytes: &mut Vec<u8>)
    requires
        old(bytes).len() == 4 * words.len(),
    ensures
        final(bytes)@ == encoded(words@),
{
    LittleEndian::write_u32_into(words, bytes.as_mut_slice())
}

/// The samples of a band file, given its bytes; `None` where the bytes do
/// not come in whole groups of four.
pub fn decode_samples(bytes: &[u8]) -> (r: Option<Vec<u32>>)
    ensures
        r is Some <==> bytes.len() % 4 == 0,
        r matches Some(samples) ==> samples@ == decoded(bytes@),
{
    let count: usize = bytes.len() / 4;
    if 4 * count != bytes.len() {
        return None;
    }
    let mut samples: Vec<u32> = vec![0u32; count];
    read_words(bytes, &mut samples);
    Some(samples)
}

/// The bytes of the band file that holds the given samples.
pub fn encode_samples(samples: &[u32]) -> (bytes: Vec<u8>)
    requires
        4 * samples.len() <= usize::MAX,
    ensures
        bytes@ == encoded(samples@),
        decoded(bytes@) == samples@,
{
    let mut bytes: Vec<u8> = vec![0u8; 4 * samples.len()];
    write_words(samples, &mut bytes);
    proof {
        lemma_decode_inverts_encode(samples@);
    }
    bytes
}

} // verus!
