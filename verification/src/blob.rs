//! The stored form of a vector: its components packed four bytes each, least
//! significant byte first.
//!
//! A component is the bit pattern of an IEEE-754 single, held as a `u32`.

use vstd::prelude::*;

verus! {

/// The four bytes of one component, least significant first.
pub open spec fn word_bytes(word: u32) -> Seq<u8> {
    seq![
        (word & 0xff) as u8,
        ((word >> 8) & 0xff) as u8,
        ((word >> 16) & 0xff) as u8,
        ((word >> 24) & 0xff) as u8,
    ]
}

/// The bytes of all components, in the order of the components.
pub open spec fn packed(words: Seq<u32>) -> Seq<u8>
    decreases words.len(),
{
    if words.len() == 0 {
        Seq::empty()
    } else {
        packed(words.drop_last()) + word_bytes(words.last())
    }
}

/// A packed vector takes four bytes for each component.
pub proof fn lemma_packed_len(words: Seq<u32>)
    ensures
        packed(words).len() == 4 * words.len(),
    decreases words.len(),
{
    if words.len() > 0 {
        lemma_packed_len(words.drop_last());
    }
}

/// `zerocopy::IntoBytes::as_bytes` on a `zerocopy::little_endian::U32` made
/// by `new`: the four bytes of a word stored in little-endian order. The
/// crate documents `new` as giving the value that byte order, and `as_bytes`
/// as handing out the bytes of the value as they lie in memory.
#[verifier::external_body]
fn little_endian(word: u32) -> (bytes: [u8; 4])
    ensures
        bytes@ == word_bytes(word),
{
    let stored = zerocopy::little_endian::U32::new(word);
    let bytes = zerocopy::IntoBytes::as_bytes(&stored);
    [bytes[0], bytes[1], bytes[2], bytes[3]]
}

/// Packs a vector for storage.
pub fn encode(words: &[u32]) -> (blob: Vec<u8>)
    ensures
        blob@ == packed(words@),
{
    let mut blob: Vec<u8> = Vec::new();
    let mut done: usize = 0;
    assert(words@.take(0) =~= Seq::empty());
    while done < words.len()
        invariant
            done <= words.len(),
            blob@ == packed(words@.take(done as int)),
        decreases words.len() - done,
    {
        let bytes = little_endian(words[done]);
        let ghost before = blob@;
        blob.push(bytes[0]);
        blob.push(bytes[1]);
        blob.push(bytes[2]);
        blob.push(bytes[3]);
        proof {
            let next = words@.take(done + 1);
            assert(next.drop_last() =~= words@.take(done as int));
            assert(blob@ =~= before + word_bytes(words[done as int]));
        }
        done += 1;
    }
    assert(words@.take(done as int) =~= words@);
    blob
}

} // verus!
