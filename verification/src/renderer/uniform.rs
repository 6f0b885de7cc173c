//! Laying out numbers for the graphics device.

use vstd::prelude::*;

verus! {

/// Whether the four bytes at a place are a word, least significant byte first.
pub open spec fn least_first(bytes: Seq<u8>, at: int, word: u32) -> bool {
    bytes[at] + 0x100 * bytes[at + 1] + 0x1_0000 * bytes[at + 2] + 0x100_0000 * bytes[at + 3]
        == word
}

/// Whether the four bytes at a place are a word, most significant byte first.
pub open spec fn most_first(bytes: Seq<u8>, at: int, word: u32) -> bool {
    bytes[at + 3] + 0x100 * bytes[at + 2] + 0x1_0000 * bytes[at + 1] + 0x100_0000 * bytes[at]
        == word
}

/// Whether bytes are words laid out one after the other, in the byte order of some
/// machine.
pub open spec fn laid_out(bytes: Seq<u8>, words: Seq<u32>) -> bool {
    &&& bytes.len() == 4 * words.len()
    &&& {
        ||| forall|i: int|
            0 <= i < words.len() ==> least_first(bytes, 4 * i, #[trigger] words[i])
        ||| forall|i: int| 0 <= i < words.len() ==> most_first(bytes, 4 * i, #[trigger] words[i])
    }
}

/// Calls `bytemuck::cast_slice`, which views a slice of words as the bytes in memory.
/// There are four of them to a word, in the byte order of the machine; which order that
/// is is left open, but it is the same for all words.
#[verifier::external_body]
fn cast_words(words: &[u32]) -> (bytes: Vec<u8>)
    ensures
        laid_out(bytes@, words@),
{
    bytemuck::cast_slice::<u32, u8>(words).to_vec()
}

/// The bytes of words, as a shader on this machine reads them.
pub fn bytes_of_words(words: &Vec<u32>) -> (bytes: Vec<u8>)
    ensures
        laid_out(bytes@, words@),
{
    cast_words(words.as_slice())
}

/// On one machine, different words have different bytes.
pub proof fn layout_is_faithful(bytes: Seq<u8>, a: Seq<u32>, b: Seq<u32>)
    requires
        laid_out(bytes, a),
        laid_out(bytes, b),
        (forall|i: int| 0 <= i < a.len() ==> least_first(bytes, 4 * i, #[trigger] a[i]))
            == (forall|i: int| 0 <= i < b.len() ==> least_first(bytes, 4 * i, #[trigger] b[i])),
    ensures
        a == b,
{
    assert(a.len() == b.len());
    assert forall|i: int| 0 <= i < a.len() implies a[i] == b[i] by {
        if forall|i: int| 0 <= i < a.len() ==> least_first(bytes, 4 * i, #[trigger] a[i]) {
            assert(least_first(bytes, 4 * i, a[i]));
            assert(least_first(bytes, 4 * i, b[i]));
        } else {
            assert(most_first(bytes, 4 * i, a[i]));
            assert(most_first(bytes, 4 * i, b[i]));
        }
    }
    assert(a =~= b);
}

} // verus!
