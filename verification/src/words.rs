//! 32-bit words and their little-endian bytes.
use vstd::prelude::*;

verus! {

/// The four bytes of `w`, least significant first.
pub open spec fn le_bytes(w: u32) -> Seq<u8> {
    seq![
        (w % 256) as u8,
        ((w / 256) % 256) as u8,
        ((w / 65536) % 256) as u8,
        (w / 16777216) as u8,
    ]
}

/// The word whose little-endian bytes stand at `b[at..at + 4]`.
pub open spec fn le_word(b: Seq<u8>, at: int) -> u32 {
    (b[at] + 256 * b[at + 1] + 65536 * b[at + 2] + 16777216 * b[at + 3]) as u32
}

/// The little-endian bytes of all `ws`, one word after the other.
pub open spec fn words_bytes(ws: Seq<u32>) -> Seq<u8> {
    Seq::new((4 * ws.len()) as nat, |i: int| le_bytes(ws[i / 4])[i % 4])
}

/// The words that `b` holds; up to three bytes left over at the end are no word.
pub open spec fn bytes_words(b: Seq<u8>) -> Seq<u32> {
    Seq::new((b.len() / 4) as nat, |k: int| le_word(b, 4 * k))
}

/// The bytes of one word, through `safe_transmute::transmute_to_bytes`, which views a slice of
/// words as the bytes they occupy in memory, in order. A word that has gone through
/// `u32::to_le` occupies its bytes least significant first, on every machine; the contract
/// claims that these four bytes come back in that order.
#[verifier::external_body]
fn word_to_bytes(word: u32) -> (bytes: [u8; 4])
    ensures
        bytes@ == le_bytes(word),
{
    let in_memory: [u32; 1] = [word.to_le()];
    let b = safe_transmute::transmute_to_bytes(&in_memory);
    [b[0], b[1], b[2], b[3]]
}

/// The little-endian bytes of `data`.
pub fn words_to_bytes(data: &[u32]) -> (bytes: Vec<u8>)
    ensures
        bytes@ == words_bytes(data@),
{
    let mut bytes: Vec<u8> = Vec::new();
    for i in 0..data.len()
        invariant
            bytes@ == words_bytes(data@.take(i as int)),
    {
        let b = word_to_bytes(data[i]);
        bytes.push(b[0]);
        bytes.push(b[1]);
        bytes.push(b[2]);
        bytes.push(b[3]);
        assert(bytes@ =~= words_bytes(data@.take(i + 1)));
    }
    assert(data@.take(data@.len() as int) =~= data@);
    bytes
}

/// The word at byte offset `at`.
pub fn word_from_bytes(b: &[u8], at: usize) -> (w: u32)
    requires
        at + 4 <= b@.len(),
    ensures
        w == le_word(b@, at as int),
{
    b[at] as u32 + 256 * (b[at + 1] as u32) + 65536 * (b[at + 2] as u32) + 16777216 * (
    b[at + 3] as u32)
}

/// Turning words into bytes loses nothing: the words read back are the words written.
pub proof fn law_words_round_trip(ws: Seq<u32>)
    ensures
        bytes_words(words_bytes(ws)) == ws,
{
    let b = words_bytes(ws);
    assert forall|k: int| 0 <= k < ws.len() implies le_word(b, 4 * k) == ws[k] by {
        assert(b[4 * k] == le_bytes(ws[k])[0]);
        assert(b[4 * k + 1] == le_bytes(ws[k])[1]);
        assert(b[4 * k + 2] == le_bytes(ws[k])[2]);
        assert(b[4 * k + 3] == le_bytes(ws[k])[3]);
    }
    assert(bytes_words(b) =~= ws);
}

/// The bytes of a word are its digits to the base 256, the least significant first.
pub proof fn law_bytes_weigh_the_word(w: u32)
    ensures
        le_bytes(w).len() == 4,
        le_bytes(w)[0] + 0x100 * le_bytes(w)[1] + 0x1_0000 * le_bytes(w)[2] + 0x100_0000
            * le_bytes(w)[3] == w,
{
}

/// The word at an offset is what its four bytes weigh, the first the least, whatever stands around
/// them.
pub proof fn law_word_at_an_offset(before: Seq<u8>, w: u32, after: Seq<u8>)
    ensures
        le_word(before + le_bytes(w) + after, before.len() as int) == w,
{
    let b = before + le_bytes(w) + after;
    let at = before.len() as int;
    assert(b[at] == le_bytes(w)[0]);
    assert(b[at + 1] == le_bytes(w)[1]);
    assert(b[at + 2] == le_bytes(w)[2]);
    assert(b[at + 3] == le_bytes(w)[3]);
}

/// Words are turned into bytes one after the other, four bytes each.
pub proof fn law_word_bytes_add_up(a: Seq<u32>, b: Seq<u32>, w: u32)
    ensures
        words_bytes(Seq::empty()).len() == 0,
        words_bytes(seq![w]) == le_bytes(w),
        words_bytes(a + b) == words_bytes(a) + words_bytes(b),
        words_bytes(a).len() == 4 * a.len(),
{
    assert(words_bytes(seq![w]) =~= le_bytes(w));
    let all = words_bytes(a + b);
    assert forall|i: int| 0 <= i < all.len() implies all[i] == (words_bytes(a) + words_bytes(
        b,
    ))[i] by {
        if i >= 4 * a.len() {
            let j = i - 4 * a.len();
            assert(i / 4 == a.len() + j / 4 && i % 4 == j % 4);
        }
    }
    assert(all =~= words_bytes(a) + words_bytes(b));
}

proof fn lemma_bytes_of_word(x0: u8, x1: u8, x2: u8, x3: u8, w: u32)
    requires
        w == x0 + 256 * x1 + 65536 * x2 + 16777216 * x3,
    ensures
        le_bytes(w) == seq![x0, x1, x2, x3],
{
    assert(w / 256 == x1 + 256 * x2 + 65536 * x3);
    assert(w / 65536 == x2 + 256 * x3);
    assert(le_bytes(w) =~= seq![x0, x1, x2, x3]);
}

/// Bytes that make up whole words come back when the words are turned into bytes; bytes left over at
/// the end, fewer than four, make no difference.
pub proof fn law_whole_words_are_read(b: Seq<u8>)
    ensures
        bytes_words(b).len() == b.len() / 4,
        words_bytes(bytes_words(b)) == b.take(4 * (b.len() / 4) as int),
{
    let ws = bytes_words(b);
    let out = words_bytes(ws);
    assert forall|i: int| 0 <= i < out.len() implies out[i] == b[i] by {
        let k = i / 4;
        lemma_bytes_of_word(b[4 * k], b[4 * k + 1], b[4 * k + 2], b[4 * k + 3], ws[k]);
        assert(i == 4 * k + i % 4);
    }
    assert(out =~= b.take(4 * (b.len() / 4) as int));
}

} // verus!
