//! Token counting with the `o200k_base` encoding.
use vstd::prelude::*;

use crate::path::views;

verus! {

/// The largest chunk, in characters, that is encoded at once.
pub const CHUNK_CAPACITY: usize = 2_000_000;

/// The chunks that a `text_splitter::TextSplitter` of the given character
/// capacity cuts `text` into.
pub uninterp spec fn text_chunks(capacity: usize, text: Seq<char>) -> Seq<Seq<char>>;

/// The `o200k_base` tokens of `text`, special tokens allowed.
pub uninterp spec fn o200k_tokens(text: Seq<char>) -> Option<Seq<u32>>;

/// Relies on `text_splitter::TextSplitter::chunks`, configured with
/// `ChunkConfig::new(capacity)`: the chunks of the text, in order.
#[verifier::external_body]
fn split_chunks(text: &str, capacity: usize) -> (r: Vec<String>)
    requires
        capacity > 0,
    ensures
        views(r@) == text_chunks(capacity, text@),
{
    let splitter = text_splitter::TextSplitter::new(text_splitter::ChunkConfig::new(capacity));
    splitter.chunks(text).map(|chunk| chunk.to_owned()).collect()
}

/// Relies on `tiktoken_rs::CoreBPE::encode` of the `o200k_base` singleton,
/// with every special token allowed: the tokens of the text, or none where
/// its regular-expression engine gives up on a piece of the text.
#[verifier::external_body]
fn encode_o200k(text: &str) -> (r: Option<Vec<u32>>)
    ensures
        match r {
            Some(t) => o200k_tokens(text@) == Some(t@),
            None => o200k_tokens(text@) is None,
        },
{
    let bpe = tiktoken_rs::o200k_base_singleton();
    bpe.encode(text, &bpe.special_tokens()).ok().map(|(tokens, _)| tokens)
}

/// The tokens of each chunk, one chunk after the other; none where some
/// chunk cannot be encoded.
pub open spec fn tokens_of_chunks(chunks: Seq<Seq<char>>) -> Option<Seq<u32>>
    decreases chunks.len(),
{
    if chunks.len() == 0 {
        Some(Seq::empty())
    } else {
        match (tokens_of_chunks(chunks.drop_last()), o200k_tokens(chunks.last())) {
            (Some(before), Some(last)) => Some(before + last),
            _ => None,
        }
    }
}

/// The tokens of a text: none for the empty text, else the tokens of each
/// of its chunks in turn; nothing where some chunk cannot be encoded.
pub open spec fn tokens_of(text: Seq<char>) -> Option<Seq<u32>> {
    if text.len() == 0 {
        Some(Seq::empty())
    } else {
        tokens_of_chunks(text_chunks(CHUNK_CAPACITY, text))
    }
}

/// The tokens of `text`, or none where the encoder fails on it.
pub fn tokenize(text: &str) -> (r: Option<Vec<u32>>)
    ensures
        match r {
            Some(t) => tokens_of(text@) == Some(t@),
            None => tokens_of(text@) is None,
        },
{
    if text.unicode_len() == 0 {
        return Some(Vec::new());
    }
    let chunks = split_chunks(text, CHUNK_CAPACITY);
    let mut tokens: Vec<u32> = Vec::new();
    let mut i: usize = 0;
    while i < chunks.len()
        invariant
            i <= chunks.len(),
            text@.len() > 0,
            views(chunks@) == text_chunks(CHUNK_CAPACITY, text@),
            tokens_of_chunks(views(chunks@).subrange(0, i as int)) == Some(tokens@),
        decreases chunks.len() - i,
    {
        assert(views(chunks@).subrange(0, i + 1).drop_last() =~= views(chunks@).subrange(0, i as int));
        assert(views(chunks@).subrange(0, i + 1).last() == chunks@[i as int]@);
        match encode_o200k(chunks[i].as_str()) {
            Some(mut part) => {
                tokens.append(&mut part);
            },
            None => {
                proof {
                    lemma_chunk_failure_spreads(views(chunks@), i as int);
                }
                return None;
            },
        }
        i += 1;
    }
    assert(views(chunks@).subrange(0, chunks.len() as int) =~= views(chunks@));
    Some(tokens)
}

/// A chunk that cannot be encoded leaves the whole text without tokens.
proof fn lemma_chunk_failure_spreads(chunks: Seq<Seq<char>>, i: int)
    requires
        0 <= i < chunks.len(),
        o200k_tokens(chunks[i]) is None,
    ensures
        tokens_of_chunks(chunks) is None,
    decreases chunks.len(),
{
    if i < chunks.len() - 1 {
        lemma_chunk_failure_spreads(chunks.drop_last(), i);
    }
}

} // verus!
