//! Tokens: classified spans of the characters of one line.

use vstd::prelude::*;

verus! {

/// What a token is.
#[derive(Clone, Copy, Debug, PartialEq, Eq, Structural, Hash)]
pub enum TokenKind {
    Identifier,
    Keyword,
    Number,
    String,
    Comment,
    Punctuation,
    Whitespace,
    /// A character that belongs to no other kind.
    Unknown,
}

/// A token: its kind, and the half-open range of characters that it covers
/// in its line.
#[derive(Clone, Copy, Debug, PartialEq, Eq, Structural, Hash)]
pub struct Token {
    pub kind: TokenKind,
    pub start: usize,
    pub end: usize,
}

/// The token at index `i` ends where the next one begins.
pub open spec fn joined(tokens: Seq<Token>, i: int) -> bool {
    tokens[i].end == tokens[i + 1].start
}

/// The tokens cover the characters from `from` up to `to` exactly: each
/// holds at least one character, the first begins at `from`, each begins
/// where the one before it ends, and the last ends at `to`.
pub open spec fn partitions(tokens: Seq<Token>, from: int, to: int) -> bool {
    &&& from <= to
    &&& tokens.len() == 0 <==> from == to
    &&& forall|i: int| 0 <= i < tokens.len() ==> (#[trigger] tokens[i]).start < tokens[i].end
    &&& tokens.len() > 0 ==> tokens[0].start == from && tokens.last().end == to
    &&& forall|i: int| 0 <= i < tokens.len() - 1 ==> #[trigger] joined(tokens, i)
}

/// In a partition the tokens' starts grow, and every token lies between
/// the partition's ends.
pub proof fn lemma_partition_ordered(tokens: Seq<Token>, from: int, to: int, i: int, j: int)
    requires
        partitions(tokens, from, to),
        0 <= i <= j < tokens.len(),
    ensures
        from <= tokens[i].start,
        tokens[i].start <= tokens[j].start,
        tokens[i].end <= tokens[j].end,
        tokens[j].end <= to,
    decreases j - i,
{
    if i < j {
        lemma_partition_ordered(tokens, from, to, i, j - 1);
        assert(joined(tokens, j - 1));
    }
    lemma_partition_end(tokens, from, to, j);
    lemma_partition_start(tokens, from, to, i);
}

pub proof fn lemma_partition_end(tokens: Seq<Token>, from: int, to: int, j: int)
    requires
        partitions(tokens, from, to),
        0 <= j < tokens.len(),
    ensures
        tokens[j].end <= to,
    decreases tokens.len() - j,
{
    if j < tokens.len() - 1 {
        lemma_partition_end(tokens, from, to, j + 1);
        assert(joined(tokens, j));
    }
}

pub proof fn lemma_partition_start(tokens: Seq<Token>, from: int, to: int, i: int)
    requires
        partitions(tokens, from, to),
        0 <= i < tokens.len(),
    ensures
        from <= tokens[i].start,
    decreases i,
{
    if i > 0 {
        lemma_partition_start(tokens, from, to, i - 1);
        assert(joined(tokens, i - 1));
    }
}

/// The token sequences held by a vector of token vectors.
pub open spec fn token_rows(v: Seq<Vec<Token>>) -> Seq<Seq<Token>> {
    Seq::new(v.len(), |i: int| v[i]@)
}

/// A copy of a vector of tokens.
pub fn copy_tokens(v: &Vec<Token>) -> (out: Vec<Token>)
    ensures
        out@ == v@,
{
    let mut out: Vec<Token> = Vec::new();
    let mut i: usize = 0;
    while i < v.len()
        invariant
            i <= v@.len(),
            out@ == v@.subrange(0, i as int),
        decreases v@.len() - i,
    {
        out.push(v[i]);
        i += 1;
        assert(out@ =~= v@.subrange(0, i as int));
    }
    assert(out@ =~= v@);
    out
}

} // verus!
