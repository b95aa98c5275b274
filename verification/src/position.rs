//! Resolution of byte offsets in source text to line/column positions.
//!
//! Diagnostics carry byte spans; consumers want line and column numbers.
//! Lines are 1-based and a new line starts after each `\n` byte; columns are
//! 0-based and count bytes from the start of the line.

use vstd::prelude::*;

verus! {

/// Number of `\n` bytes in `s`.
pub open spec fn count_newlines(s: Seq<u8>) -> nat
    decreases s.len(),
{
    if s.len() == 0 {
        0
    } else {
        count_newlines(s.drop_last()) + if s.last() == 10 {
            1nat
        } else {
            0nat
        }
    }
}

/// 1-based line number of the position `off` bytes into `src`.
pub open spec fn line_of(src: Seq<u8>, off: int) -> nat {
    1 + count_newlines(src.take(off))
}

/// Index of the first byte of the line containing position `off`.
pub open spec fn line_start(src: Seq<u8>, off: int) -> int
    decreases off,
{
    if off <= 0 {
        0
    } else if src[off - 1] == 10 {
        off
    } else {
        line_start(src, off - 1)
    }
}

/// 0-based byte column of position `off` within its line.
pub open spec fn col_of(src: Seq<u8>, off: int) -> int {
    off - line_start(src, off)
}

pub proof fn lemma_count_newlines_le(s: Seq<u8>)
    ensures
        count_newlines(s) <= s.len(),
    decreases s.len(),
{
    if s.len() > 0 {
        lemma_count_newlines_le(s.drop_last());
    }
}

/// Resolves the position `offset` bytes into `src` to its 1-based line and
/// 0-based byte column.
pub fn line_col_at(src: &[u8], offset: usize) -> (r: (usize, usize))
    requires
        offset <= src@.len(),
        src@.len() < usize::MAX,
    ensures
        r.0 == line_of(src@, offset as int),
        r.1 == col_of(src@, offset as int),
{
    let mut line: usize = 1;
    let mut start: usize = 0;
    let mut i: usize = 0;
    proof {
        assert(src@.take(0) =~= Seq::<u8>::empty());
    }
    while i < offset
        invariant
            i <= offset <= src@.len() < usize::MAX,
            start <= i,
            line == line_of(src@, i as int),
            start == line_start(src@, i as int),
        decreases offset - i,
    {
        proof {
            assert(src@.take(i + 1).drop_last() =~= src@.take(i as int));
            assert(src@.take(i + 1).last() == src@[i as int]);
            lemma_count_newlines_le(src@.take(i as int));
        }
        if src[i] == 10 {
            line = line + 1;
            start = i + 1;
        }
        i = i + 1;
    }
    (line, offset - start)
}

} // verus!
