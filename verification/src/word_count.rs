//! Line, word and byte counts of an input, as `wc` reports them.
use vstd::prelude::*;
use crate::byte_count::{read_limit, read_len, MAX_READ_LIMIT_BYTES};

verus! {

/// Counts of the part of an input that was read.
pub struct InputStats {
    /// The number of newline bytes.
    pub line_count: usize,
    /// The number of maximal runs of bytes that are not ASCII whitespace.
    pub word_count: usize,
    /// The number of bytes.
    pub bytes_count: usize,
}

/// ASCII whitespace as `u8::is_ascii_whitespace` defines it: space,
/// horizontal tab, line feed, form feed and carriage return.
pub open spec fn is_ascii_ws(b: u8) -> bool {
    b == 0x20u8 || b == 0x09u8 || b == 0x0Au8 || b == 0x0Cu8 || b == 0x0Du8
}

/// Whether a word starts at position `i` of `s`: a non-whitespace byte that
/// is first or follows whitespace.
pub open spec fn word_starts_at(s: Seq<u8>, i: int) -> bool {
    !is_ascii_ws(s[i]) && (i == 0 || is_ascii_ws(s[i - 1]))
}

/// The number of newline bytes in `s`.
pub open spec fn count_newlines(s: Seq<u8>) -> nat
    decreases s.len(),
{
    if s.len() == 0 {
        0
    } else {
        count_newlines(s.drop_last()) + if s.last() == 0x0Au8 {
            1nat
        } else {
            0nat
        }
    }
}

/// The number of words in `s`: maximal runs of non-whitespace bytes.
pub open spec fn count_words(s: Seq<u8>) -> nat
    decreases s.len(),
{
    if s.len() == 0 {
        0
    } else {
        count_words(s.drop_last()) + if word_starts_at(s, s.len() - 1) {
            1nat
        } else {
            0nat
        }
    }
}

/// The bytes that separate words are exactly 0x20, 0x09, 0x0A, 0x0C and
/// 0x0D; in particular vertical tab (0x0B) and every byte from 0x80 up, such
/// as the continuation bytes of UTF-8 text, are not.
pub proof fn lemma_word_separator_bytes(b: u8)
    ensures
        is_ascii_ws(b) <==> (b == 32 || b == 9 || b == 10 || b == 12 || b == 13),
{
}

/// A nonempty text none of whose bytes is 0x20 or below (so any UTF-8 text
/// without ASCII spaces or control characters) is one word on no line.
pub proof fn lemma_one_word(s: Seq<u8>)
    requires
        s.len() > 0,
        forall|i: int| 0 <= i < s.len() ==> #[trigger] s[i] > 32,
    ensures
        count_words(s) == 1,
        count_newlines(s) == 0,
    decreases s.len(),
{
    let p = s.drop_last();
    assert(s[s.len() - 1] > 32);
    assert(s.last() == s[s.len() - 1]);
    if s.len() == 1 {
        assert(p.len() == 0);
        assert(count_words(p) == 0);
        assert(count_newlines(p) == 0);
    } else {
        assert forall|i: int| 0 <= i < p.len() implies #[trigger] p[i] > 32 by {
            assert(p[i] == s[i]);
        }
        lemma_one_word(p);
        assert(s[s.len() - 2] == p[s.len() - 2]);
        assert(s[s.len() - 2] > 32);
    }
}

/// A text made only of space, tab, line feed, form feed and carriage return
/// has no word, and as many lines as line feeds.
pub proof fn lemma_no_words(s: Seq<u8>)
    requires
        forall|i: int|
            0 <= i < s.len() ==> #[trigger] s[i] == 32 || s[i] == 9 || s[i] == 10 || s[i] == 12
                || s[i] == 13,
    ensures
        count_words(s) == 0,
    decreases s.len(),
{
    if s.len() > 0 {
        let p = s.drop_last();
        assert forall|i: int| 0 <= i < p.len() implies #[trigger] p[i] == 32 || p[i] == 9 || p[i]
            == 10 || p[i] == 12 || p[i] == 13 by {
            assert(p[i] == s[i]);
        }
        lemma_no_words(p);
    }
}

proof fn lemma_counts_bounded(s: Seq<u8>)
    ensures
        count_newlines(s) <= s.len(),
        count_words(s) <= s.len(),
    decreases s.len(),
{
    if s.len() > 0 {
        lemma_counts_bounded(s.drop_last());
    }
}

fn is_ascii_whitespace(b: u8) -> (r: bool)
    ensures
        r == is_ascii_ws(b),
{
    b == 0x20 || b == 0x09 || b == 0x0A || b == 0x0C || b == 0x0D
}

/// Counts lines (newline bytes), words and bytes of `input`, of which at
/// most `MAX_READ_LIMIT_BYTES` are read.
pub fn process_input(input: &[u8]) -> (stats: InputStats)
    ensures
        stats.bytes_count == read_len(input@.len() as int),
        input@.len() <= MAX_READ_LIMIT_BYTES ==> stats.bytes_count == input@.len(),
        input@.len() > MAX_READ_LIMIT_BYTES ==> stats.bytes_count == MAX_READ_LIMIT_BYTES,
        stats.line_count == count_newlines(input@.take(stats.bytes_count as int)),
        stats.word_count == count_words(input@.take(stats.bytes_count as int)),
{
    let n = read_limit(input.len());
    let mut lines: usize = 0;
    let mut words: usize = 0;
    let mut i: usize = 0;
    while i < n
        invariant
            n <= input@.len(),
            i <= n,
            lines == count_newlines(input@.take(i as int)),
            words == count_words(input@.take(i as int)),
        decreases n - i,
    {
        let ghost prefix = input@.take(i as int);
        let ghost next = input@.take(i + 1);
        assert(next.drop_last() =~= prefix);
        proof {
            lemma_counts_bounded(prefix);
        }
        let b = input[i];
        if b == 0x0A {
            lines = lines + 1;
        }
        if !is_ascii_whitespace(b) && (i == 0 || is_ascii_whitespace(input[i - 1])) {
            words = words + 1;
        }
        i = i + 1;
    }
    InputStats { line_count: lines, word_count: words, bytes_count: n }
}

} // verus!
