//! Classification of sequence bytes into GC, N, skip and other.

use vstd::prelude::*;

verus! {

/// The four classes a byte of sequence text falls into.
#[derive(Clone, Copy, Debug, PartialEq, Eq, Structural)]
pub enum ByteClass {
    Gc,
    N,
    Skip,
    Other,
}

pub open spec fn is_gc(b: u8) -> bool {
    b == 71u8 || b == 103u8 || b == 67u8 || b == 99u8
}

pub open spec fn is_n(b: u8) -> bool {
    b == 78u8 || b == 110u8
}

/// Whitespace (space, tab, line feed, carriage return) and gap symbols.
pub open spec fn is_skip(b: u8) -> bool {
    b == 32u8 || b == 9u8 || b == 10u8 || b == 13u8 || b == 45u8 || b == 46u8
}

pub open spec fn class_of(b: u8) -> ByteClass {
    if is_gc(b) {
        ByteClass::Gc
    } else if is_n(b) {
        ByteClass::N
    } else if is_skip(b) {
        ByteClass::Skip
    } else {
        ByteClass::Other
    }
}

/// Number of G/g/C/c bytes in `s`.
pub open spec fn gc_in(s: Seq<u8>) -> int
    decreases s.len(),
{
    if s.len() == 0 {
        0
    } else {
        gc_in(s.drop_last()) + if is_gc(s.last()) { 1int } else { 0int }
    }
}

/// Number of N/n bytes in `s`.
pub open spec fn n_in(s: Seq<u8>) -> int
    decreases s.len(),
{
    if s.len() == 0 {
        0
    } else {
        n_in(s.drop_last()) + if is_n(s.last()) { 1int } else { 0int }
    }
}

/// Number of sequence characters in `s`: every byte that is not a skip byte.
pub open spec fn seq_in(s: Seq<u8>) -> int
    decreases s.len(),
{
    if s.len() == 0 {
        0
    } else {
        seq_in(s.drop_last()) + if is_skip(s.last()) { 0int } else { 1int }
    }
}

/// Number of occurrences of the byte `b` in `s`.
pub open spec fn occurrences(s: Seq<u8>, b: u8) -> int
    decreases s.len(),
{
    if s.len() == 0 {
        0
    } else {
        occurrences(s.drop_last(), b) + if s.last() == b { 1int } else { 0int }
    }
}

/// The classifier's triple `(gc, n, sequence characters)` for `s`.
pub open spec fn stats_of(s: Seq<u8>) -> (int, int, int) {
    (gc_in(s), n_in(s), seq_in(s))
}

/// The counts are bounded by the length and by each other.
pub proof fn lemma_counts_bounded(s: Seq<u8>)
    ensures
        0 <= gc_in(s),
        0 <= n_in(s),
        gc_in(s) + n_in(s) <= seq_in(s) <= s.len(),
    decreases s.len(),
{
    if s.len() > 0 {
        lemma_counts_bounded(s.drop_last());
    }
}

/// Counting is additive over concatenation: a slice may be split anywhere
/// (an unaligned head, a middle of whole lanes, a tail) and the partial
/// counts summed.
pub proof fn lemma_stats_split(a: Seq<u8>, b: Seq<u8>)
    ensures
        gc_in(a + b) == gc_in(a) + gc_in(b),
        n_in(a + b) == n_in(a) + n_in(b),
        seq_in(a + b) == seq_in(a) + seq_in(b),
    decreases b.len(),
{
    if b.len() == 0 {
        assert(a + b =~= a);
    } else {
        lemma_stats_split(a, b.drop_last());
        assert((a + b).drop_last() =~= a + b.drop_last());
    }
}

/// The class counts expressed through per-byte occurrence counts.
pub proof fn lemma_counts_by_byte(s: Seq<u8>)
    ensures
        gc_in(s) == occurrences(s, 71u8) + occurrences(s, 103u8) + occurrences(s, 67u8)
            + occurrences(s, 99u8),
        n_in(s) == occurrences(s, 78u8) + occurrences(s, 110u8),
        seq_in(s) == s.len() - (occurrences(s, 32u8) + occurrences(s, 9u8) + occurrences(
            s,
            10u8,
        ) + occurrences(s, 13u8) + occurrences(s, 45u8) + occurrences(s, 46u8)),
    decreases s.len(),
{
    if s.len() > 0 {
        lemma_counts_by_byte(s.drop_last());
    }
}

/// Classifies one byte.
pub fn classify_byte(b: u8) -> (r: ByteClass)
    ensures
        r == class_of(b),
{
    match b {
        // G, g, C, c
        71u8 | 103u8 | 67u8 | 99u8 => ByteClass::Gc,
        // N, n
        78u8 | 110u8 => ByteClass::N,
        // space, tab, line feed, carriage return, '-', '.'
        32u8 | 9u8 | 10u8 | 13u8 | 45u8 | 46u8 => ByteClass::Skip,
        _ => ByteClass::Other,
    }
}

/// The portable classifier: one pass over the bytes.
pub fn update_stats_scalar(line: &[u8]) -> (r: (usize, usize, usize))
    ensures
        r.0 == gc_in(line@),
        r.1 == n_in(line@),
        r.2 == seq_in(line@),
{
    let mut gc: usize = 0;
    let mut n: usize = 0;
    let mut seq_chars: usize = 0;
    let mut i: usize = 0;
    while i < line.len()
        invariant
            i <= line@.len(),
            gc == gc_in(line@.subrange(0, i as int)),
            n == n_in(line@.subrange(0, i as int)),
            seq_chars == seq_in(line@.subrange(0, i as int)),
        decreases line@.len() - i,
    {
        let ghost prefix = line@.subrange(0, i as int + 1);
        assert(prefix.drop_last() =~= line@.subrange(0, i as int));
        proof {
            lemma_counts_bounded(prefix);
        }
        match classify_byte(line[i]) {
            ByteClass::Gc => {
                gc = gc + 1;
                seq_chars = seq_chars + 1;
            },
            ByteClass::N => {
                n = n + 1;
                seq_chars = seq_chars + 1;
            },
            ByteClass::Skip => {},
            ByteClass::Other => {
                seq_chars = seq_chars + 1;
            },
        }
        i = i + 1;
    }
    assert(line@.subrange(0, i as int) =~= line@);
    (gc, n, seq_chars)
}

/// Relies on bytecount::count: the number of bytes of `haystack` equal to
/// `needle`, counted with the crate's vectorised kernels where the CPU has them.
#[verifier::external_body]
fn count_byte(haystack: &[u8], needle: u8) -> (r: usize)
    ensures
        r == occurrences(haystack@, needle),
{
    bytecount::count(haystack, needle)
}

/// The vectorised classifier: one counting pass per byte value of interest.
fn update_stats_by_byte(line: &[u8]) -> (r: (usize, usize, usize))
    ensures
        r.0 == gc_in(line@),
        r.1 == n_in(line@),
        r.2 == seq_in(line@),
{
    let len = line.len();
    proof {
        lemma_counts_by_byte(line@);
        lemma_counts_bounded(line@);
        lemma_occurrences_bounded(line@);
    }
    let upper_g = count_byte(line, 71u8);
    let lower_g = count_byte(line, 103u8);
    let upper_c = count_byte(line, 67u8);
    let lower_c = count_byte(line, 99u8);
    let upper_n = count_byte(line, 78u8);
    let lower_n = count_byte(line, 110u8);
    let space = count_byte(line, 32u8);
    let tab = count_byte(line, 9u8);
    let lf = count_byte(line, 10u8);
    let cr = count_byte(line, 13u8);
    let dash = count_byte(line, 45u8);
    let dot = count_byte(line, 46u8);
    let gc = upper_g + lower_g + upper_c + lower_c;
    let n = upper_n + lower_n;
    let skipped = space + tab + lf + cr + dash + dot;
    (gc, n, len - skipped)
}

proof fn lemma_occurrences_bounded(s: Seq<u8>)
    ensures
        forall|b: u8| 0 <= #[trigger] occurrences(s, b) <= s.len(),
    decreases s.len(),
{
    if s.len() > 0 {
        lemma_occurrences_bounded(s.drop_last());
        assert forall|b: u8| 0 <= #[trigger] occurrences(s, b) <= s.len() by {
            assert(0 <= occurrences(s.drop_last(), b) <= s.drop_last().len());
        }
    }
}

/// Counts GC, N and sequence characters of `line`. The vectorised path is
/// taken unless `no_simd` asks for the portable one; both give the same
/// triple for every input.
pub fn update_stats(line: &[u8], no_simd: bool) -> (r: (usize, usize, usize))
    ensures
        r.0 == gc_in(line@),
        r.1 == n_in(line@),
        r.2 == seq_in(line@),
{
    if no_simd {
        update_stats_scalar(line)
    } else {
        update_stats_by_byte(line)
    }
}

} // verus!
