//! Assembly statistics of one stream, and the reducer that ranks record
//! lengths into contig extremes and N25/N50/N75.

use vstd::prelude::*;
use vstd::relations::total_ordering;
use vstd::seq_lib::{commutative_foldl, lemma_fold_left_permutation};

verus! {

/// Statistics of one FASTA stream (a file, or one member of an archive).
#[derive(Clone, Debug)]
pub struct AnalysisResults {
    pub filename: String,
    pub total_length: usize,
    pub sequence_count: usize,
    pub gc_count: usize,
    pub n_count: usize,
    pub n25: usize,
    pub n25_sequence_count: usize,
    pub n50: usize,
    pub n50_sequence_count: usize,
    pub n75: usize,
    pub n75_sequence_count: usize,
    pub largest_contig: usize,
    pub shortest_contig: usize,
}

impl AnalysisResults {
    /// Empty statistics for the stream labelled `filename`; the shortest
    /// contig holds the "no data" sentinel.
    pub fn new(filename: &str) -> (r: AnalysisResults)
        ensures
            r.filename@ == filename@,
            r.is_empty(),
    {
        AnalysisResults {
            filename: filename.to_owned(),
            total_length: 0,
            sequence_count: 0,
            gc_count: 0,
            n_count: 0,
            n25: 0,
            n25_sequence_count: 0,
            n50: 0,
            n50_sequence_count: 0,
            n75: 0,
            n75_sequence_count: 0,
            largest_contig: 0,
            shortest_contig: usize::MAX,
        }
    }

    /// All counts zero and the shortest contig at the sentinel.
    pub open spec fn is_empty(&self) -> bool {
        &&& self.total_length == 0
        &&& self.sequence_count == 0
        &&& self.gc_count == 0
        &&& self.n_count == 0
        &&& self.n25 == 0
        &&& self.n25_sequence_count == 0
        &&& self.n50 == 0
        &&& self.n50_sequence_count == 0
        &&& self.n75 == 0
        &&& self.n75_sequence_count == 0
        &&& self.largest_contig == 0
        &&& self.shortest_contig == usize::MAX
    }

    /// The fields the reducer sets, as a function of the record lengths.
    pub open spec fn has_rank_stats(&self, lengths: Seq<int>) -> bool {
        let s = ranked(lengths);
        let total = total_of(lengths);
        &&& self.total_length == total
        &&& self.largest_contig == largest_of(s)
        &&& self.shortest_contig == shortest_of(s)
        &&& self.n25_sequence_count == rank_reaching(s, total / 4)
        &&& self.n25 == length_at_rank(s, rank_reaching(s, total / 4))
        &&& self.n50_sequence_count == rank_reaching(s, total / 2)
        &&& self.n50 == length_at_rank(s, rank_reaching(s, total / 2))
        &&& self.n75_sequence_count == rank_reaching(s, total * 3 / 4)
        &&& self.n75 == length_at_rank(s, rank_reaching(s, total * 3 / 4))
    }
}

pub open spec fn as_ints(s: Seq<usize>) -> Seq<int> {
    s.map_values(|x: usize| x as int)
}

/// The records that count as contigs: those of positive length, in order.
pub open spec fn contigs(lengths: Seq<int>) -> Seq<int>
    decreases lengths.len(),
{
    if lengths.len() == 0 {
        lengths
    } else if lengths.last() > 0 {
        contigs(lengths.drop_last()).push(lengths.last())
    } else {
        contigs(lengths.drop_last())
    }
}

pub open spec fn ascending(a: int, b: int) -> bool {
    a <= b
}

/// The contig lengths in ascending order; rank 1 (the largest) is the last.
pub open spec fn ranked(lengths: Seq<int>) -> Seq<int> {
    contigs(lengths).sort_by(|a: int, b: int| ascending(a, b))
}

pub open spec fn plus(acc: int, x: int) -> int {
    acc + x
}

pub open spec fn total_of(s: Seq<int>) -> int {
    s.fold_left(0, |acc: int, x: int| plus(acc, x))
}

/// The smallest rank `k` (1-based, largest first) at which the `k` largest
/// elements of the ascending sequence `s` sum to at least `t`; 0 for no
/// elements.
pub open spec fn rank_reaching(s: Seq<int>, t: int) -> int
    decreases s.len(),
{
    if s.len() == 0 {
        0
    } else if s.last() >= t {
        1
    } else {
        1 + rank_reaching(s.drop_last(), t - s.last())
    }
}

/// The element of rank `k` of the ascending sequence `s`, or 0.
pub open spec fn length_at_rank(s: Seq<int>, k: int) -> int {
    if 1 <= k <= s.len() {
        s[s.len() - k]
    } else {
        0
    }
}

pub open spec fn largest_of(s: Seq<int>) -> int {
    if s.len() == 0 {
        0
    } else {
        s.last()
    }
}

/// The smallest contig, or the "no data" sentinel.
pub open spec fn shortest_of(s: Seq<int>) -> int {
    if s.len() == 0 {
        usize::MAX as int
    } else {
        s[0]
    }
}

/// Ascending order is a total order.
pub proof fn lemma_ascending_total()
    ensures
        total_ordering(|a: int, b: int| ascending(a, b)),
{
}

proof fn lemma_total_step(s: Seq<int>)
    requires
        s.len() > 0,
    ensures
        total_of(s) == total_of(s.drop_last()) + s.last(),
{
}

/// Totals of non-negative sequences are non-negative and grow with prefixes.
proof fn lemma_total_prefix(s: Seq<int>, i: int)
    requires
        0 <= i <= s.len(),
        forall|j: int| 0 <= j < s.len() ==> s[j] >= 0,
    ensures
        0 <= total_of(s.subrange(0, i)) <= total_of(s),
    decreases s.len(),
{
    if s.len() > 0 {
        if i == s.len() {
            assert(s.subrange(0, i) =~= s);
            lemma_total_prefix(s.drop_last(), s.len() - 1);
            assert(s.drop_last().subrange(0, s.len() - 1) =~= s.drop_last());
        } else {
            lemma_total_prefix(s.drop_last(), i);
            assert(s.drop_last().subrange(0, i) =~= s.subrange(0, i));
        }
    }
}

proof fn lemma_contigs_total(s: Seq<int>)
    requires
        forall|j: int| 0 <= j < s.len() ==> s[j] >= 0,
    ensures
        total_of(contigs(s)) == total_of(s),
        forall|j: int| 0 <= j < contigs(s).len() ==> contigs(s)[j] > 0,
    decreases s.len(),
{
    if s.len() > 0 {
        lemma_contigs_total(s.drop_last());
        if s.last() > 0 {
            let c = contigs(s);
            assert(c.drop_last() =~= contigs(s.drop_last()));
        }
    }
}

/// Sorting keeps the total and the elements.
proof fn lemma_ranked(lengths: Seq<int>)
    requires
        forall|j: int| 0 <= j < lengths.len() ==> lengths[j] >= 0,
    ensures
        total_of(ranked(lengths)) == total_of(lengths),
        forall|j: int| 0 <= j < ranked(lengths).len() ==> ranked(lengths)[j] > 0,
{
    let leq = |a: int, b: int| ascending(a, b);
    let f = |acc: int, x: int| plus(acc, x);
    let c = contigs(lengths);
    lemma_ascending_total();
    c.lemma_sort_by_ensures(leq);
    lemma_contigs_total(lengths);
    assert(commutative_foldl(f));
    lemma_fold_left_permutation(c, c.sort_by(leq), f, 0);
    assert forall|j: int| 0 <= j < ranked(lengths).len() implies ranked(lengths)[j] > 0 by {
        let x = ranked(lengths)[j];
        assert(c.sort_by(leq).contains(x));
    }
}

/// Relies on slice::sort_unstable: the same values in ascending order.
#[verifier::external_body]
fn sort_lengths(v: &mut Vec<usize>)
    ensures
        as_ints(final(v)@) == as_ints(old(v)@).sort_by(|a: int, b: int| ascending(a, b)),
{
    v.sort_unstable()
}

/// What the scan for one threshold `t` knows after the `k` largest contigs
/// of `s` (summing to `cum`): either the rank `r` was found, with its length
/// `val`, or the rank is still ahead.
pub open spec fn scan_ok(s: Seq<int>, t: int, k: int, cum: int, r: int, val: int) -> bool {
    if r == 0 {
        &&& val == 0
        &&& k > 0 ==> cum < t
        &&& rank_reaching(s, t) == k + rank_reaching(s.subrange(0, s.len() - k), t - cum)
    } else {
        &&& r == rank_reaching(s, t)
        &&& val == length_at_rank(s, r)
    }
}

proof fn lemma_scan_start(s: Seq<int>, t: int)
    ensures
        scan_ok(s, t, 0, 0, 0, 0),
{
    assert(s.subrange(0, s.len() as int) =~= s);
}

proof fn lemma_scan_step(s: Seq<int>, t: int, k: int, cum: int, r: int, val: int)
    requires
        0 <= k < s.len(),
        scan_ok(s, t, k, cum, r, val),
    ensures
        ({
            let e = s[s.len() - k - 1];
            let found = r == 0 && cum + e >= t;
            scan_ok(
                s,
                t,
                k + 1,
                cum + e,
                if found { k + 1 } else { r },
                if found { e } else { val },
            )
        }),
{
    let p = s.subrange(0, s.len() - k);
    assert(p.drop_last() =~= s.subrange(0, s.len() - (k + 1)));
    assert(p.last() == s[s.len() - k - 1]);
}

/// Fills in the total length, the contig extremes and N25/N50/N75 from the
/// record lengths. Zero-length records are not contigs and are left out of
/// the ranking. The other fields are kept.
pub fn calc_nq_stats(lengths: &[usize], results: &mut AnalysisResults)
    requires
        total_of(as_ints(lengths@)) <= usize::MAX,
    ensures
        final(results).has_rank_stats(as_ints(lengths@)),
        final(results).filename == old(results).filename,
        final(results).sequence_count == old(results).sequence_count,
        final(results).gc_count == old(results).gc_count,
        final(results).n_count == old(results).n_count,
{
    let ghost ls = as_ints(lengths@);
    let mut total: usize = 0;
    let mut i: usize = 0;
    while i < lengths.len()
        invariant
            i <= lengths@.len(),
            ls == as_ints(lengths@),
            total_of(ls) <= usize::MAX,
            total == total_of(ls.subrange(0, i as int)),
        decreases lengths@.len() - i,
    {
        proof {
            lemma_total_prefix(ls, i + 1);
            assert(ls.subrange(0, i + 1).drop_last() =~= ls.subrange(0, i as int));
            lemma_total_step(ls.subrange(0, i + 1));
        }
        total = total + lengths[i];
        i = i + 1;
    }
    assert(ls.subrange(0, i as int) =~= ls);

    let mut v: Vec<usize> = Vec::new();
    i = 0;
    while i < lengths.len()
        invariant
            i <= lengths@.len(),
            ls == as_ints(lengths@),
            as_ints(v@) == contigs(ls.subrange(0, i as int)),
        decreases lengths@.len() - i,
    {
        assert(ls.subrange(0, i + 1).drop_last() =~= ls.subrange(0, i as int));
        if lengths[i] > 0 {
            v.push(lengths[i]);
            assert(as_ints(v@) =~= contigs(ls.subrange(0, i as int)).push(lengths[i as int] as int));
        }
        i = i + 1;
    }
    assert(ls.subrange(0, i as int) =~= ls);
    sort_lengths(&mut v);
    let ghost s = as_ints(v@);
    proof {
        lemma_ranked(ls);
    }
    assert(s == ranked(ls));

    let n = v.len();
    let t25 = total / 4;
    let t50 = total / 2;
    let t75 = total / 4 * 3 + total % 4 * 3 / 4;
    assert(t75 == total * 3 / 4) by (nonlinear_arith)
        requires
            t75 == total / 4 * 3 + total % 4 * 3 / 4,
    ;

    let mut k: usize = 0;
    let mut cum: usize = 0;
    let mut r25: usize = 0;
    let mut v25: usize = 0;
    let mut r50: usize = 0;
    let mut v50: usize = 0;
    let mut r75: usize = 0;
    let mut v75: usize = 0;
    proof {
        lemma_scan_start(s, t25 as int);
        lemma_scan_start(s, t50 as int);
        lemma_scan_start(s, t75 as int);
        assert(s.subrange(0, n as int) =~= s);
    }
    while k < n && r75 == 0
        invariant
            n == v@.len(),
            s == as_ints(v@),
            k <= n,
            total == total_of(s),
            total_of(s.subrange(0, n - k)) + cum == total,
            forall|j: int| 0 <= j < s.len() ==> s[j] > 0,
            t25 <= t50 <= t75 <= total,
            scan_ok(s, t25 as int, k as int, cum as int, r25 as int, v25 as int),
            scan_ok(s, t50 as int, k as int, cum as int, r50 as int, v50 as int),
            scan_ok(s, t75 as int, k as int, cum as int, r75 as int, v75 as int),
            r75 != 0 ==> r50 != 0 && r25 != 0,
        decreases n - k,
    {
        let e = v[n - k - 1];
        proof {
            let p = s.subrange(0, n - k);
            assert(p.drop_last() =~= s.subrange(0, n - k - 1));
            lemma_total_step(p);
            lemma_total_prefix(s, n - k - 1);
            lemma_scan_step(s, t25 as int, k as int, cum as int, r25 as int, v25 as int);
            lemma_scan_step(s, t50 as int, k as int, cum as int, r50 as int, v50 as int);
            lemma_scan_step(s, t75 as int, k as int, cum as int, r75 as int, v75 as int);
        }
        cum = cum + e;
        if r25 == 0 && cum >= t25 {
            r25 = k + 1;
            v25 = e;
        }
        if r50 == 0 && cum >= t50 {
            r50 = k + 1;
            v50 = e;
        }
        if r75 == 0 && cum >= t75 {
            r75 = k + 1;
            v75 = e;
        }
        k = k + 1;
    }
    proof {
        if k == n && n > 0 {
            assert(s.subrange(0, 0) =~= Seq::<int>::empty());
        }
        if n == 0 {
            assert(s.subrange(0, 0) =~= Seq::<int>::empty());
        }
    }
    results.total_length = total;
    results.largest_contig = if n == 0 { 0 } else { v[n - 1] };
    results.shortest_contig = if n == 0 { usize::MAX } else { v[0] };
    results.n25 = v25;
    results.n25_sequence_count = r25;
    results.n50 = v50;
    results.n50_sequence_count = r50;
    results.n75 = v75;
    results.n75_sequence_count = r75;
}

} // verus!
