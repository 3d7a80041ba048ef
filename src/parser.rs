//! The FASTA stream parser: a state machine fed successive chunks of a
//! stream, whose result depends only on the bytes fed, never on how they
//! were split into chunks.

use vstd::prelude::*;
use vstd::slice::slice_subrange;
use crate::classify::{gc_in, is_gc, is_n, is_skip, lemma_stats_split, n_in, seq_in, update_stats};
use crate::stats::{
    as_ints, ascending, calc_nq_stats, contigs, lemma_ascending_total, ranked, total_of,
    AnalysisResults,
};

verus! {

/// The parser's state after some bytes of a stream.
pub struct ParseState {
    /// Inside a header line.
    pub in_header: bool,
    /// The next byte starts a line.
    pub at_line_start: bool,
    /// A header has been seen.
    pub started: bool,
    /// Sequence characters of the record being read.
    pub current_length: int,
    pub gc_count: int,
    pub n_count: int,
    pub total_length: int,
    /// Header lines seen.
    pub sequence_count: int,
    /// Lengths of the records closed so far.
    pub lengths: Seq<int>,
}

/// Line feed and '>'.
pub open spec fn lf() -> u8 {
    10u8
}

pub open spec fn gt() -> u8 {
    62u8
}

pub open spec fn initial_state() -> ParseState {
    ParseState {
        in_header: false,
        at_line_start: true,
        started: false,
        current_length: 0,
        gc_count: 0,
        n_count: 0,
        total_length: 0,
        sequence_count: 0,
        lengths: Seq::empty(),
    }
}

/// One byte of the stream. A '>' at the start of a line opens a header and
/// closes the previous record; a header runs to the end of its line; every
/// other byte is sequence text, counted once a header has been seen.
pub open spec fn step(st: ParseState, b: u8) -> ParseState {
    if st.in_header {
        if b == lf() {
            ParseState { in_header: false, at_line_start: true, ..st }
        } else {
            st
        }
    } else if st.at_line_start && b == gt() {
        ParseState {
            in_header: true,
            at_line_start: false,
            started: true,
            current_length: 0,
            sequence_count: st.sequence_count + 1,
            lengths: if st.started {
                st.lengths.push(st.current_length)
            } else {
                st.lengths
            },
            ..st
        }
    } else {
        let counts = st.started;
        let seq_char: int = if counts && !is_skip(b) { 1 } else { 0 };
        ParseState {
            at_line_start: b == lf(),
            gc_count: st.gc_count + if counts && is_gc(b) { 1int } else { 0int },
            n_count: st.n_count + if counts && is_n(b) { 1int } else { 0int },
            current_length: st.current_length + seq_char,
            total_length: st.total_length + seq_char,
            ..st
        }
    }
}

/// The state after reading `bytes` from `st`.
pub open spec fn run(st: ParseState, bytes: Seq<u8>) -> ParseState
    decreases bytes.len(),
{
    if bytes.len() == 0 {
        st
    } else {
        step(run(st, bytes.drop_last()), bytes.last())
    }
}

/// The state after reading `bytes` from the start of a stream.
pub open spec fn parse(bytes: Seq<u8>) -> ParseState {
    run(initial_state(), bytes)
}

/// The record lengths at the end of the stream: the record still open is
/// closed if it holds any sequence.
pub open spec fn record_lengths(st: ParseState) -> Seq<int> {
    if st.current_length > 0 {
        st.lengths.push(st.current_length)
    } else {
        st.lengths
    }
}

/// `r` holds the statistics of the whole stream `bytes`.
pub open spec fn describes(r: AnalysisResults, bytes: Seq<u8>) -> bool {
    let st = parse(bytes);
    &&& r.sequence_count == st.sequence_count
    &&& r.gc_count == st.gc_count
    &&& r.n_count == st.n_count
    &&& r.total_length == st.total_length
    &&& r.has_rank_stats(record_lengths(st))
}

/// Reading `a` and then `b` is reading `a + b`.
pub proof fn lemma_run_split(st: ParseState, a: Seq<u8>, b: Seq<u8>)
    ensures
        run(st, a + b) == run(run(st, a), b),
    decreases b.len(),
{
    if b.len() == 0 {
        assert(a + b =~= a);
    } else {
        lemma_run_split(st, a, b.drop_last());
        assert((a + b).drop_last() =~= a + b.drop_last());
    }
}

/// Counts of a reachable state stay within the bytes read.
pub proof fn lemma_parse_bounds(bytes: Seq<u8>)
    ensures
        ({
            let st = parse(bytes);
            &&& 0 <= st.gc_count
            &&& 0 <= st.n_count
            &&& st.gc_count + st.n_count <= st.total_length <= bytes.len()
            &&& 0 <= st.current_length <= st.total_length
            &&& 0 <= st.sequence_count <= bytes.len()
            &&& st.total_length == total_of(st.lengths) + st.current_length
            &&& forall|j: int| 0 <= j < st.lengths.len() ==> st.lengths[j] >= 0
            &&& st.started ==> st.lengths.len() + 1 == st.sequence_count
            &&& !st.started ==> st.sequence_count == 0 && st.lengths.len() == 0
                && st.current_length == 0
        }),
    decreases bytes.len(),
{
    if bytes.len() > 0 {
        lemma_parse_bounds(bytes.drop_last());
        let prev = parse(bytes.drop_last());
        let st = parse(bytes);
        if !prev.in_header && prev.at_line_start && bytes.last() == gt() && prev.started {
            let l = prev.lengths.push(prev.current_length);
            assert(l.drop_last() =~= prev.lengths);
        }
    }
}

/// A header segment without a line feed changes nothing.
proof fn lemma_header_span(st: ParseState, seg: Seq<u8>)
    requires
        st.in_header,
        forall|k: int| 0 <= k < seg.len() ==> seg[k] != lf(),
    ensures
        run(st, seg) == st,
    decreases seg.len(),
{
    if seg.len() > 0 {
        lemma_header_span(st, seg.drop_last());
    }
}

/// The state after a span of sequence text in which no header can start:
/// only the counts and the line-start flag change.
pub open spec fn after_span(st: ParseState, span: Seq<u8>) -> ParseState {
    let seq_chars = if st.started { seq_in(span) } else { 0 };
    ParseState {
        at_line_start: span.last() == lf(),
        gc_count: st.gc_count + if st.started { gc_in(span) } else { 0 },
        n_count: st.n_count + if st.started { n_in(span) } else { 0 },
        current_length: st.current_length + seq_chars,
        total_length: st.total_length + seq_chars,
        ..st
    }
}

proof fn lemma_sequence_span(st: ParseState, span: Seq<u8>)
    requires
        !st.in_header,
        span.len() > 0,
        st.at_line_start ==> span[0] != gt(),
        forall|k: int| 0 <= k < span.len() - 1 && #[trigger] span[k] == lf() ==> span[k + 1] != gt(),
    ensures
        run(st, span) == after_span(st, span),
    decreases span.len(),
{
    let init = span.drop_last();
    let b = span.last();
    if span.len() == 1 {
        assert(init =~= Seq::<u8>::empty());
        assert(run(st, init) == st);
        assert(b == span[0]);
    } else {
        lemma_sequence_span(st, init);
        let k = span.len() - 2;
        assert(init.last() == span[k]);
        if span[k] == lf() {
            assert(span[k + 1] != gt());
        }
    }
    let prev = run(st, init);
    assert(!prev.in_header);
    assert(!(prev.at_line_start && b == gt()));
    assert(run(st, span) == step(prev, b));
    assert(gc_in(span) == gc_in(init) + if is_gc(b) { 1int } else { 0int });
    assert(n_in(span) == n_in(init) + if is_n(b) { 1int } else { 0int });
    assert(seq_in(span) == seq_in(init) + if is_skip(b) { 0int } else { 1int });
}

/// A parser of one stream. Its view is the bytes fed so far.
pub struct Parser {
    in_header: bool,
    at_line_start: bool,
    started: bool,
    current_length: usize,
    gc_count: usize,
    n_count: usize,
    total_length: usize,
    sequence_count: usize,
    lengths: Vec<usize>,
    no_simd: bool,
    fed: usize,
    consumed: Ghost<Seq<u8>>,
}

impl View for Parser {
    type V = Seq<u8>;

    closed spec fn view(&self) -> Seq<u8> {
        self.consumed@
    }
}

impl Parser {
    /// The fields hold the state reached by parsing the bytes fed so far.
    pub closed spec fn wf(&self) -> bool {
        &&& self.fed == self.consumed@.len()
        &&& self.wf_state()
    }

    closed spec fn wf_state(&self) -> bool {
        let st = parse(self.consumed@);
        &&& self.in_header == st.in_header
        &&& self.at_line_start == st.at_line_start
        &&& self.started == st.started
        &&& self.current_length == st.current_length
        &&& self.gc_count == st.gc_count
        &&& self.n_count == st.n_count
        &&& self.total_length == st.total_length
        &&& self.sequence_count == st.sequence_count
        &&& as_ints(self.lengths@) == st.lengths
    }

    /// A parser at the start of a stream. With `no_simd` the portable
    /// classifier is used; the results are the same either way.
    pub fn new(no_simd: bool) -> (p: Parser)
        ensures
            p.wf(),
            p@ == Seq::<u8>::empty(),
    {
        let p = Parser {
            in_header: false,
            at_line_start: true,
            started: false,
            current_length: 0,
            gc_count: 0,
            n_count: 0,
            total_length: 0,
            sequence_count: 0,
            lengths: Vec::new(),
            no_simd,
            fed: 0,
            consumed: Ghost(Seq::empty()),
        };
        assert(as_ints(p.lengths@) =~= Seq::<int>::empty());
        p
    }

    /// Feeds the next chunk of the stream. Chunks may be of any size and
    /// may split a line, a header or a line feed followed by '>' anywhere.
    pub fn feed(&mut self, chunk: &[u8])
        requires
            old(self).wf(),
            old(self)@.len() + chunk@.len() <= usize::MAX,
        ensures
            final(self).wf(),
            final(self)@ == old(self)@ + chunk@,
    {
        let len = chunk.len();
        let ghost start = self.consumed@;
        let fed_before = self.fed;
        let mut i: usize = 0;
        assert(start + chunk@.subrange(0, 0) =~= start);
        while i < len
            invariant
                i <= len == chunk@.len(),
                start.len() + len <= usize::MAX,
                fed_before == start.len(),
                self.fed == fed_before + i,
                self.wf_state(),
                self.consumed@ == start + chunk@.subrange(0, i as int),
            decreases len - i,
        {
            let ghost before = self.consumed@;
            if self.in_header {
                let mut j = i;
                while j < len && chunk[j] != 10u8
                    invariant
                        i <= j <= len == chunk@.len(),
                        forall|k: int| i <= k < j ==> chunk@[k] != lf(),
                    decreases len - j,
                {
                    j = j + 1;
                }
                proof {
                    let seg = chunk@.subrange(i as int, j as int);
                    lemma_header_span(parse(before), seg);
                    lemma_run_split(initial_state(), before, seg);
                    assert(before + seg =~= start + chunk@.subrange(0, j as int));
                }
                if j < len {
                    proof {
                        let all = start + chunk@.subrange(0, j as int);
                        let next = start + chunk@.subrange(0, j + 1);
                        assert(next.drop_last() =~= all);
                        assert(next.last() == chunk@[j as int]);
                    }
                    self.in_header = false;
                    self.at_line_start = true;
                    i = j + 1;
                } else {
                    i = len;
                }
                self.fed = fed_before + i;
                self.consumed = Ghost(start + chunk@.subrange(0, i as int));
            } else if self.at_line_start && chunk[i] == 62u8 {
                let ghost next = start + chunk@.subrange(0, i + 1);
                proof {
                    assert(next.drop_last() =~= before);
                    assert(next.last() == chunk@[i as int]);
                    lemma_parse_bounds(next);
                }
                if self.started {
                    let ghost old_lengths = self.lengths@;
                    self.lengths.push(self.current_length);
                    assert(as_ints(self.lengths@) =~= as_ints(old_lengths).push(
                        self.current_length as int,
                    ));
                }
                self.current_length = 0;
                self.sequence_count = self.sequence_count + 1;
                self.started = true;
                self.in_header = true;
                self.at_line_start = false;
                i = i + 1;
                self.fed = fed_before + i;
                self.consumed = Ghost(next);
            } else {
                let mut j = i;
                while j + 1 < len && !(chunk[j] == 10u8 && chunk[j + 1] == 62u8)
                    invariant
                        i <= j < len == chunk@.len(),
                        forall|k: int|
                            i <= k < j && #[trigger] chunk@[k] == lf() ==> chunk@[k + 1] != gt(),
                    decreases len - j,
                {
                    j = j + 1;
                }
                let end = if j + 1 < len {
                    j + 1
                } else {
                    len
                };
                let span = slice_subrange(chunk, i, end);
                let ghost after = start + chunk@.subrange(0, end as int);
                proof {
                    assert forall|k: int|
                        0 <= k < span@.len() - 1 && #[trigger] span@[k] == lf() implies span@[k
                        + 1] != gt() by {
                        assert(span@[k] == chunk@[i + k]);
                        assert(span@[k + 1] == chunk@[i + k + 1]);
                    }
                    assert(span@[0] == chunk@[i as int]);
                    lemma_sequence_span(parse(before), span@);
                    lemma_run_split(initial_state(), before, span@);
                    assert(before + span@ =~= after);
                    lemma_parse_bounds(after);
                    assert(span@.last() == chunk@[end - 1]);
                }
                if self.started {
                    let (gc, n, seq_chars) = update_stats(span, self.no_simd);
                    self.gc_count = self.gc_count + gc;
                    self.n_count = self.n_count + n;
                    self.current_length = self.current_length + seq_chars;
                    self.total_length = self.total_length + seq_chars;
                }
                self.at_line_start = chunk[end - 1] == 10u8;
                i = end;
                self.fed = fed_before + i;
                self.consumed = Ghost(after);
            }
        }
        assert(chunk@.subrange(0, len as int) =~= chunk@);
    }

    /// The number of bytes fed so far.
    pub fn fed_len(&self) -> (r: usize)
        requires
            self.wf(),
        ensures
            r == self@.len(),
    {
        self.fed
    }

    /// Ends the stream and returns its statistics under the label `filename`.
    pub fn finish(self, filename: &str) -> (r: AnalysisResults)
        requires
            self.wf(),
        ensures
            r.filename@ == filename@,
            describes(r, self@),
    {
        let ghost st = parse(self.consumed@);
        proof {
            lemma_parse_bounds(self.consumed@);
        }
        let mut lengths = self.lengths;
        if self.current_length > 0 {
            let ghost old_lengths = lengths@;
            lengths.push(self.current_length);
            let ghost l = as_ints(lengths@);
            assert(l =~= as_ints(old_lengths).push(self.current_length as int));
            assert(l.drop_last() =~= st.lengths);
        }
        assert(as_ints(lengths@) == record_lengths(st));
        let mut r = AnalysisResults::new(filename);
        r.sequence_count = self.sequence_count;
        r.gc_count = self.gc_count;
        r.n_count = self.n_count;
        calc_nq_stats(lengths.as_slice(), &mut r);
        r
    }
}

/// The bytes of `chunks`, in order.
pub open spec fn concat(chunks: Seq<Seq<u8>>) -> Seq<u8>
    decreases chunks.len(),
{
    if chunks.len() == 0 {
        Seq::empty()
    } else {
        concat(chunks.drop_last()) + chunks.last()
    }
}

/// The state after feeding `chunks` one after another from `st`.
pub open spec fn run_chunks(st: ParseState, chunks: Seq<Seq<u8>>) -> ParseState
    decreases chunks.len(),
{
    if chunks.len() == 0 {
        st
    } else {
        run(run_chunks(st, chunks.drop_last()), chunks.last())
    }
}

/// Feeding a stream in chunks reaches the same state as feeding it whole,
/// however the chunks are cut.
pub proof fn lemma_chunking_invariant(chunks: Seq<Seq<u8>>)
    ensures
        run_chunks(initial_state(), chunks) == parse(concat(chunks)),
    decreases chunks.len(),
{
    if chunks.len() > 0 {
        lemma_chunking_invariant(chunks.drop_last());
        lemma_run_split(initial_state(), concat(chunks.drop_last()), chunks.last());
    }
}

/// Reads a whole stream and fills in `results`, keeping its label.
pub fn process_reader(data: &[u8], no_simd: bool, results: &mut AnalysisResults)
    ensures
        final(results).filename@ == old(results).filename@,
        describes(*final(results), data@),
{
    // Reading a slice's length makes known that it fits in a usize.
    let _ = data.len();
    let mut parser = Parser::new(no_simd);
    parser.feed(data);
    assert(Seq::<u8>::empty() + data@ =~= data@);
    let r = parser.finish(results.filename.as_str());
    *results = r;
}

/// The statistics of any stream are consistent: composition never exceeds
/// the sequence length, the total is the sum of the record lengths, and a
/// stream without headers has no data, its shortest contig at the sentinel.
pub proof fn lemma_results_consistent(r: AnalysisResults, bytes: Seq<u8>)
    requires
        describes(r, bytes),
    ensures
        r.gc_count + r.n_count <= r.total_length,
        r.total_length == total_of(record_lengths(parse(bytes))),
        r.sequence_count == 0 ==> r.total_length == 0 && r.largest_contig == 0
            && r.shortest_contig == usize::MAX,
{
    let st = parse(bytes);
    lemma_parse_bounds(bytes);
    if st.current_length > 0 {
        assert(record_lengths(st).drop_last() =~= st.lengths);
    }
    if r.sequence_count == 0 {
        let l = record_lengths(st);
        assert(l =~= Seq::<int>::empty());
        let c = contigs(l);
        assert(c =~= Seq::<int>::empty());
        lemma_ascending_total();
        c.lemma_sort_by_ensures(|a: int, b: int| ascending(a, b));
        broadcast use vstd::seq_lib::group_to_multiset_ensures;
        assert(ranked(l).to_multiset().len() == 0);
    }
}

/// Chunks are concatenated one after another.
pub proof fn lemma_concat_append(x: Seq<Seq<u8>>, y: Seq<Seq<u8>>)
    ensures
        concat(x + y) == concat(x) + concat(y),
    decreases y.len(),
{
    if y.len() == 0 {
        assert(x + y =~= x);
        assert(concat(x) + concat(y) =~= concat(x));
    } else {
        lemma_concat_append(x, y.drop_last());
        assert((x + y).drop_last() =~= x + y.drop_last());
        assert(concat(x) + concat(y) =~= concat(x) + concat(y.drop_last()) + y.last());
    }
}

proof fn lemma_concat_single(x: Seq<u8>)
    ensures
        concat(seq![x]) == x,
{
    let c = seq![x];
    assert(c.drop_last() =~= Seq::<Seq<u8>>::empty());
    assert(c.last() == x);
    assert(concat(Seq::<Seq<u8>>::empty()) == Seq::<u8>::empty());
    assert(Seq::<u8>::empty() + x =~= x);
}

/// `bytes` cut into chunks of `k` bytes each, the last possibly shorter.
pub open spec fn chunks_of(bytes: Seq<u8>, k: nat) -> Seq<Seq<u8>>
    decreases bytes.len(),
{
    if bytes.len() == 0 {
        Seq::empty()
    } else if k == 0 || bytes.len() <= k {
        seq![bytes]
    } else {
        seq![bytes.subrange(0, k as int)] + chunks_of(bytes.subrange(k as int, bytes.len() as int), k)
    }
}

/// Feeding a stream in chunks of any fixed size reaches the state of
/// feeding it whole.
pub proof fn lemma_fixed_size_chunks(bytes: Seq<u8>, k: nat)
    ensures
        concat(chunks_of(bytes, k)) == bytes,
        run_chunks(initial_state(), chunks_of(bytes, k)) == parse(bytes),
    decreases bytes.len(),
{
    if bytes.len() == 0 {
        assert(concat(chunks_of(bytes, k)) =~= bytes);
    } else if k == 0 || bytes.len() <= k {
        lemma_concat_single(bytes);
    } else {
        let head = seq![bytes.subrange(0, k as int)];
        let tail = bytes.subrange(k as int, bytes.len() as int);
        lemma_fixed_size_chunks(tail, k);
        lemma_concat_append(head, chunks_of(tail, k));
        lemma_concat_single(bytes.subrange(0, k as int));
        assert(bytes.subrange(0, k as int) + tail =~= bytes);
    }
    lemma_chunking_invariant(chunks_of(bytes, k));
}

/// `b` is `a` with some header text replaced: wherever the two differ, that
/// byte of `a` lies inside a header line, and neither byte is a line feed.
pub open spec fn differ_in_header_text(a: Seq<u8>, b: Seq<u8>) -> bool {
    &&& a.len() == b.len()
    &&& forall|i: int|
        0 <= i < a.len() && #[trigger] a[i] != b[i] ==> parse(a.subrange(0, i)).in_header
            && a[i] != lf() && b[i] != lf()
}

proof fn lemma_header_text_prefix(a: Seq<u8>, b: Seq<u8>, n: int)
    requires
        differ_in_header_text(a, b),
        0 <= n <= a.len(),
    ensures
        parse(a.subrange(0, n)) == parse(b.subrange(0, n)),
    decreases n,
{
    if n == 0 {
        assert(a.subrange(0, 0) =~= b.subrange(0, 0));
    } else {
        lemma_header_text_prefix(a, b, n - 1);
        let pa = a.subrange(0, n);
        let pb = b.subrange(0, n);
        assert(pa.drop_last() =~= a.subrange(0, n - 1));
        assert(pb.drop_last() =~= b.subrange(0, n - 1));
        assert(pa.last() == a[n - 1]);
        assert(pb.last() == b[n - 1]);
    }
}

/// Header text is never classified: replacing it changes no statistic.
pub proof fn lemma_header_text_ignored(a: Seq<u8>, b: Seq<u8>)
    requires
        differ_in_header_text(a, b),
    ensures
        parse(a) == parse(b),
{
    lemma_header_text_prefix(a, b, a.len() as int);
    assert(a.subrange(0, a.len() as int) =~= a);
    assert(b.subrange(0, b.len() as int) =~= b);
}

pub open spec fn cr() -> u8 {
    13u8
}

/// `b` is `a` with a carriage return put before any number of its line feeds.
pub open spec fn crlf_variant(a: Seq<u8>, b: Seq<u8>) -> bool
    decreases b.len(),
{
    if b.len() == 0 {
        a.len() == 0
    } else if a.len() == 0 {
        false
    } else if b.len() >= 2 && b.last() == lf() && b[b.len() - 2] == cr() && a.last() == lf()
        && crlf_variant(a.drop_last(), b.drop_last().drop_last()) {
        true
    } else {
        a.last() == b.last() && crlf_variant(a.drop_last(), b.drop_last())
    }
}

proof fn lemma_crlf_run(st: ParseState, a: Seq<u8>, b: Seq<u8>)
    requires
        crlf_variant(a, b),
    ensures
        run(st, a) == run(st, b),
    decreases b.len(),
{
    if b.len() == 0 {
    } else if b.len() >= 2 && b.last() == lf() && b[b.len() - 2] == cr() && a.last() == lf()
        && crlf_variant(a.drop_last(), b.drop_last().drop_last()) {
        let b1 = b.drop_last();
        let b2 = b1.drop_last();
        lemma_crlf_run(st, a.drop_last(), b2);
        assert(b1.last() == cr());
        let s = run(st, b2);
        assert(run(st, b1) == step(s, cr()));
        assert(step(step(s, cr()), lf()) == step(s, lf()));
    } else {
        lemma_crlf_run(st, a.drop_last(), b.drop_last());
    }
}

/// Line endings do not matter: CRLF and LF, mixed in any way, give the
/// same statistics.
pub proof fn lemma_line_endings_agree(a: Seq<u8>, b: Seq<u8>)
    requires
        crlf_variant(a, b),
    ensures
        parse(a) == parse(b),
{
    lemma_crlf_run(initial_state(), a, b);
}

} // verus!
