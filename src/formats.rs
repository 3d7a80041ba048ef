//! The containers a FASTA stream may arrive in: plain text, gzip, xz,
//! bzip2 and BGZF, decoded by the codec libraries and then parsed; and
//! nucleotide archives (NAF), summarised from their decoded records.
//! Each function gives one outcome per stream.

use std::io::Read;
use vstd::prelude::*;
use crate::classify::{gc_in, lemma_counts_bounded, n_in, update_stats};
use crate::parser::{describes, process_reader};
use crate::stats::{as_ints, calc_nq_stats, total_of, AnalysisResults};

verus! {

/// Why a stream gave no statistics.
#[derive(Clone, Copy, Debug, PartialEq, Eq, Structural)]
pub enum ErrorKind {
    /// The stream could not be opened or read.
    Unavailable,
    /// The container or codec data is corrupt or truncated.
    Corrupt,
}

/// A failure of one stream, with the stream's label.
#[derive(Clone, Debug)]
pub struct StreamError {
    pub stream: String,
    pub kind: ErrorKind,
}

impl StreamError {
    pub fn new(stream: &str, kind: ErrorKind) -> (e: StreamError)
        ensures
            e.stream@ == stream@,
            e.kind == kind,
    {
        StreamError { stream: stream.to_owned(), kind }
    }
}

/// `r` is the error `kind` of the stream labelled `name`.
pub open spec fn is_error(r: Vec<Result<AnalysisResults, StreamError>>, name: Seq<char>, kind: ErrorKind) -> bool {
    &&& r@.len() == 1
    &&& r@[0] is Err
    &&& r@[0]->Err_0.stream@ == name
    &&& r@[0]->Err_0.kind == kind
}

/// `r` is the one result of the stream labelled `name` whose bytes are `bytes`.
pub open spec fn is_single_result(r: Vec<Result<AnalysisResults, StreamError>>, name: Seq<char>, bytes: Seq<u8>) -> bool {
    &&& r@.len() == 1
    &&& r@[0] is Ok
    &&& r@[0]->Ok_0.filename@ == name
    &&& describes(r@[0]->Ok_0, bytes)
}

/// The outcome for a stream whose decoder gave `decoded`: its statistics,
/// or a corruption error if decoding failed.
pub open spec fn decoded_outcome(r: Vec<Result<AnalysisResults, StreamError>>, name: Seq<char>, decoded: Option<Seq<u8>>) -> bool {
    match decoded {
        Some(bytes) => is_single_result(r, name, bytes),
        None => is_error(r, name, ErrorKind::Corrupt),
    }
}

pub open spec fn bytes_of(v: Option<Vec<u8>>) -> Option<Seq<u8>> {
    match v {
        Some(b) => Some(b@),
        None => None,
    }
}

/// Statistics of a stream of plain FASTA text.
pub fn process_fasta_file(filename: &str, data: &[u8], no_simd: bool) -> (r: Vec<Result<AnalysisResults, StreamError>>)
    ensures
        is_single_result(r, filename@, data@),
{
    let mut results = AnalysisResults::new(filename);
    process_reader(data, no_simd, &mut results);
    let mut v = Vec::new();
    v.push(Ok(results));
    v
}

/// Statistics of a stream from its decoder's output, or a corruption error
/// where the decoder failed.
pub fn process_decoded(filename: &str, decoded: Option<Vec<u8>>, no_simd: bool) -> (r: Vec<Result<AnalysisResults, StreamError>>)
    ensures
        decoded_outcome(r, filename@, bytes_of(decoded)),
{
    match decoded {
        Some(bytes) => process_fasta_file(filename, bytes.as_slice(), no_simd),
        None => {
            let mut v = Vec::new();
            v.push(Err(StreamError::new(filename, ErrorKind::Corrupt)));
            v
        },
    }
}

/// What a gzip decoder reads from `data`, or `None` where it fails.
pub uninterp spec fn gzip_decoded(data: Seq<u8>) -> Option<Seq<u8>>;

/// What an xz decoder reads from `data`, or `None` where it fails.
pub uninterp spec fn xz_decoded(data: Seq<u8>) -> Option<Seq<u8>>;

/// What a bzip2 decoder reads from `data`, or `None` where it fails.
pub uninterp spec fn bzip2_decoded(data: Seq<u8>) -> Option<Seq<u8>>;

/// What a BGZF decoder reads from `data`, or `None` where it fails.
pub uninterp spec fn bgzf_decoded(data: Seq<u8>) -> Option<Seq<u8>>;

/// Relies on flate2::read::GzDecoder: reading it to the end decodes one
/// gzip member; the outcome depends on the input bytes alone.
#[verifier::external_body]
fn decode_gzip(data: &[u8]) -> (r: Option<Vec<u8>>)
    ensures
        bytes_of(r) == gzip_decoded(data@),
{
    let mut out = Vec::new();
    match flate2::read::GzDecoder::new(data).read_to_end(&mut out) {
        Ok(_) => Some(out),
        Err(_) => None,
    }
}

/// Relies on liblzma::read::XzDecoder: reading it to the end decodes one
/// xz stream; the outcome depends on the input bytes alone.
#[verifier::external_body]
fn decode_xz(data: &[u8]) -> (r: Option<Vec<u8>>)
    ensures
        bytes_of(r) == xz_decoded(data@),
{
    let mut out = Vec::new();
    match liblzma::read::XzDecoder::new(data).read_to_end(&mut out) {
        Ok(_) => Some(out),
        Err(_) => None,
    }
}

/// Relies on bzip2::read::BzDecoder: reading it to the end decodes one
/// bzip2 stream; the outcome depends on the input bytes alone.
#[verifier::external_body]
fn decode_bzip2(data: &[u8]) -> (r: Option<Vec<u8>>)
    ensures
        bytes_of(r) == bzip2_decoded(data@),
{
    let mut out = Vec::new();
    match bzip2::read::BzDecoder::new(data).read_to_end(&mut out) {
        Ok(_) => Some(out),
        Err(_) => None,
    }
}

/// Relies on noodles_bgzf::io::Reader: reading it to the end inflates all
/// BGZF blocks; the outcome depends on the input bytes alone.
#[verifier::external_body]
fn decode_bgzf(data: &[u8]) -> (r: Option<Vec<u8>>)
    ensures
        bytes_of(r) == bgzf_decoded(data@),
{
    let mut out = Vec::new();
    match noodles_bgzf::io::Reader::new(data).read_to_end(&mut out) {
        Ok(_) => Some(out),
        Err(_) => None,
    }
}

/// Statistics of a gzip-compressed stream.
pub fn process_gz_file(filename: &str, data: &[u8], no_simd: bool) -> (r: Vec<Result<AnalysisResults, StreamError>>)
    ensures
        decoded_outcome(r, filename@, gzip_decoded(data@)),
{
    process_decoded(filename, decode_gzip(data), no_simd)
}

/// Statistics of an xz-compressed stream.
pub fn process_xz_file(filename: &str, data: &[u8], no_simd: bool) -> (r: Vec<Result<AnalysisResults, StreamError>>)
    ensures
        decoded_outcome(r, filename@, xz_decoded(data@)),
{
    process_decoded(filename, decode_xz(data), no_simd)
}

/// Statistics of a bzip2-compressed stream.
pub fn process_bz2_file(filename: &str, data: &[u8], no_simd: bool) -> (r: Vec<Result<AnalysisResults, StreamError>>)
    ensures
        decoded_outcome(r, filename@, bzip2_decoded(data@)),
{
    process_decoded(filename, decode_bzip2(data), no_simd)
}

/// Statistics of a block-gzip (BGZF) stream.
pub fn process_bgzip_file(filename: &str, data: &[u8], no_simd: bool) -> (r: Vec<Result<AnalysisResults, StreamError>>)
    ensures
        decoded_outcome(r, filename@, bgzf_decoded(data@)),
{
    process_decoded(filename, decode_bgzf(data), no_simd)
}

/// One record of a nucleotide archive: its declared length and its sequence
/// text, where the archive holds them.
#[derive(Clone, Debug)]
pub struct NafRecord {
    pub length: Option<u64>,
    pub sequence: Option<Vec<u8>>,
}

impl View for NafRecord {
    type V = (Option<u64>, Option<Seq<u8>>);

    open spec fn view(&self) -> (Option<u64>, Option<Seq<u8>>) {
        (self.length, bytes_of(self.sequence))
    }
}

/// The records of an archive as decoded, or `None` where decoding failed.
pub open spec fn records_view(v: Option<Vec<NafRecord>>) -> Option<Seq<(Option<u64>, Option<Seq<u8>>)>> {
    match v {
        Some(rs) => Some(rs@.map_values(|r: NafRecord| r@)),
        None => None,
    }
}

/// Every record declares its length and carries its sequence.
pub open spec fn naf_complete(rs: Seq<(Option<u64>, Option<Seq<u8>>)>) -> bool {
    forall|i: int| 0 <= i < rs.len() ==> (#[trigger] rs[i]).0 is Some && rs[i].1 is Some
}

/// The declared record lengths.
pub open spec fn naf_lengths(rs: Seq<(Option<u64>, Option<Seq<u8>>)>) -> Seq<int> {
    rs.map_values(|r: (Option<u64>, Option<Seq<u8>>)| r.0->0 as int)
}

/// GC bytes over all record sequences.
pub open spec fn naf_gc(rs: Seq<(Option<u64>, Option<Seq<u8>>)>) -> int
    decreases rs.len(),
{
    if rs.len() == 0 {
        0
    } else {
        naf_gc(rs.drop_last()) + gc_in(rs.last().1->0)
    }
}

/// N bytes over all record sequences.
pub open spec fn naf_n(rs: Seq<(Option<u64>, Option<Seq<u8>>)>) -> int
    decreases rs.len(),
{
    if rs.len() == 0 {
        0
    } else {
        naf_n(rs.drop_last()) + n_in(rs.last().1->0)
    }
}

/// The records can be summarised: all complete, and every sum fits a `usize`.
pub open spec fn naf_summable(rs: Seq<(Option<u64>, Option<Seq<u8>>)>) -> bool {
    &&& naf_complete(rs)
    &&& total_of(naf_lengths(rs)) <= usize::MAX
    &&& naf_gc(rs) <= usize::MAX
    &&& naf_n(rs) <= usize::MAX
}

/// `r` summarises the records `rs` under the label `name`: lengths come
/// from the archive, composition from the classifier.
pub open spec fn summarises(r: AnalysisResults, name: Seq<char>, rs: Seq<(Option<u64>, Option<Seq<u8>>)>) -> bool {
    &&& r.filename@ == name
    &&& r.sequence_count == rs.len()
    &&& r.gc_count == naf_gc(rs)
    &&& r.n_count == naf_n(rs)
    &&& r.has_rank_stats(naf_lengths(rs))
}

proof fn lemma_naf_prefix(rs: Seq<(Option<u64>, Option<Seq<u8>>)>, i: int)
    requires
        0 <= i <= rs.len(),
        naf_complete(rs),
    ensures
        0 <= naf_gc(rs.subrange(0, i)) <= naf_gc(rs),
        0 <= naf_n(rs.subrange(0, i)) <= naf_n(rs),
        0 <= total_of(naf_lengths(rs.subrange(0, i))) <= total_of(naf_lengths(rs)),
    decreases rs.len(),
{
    if rs.len() > 0 {
        let init = rs.drop_last();
        assert(naf_complete(init)) by {
            assert forall|j: int| 0 <= j < init.len() implies (#[trigger] init[j]).0 is Some
                && init[j].1 is Some by {
                assert(init[j] == rs[j]);
            }
        }
        assert(naf_lengths(rs).drop_last() =~= naf_lengths(init));
        lemma_counts_bounded(rs.last().1->0);
        if i == rs.len() {
            assert(rs.subrange(0, i) =~= rs);
            lemma_naf_prefix(init, init.len() as int);
            assert(init.subrange(0, init.len() as int) =~= init);
        } else {
            lemma_naf_prefix(init, i);
            assert(init.subrange(0, i) =~= rs.subrange(0, i));
        }
    }
}

/// Summarises decoded archive records: a corruption error where a record
/// lacks its length or sequence or the sums overflow, else the statistics.
pub fn naf_results(filename: &str, records: &Vec<NafRecord>, no_simd: bool) -> (r: Result<AnalysisResults, StreamError>)
    ensures
        ({
            let rs = records@.map_values(|x: NafRecord| x@);
            &&& r is Ok <==> naf_summable(rs)
            &&& r is Ok ==> summarises(r->Ok_0, filename@, rs)
            &&& r is Err ==> r->Err_0.stream@ == filename@ && r->Err_0.kind == ErrorKind::Corrupt
        }),
{
    let ghost rs = records@.map_values(|x: NafRecord| x@);
    let mut lengths: Vec<usize> = Vec::new();
    let mut total: usize = 0;
    let mut gc_total: usize = 0;
    let mut n_total: usize = 0;
    let mut i: usize = 0;
    while i < records.len()
        invariant
            i <= records@.len(),
            rs == records@.map_values(|x: NafRecord| x@),
            naf_complete(rs.subrange(0, i as int)),
            as_ints(lengths@) == naf_lengths(rs.subrange(0, i as int)),
            total == total_of(as_ints(lengths@)),
            gc_total == naf_gc(rs.subrange(0, i as int)),
            n_total == naf_n(rs.subrange(0, i as int)),
        decreases records@.len() - i,
    {
        let ghost prefix = rs.subrange(0, i + 1);
        assert(prefix.drop_last() =~= rs.subrange(0, i as int));
        assert(prefix.last() == records@[i as int]@);
        let record = &records[i];
        let length = match record.length {
            Some(l) => l,
            None => {
                assert(!naf_complete(rs)) by {
                    assert(rs[i as int] == records@[i as int]@);
                }
                return Err(StreamError::new(filename, ErrorKind::Corrupt));
            },
        };
        let sequence = match &record.sequence {
            Some(s) => s,
            None => {
                assert(!naf_complete(rs)) by {
                    assert(rs[i as int] == records@[i as int]@);
                }
                return Err(StreamError::new(filename, ErrorKind::Corrupt));
            },
        };
        assert(naf_complete(prefix)) by {
            assert forall|j: int| 0 <= j < prefix.len() implies (#[trigger] prefix[j]).0 is Some
                && prefix[j].1 is Some by {
                if j < i {
                    assert(prefix[j] == rs.subrange(0, i as int)[j]);
                }
            }
        }
        let (gc, n, _seq_chars) = update_stats(sequence.as_slice(), no_simd);
        let ghost l_ints = as_ints(lengths@).push(length as int);
        assert(l_ints =~= naf_lengths(prefix));
        assert(l_ints.drop_last() =~= as_ints(lengths@));
        if length > (usize::MAX - total) as u64 || gc > usize::MAX - gc_total || n > usize::MAX
            - n_total {
            proof {
                if naf_complete(rs) {
                    lemma_naf_prefix(rs, i + 1);
                }
            }
            return Err(StreamError::new(filename, ErrorKind::Corrupt));
        }
        lengths.push(length as usize);
        assert(as_ints(lengths@) =~= l_ints);
        total = total + length as usize;
        gc_total = gc_total + gc;
        n_total = n_total + n;
        i = i + 1;
    }
    assert(rs.subrange(0, i as int) =~= rs);
    let mut results = AnalysisResults::new(filename);
    results.sequence_count = records.len();
    results.gc_count = gc_total;
    results.n_count = n_total;
    calc_nq_stats(lengths.as_slice(), &mut results);
    Ok(results)
}

/// The outcome for a nucleotide archive whose decoder gave `decoded`.
pub open spec fn naf_outcome(r: Vec<Result<AnalysisResults, StreamError>>, name: Seq<char>, decoded: Option<Seq<(Option<u64>, Option<Seq<u8>>)>>) -> bool {
    match decoded {
        Some(rs) if naf_summable(rs) => {
            &&& r@.len() == 1
            &&& r@[0] is Ok
            &&& summarises(r@[0]->Ok_0, name, rs)
        },
        _ => is_error(r, name, ErrorKind::Corrupt),
    }
}

/// Statistics of a nucleotide archive (NAF) from the records its decoder
/// gave: a corruption error where decoding failed or a record is incomplete.
pub fn process_naf_file(filename: &str, records: Option<Vec<NafRecord>>, no_simd: bool) -> (r: Vec<Result<AnalysisResults, StreamError>>)
    ensures
        naf_outcome(r, filename@, records_view(records)),
{
    let mut v = Vec::new();
    match records {
        None => v.push(Err(StreamError::new(filename, ErrorKind::Corrupt))),
        Some(records) => v.push(naf_results(filename, &records, no_simd)),
    }
    v
}

} // verus!
