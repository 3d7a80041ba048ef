//! Choosing the adapter for a stream, collecting per-stream outcomes, and
//! sizing the worker pool.

use vstd::prelude::*;
use crate::archive::{process_zip_file, zip_listing, zip_outcome};
use crate::formats::{
    bgzf_decoded, bzip2_decoded, decoded_outcome, gzip_decoded, is_single_result,
    process_bgzip_file, process_bz2_file, process_fasta_file, process_gz_file, process_xz_file,
    xz_decoded, StreamError,
};
use crate::stats::AnalysisResults;

verus! {

/// The byte container a stream arrives in.
#[derive(Clone, Copy, Debug, PartialEq, Eq, Structural)]
pub enum Format {
    Plain,
    Gzip,
    Xz,
    Bzip2,
    Bgzip,
    Zip,
}

/// The outcome owed for the stream labelled `name` of format `format`
/// whose bytes are `data`.
pub open spec fn stream_outcome(r: Vec<Result<AnalysisResults, StreamError>>, name: Seq<char>, format: Format, data: Seq<u8>) -> bool {
    match format {
        Format::Plain => is_single_result(r, name, data),
        Format::Gzip => decoded_outcome(r, name, gzip_decoded(data)),
        Format::Xz => decoded_outcome(r, name, xz_decoded(data)),
        Format::Bzip2 => decoded_outcome(r, name, bzip2_decoded(data)),
        Format::Bgzip => decoded_outcome(r, name, bgzf_decoded(data)),
        Format::Zip => zip_outcome(r, name, zip_listing(data)),
    }
}

/// Statistics of one stream through the adapter for its format.
pub fn process_stream(filename: &str, format: Format, data: &[u8], no_simd: bool) -> (r: Vec<Result<AnalysisResults, StreamError>>)
    ensures
        stream_outcome(r, filename@, format, data@),
{
    match format {
        Format::Plain => process_fasta_file(filename, data, no_simd),
        Format::Gzip => process_gz_file(filename, data, no_simd),
        Format::Xz => process_xz_file(filename, data, no_simd),
        Format::Bzip2 => process_bz2_file(filename, data, no_simd),
        Format::Bgzip => process_bgzip_file(filename, data, no_simd),
        Format::Zip => process_zip_file(filename, data, no_simd),
    }
}

/// The outcomes of a batch, file after file.
pub open spec fn flatten(outcomes: Seq<Vec<Result<AnalysisResults, StreamError>>>) -> Seq<Result<AnalysisResults, StreamError>>
    decreases outcomes.len(),
{
    if outcomes.len() == 0 {
        Seq::empty()
    } else {
        flatten(outcomes.drop_last()) + outcomes.last()@
    }
}

/// The results of all streams that succeeded, in order.
pub open spec fn ok_results(outcomes: Seq<Result<AnalysisResults, StreamError>>) -> Seq<AnalysisResults>
    decreases outcomes.len(),
{
    if outcomes.len() == 0 {
        Seq::empty()
    } else {
        let rest = ok_results(outcomes.drop_last());
        match outcomes.last() {
            Ok(r) => rest.push(r),
            Err(_) => rest,
        }
    }
}

/// The errors of all streams that failed, in order.
pub open spec fn errors_of(outcomes: Seq<Result<AnalysisResults, StreamError>>) -> Seq<StreamError>
    decreases outcomes.len(),
{
    if outcomes.len() == 0 {
        Seq::empty()
    } else {
        let rest = errors_of(outcomes.drop_last());
        match outcomes.last() {
            Ok(_) => rest,
            Err(e) => rest.push(e),
        }
    }
}

/// The statistics of a batch of streams, and the failures.
pub struct BatchReport {
    pub results: Vec<AnalysisResults>,
    pub errors: Vec<StreamError>,
}

/// Collects the outcomes of a batch, given file by file: each failed stream
/// gives one error and no result; the others give their results untouched.
pub fn collect_outcomes(outcomes: Vec<Vec<Result<AnalysisResults, StreamError>>>) -> (r: BatchReport)
    ensures
        r.results@ == ok_results(flatten(outcomes@)),
        r.errors@ == errors_of(flatten(outcomes@)),
{
    let ghost files = outcomes@;
    let mut all: Vec<Result<AnalysisResults, StreamError>> = Vec::new();
    let mut rest = outcomes;
    let mut k: usize = 0;
    let n = rest.len();
    assert(files.subrange(0, 0) =~= Seq::<Vec<Result<AnalysisResults, StreamError>>>::empty());
    while k < n
        invariant
            n == files.len(),
            k <= n,
            rest@ == files.subrange(k as int, n as int),
            all@ == flatten(files.subrange(0, k as int)),
        decreases n - k,
    {
        let mut file = rest.remove(0);
        assert(file == files[k as int]);
        assert(rest@ =~= files.subrange(k + 1, n as int));
        assert(files.subrange(0, k + 1).drop_last() =~= files.subrange(0, k as int));
        all.append(&mut file);
        k = k + 1;
    }
    assert(files.subrange(0, n as int) =~= files);
    let ghost flat = all@;
    let mut results: Vec<AnalysisResults> = Vec::new();
    let mut errors: Vec<StreamError> = Vec::new();
    let mut i: usize = 0;
    let m = all.len();
    assert(flat.subrange(0, 0) =~= Seq::<Result<AnalysisResults, StreamError>>::empty());
    while i < m
        invariant
            m == flat.len(),
            i <= m,
            all@ == flat.subrange(i as int, m as int),
            results@ == ok_results(flat.subrange(0, i as int)),
            errors@ == errors_of(flat.subrange(0, i as int)),
        decreases m - i,
    {
        let outcome = all.remove(0);
        assert(outcome == flat[i as int]);
        assert(all@ =~= flat.subrange(i + 1, m as int));
        assert(flat.subrange(0, i + 1).drop_last() =~= flat.subrange(0, i as int));
        match outcome {
            Ok(r) => results.push(r),
            Err(e) => errors.push(e),
        }
        i = i + 1;
    }
    assert(flat.subrange(0, m as int) =~= flat);
    BatchReport { results, errors }
}

/// The usable concurrency: about 90% of the logical CPUs and about 75% of
/// the physical cores, each rounded to the nearest integer (halves up),
/// whichever is larger.
pub open spec fn usable_threads(logical: int, physical: int) -> int {
    let from_logical = (9 * logical + 5) / 10;
    let from_physical = (3 * physical + 2) / 4;
    if from_logical >= from_physical {
        from_logical
    } else {
        from_physical
    }
}

/// The worker count: an explicit request as given; else the usable
/// concurrency, no more than there are streams and at least one.
pub open spec fn worker_count(streams: int, threads: Option<usize>, logical: int, physical: int) -> int {
    match threads {
        Some(t) => t as int,
        None => {
            let usable = usable_threads(logical, physical);
            let capped = if usable <= streams {
                usable
            } else {
                streams
            };
            if capped >= 1 {
                capped
            } else {
                1
            }
        },
    }
}

/// The worker count for `streams` streams on a machine with `logical`
/// logical CPUs and `physical` physical cores.
pub fn threads_for(streams: usize, threads: Option<usize>, logical: usize, physical: usize) -> (r: usize)
    ensures
        r == worker_count(streams as int, threads, logical as int, physical as int),
{
    match threads {
        Some(t) => t,
        None => {
            let from_logical = ((logical as u128) * 9 + 5) / 10;
            let from_physical = ((physical as u128) * 3 + 2) / 4;
            let usable = if from_logical >= from_physical {
                from_logical
            } else {
                from_physical
            };
            let capped = if usable <= streams as u128 {
                usable as usize
            } else {
                streams
            };
            if capped >= 1 {
                capped
            } else {
                1
            }
        },
    }
}

/// Relies on num_cpus::get: the logical CPUs this process may use, at
/// least one.
#[verifier::external_body]
fn logical_cpus() -> (r: usize)
    ensures
        r >= 1,
{
    num_cpus::get()
}

/// Relies on num_cpus::get_physical: the physical cores of the machine.
#[verifier::external_body]
fn physical_cpus() -> (r: usize) {
    num_cpus::get_physical()
}

/// The worker count for `streams` streams on this machine.
pub fn determine_threads(streams: usize, threads: Option<usize>) -> (r: usize)
    ensures
        threads is Some ==> r == threads->0,
        threads is None ==> 1 <= r && (streams >= 1 ==> r <= streams),
{
    let logical = logical_cpus();
    let physical = physical_cpus();
    threads_for(streams, threads, logical, physical)
}

/// Chunk size for buffered reads when none is requested: 2 MiB.
pub const DEFAULT_BUFFER_SIZE: usize = 2 * 1024 * 1024;

/// Largest chunk size for buffered reads: 5 MiB.
pub const MAX_BUFFER_SIZE: usize = 5 * 1024 * 1024;

/// The chunk size for buffered reads: the requested size, or the default
/// where none was given, clamped to between one byte and the maximum.
pub fn buffer_size_from(requested: Option<usize>) -> (r: usize)
    ensures
        r == match requested {
            Some(n) => if n > MAX_BUFFER_SIZE {
                MAX_BUFFER_SIZE
            } else if n == 0 {
                1
            } else {
                n
            },
            None => DEFAULT_BUFFER_SIZE,
        },
{
    match requested {
        Some(n) => if n > MAX_BUFFER_SIZE {
            MAX_BUFFER_SIZE
        } else if n == 0 {
            1
        } else {
            n
        },
        None => DEFAULT_BUFFER_SIZE,
    }
}

/// Streams are isolated: the results and errors of a batch are those of
/// any two parts of it, one after the other, so no stream's outcome changes
/// what another contributes.
pub proof fn lemma_outcomes_isolated(
    a: Seq<Result<AnalysisResults, StreamError>>,
    b: Seq<Result<AnalysisResults, StreamError>>,
)
    ensures
        ok_results(a + b) == ok_results(a) + ok_results(b),
        errors_of(a + b) == errors_of(a) + errors_of(b),
    decreases b.len(),
{
    if b.len() == 0 {
        assert(a + b =~= a);
        assert(ok_results(a) + ok_results(b) =~= ok_results(a));
        assert(errors_of(a) + errors_of(b) =~= errors_of(a));
    } else {
        lemma_outcomes_isolated(a, b.drop_last());
        assert((a + b).drop_last() =~= a + b.drop_last());
        assert((a + b).last() == b.last());
        match b.last() {
            Ok(r) => {
                assert(ok_results(a) + ok_results(b) =~= (ok_results(a) + ok_results(b.drop_last())).push(r));
            },
            Err(e) => {
                assert(errors_of(a) + errors_of(b) =~= (errors_of(a) + errors_of(b.drop_last())).push(e));
            },
        }
    }
}

/// A failed stream contributes exactly one error and no result.
pub proof fn lemma_failure_contributes_one_error(e: StreamError)
    ensures
        ok_results(seq![Err::<AnalysisResults, StreamError>(e)]) == Seq::<AnalysisResults>::empty(),
        errors_of(seq![Err::<AnalysisResults, StreamError>(e)]) == seq![e],
{
    let s = seq![Err::<AnalysisResults, StreamError>(e)];
    let empty = Seq::<Result<AnalysisResults, StreamError>>::empty();
    assert(s.drop_last() =~= empty);
    assert(s.last() == Err::<AnalysisResults, StreamError>(e));
    assert(ok_results(empty) == Seq::<AnalysisResults>::empty());
    assert(errors_of(empty) == Seq::<StreamError>::empty());
    assert(errors_of(s) == Seq::<StreamError>::empty().push(e));
    assert(Seq::<StreamError>::empty().push(e) =~= seq![e]);
}

} // verus!
