use std::borrow::Cow;
use std::io::{Cursor, Write};

use count_fasta::archive::{is_fasta_name, process_zip_file};
use count_fasta::formats::{
    naf_results, process_bgzip_file, process_bz2_file, process_fasta_file, process_gz_file,
    process_naf_file, process_xz_file, ErrorKind, NafRecord, StreamError,
};
use count_fasta::orchestrate::{
    buffer_size_from, collect_outcomes, determine_threads, process_stream, threads_for, Format,
    DEFAULT_BUFFER_SIZE, MAX_BUFFER_SIZE,
};
use count_fasta::stats::AnalysisResults;

const FASTA: &[u8] = b">a\nACGTNN\n>b\nGGCC\n";

fn only_result(v: Vec<Result<AnalysisResults, StreamError>>) -> AnalysisResults {
    assert_eq!(v.len(), 1);
    v.into_iter().next().unwrap().unwrap()
}

fn only_error(v: Vec<Result<AnalysisResults, StreamError>>) -> StreamError {
    assert_eq!(v.len(), 1);
    v.into_iter().next().unwrap().unwrap_err()
}

fn is_failure(v: &[Result<AnalysisResults, StreamError>]) -> bool {
    v.len() == 1 && v[0].is_err()
}

fn check_fasta_stats(r: &AnalysisResults, name: &str) {
    assert_eq!(r.filename, name);
    assert_eq!(r.sequence_count, 2);
    assert_eq!(r.total_length, 10);
    assert_eq!(r.gc_count, 6);
    assert_eq!(r.n_count, 2);
    assert_eq!(r.largest_contig, 6);
    assert_eq!(r.shortest_contig, 4);
}

fn gzip(data: &[u8]) -> Vec<u8> {
    let mut e = flate2::write::GzEncoder::new(Vec::new(), flate2::Compression::default());
    e.write_all(data).unwrap();
    e.finish().unwrap()
}

#[test]
fn plain_stream() {
    let r = only_result(process_fasta_file("a.fa", FASTA, false));
    check_fasta_stats(&r, "a.fa");
}

#[test]
fn gzip_stream_is_decoded() {
    let r = only_result(process_gz_file("a.fa.gz", &gzip(FASTA), false));
    check_fasta_stats(&r, "a.fa.gz");
}

#[test]
fn corrupt_gzip_is_an_error() {
    let e = only_error(process_gz_file("bad.gz", b"not gzip at all", false));
    assert_eq!(e.kind, ErrorKind::Corrupt);
    assert_eq!(e.stream, "bad.gz");
    let mut truncated = gzip(FASTA);
    truncated.truncate(truncated.len() / 2);
    assert!(is_failure(&process_gz_file("cut.gz", &truncated, false)));
}

#[test]
fn xz_stream_is_decoded() {
    let mut e = liblzma::write::XzEncoder::new(Vec::new(), 6);
    e.write_all(FASTA).unwrap();
    let data = e.finish().unwrap();
    let r = only_result(process_xz_file("a.fa.xz", &data, true));
    check_fasta_stats(&r, "a.fa.xz");
    assert!(is_failure(&process_xz_file("a.xz", FASTA, true)));
}

#[test]
fn bzip2_stream_is_decoded() {
    let mut e = bzip2::write::BzEncoder::new(Vec::new(), bzip2::Compression::default());
    e.write_all(FASTA).unwrap();
    let data = e.finish().unwrap();
    let r = only_result(process_bz2_file("a.fa.bz2", &data, false));
    check_fasta_stats(&r, "a.fa.bz2");
    assert!(is_failure(&process_bz2_file("a.bz2", FASTA, false)));
}

#[test]
fn bgzip_stream_is_decoded() {
    let mut w = noodles_bgzf::io::Writer::new(Vec::new());
    w.write_all(FASTA).unwrap();
    let data = w.finish().unwrap();
    let r = only_result(process_bgzip_file("a.fa.bgz", &data, false));
    check_fasta_stats(&r, "a.fa.bgz");
    assert!(is_failure(&process_bgzip_file("a.bgz", FASTA, false)));
}

#[test]
fn zip_members_are_separate_streams() {
    let mut w = zip::ZipWriter::new(Cursor::new(Vec::new()));
    let opts = zip::write::SimpleFileOptions::default();
    w.start_file("dir/one.fa", opts).unwrap();
    w.write_all(FASTA).unwrap();
    w.start_file("notes.txt", opts).unwrap();
    w.write_all(b">x\nGGGG\n").unwrap();
    w.start_file("two.fasta", opts).unwrap();
    w.write_all(b">z\nNNNN\n").unwrap();
    let data = w.finish().unwrap().into_inner();
    let v = process_zip_file("all.zip", &data, false);
    assert_eq!(v.len(), 2);
    check_fasta_stats(v[0].as_ref().unwrap(), "one.fa");
    let two = v[1].as_ref().unwrap();
    assert_eq!(two.filename, "two.fasta");
    assert_eq!(two.n_count, 4);
    assert_eq!(two.total_length, 4);
    let e = only_error(process_zip_file("bad.zip", FASTA, false));
    assert_eq!(e.kind, ErrorKind::Corrupt);
    assert_eq!(e.stream, "bad.zip");
}

#[test]
fn unreadable_zip_member_is_reported() {
    let mut w = zip::ZipWriter::new(Cursor::new(Vec::new()));
    let stored = zip::write::SimpleFileOptions::default()
        .compression_method(zip::CompressionMethod::Stored);
    w.start_file("good.fna", stored).unwrap();
    w.write_all(b">g\nACGT\n").unwrap();
    w.start_file("sub/broken.fa", stored).unwrap();
    w.write_all(b">b\nQQQQQQQQ\n").unwrap();
    let mut data = w.finish().unwrap().into_inner();
    // Damage the stored bytes of the second member so its checksum fails.
    let at = data.windows(8).position(|x| x == b"QQQQQQQQ").unwrap();
    data[at] = b'R';
    let v = process_zip_file("mixed.zip", &data, false);
    assert_eq!(v.len(), 2);
    let good = v[0].as_ref().unwrap();
    assert_eq!(good.filename, "good.fna");
    assert_eq!(good.total_length, 4);
    let e = v[1].as_ref().unwrap_err();
    assert_eq!(e.stream, "broken.fa");
    assert_eq!(e.kind, ErrorKind::Corrupt);
}

#[test]
fn fasta_member_names() {
    assert!(is_fasta_name("x.fa"));
    assert!(is_fasta_name("x.fasta"));
    assert!(is_fasta_name("dir/x.fna"));
    assert!(!is_fasta_name("x.fq"));
    assert!(!is_fasta_name("a"));
    assert!(!is_fasta_name(""));
}

#[test]
fn naf_archive_is_decoded() {
    let mut enc = nafcodec::EncoderBuilder::new(nafcodec::SequenceType::Dna)
        .sequence(true)
        .with_memory()
        .unwrap();
    let records = [("ACGTACGTGG", 10u64), ("GCNN", 4u64)];
    for (seq, len) in records {
        let rec = nafcodec::Record {
            sequence: Some(Cow::from(seq)),
            length: Some(len),
            ..Default::default()
        };
        enc.push(&rec).unwrap();
    }
    let mut data = Vec::new();
    enc.write(&mut data).unwrap();
    let decoded: Vec<NafRecord> = nafcodec::DecoderBuilder::new()
        .id(false)
        .comment(false)
        .quality(false)
        .with_bytes(&data)
        .unwrap()
        .map(|rec| {
            let rec = rec.unwrap();
            NafRecord {
                length: rec.length,
                sequence: rec.sequence.map(|s| s.into_owned().into_bytes()),
            }
        })
        .collect();
    let r = &only_result(process_naf_file("x.naf", Some(decoded), false));
    assert_eq!(r.filename, "x.naf");
    assert_eq!(r.sequence_count, 2);
    assert_eq!(r.total_length, 14);
    assert_eq!(r.gc_count, 8);
    assert_eq!(r.n_count, 2);
    assert_eq!(r.largest_contig, 10);
    assert_eq!(r.shortest_contig, 4);
    assert!(is_failure(&process_naf_file("bad.naf", None, false)));
    let incomplete = vec![NafRecord { length: Some(2), sequence: None }];
    assert!(is_failure(&process_naf_file("inc.naf", Some(incomplete), false)));
}

#[test]
fn naf_records_are_summarised() {
    let records = vec![
        NafRecord { length: Some(5), sequence: Some(b"GGNNA".to_vec()) },
        NafRecord { length: Some(0), sequence: Some(Vec::new()) },
        NafRecord { length: Some(3), sequence: Some(b"cga".to_vec()) },
    ];
    let r = naf_results("n.naf", &records, false).unwrap();
    assert_eq!(r.sequence_count, 3);
    assert_eq!(r.total_length, 8);
    assert_eq!(r.gc_count, 4);
    assert_eq!(r.n_count, 2);
    assert_eq!(r.largest_contig, 5);
    assert_eq!(r.shortest_contig, 3);
    let missing = vec![NafRecord { length: None, sequence: Some(b"A".to_vec()) }];
    assert_eq!(naf_results("m.naf", &missing, false).unwrap_err().kind, ErrorKind::Corrupt);
    let no_seq = vec![NafRecord { length: Some(1), sequence: None }];
    assert!(naf_results("m.naf", &no_seq, false).is_err());
}

#[test]
fn one_corrupt_stream_does_not_affect_the_others() {
    let outcomes = vec![
        process_stream("good1.fa", Format::Plain, FASTA, false),
        process_stream("bad.gz", Format::Gzip, b"\x1f\x8b corrupt", false),
        process_stream("good2.fa", Format::Plain, b">q\nAT\n", false),
    ];
    assert_eq!(outcomes.len(), 3);
    let report = collect_outcomes(outcomes);
    assert_eq!(report.results.len(), 2);
    assert_eq!(report.errors.len(), 1);
    check_fasta_stats(&report.results[0], "good1.fa");
    assert_eq!(report.results[1].filename, "good2.fa");
    assert_eq!(report.results[1].total_length, 2);
    assert_eq!(report.errors[0].stream, "bad.gz");
    assert_eq!(report.errors[0].kind, ErrorKind::Corrupt);
}

#[test]
fn dispatch_by_format() {
    let gz = gzip(FASTA);
    let r = only_result(process_stream("a.gz", Format::Gzip, &gz, false));
    check_fasta_stats(&r, "a.gz");
    assert!(is_failure(&process_stream("a.xz", Format::Xz, &gz, false)));
    assert!(is_failure(&process_stream("a.zip", Format::Zip, &gz, false)));
}

#[test]
fn worker_counts() {
    assert_eq!(threads_for(10, Some(3), 8, 4), 3);
    // 90% of 8 is 7.2 -> 7; 75% of 4 is 3
    assert_eq!(threads_for(10, None, 8, 4), 7);
    assert_eq!(threads_for(2, None, 8, 4), 2);
    assert_eq!(threads_for(0, None, 8, 4), 1);
    // 90% of 5 is 4.5 -> 5; 75% of 2 is 1.5 -> 2
    assert_eq!(threads_for(100, None, 5, 2), 5);
    assert_eq!(threads_for(100, None, 1, 8), 6);
    let t = determine_threads(4, None);
    assert!(t >= 1 && t <= 4);
    assert_eq!(determine_threads(4, Some(9)), 9);
}

#[test]
fn buffer_sizes() {
    assert_eq!(buffer_size_from(None), DEFAULT_BUFFER_SIZE);
    assert_eq!(DEFAULT_BUFFER_SIZE, 2 * 1024 * 1024);
    assert_eq!(buffer_size_from(Some(4096)), 4096);
    assert_eq!(buffer_size_from(Some(usize::MAX)), MAX_BUFFER_SIZE);
    assert_eq!(buffer_size_from(Some(0)), 1);
}
