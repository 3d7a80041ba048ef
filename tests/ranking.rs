use count_fasta::stats::{calc_nq_stats, AnalysisResults};

#[test]
fn n_statistics_of_four_contigs() {
    let mut r = AnalysisResults::new("x");
    calc_nq_stats(&[100, 200, 300, 400], &mut r);
    assert_eq!(r.total_length, 1000);
    assert_eq!(r.largest_contig, 400);
    assert_eq!(r.shortest_contig, 100);
    assert_eq!((r.n25, r.n25_sequence_count), (400, 1));
    assert_eq!((r.n50, r.n50_sequence_count), (300, 2));
    assert_eq!((r.n75, r.n75_sequence_count), (200, 3));
}

#[test]
fn order_of_lengths_does_not_matter() {
    let mut a = AnalysisResults::new("x");
    calc_nq_stats(&[300, 100, 400, 200], &mut a);
    assert_eq!((a.n25, a.n50, a.n75), (400, 300, 200));
    assert_eq!((a.n25_sequence_count, a.n50_sequence_count, a.n75_sequence_count), (1, 2, 3));
}

#[test]
fn zero_lengths_are_left_out() {
    let mut r = AnalysisResults::new("x");
    calc_nq_stats(&[0, 5, 0, 3, 0], &mut r);
    assert_eq!(r.total_length, 8);
    assert_eq!(r.largest_contig, 5);
    assert_eq!(r.shortest_contig, 3);
    assert_eq!((r.n50, r.n50_sequence_count), (5, 1));
    assert_eq!((r.n75, r.n75_sequence_count), (3, 2));
}

#[test]
fn no_lengths_leave_the_sentinel() {
    let mut r = AnalysisResults::new("x");
    r.gc_count = 7;
    r.sequence_count = 2;
    calc_nq_stats(&[], &mut r);
    assert_eq!(r.total_length, 0);
    assert_eq!(r.largest_contig, 0);
    assert_eq!(r.shortest_contig, usize::MAX);
    assert_eq!((r.n50, r.n50_sequence_count), (0, 0));
    assert_eq!(r.gc_count, 7);
    assert_eq!(r.sequence_count, 2);
    assert_eq!(r.filename, "x");
}

#[test]
fn equal_lengths_across_thresholds() {
    let mut r = AnalysisResults::new("x");
    calc_nq_stats(&[10, 10, 10, 10, 1], &mut r);
    assert_eq!(r.total_length, 41);
    // thresholds 10, 20, 30
    assert_eq!((r.n25, r.n25_sequence_count), (10, 1));
    assert_eq!((r.n50, r.n50_sequence_count), (10, 2));
    assert_eq!((r.n75, r.n75_sequence_count), (10, 3));
}

#[test]
fn tiny_total_reaches_at_first_contig() {
    let mut r = AnalysisResults::new("x");
    calc_nq_stats(&[1, 1, 1], &mut r);
    assert_eq!((r.n25, r.n25_sequence_count), (1, 1));
    assert_eq!((r.n50, r.n50_sequence_count), (1, 1));
    assert_eq!((r.n75, r.n75_sequence_count), (1, 2));
}
