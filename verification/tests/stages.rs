//! The aggregator, smoother and classifier on concrete record sequences,
//! and the CSV boundary through the real csv crate.

use folding_analysis::aggregate::aggregate_windows;
use folding_analysis::classify::classify_formation_order;
use folding_analysis::csvio::{
    contacts_from_csv_text, results_from_csv_text, results_to_csv_text, smoothed_to_csv_text,
    summary_from_csv_text, summary_to_csv_text,
};
use folding_analysis::errors::AnalysisError;
use folding_analysis::numbers::Frac;
use folding_analysis::results::{FrameResult, WindowSummary};
use folding_analysis::smooth::smooth;
use folding_analysis::contacts::Contact;
use folding_analysis::evaluate::evaluate_contacts;
use folding_analysis::geometry::Coordinate;
use folding_analysis::results::SmoothedResult;

fn frame(id: i32, q: Frac, fillings: Vec<(i32, Frac)>) -> FrameResult {
    FrameResult {
        frame: id,
        contacts: q.num as usize,
        q,
        contact_list: vec![],
        clusters_filling: fillings,
    }
}

fn fr(n: u64, d: u64) -> Frac {
    Frac { num: n, den: d }
}

#[test]
fn aggregate_one_window_takes_the_exact_mean() {
    let results = vec![
        frame(1, fr(1, 3), vec![(1, fr(1, 2)), (2, fr(0, 1))]),
        frame(2, fr(2, 3), vec![(1, fr(1, 1)), (2, fr(0, 1))]),
    ];
    let summary = aggregate_windows(results, 2, None).unwrap();
    assert_eq!(summary.len(), 1);
    assert_eq!(summary[0].frame, 1);
    // cluster 1: mean of 1/2 and 1/1 is exactly 3/4; cluster 2 stays 0
    assert_eq!(summary[0].cluster_means[0].0, 1);
    assert!(summary[0].cluster_means[0].1.value_eq(&fr(3, 4)));
    assert_eq!(summary[0].cluster_means[1].0, 2);
    assert!(summary[0].cluster_means[1].1.value_eq(&fr(0, 1)));
}

#[test]
fn aggregate_binarizes_after_averaging() {
    let results = vec![
        frame(1, fr(1, 3), vec![(1, fr(1, 2))]),
        frame(2, fr(2, 3), vec![(1, fr(1, 1))]),
    ];
    // mean is 3/4: a cutoff of 3/4 is reached, a cutoff of 4/5 is not
    let hit = aggregate_windows(results.clone(), 2, Some(fr(3, 4))).unwrap();
    assert_eq!(hit[0].cluster_means, vec![(1, fr(1, 1))]);
    let miss = aggregate_windows(results, 2, Some(fr(4, 5))).unwrap();
    assert_eq!(miss[0].cluster_means, vec![(1, fr(0, 1))]);
}

#[test]
fn aggregate_splits_windows_and_sorts_by_frame() {
    // frames arrive out of order; windows of two use the sorted order
    let results = vec![
        frame(30, fr(0, 1), vec![(1, fr(0, 1))]),
        frame(10, fr(0, 1), vec![(1, fr(1, 1))]),
        frame(20, fr(0, 1), vec![(1, fr(1, 1))]),
    ];
    let summary = aggregate_windows(results, 2, None).unwrap();
    assert_eq!(summary.len(), 2);
    assert_eq!(summary[0].frame, 10);
    assert!(summary[0].cluster_means[0].1.value_eq(&fr(1, 1)));
    assert_eq!(summary[1].frame, 30);
    assert!(summary[1].cluster_means[0].1.value_eq(&fr(0, 1)));
}

#[test]
fn aggregate_rejects_empty_input() {
    assert!(matches!(aggregate_windows(vec![], 10, None), Err(AnalysisError::ValidationError)));
}

#[test]
fn smooth_with_half_window_zero_is_identity() {
    let results = vec![
        frame(1, fr(1, 4), vec![(1, fr(1, 2))]),
        frame(2, fr(3, 4), vec![(1, fr(1, 1))]),
    ];
    let smoothed = smooth(results, 1).unwrap();
    assert_eq!(smoothed.len(), 2);
    assert_eq!(smoothed[0].frame, 1);
    assert_eq!(smoothed[0].q_smooth, fr(1, 4));
    assert_eq!(smoothed[0].cluster_smooth, vec![(1, fr(1, 2))]);
    assert_eq!(smoothed[1].q_smooth, fr(3, 4));
    assert_eq!(smoothed[1].cluster_smooth, vec![(1, fr(1, 1))]);
}

#[test]
fn smooth_averages_centered_windows() {
    let results = vec![
        frame(1, fr(0, 1), vec![(1, fr(0, 1))]),
        frame(2, fr(1, 1), vec![(1, fr(1, 1))]),
        frame(3, fr(1, 1), vec![(1, fr(1, 1))]),
    ];
    // window size 3: half-window 1, shrinking at the borders
    let smoothed = smooth(results, 3).unwrap();
    assert!(smoothed[0].q_smooth.value_eq(&fr(1, 2)));
    assert!(smoothed[1].q_smooth.value_eq(&fr(2, 3)));
    assert!(smoothed[2].q_smooth.value_eq(&fr(1, 1)));
    assert!(smoothed[0].cluster_smooth[0].1.value_eq(&fr(1, 2)));
}

#[test]
fn smooth_rejects_empty_input() {
    assert!(matches!(smooth(vec![], 10), Err(AnalysisError::ValidationError)));
}

fn window(id: i32, means: Vec<(i32, Frac)>) -> WindowSummary {
    WindowSummary { frame: id, cluster_means: means }
}

#[test]
fn classify_orders_two_clusters() {
    // cluster 1 forms at the second window and stays, cluster 2 at the
    // third; the inferred order is 1 before 2
    let summary = vec![
        window(1, vec![(1, fr(0, 1)), (2, fr(0, 1))]),
        window(2, vec![(1, fr(1, 1)), (2, fr(0, 1))]),
        window(3, vec![(1, fr(1, 1)), (2, fr(1, 1))]),
        window(4, vec![(1, fr(1, 1)), (2, fr(1, 1))]),
    ];
    assert_eq!(classify_formation_order(summary), Ok(vec![1, 2]));
}

#[test]
fn classify_excludes_the_background_cluster() {
    let summary = vec![
        window(1, vec![(0, fr(1, 1)), (3, fr(0, 1)), (7, fr(0, 1))]),
        window(2, vec![(0, fr(1, 1)), (3, fr(0, 1)), (7, fr(1, 1))]),
        window(3, vec![(0, fr(1, 1)), (3, fr(1, 1)), (7, fr(1, 1))]),
    ];
    assert_eq!(classify_formation_order(summary), Ok(vec![7, 3]));
}

#[test]
fn classify_appends_clusters_formed_throughout() {
    // cluster 5 is formed in every window: it formed before observation
    // began and comes first
    let summary = vec![
        window(1, vec![(2, fr(0, 1)), (5, fr(1, 1))]),
        window(2, vec![(2, fr(1, 1)), (5, fr(1, 1))]),
    ];
    assert_eq!(classify_formation_order(summary), Ok(vec![5, 2]));
}

#[test]
fn classify_falls_back_to_the_best_window() {
    // no window forms everything; the scan starts from the first window
    // with the most clusters formed
    let summary = vec![
        window(1, vec![(1, fr(0, 1)), (2, fr(0, 1))]),
        window(2, vec![(1, fr(1, 1)), (2, fr(0, 1))]),
        window(3, vec![(1, fr(0, 1)), (2, fr(0, 1))]),
    ];
    assert_eq!(classify_formation_order(summary), Ok(vec![1]));
}

#[test]
fn classify_rejects_unusable_summaries() {
    // empty input
    assert_eq!(classify_formation_order(vec![]), Err(AnalysisError::ValidationError));
    // only the background cluster
    let only_zero = vec![window(1, vec![(0, fr(1, 1))])];
    assert_eq!(classify_formation_order(only_zero), Err(AnalysisError::ValidationError));
    // no cluster ever reaches one
    let never = vec![
        window(1, vec![(1, fr(1, 2)), (2, fr(0, 1))]),
        window(2, vec![(1, fr(1, 2)), (2, fr(1, 2))]),
    ];
    assert_eq!(classify_formation_order(never), Err(AnalysisError::ValidationError));
}

#[test]
fn results_survive_the_csv_boundary() {
    let results = vec![
        frame(1, fr(2, 3), vec![(1, fr(1, 2)), (2, fr(1, 1))]),
        frame(2, fr(0, 3), vec![(1, fr(0, 2)), (2, fr(0, 1))]),
    ];
    let text = results_to_csv_text(&results).unwrap();
    let back = results_from_csv_text(&text).unwrap();
    assert_eq!(back.len(), 2);
    assert_eq!(back[0].frame, 1);
    assert_eq!(back[0].contacts, 2);
    assert_eq!(back[0].q, fr(2, 3));
    assert_eq!(back[0].clusters_filling, vec![(1, fr(1, 2)), (2, fr(1, 1))]);
    assert!(back[0].contact_list.is_empty());
    assert_eq!(back[1].frame, 2);
    assert_eq!(back[1].q, fr(0, 3));
}

#[test]
fn summaries_survive_the_csv_boundary() {
    let summaries = vec![
        window(1, vec![(0, fr(1, 1)), (2, fr(0, 1))]),
        window(5, vec![(0, fr(1, 1)), (2, fr(1, 1))]),
    ];
    let text = summary_to_csv_text(&summaries, &vec![0, 2]).unwrap();
    let back = summary_from_csv_text(&text).unwrap();
    assert_eq!(back.len(), 2);
    assert_eq!(back[0].frame, 1);
    assert_eq!(back[0].cluster_means, vec![(0, fr(1, 1)), (2, fr(0, 1))]);
    assert_eq!(back[1].frame, 5);
    assert_eq!(back[1].cluster_means, vec![(0, fr(1, 1)), (2, fr(1, 1))]);
}

#[test]
fn contacts_load_from_csv_text() {
    let text = b"i,j,r,cluster\n1,2,5.0,1\n3,4,5.5,2\n".to_vec();
    let contacts = contacts_from_csv_text(&text).unwrap();
    assert_eq!(contacts.len(), 2);
    assert_eq!(contacts[0].i, 1);
    assert_eq!(contacts[0].j, 2);
    assert_eq!(contacts[0].r, 5000);
    assert_eq!(contacts[0].cluster, 1);
    assert_eq!(contacts[1].r, 5500);
    // a column order change is fine: columns are found by name
    let text2 = b"cluster,r,j,i\n7,0.25,9,8\n".to_vec();
    let contacts2 = contacts_from_csv_text(&text2).unwrap();
    assert_eq!(contacts2[0].i, 8);
    assert_eq!(contacts2[0].j, 9);
    assert_eq!(contacts2[0].r, 250);
    assert_eq!(contacts2[0].cluster, 7);
    // a negative or malformed native distance is rejected
    assert_eq!(
        contacts_from_csv_text(&b"i,j,r,cluster\n1,2,-5.0,1\n".to_vec()),
        Err(AnalysisError::FormatError)
    );
    assert_eq!(
        contacts_from_csv_text(&b"i,j,r,cluster\n1,2,abc,1\n".to_vec()),
        Err(AnalysisError::FormatError)
    );
    // an empty table is an empty set
    assert_eq!(contacts_from_csv_text(&b"".to_vec()).unwrap(), vec![]);
}

#[test]
fn smoothed_table_has_the_expected_columns() {
    let smoothed = vec![SmoothedResult {
        frame: 4,
        q_smooth: fr(1, 2),
        cluster_smooth: vec![(1, fr(1, 4))],
    }];
    let text = smoothed_to_csv_text(&smoothed, &vec![1]).unwrap();
    let s = String::from_utf8(text).unwrap();
    assert_eq!(s, "frame,q_smooth,cluster_1_smooth\n4,1/2,1/4\n");
}

#[test]
fn pipeline_end_to_end() {
    // evaluate -> aggregate with cutoff -> classify
    let contacts = vec![
        Contact { i: 1, j: 2, r: 5000, cluster: 1 },
        Contact { i: 3, j: 4, r: 5000, cluster: 2 },
    ];
    let near = Coordinate { x: 0, y: 0, z: 0 };
    let near2 = Coordinate { x: 1000, y: 0, z: 0 };
    let far = Coordinate { x: 50000, y: 0, z: 0 };
    // frame 1: nothing formed; frame 2: cluster 1 formed; frame 3: both
    let traj = vec![
        (1, vec![(1, near), (2, far), (3, near), (4, far)]),
        (2, vec![(1, near), (2, near2), (3, near), (4, far)]),
        (3, vec![(1, near), (2, near2), (3, near), (4, near2)]),
    ];
    let results = evaluate_contacts(&traj, &contacts, 1200);
    assert_eq!(results.len(), 3);
    let summary = aggregate_windows(results, 1, Some(fr(1, 1))).unwrap();
    let order = classify_formation_order(summary).unwrap();
    assert_eq!(order, vec![1, 2]);
}

#[test]
fn aggregate_reports_numeric_overflow() {
    // two coprime astronomical denominators: their least common multiple
    // cannot fit a 64-bit word, so the exact mean is refused
    let results = vec![
        frame(1, fr(0, 1), vec![(1, fr(1, u64::MAX))]),
        frame(2, fr(0, 1), vec![(1, fr(1, u64::MAX - 1))]),
    ];
    assert!(matches!(
        aggregate_windows(results, 2, None),
        Err(AnalysisError::NumericOverflow)
    ));
}

#[test]
fn csv_text_loaders_reject_malformed_text() {
    // a data row without the five frame-table columns
    assert!(matches!(
        results_from_csv_text(&b"frame,contacts\n1\n".to_vec()),
        Err(AnalysisError::FormatError)
    ));
    // a summary without a frame column
    assert!(matches!(
        summary_from_csv_text(&b"nope\n1,2\n".to_vec()),
        Err(AnalysisError::FormatError)
    ));
    // encoding never fails, even for an empty record table
    assert!(results_to_csv_text(&vec![]).is_some());
}
