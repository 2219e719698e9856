//! The trajectory parser's state machine and the contact evaluator on
//! concrete trajectories.

use folding_analysis::contacts::Contact;
use folding_analysis::errors::AnalysisError;
use folding_analysis::evaluate::evaluate_contacts;
use folding_analysis::geometry::Coordinate;
use folding_analysis::numbers::Frac;
use folding_analysis::trajectory::{parse_trajectory, PdbTrajectory};

fn atom_line(res: i32, x: &str, y: &str, z: &str) -> Vec<u8> {
    // residue id in columns [22, 26), coordinates in [30, 38), [38, 46),
    // [46, 54), with the atom-name field holding ` CA `
    format!("ATOM      1  CA  ALA A{:>4}    {:>8}{:>8}{:>8}", res, x, y, z).into_bytes()
}

#[test]
fn test_coordinate_distance() {
    let c1 = Coordinate::new(0, 0, 0);
    let c2 = Coordinate::new(3000, 4000, 0);
    // 3-4-5 triangle: distance 5.000 units, squared = 25_000_000 milli^2
    assert_eq!(c1.dist_sq(&c2), 25_000_000);
}

#[test]
fn parser_reads_two_frames() {
    let lines = vec![
        b"MODEL 1".to_vec(),
        atom_line(1, "0.000", "0.000", "0.000"),
        atom_line(2, "4.000", "0.000", "0.000"),
        b"ENDMDL".to_vec(),
        b"MODEL 2".to_vec(),
        atom_line(1, "1.500", "0.000", "0.000"),
        b"ENDMDL".to_vec(),
    ];
    let traj = parse_trajectory(&lines, None).unwrap();
    assert_eq!(
        traj,
        vec![
            (
                1,
                vec![(1, Coordinate { x: 0, y: 0, z: 0 }), (2, Coordinate { x: 4000, y: 0, z: 0 })]
            ),
            (2, vec![(1, Coordinate { x: 1500, y: 0, z: 0 })]),
        ]
    );
}

#[test]
fn parser_tolerates_malformed_atoms() {
    let lines = vec![
        b"MODEL 1".to_vec(),
        b"ATOM      1  CA  ALA".to_vec(),
        atom_line(7, "bad", "0.000", "0.000"),
        atom_line(8, "-2.250", "0.125", "9999.999"),
        b"ATOM      1  CB  ALA A   9       1.000   1.000   1.000".to_vec(),
        b"TER".to_vec(),
        b"ENDMDL".to_vec(),
    ];
    // the short CA line, the unreadable x field and the non-CA atom are
    // all skipped; only residue 8 remains
    let traj = parse_trajectory(&lines, None).unwrap();
    assert_eq!(traj, vec![(1, vec![(8, Coordinate { x: -2250, y: 125, z: 9999999 })])]);
}

#[test]
fn parser_rejects_bad_model_header() {
    let lines = vec![b"MODEL".to_vec()];
    assert_eq!(parse_trajectory(&lines, None), Err(AnalysisError::FormatError));
    let lines2 = vec![b"MODEL x7".to_vec()];
    assert_eq!(parse_trajectory(&lines2, None), Err(AnalysisError::FormatError));
}

#[test]
fn parser_commits_dangling_and_implicit_frames() {
    // an unclosed MODEL is committed at end of input
    let lines = vec![b"MODEL 5".to_vec(), atom_line(1, "1.000", "2.000", "3.000")];
    let traj = parse_trajectory(&lines, None).unwrap();
    assert_eq!(traj, vec![(5, vec![(1, Coordinate { x: 1000, y: 2000, z: 3000 })])]);
    // an unclosed MODEL with no atoms is still committed, empty
    let lines_empty = vec![b"MODEL 5".to_vec()];
    let traj_empty = parse_trajectory(&lines_empty, None).unwrap();
    assert_eq!(traj_empty, vec![(5, vec![])]);
    // a file without MODEL markers becomes one implicit frame with id 1
    let lines2 = vec![atom_line(9, "0.500", "0.000", "0.000")];
    let traj2 = parse_trajectory(&lines2, None).unwrap();
    assert_eq!(traj2, vec![(1, vec![(9, Coordinate { x: 500, y: 0, z: 0 })])]);
    // even empty input is one implicit, empty frame
    assert_eq!(parse_trajectory(&vec![], None).unwrap(), vec![(1, vec![])]);
}

#[test]
fn parser_honours_max_frames() {
    let lines = vec![
        b"MODEL 1".to_vec(),
        atom_line(1, "0.000", "0.000", "0.000"),
        b"ENDMDL".to_vec(),
        b"MODEL 2".to_vec(),
        atom_line(1, "1.000", "0.000", "0.000"),
        b"ENDMDL".to_vec(),
    ];
    let traj = parse_trajectory(&lines, Some(1)).unwrap();
    assert_eq!(traj.len(), 1);
    assert_eq!(traj[0].0, 1);
    let traj_all = parse_trajectory(&lines, Some(10)).unwrap();
    assert_eq!(traj_all.len(), 2);
}

#[test]
fn parser_overwrites_duplicate_frame_ids() {
    let lines = vec![
        b"MODEL 1".to_vec(),
        atom_line(1, "0.000", "0.000", "0.000"),
        b"ENDMDL".to_vec(),
        b"MODEL 1".to_vec(),
        atom_line(2, "1.000", "0.000", "0.000"),
        b"ENDMDL".to_vec(),
    ];
    let traj = parse_trajectory(&lines, None).unwrap();
    assert_eq!(traj, vec![(1, vec![(2, Coordinate { x: 1000, y: 0, z: 0 })])]);
}

#[test]
fn evaluator_scenario_three_contacts() {
    // contacts (1,2) and (3,4) in cluster 1, (5,6) in cluster 2, all with
    // native distance 5.0; cutoff multiplier 1.2 gives threshold 6.0
    let contacts = vec![
        Contact { i: 1, j: 2, r: 5000, cluster: 1 },
        Contact { i: 3, j: 4, r: 5000, cluster: 1 },
        Contact { i: 5, j: 6, r: 5000, cluster: 2 },
    ];
    // distances: d(1,2) = 4.0 formed, d(3,4) = 6.0 not strictly below,
    // d(5,6) = 4.0 formed
    let frame = vec![
        (1, Coordinate { x: 0, y: 0, z: 0 }),
        (2, Coordinate { x: 4000, y: 0, z: 0 }),
        (3, Coordinate { x: 0, y: 10000, z: 0 }),
        (4, Coordinate { x: 6000, y: 10000, z: 0 }),
        (5, Coordinate { x: 0, y: 20000, z: 0 }),
        (6, Coordinate { x: 0, y: 24000, z: 0 }),
    ];
    let traj = vec![(1, frame)];
    let results = evaluate_contacts(&traj, &contacts, 1200);
    assert_eq!(results.len(), 1);
    let r = &results[0];
    assert_eq!(r.frame, 1);
    assert_eq!(r.contacts, 2);
    assert_eq!(r.q, Frac { num: 2, den: 3 });
    assert_eq!(r.contact_list, vec![(1, 2), (5, 6)]);
    assert_eq!(
        r.clusters_filling,
        vec![(1, Frac { num: 1, den: 2 }), (2, Frac { num: 1, den: 1 })]
    );
}

#[test]
fn evaluator_handles_missing_residues_and_empty_sets() {
    let contacts = vec![Contact { i: 1, j: 9, r: 5000, cluster: 1 }];
    let frame = vec![(1, Coordinate { x: 0, y: 0, z: 0 })];
    let traj = vec![(1, frame)];
    let results = evaluate_contacts(&traj, &contacts, 1200);
    // residue 9 is absent, so nothing is formed, yet the cluster is listed
    assert_eq!(results[0].contacts, 0);
    assert_eq!(results[0].q, Frac { num: 0, den: 1 });
    assert_eq!(results[0].clusters_filling, vec![(1, Frac { num: 0, den: 1 })]);
    // an empty native set gives q = 0
    let results2 = evaluate_contacts(&traj, &vec![], 1200);
    assert_eq!(results2[0].q, Frac { num: 0, den: 1 });
    assert_eq!(results2[0].clusters_filling, vec![]);
}

#[test]
fn trajectory_handle_keeps_its_path() {
    let t = PdbTrajectory::new("runs/traj.pdb");
    assert_eq!(t.path(), "runs/traj.pdb");
}

#[test]
fn parser_reads_the_second_whitespace_token() {
    let lines = vec![
        b"MODEL        42   trailing junk".to_vec(),
        atom_line(1, "0.000", "0.000", "0.000"),
        b"ENDMDL".to_vec(),
    ];
    let traj = parse_trajectory(&lines, None).unwrap();
    assert_eq!(traj.len(), 1);
    assert_eq!(traj[0].0, 42);
}

#[test]
fn parser_skips_exotic_numeric_fields() {
    // exponent forms and overly precise fractions are treated as
    // malformed atom fields and skipped, like any other noise
    let lines = vec![
        b"MODEL 1".to_vec(),
        atom_line(1, "1e5", "0.000", "0.000"),
        atom_line(2, "0.12345", "0.000", "0.000"),
        atom_line(3, "12.5", "-.25", "5."),
        b"ENDMDL".to_vec(),
    ];
    let traj = parse_trajectory(&lines, None).unwrap();
    assert_eq!(
        traj,
        vec![(1, vec![(3, Coordinate { x: 12500, y: -250, z: 5000 })])]
    );
}
