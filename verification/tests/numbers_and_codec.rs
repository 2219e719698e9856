//! Exact arithmetic and text codec behaviour on concrete values.

use folding_analysis::codec::{
    parse_clusters_filling, parse_frame_rows, render_classification, render_frame_rows,
};
use folding_analysis::numbers::{frac_mean, gcd64, lcm64, Frac};
use folding_analysis::results::FrameResult;
use folding_analysis::text::{i32_digits, parse_i32_bytes, parse_u64_bytes, u64_digits};

#[test]
fn frac_comparison_is_exact() {
    let half = Frac { num: 1, den: 2 };
    let two_thirds = Frac { num: 2, den: 3 };
    let three_sixths = Frac { num: 3, den: 6 };
    assert!(two_thirds.ge(&half));
    assert!(!half.ge(&two_thirds));
    assert!(half.value_eq(&three_sixths));
    assert!(half.ge(&three_sixths));
    assert!(three_sixths.ge(&half));
}

#[test]
fn gcd_and_lcm_on_small_values() {
    assert_eq!(gcd64(12, 18), 6);
    assert_eq!(gcd64(7, 0), 7);
    assert_eq!(gcd64(1, 999), 1);
    assert_eq!(lcm64(4, 6), Some(12));
    assert_eq!(lcm64(1, 9), Some(9));
    assert_eq!(lcm64(u64::MAX, u64::MAX - 1), None);
}

#[test]
fn mean_of_half_and_one_is_three_quarters() {
    let vals = vec![Frac { num: 1, den: 2 }, Frac { num: 1, den: 1 }];
    let m = frac_mean(&vals).unwrap();
    // lcm of denominators is 2; numerators over it sum to 3; length 2
    assert_eq!(m, Frac { num: 3, den: 4 });
}

#[test]
fn mean_of_singleton_is_identity() {
    let vals = vec![Frac { num: 2, den: 3 }];
    let m = frac_mean(&vals).unwrap();
    assert_eq!(m, Frac { num: 2, den: 3 });
}

#[test]
fn mean_keeps_uniform_denominators() {
    let vals = vec![
        Frac { num: 0, den: 4 },
        Frac { num: 2, den: 4 },
        Frac { num: 4, den: 4 },
    ];
    let m = frac_mean(&vals).unwrap();
    // exact: (0 + 2 + 4) / (4 * 3)
    assert_eq!(m, Frac { num: 6, den: 12 });
    assert!(m.value_eq(&Frac { num: 1, den: 2 }));
}

#[test]
fn digits_round_trip() {
    assert_eq!(u64_digits(0), b"0".to_vec());
    assert_eq!(u64_digits(907), b"907".to_vec());
    assert_eq!(i32_digits(-42), b"-42".to_vec());
    assert_eq!(parse_u64_bytes(&b"907".to_vec()), Some(907));
    assert_eq!(parse_i32_bytes(&b"-42".to_vec()), Some(-42));
    assert_eq!(parse_i32_bytes(&b"+7".to_vec()), Some(7));
    assert_eq!(parse_i32_bytes(&b"2147483647".to_vec()), Some(i32::MAX));
    assert_eq!(parse_i32_bytes(&b"-2147483648".to_vec()), Some(i32::MIN));
    assert_eq!(parse_i32_bytes(&b"2147483648".to_vec()), None);
    assert_eq!(parse_i32_bytes(&b"1.5".to_vec()), None);
    assert_eq!(parse_u64_bytes(&b"".to_vec()), None);
}

#[test]
fn clusters_filling_text_round_trip() {
    let text = b"{0: 1/3, 2: 1/1}".to_vec();
    let m = parse_clusters_filling(&text).unwrap();
    assert_eq!(m, vec![(0, Frac { num: 1, den: 3 }), (2, Frac { num: 1, den: 1 })]);
    // tolerated noise: blank entries are skipped, keys may repeat
    let text2 = b"{ 1: 1/2 ,, 1: 1/4 }".to_vec();
    let m2 = parse_clusters_filling(&text2).unwrap();
    assert_eq!(m2, vec![(1, Frac { num: 1, den: 4 })]);
    // malformed maps are rejected
    assert!(parse_clusters_filling(&b"1: 1/2".to_vec()).is_none());
    assert!(parse_clusters_filling(&b"{1; 1/2}".to_vec()).is_none());
    assert!(parse_clusters_filling(&b"{1: 3/2}".to_vec()).is_none());
    assert!(parse_clusters_filling(&b"{1: 1/0}".to_vec()).is_none());
    // the empty map round-trips
    assert_eq!(parse_clusters_filling(&b"{}".to_vec()).unwrap(), vec![]);
}

#[test]
fn frame_table_round_trip_drops_contact_list() {
    let fr = FrameResult {
        frame: 3,
        contacts: 2,
        q: Frac { num: 2, den: 3 },
        contact_list: vec![(1, 2), (5, 6)],
        clusters_filling: vec![(1, Frac { num: 1, den: 2 }), (2, Frac { num: 1, den: 1 })],
    };
    let rows = render_frame_rows(&vec![fr]);
    assert_eq!(rows.len(), 2);
    assert_eq!(rows[0][0], b"frame".to_vec());
    assert_eq!(rows[1][0], b"3".to_vec());
    assert_eq!(rows[1][1], b"2".to_vec());
    assert_eq!(rows[1][2], b"2/3".to_vec());
    assert_eq!(rows[1][3], b"[(1, 2), (5, 6)]".to_vec());
    assert_eq!(rows[1][4], b"{1: 1/2, 2: 1/1}".to_vec());
    let back = parse_frame_rows(&rows).unwrap();
    assert_eq!(back.len(), 1);
    assert_eq!(back[0].frame, 3);
    assert_eq!(back[0].contacts, 2);
    assert_eq!(back[0].q, Frac { num: 2, den: 3 });
    assert_eq!(
        back[0].clusters_filling,
        vec![(1, Frac { num: 1, den: 2 }), (2, Frac { num: 1, den: 1 })]
    );
    // the contact list is intentionally not reloaded
    assert!(back[0].contact_list.is_empty());
}

#[test]
fn classification_line_is_comma_separated() {
    assert_eq!(render_classification(&vec![2, 1, 3]), b"2,1,3\n".to_vec());
    assert_eq!(render_classification(&vec![]), b"\n".to_vec());
}
