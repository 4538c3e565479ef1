//! Utility functions unit tests

use arber::utils::{
    checked_family, family, family_path, is_leaf, is_left, node_height, peak_height_map, peaks,
};

#[test]
fn util_tests_peaks_works() {
    const UNSTABLE: Vec<u64> = vec![];

    // a MMR with zero nodes is viewed as unstable
    assert_eq!(peaks(0), UNSTABLE);

    assert_eq!(peaks(1), [1]);
    // the canonical unstable case
    assert_eq!(peaks(2), UNSTABLE);
    assert_eq!(peaks(3), [3]);
    assert_eq!(peaks(4), [3, 4]);
    assert_eq!(peaks(5), UNSTABLE);
    assert_eq!(peaks(6), UNSTABLE);
    assert_eq!(peaks(7), [7]);
    assert_eq!(peaks(8), [7, 8]);
    assert_eq!(peaks(9), UNSTABLE);
    assert_eq!(peaks(10), [7, 10]);
    assert_eq!(peaks(11), [7, 10, 11]);
    assert_eq!(peaks(19), [15, 18, 19]);

    let want: Vec<u64> = vec![
        524_287, 786_430, 917_501, 983_036, 1_015_803, 1_032_186, 1_040_377, 1_044_472, 1_046_519,
        1_047_542, 1_048_053, 1_048_308, 1_048_435, 1_048_498, 1_048_529, 1_048_544, 1_048_551,
        1_048_554, 1_048_555,
    ];

    assert_eq!(peaks(1_048_555), want);
}

#[test]
fn node_height_works() {
    assert_eq!(node_height(0), 0);
    assert_eq!(node_height(1), 0);
    assert_eq!(node_height(2), 1);
    assert_eq!(node_height(3), 0);
    assert_eq!(node_height(4), 0);
    assert_eq!(node_height(5), 1);
    assert_eq!(node_height(6), 2);
    assert_eq!(node_height(7), 0);
    assert_eq!(node_height(8), 0);
    assert_eq!(node_height(10), 0);
    assert_eq!(node_height(15), 0);
    assert_eq!(node_height(16), 0);
    assert_eq!(node_height(18), 0);
    assert_eq!(node_height(19), 0);
    assert_eq!(node_height(28), 2);
    assert_eq!(node_height(29), 3);
    assert_eq!(node_height(30), 4);
    assert_eq!(node_height(31), 0);
}

#[test]
fn is_leaf_works() {
    assert!(is_leaf(0));
    assert!(is_leaf(1));
    assert!(!is_leaf(2));
    assert!(is_leaf(3));
    assert!(is_leaf(4));
    assert!(!is_leaf(5));
    assert!(!is_leaf(6));
    assert!(is_leaf(7));
    assert!(is_leaf(8));
    assert!(!is_leaf(9));
    assert!(is_leaf(10));
    assert!(is_leaf(11));
    assert!(!is_leaf(14));
    assert!(is_leaf(15));
    assert!(is_leaf(16));
    assert!(!is_leaf(17));
    assert!(is_leaf(18));
    assert!(!is_leaf(27));
    assert!(!is_leaf(28));
    assert!(!is_leaf(29));
    assert!(!is_leaf(30));
}

#[test]
fn peak_height_map_works() {
    assert_eq!(peak_height_map(0), (0b00, 0));
    assert_eq!(peak_height_map(1), (0b1, 0));
    assert_eq!(peak_height_map(2), (0b1, 1));
    assert_eq!(peak_height_map(3), (0b10, 0));
    assert_eq!(peak_height_map(4), (0b11, 0));
    assert_eq!(peak_height_map(5), (0b11, 1));
    assert_eq!(peak_height_map(6), (0b11, 2));
    assert_eq!(peak_height_map(7), (0b100, 0));
    assert_eq!(peak_height_map(18), (0b1010, 0));

    // test edge cases
    assert_eq!(peak_height_map(u64::MAX), ((u64::MAX >> 1) + 1, 0));
    assert_eq!(peak_height_map(u64::MAX - 1), (u64::MAX >> 1, 63));
}

#[test]
fn is_left_works() {
    assert!(is_left(1));
    assert!(!is_left(2));
    assert!(is_left(3));
    assert!(is_left(4));
    assert!(!is_left(5));
    assert!(!is_left(6));
    assert!(is_left(7));
    assert!(is_left(8));
    assert!(!is_left(9));
    assert!(is_left(10));
    assert!(is_left(11));
    assert!(!is_left(12));
    assert!(!is_left(13));
    assert!(!is_left(14));
    assert!(is_left(15));
}

#[test]
fn family_works() {
    let f = family(1);
    assert_eq!(f, (3, 2));
    let f = family(2);
    assert_eq!(f, (3, 1));

    let f = family(3);
    assert_eq!(f, (7, 6));
    let f = family(6);
    assert_eq!(f, (7, 3));

    let f = family(7);
    assert_eq!(f, (15, 14));
    let f = family(14);
    assert_eq!(f, (15, 7));

    let f = family(11);
    assert_eq!(f, (13, 12));
    let f = family(12);
    assert_eq!(f, (13, 11));
}

#[test]
fn family_path_works() {
    let path = family_path(1, 3);
    assert_eq!(vec![(3, 2)], path);

    let path = family_path(1, 7);
    assert_eq!(vec![(3, 2), (7, 6)], path);

    let path = family_path(1, 15);
    assert_eq!(vec![(3, 2), (7, 6), (15, 14)], path);

    let path = family_path(8, 15);
    assert_eq!(vec![(10, 9), (14, 13), (15, 7)], path);
}

#[test]
fn family_path_invalid_args() {
    const EMPTY: Vec<(u64, u64)> = vec![];

    let path = family_path(1, 2);
    assert_eq!(EMPTY, path);

    let path = family_path(0, 0);
    assert_eq!(EMPTY, path);

    let path = family_path(12, 2);
    assert_eq!(EMPTY, path)
}

#[test]
fn family_path_from_no_position_is_empty() {
    const EMPTY: Vec<(u64, u64)> = vec![];

    assert_eq!(EMPTY, family_path(0, 5));
    assert_eq!(EMPTY, family_path(0, u64::MAX));
}

#[test]
fn family_path_stops_below_the_end() {
    // the walk from the first leaf of a MMR with 19 nodes ends at the peak 15
    assert_eq!(vec![(3, 2), (7, 6), (15, 14)], family_path(1, 19));
    // a leaf that is a peak itself has no family within the MMR
    assert_eq!(Vec::<(u64, u64)>::new(), family_path(19, 19));
    assert_eq!(vec![(18, 17)], family_path(16, 19));
    // near the largest position the walk ends where the parent does not fit
    assert_eq!(Vec::<(u64, u64)>::new(), family_path(u64::MAX, u64::MAX));
    let path = family_path(u64::MAX - 63, u64::MAX);
    assert_eq!(path.len(), 63);
    assert_eq!(path[0], (u64::MAX - 62, u64::MAX - 64));
    assert_eq!(path[62], (u64::MAX, u64::MAX >> 1));
    assert_eq!(family_path(1, u64::MAX).len(), 63);
}

#[test]
fn checked_family_works() {
    assert_eq!(checked_family(1), Some((3, 2)));
    assert_eq!(checked_family(14), Some((15, 7)));
    // the root of the largest tree has no parent that fits
    assert_eq!(checked_family(u64::MAX), None);
    assert_eq!(checked_family(u64::MAX - 1), Some((u64::MAX, (u64::MAX >> 1))));
}

#[test]
fn unstable_sizes_have_no_peaks() {
    for size in [2u64, 5, 6, 9, 12, 13, 14, 20, 21] {
        assert_eq!(peaks(size), Vec::<u64>::new());
    }
    for size in [1u64, 3, 4, 7, 8, 10, 11, 15, 16, 18, 19, 22] {
        let found = peaks(size);
        assert!(!found.is_empty());
        assert_eq!(*found.last().unwrap(), size);
    }
    assert_eq!(peaks(u64::MAX), vec![u64::MAX]);
}

#[test]
fn peak_map_holds_the_peaks_before_a_leaf() {
    // before the leaf at index 18 the peaks are the trees of height 3 and 1
    assert_eq!(peak_height_map(18), (0b1010, 0));
    assert_eq!(peaks(18), vec![15, 18]);
    // the node at index 14 is the root of the first tree of height 3
    assert_eq!(peak_height_map(14), (0b111, 3));
    assert_eq!(node_height(14), 3);
    assert_eq!(node_height(u64::MAX), 0);
    assert_eq!(node_height(u64::MAX - 1), 63);
}
