use subset_sequences::sig::is_novel;
use subset_sequences::sig::slide;
use subset_sequences::sig::window_signature;

/// A window's signature is the sum of its one-bit symbol values, and for
/// pairwise-distinct symbols the sum coincides with the bitwise OR.
#[test]
fn signature_is_sum_and_or() {
    assert_eq!(window_signature(&vec![1, 2, 4]), 7);
    assert_eq!(window_signature(&vec![1, 2, 4]), 1 | 2 | 4);
    assert_eq!(window_signature(&vec![2, 4]), 6);
    assert_eq!(window_signature(&vec![8, 1]), 9);
    assert_eq!(window_signature(&vec![8, 1]), 8 | 1);
    assert_eq!(window_signature(&vec![16384]), 16384);
    assert_eq!(window_signature(&vec![]), 0);
}

/// Sliding a window forward agrees with recomputing the signature from
/// scratch on the slid window.
#[test]
fn slide_matches_recompute() {
    // Window [2, 4]: drop 2, append 1.
    assert_eq!(slide(window_signature(&vec![2, 4]), 2, 1), window_signature(&vec![4, 1]));
    // Window [1, 2, 4]: drop 1, append 8.
    assert_eq!(
        slide(window_signature(&vec![1, 2, 4]), 1, 8),
        window_signature(&vec![2, 4, 8]),
    );
    assert_eq!(slide(6, 2, 1), 5);
}

/// Novelty is membership in the set of signatures already seen.
#[test]
fn novelty_is_membership() {
    let seen = vec![3, 6];
    assert!(is_novel(5, &seen));
    assert!(!is_novel(6, &seen));
    assert!(!is_novel(3, &seen));
    assert!(is_novel(0, &vec![]));
}
