use subset_sequences::node::generate_root;
use subset_sequences::node::Node;
use subset_sequences::search::run;
use subset_sequences::search::SearchError;

/// The canonical root for window size 2: the first three powers of two, the
/// trailing-window signature, and both window signatures.
#[test]
fn root_state_for_window_two() {
    let root = generate_root(2);
    assert_eq!(root.sequence, vec![1, 2, 4]);
    assert_eq!(root.label, 6);
    assert_eq!(root.seen_labels, vec![3, 6]);
}

/// The root for window size 1 holds two symbols and their two signatures.
#[test]
fn root_state_for_window_one() {
    let root = generate_root(1);
    assert_eq!(root.sequence, vec![1, 2]);
    assert_eq!(root.label, 2);
    assert_eq!(root.seen_labels, vec![1, 2]);
}

/// Sliding the root window of size 2 forward by symbol value 1 gives the
/// novel signature 1 + 6 - 2 = 5.
#[test]
fn child_label_slides_the_window() {
    let root = generate_root(2);
    assert_eq!(root.get_child_label(2, 1), Some(5));
}

/// A slide that reproduces an already-seen signature yields no label: from
/// the window-one root, appending value 1 gives signature 1, seen already.
#[test]
fn child_label_rejects_collisions() {
    let root = generate_root(1);
    assert_eq!(root.get_child_label(1, 1), None);
}

/// A created child owns an extended sequence, the slid label, and the grown
/// seen set; the parent is untouched.
#[test]
fn new_child_extends_the_state() {
    let root = generate_root(2);
    let child = Node::new(&root, 2, 1).expect("the slide to 5 is novel");
    assert_eq!(child.sequence, vec![1, 2, 4, 1]);
    assert_eq!(child.label, 5);
    assert_eq!(child.seen_labels, vec![3, 6, 5]);
    assert_eq!(root.sequence, vec![1, 2, 4]);
    assert_eq!(root.seen_labels, vec![3, 6]);
}

/// A candidate whose slid signature was already seen is not created.
#[test]
fn new_child_rejects_seen_signature() {
    let root = generate_root(1);
    assert!(Node::new(&root, 1, 1).is_none());
}

/// From the root over five symbols with window two, exactly the fill-in
/// letter 1 and the fresh letter 8 are admissible, in that order.
#[test]
fn children_of_the_root_window_two() {
    let root = generate_root(2);
    let mut queue: Vec<Node> = Vec::new();
    root.generate_children(5, 2, &mut queue);
    assert_eq!(queue.len(), 2);
    assert_eq!(queue[0].sequence, vec![1, 2, 4, 1]);
    assert_eq!(queue[0].label, 5);
    assert_eq!(queue[1].sequence, vec![1, 2, 4, 8]);
    assert_eq!(queue[1].label, 12);
}

/// Once the largest symbol reaches the alphabet ceiling, no fresh letter is
/// offered: over an alphabet of three symbols the root's maximum 4 is the
/// ceiling, so only the fill-in letter 1 remains.
#[test]
fn no_fresh_letter_at_the_ceiling() {
    let root = generate_root(2);
    let mut queue: Vec<Node> = Vec::new();
    root.generate_children(3, 2, &mut queue);
    assert_eq!(queue.len(), 1);
    assert_eq!(queue[0].sequence, vec![1, 2, 4, 1]);
}

/// Five symbols, windows of two: the search reports at least one complete
/// sequence, and every reported sequence has the maximal length
/// C(5,2) + 2 - 1 = 11 and uses only the five symbol values.
#[test]
fn scenario_five_symbols_window_two() {
    let (sequences, depth_map, iterations) = run(5, 2, false).expect("the configuration is valid");
    assert!(!sequences.is_empty());
    for sequence in &sequences {
        assert_eq!(sequence.len(), 11);
        for &v in sequence {
            assert!(v == 1 || v == 2 || v == 4 || v == 8 || v == 16);
        }
    }
    assert_eq!(depth_map.len(), 11);
    assert!(iterations >= 1);
    assert_eq!(depth_map.iter().sum::<u128>(), iterations);
}

/// Every window of two consecutive symbols in a finished sequence has a
/// distinct signature, and the signature is the sum of its two values.
#[test]
fn scenario_five_two_no_repeated_window() {
    let (sequences, _, _) = run(5, 2, false).expect("the configuration is valid");
    for sequence in &sequences {
        let mut signatures: Vec<u16> = Vec::new();
        for window in sequence.windows(2) {
            assert_ne!(window[0], window[1]);
            let signature = window[0] + window[1];
            assert_eq!(signature, window[0] | window[1]);
            assert!(!signatures.contains(&signature));
            signatures.push(signature);
        }
        assert_eq!(signatures.len(), 10);
    }
}

/// Four symbols, windows of one: the unique complete sequence is a
/// permutation of all four symbols.
#[test]
fn scenario_four_symbols_window_one() {
    let (sequences, depth_map, iterations) = run(4, 1, false).expect("the configuration is valid");
    assert!(!sequences.is_empty());
    for sequence in &sequences {
        assert_eq!(sequence.len(), 4);
        let mut sorted = sequence.clone();
        sorted.sort();
        assert_eq!(sorted, vec![1, 2, 4, 8]);
    }
    // With windows of one symbol every slide repeats an old signature except
    // the fresh letter, so the traversal walks one branch: the root and its
    // two extensions, ending in the single increasing sequence.
    assert_eq!(sequences, vec![vec![1, 2, 4, 8]]);
    assert_eq!(depth_map, vec![0, 1, 1, 1]);
    assert_eq!(iterations, 3);
}

/// An invalid configuration is rejected before any traversal.
#[test]
fn scenario_invalid_configuration() {
    assert_eq!(run(2, 3, false), Err(SearchError::InvalidConfig));
    assert_eq!(run(0, 0, false), Err(SearchError::InvalidConfig));
    assert_eq!(run(3, 0, false), Err(SearchError::InvalidConfig));
    assert_eq!(run(3, 3, false), Err(SearchError::InvalidConfig));
    assert_eq!(run(16, 2, false), Err(SearchError::InvalidConfig));
}

/// With the shuffle heuristic disabled, two runs on identical inputs agree
/// on everything: the sequences, their order, the histogram and the count.
#[test]
fn deterministic_without_shuffle() {
    let first = run(5, 2, false).expect("the configuration is valid");
    let second = run(5, 2, false).expect("the configuration is valid");
    assert_eq!(first, second);
}

/// The boundary window size W = A - 1 terminates without error.
#[test]
fn boundary_window_size() {
    let (sequences, depth_map, iterations) = run(4, 3, false).expect("the configuration is valid");
    // One branch only: the root [1,2,4,8] admits just the fill-in 1, whose
    // child admits just the fill-in 2, reaching the full length 6.
    assert_eq!(sequences, vec![vec![1, 2, 4, 8, 1, 2]]);
    assert_eq!(depth_map, vec![0, 0, 0, 1, 1, 1]);
    assert_eq!(iterations, 3);
}

/// A report never lists one sequence twice.
#[test]
fn no_duplicate_sequences() {
    let (sequences, _, _) = run(5, 2, false).expect("the configuration is valid");
    for i in 0..sequences.len() {
        for j in (i + 1)..sequences.len() {
            assert_ne!(sequences[i], sequences[j]);
        }
    }
}
