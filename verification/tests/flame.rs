use memtrace_ui::collapsed::{find_last, parse_decimal, push_decimal, read_line, split_frames, Line, LineError};
use memtrace_ui::flame::{build_stackframes, label_before, label_equal, FlameError, FlameTree};

fn lines(text: &[&str]) -> Vec<Vec<u8>> {
    text.iter().map(|line| line.as_bytes().to_vec()).collect()
}

fn label(tree: &FlameTree, id: usize) -> String {
    String::from_utf8(tree.frames[id].label.clone()).unwrap()
}

fn child(tree: &FlameTree, parent: usize, name: &str) -> usize {
    *tree.tree.children[parent].iter().find(|&&c| label(tree, c) == name).unwrap()
}

fn kid_labels(tree: &FlameTree, parent: usize) -> Vec<String> {
    tree.tree.children[parent].iter().map(|&c| label(tree, c)).collect()
}

#[test]
fn three_chains_build_the_expected_graph() {
    let tree = build_stackframes(&lines(&["a;b 3", "a;c 2", "d 7"])).unwrap();
    assert_eq!(label(&tree, 0), "all");
    assert_eq!(tree.frames[0].value, 12);
    assert_eq!(kid_labels(&tree, 0), vec!["a", "d"]);
    let a = child(&tree, 0, "a");
    let d = child(&tree, 0, "d");
    assert_eq!(tree.frames[a].value, 5);
    assert_eq!(tree.frames[d].value, 7);
    assert_eq!(kid_labels(&tree, a), vec!["b", "c"]);
    assert_eq!(tree.frames[child(&tree, a, "b")].value, 3);
    assert_eq!(tree.frames[child(&tree, a, "c")].value, 2);
    assert!(tree.tree.children[d].is_empty());
    assert_eq!(tree.frames.len(), 5);
    assert_eq!(tree.max_depth, 2);
}

#[test]
fn nodes_know_the_chains_that_pass_through_them() {
    let tree = build_stackframes(&lines(&["a;b 3", "a;c 2", "d 7", "a;b 1"])).unwrap();
    let a = child(&tree, 0, "a");
    assert_eq!(tree.frames[0].chain_ids, vec![0, 1, 2, 3]);
    assert_eq!(tree.frames[a].chain_ids, vec![0, 1, 3]);
    assert_eq!(tree.frames[child(&tree, a, "b")].chain_ids, vec![0, 3]);
    assert_eq!(tree.frames[child(&tree, a, "c")].chain_ids, vec![1]);
    assert_eq!(tree.frames[child(&tree, 0, "d")].chain_ids, vec![2]);
}

#[test]
fn flame_nodes_are_numbered_as_they_are_first_reached() {
    let tree = build_stackframes(&lines(&["d 7", "a;b 3"])).unwrap();
    assert_eq!(label(&tree, 1), "d");
    assert_eq!(label(&tree, 2), "a");
    assert_eq!(label(&tree, 3), "b");
    assert_eq!(tree.tree.parents, vec![0, 0, 0, 2]);
    // the children still stand in the order of their labels
    assert_eq!(tree.tree.children[0], vec![2, 1]);
}

#[test]
fn equal_labels_under_different_parents_are_different_nodes() {
    let tree = build_stackframes(&lines(&["a;x 1", "b;x 2"])).unwrap();
    let ax = child(&tree, child(&tree, 0, "a"), "x");
    let bx = child(&tree, child(&tree, 0, "b"), "x");
    assert_ne!(ax, bx);
    assert_eq!(tree.frames[ax].chain_ids, vec![0]);
    assert_eq!(tree.frames[bx].chain_ids, vec![1]);
}

#[test]
fn no_lines_give_the_root_alone() {
    let tree = build_stackframes(&vec![]).unwrap();
    assert_eq!(tree.frames.len(), 1);
    assert_eq!(tree.frames[0].value, 0);
    assert!(tree.frames[0].chain_ids.is_empty());
    assert_eq!(tree.max_depth, 0);
}

#[test]
fn chain_without_labels_weighs_on_the_root_only() {
    let tree = build_stackframes(&lines(&[" 5", "a 1"])).unwrap();
    assert_eq!(tree.frames.len(), 2);
    assert_eq!(tree.frames[0].value, 6);
    assert_eq!(tree.frames[0].chain_ids, vec![0, 1]);
    assert_eq!(tree.frames[1].chain_ids, vec![1]);
}

#[test]
fn weight_is_kept_on_the_way_down() {
    let tree = build_stackframes(&lines(&["a;b 3", "a;c 2", "d 7", "a;b;e 4", "a;c;f 0"])).unwrap();
    // chains end at b (weight 3), c (2), d, e, f only, so root and a weigh what their children weigh
    for id in [0, child(&tree, 0, "a")] {
        let kids: u64 = tree.tree.children[id].iter().map(|&c| tree.frames[c].value).sum();
        assert_eq!(tree.frames[id].value, kids);
    }
    // at b the chain "a;b 3" ends: 3 more than the children
    let b = child(&tree, child(&tree, 0, "a"), "b");
    let below: u64 = tree.tree.children[b].iter().map(|&c| tree.frames[c].value).sum();
    assert_eq!(tree.frames[b].value, 3 + below);
}

#[test]
fn chain_that_ends_at_an_inner_node_leaves_its_weight_there() {
    let tree = build_stackframes(&lines(&["a 1", "a;b 2"])).unwrap();
    let a = child(&tree, 0, "a");
    assert_eq!(tree.frames[a].value, 3);
    assert_eq!(tree.frames[child(&tree, a, "b")].value, 2);
}

#[test]
fn depth_is_the_length_of_the_longest_chain() {
    assert_eq!(build_stackframes(&lines(&["a 1", "a;b;c;d 2", "x;y 3"])).unwrap().max_depth, 4);
}

#[test]
fn line_without_a_space_misses_its_weight() {
    assert_eq!(build_stackframes(&lines(&["a;b 3", "a;b"])).err(), Some(FlameError::MissingWeight(1)));
    assert_eq!(build_stackframes(&lines(&[""])).err(), Some(FlameError::MissingWeight(0)));
}

#[test]
fn weight_that_is_no_number_is_reported() {
    assert_eq!(build_stackframes(&lines(&["a x"])).err(), Some(FlameError::InvalidWeight(0)));
    assert_eq!(build_stackframes(&lines(&["a 1", "a "])).err(), Some(FlameError::InvalidWeight(1)));
    assert_eq!(build_stackframes(&lines(&["a -1"])).err(), Some(FlameError::InvalidWeight(0)));
    assert_eq!(
        build_stackframes(&lines(&["a 18446744073709551616"])).err(),
        Some(FlameError::InvalidWeight(0))
    );
}

#[test]
fn sum_of_weights_that_leaves_64_bits_is_reported() {
    assert_eq!(
        build_stackframes(&lines(&["a 18446744073709551615", "b 0", "c 1"])).err(),
        Some(FlameError::WeightOverflow(2))
    );
    let tree = build_stackframes(&lines(&["a 18446744073709551615", "b 0"])).unwrap();
    assert_eq!(tree.frames[0].value, u64::MAX);
}

#[test]
fn label_may_hold_spaces_and_be_empty() {
    let tree = build_stackframes(&lines(&["operator new(unsigned long);;x 4"])).unwrap();
    assert_eq!(label(&tree, 1), "operator new(unsigned long)");
    assert_eq!(label(&tree, 2), "");
    assert_eq!(label(&tree, 3), "x");
    assert_eq!(tree.max_depth, 3);
}

#[test]
fn labels_are_ordered_by_their_bytes() {
    assert!(label_before(b"a", b"b"));
    assert!(label_before(b"a", b"ab"));
    assert!(label_before(b"", b"a"));
    assert!(label_before(b"Z", b"a"));
    assert!(!label_before(b"b", b"a"));
    assert!(!label_before(b"ab", b"a"));
    assert!(!label_before(b"a", b"a"));
    assert!(!label_before(b"", b""));
    assert!(label_equal(b"abc", b"abc"));
    assert!(!label_equal(b"abc", b"abd"));
    assert!(!label_equal(b"abc", b"ab"));
    let tree = build_stackframes(&lines(&["b 1", "ab 1", "a 1", "B 1", " 1"])).unwrap();
    assert_eq!(kid_labels(&tree, 0), vec!["B", "a", "ab", "b"]);
}

#[test]
fn reading_a_line() {
    assert_eq!(read_line(b"a;b 3"), Ok((vec![b"a".to_vec(), b"b".to_vec()], 3)));
    assert_eq!(read_line(b"a b;c 12"), Ok((vec![b"a b".to_vec(), b"c".to_vec()], 12)));
    assert_eq!(read_line(b" 0"), Ok((vec![], 0)));
    assert_eq!(read_line(b"; 1"), Ok((vec![vec![], vec![]], 1)));
    assert_eq!(read_line(b"a; 007"), Ok((vec![b"a".to_vec(), vec![]], 7)));
    assert_eq!(read_line(b"abc"), Err(LineError::MissingWeight));
    assert_eq!(read_line(b"a 1.5"), Err(LineError::InvalidWeight));
    assert_eq!(read_line(b"a 1 "), Err(LineError::InvalidWeight));
}

#[test]
fn decimal_numbers() {
    assert_eq!(parse_decimal(b"0"), Some(0));
    assert_eq!(parse_decimal(b"18446744073709551615"), Some(u64::MAX));
    assert_eq!(parse_decimal(b"18446744073709551616"), None);
    assert_eq!(parse_decimal(b"99999999999999999999"), None);
    assert_eq!(parse_decimal(b""), None);
    assert_eq!(parse_decimal(b"12a"), None);
    assert_eq!(parse_decimal(b"+1"), None);
    let mut out = b"x=".to_vec();
    push_decimal(&mut out, 1205);
    assert_eq!(out, b"x=1205".to_vec());
    let mut zero = vec![];
    push_decimal(&mut zero, 0);
    assert_eq!(zero, b"0".to_vec());
    let mut most = vec![];
    push_decimal(&mut most, u64::MAX);
    assert_eq!(most, b"18446744073709551615".to_vec());
}

#[test]
fn splitting_and_searching() {
    assert_eq!(split_frames(b""), Vec::<Vec<u8>>::new());
    assert_eq!(split_frames(b"a"), vec![b"a".to_vec()]);
    assert_eq!(split_frames(b"a;bc;"), vec![b"a".to_vec(), b"bc".to_vec(), vec![]]);
    assert_eq!(find_last(b"a b c", b' '), Some(3));
    assert_eq!(find_last(b"abc", b' '), None);
    assert_eq!(find_last(b"", b' '), None);
}

#[test]
fn written_line_is_read_back() {
    let mut line = Line::new(4096);
    // gathered on the way up: the innermost label first
    line.frames = vec![b"alloc (inlined)".to_vec(), b"std::vec::Vec<T>::push".to_vec(), b"main".to_vec()];
    let bytes = line.into_bytes();
    assert_eq!(bytes, b"main;std::vec::Vec<T>::push;alloc (inlined) 4096".to_vec());
    assert_eq!(
        read_line(&bytes),
        Ok((vec![b"main".to_vec(), b"std::vec::Vec<T>::push".to_vec(), b"alloc (inlined)".to_vec()], 4096))
    );
    let empty = Line::new(u64::MAX);
    assert_eq!(empty.frames.len(), 0);
    let bytes = empty.into_bytes();
    assert_eq!(bytes, b" 18446744073709551615".to_vec());
    assert_eq!(read_line(&bytes), Ok((vec![], u64::MAX)));
}

#[test]
fn weight_comes_back_even_where_the_labels_do_not() {
    let mut line = Line::new(9);
    line.frames = vec![b"a;b".to_vec()];
    assert_eq!(read_line(&line.into_bytes()), Ok((vec![b"a".to_vec(), b"b".to_vec()], 9)));
    let mut lone = Line::new(3);
    lone.frames = vec![vec![]];
    assert_eq!(read_line(&lone.into_bytes()), Ok((vec![], 3)));
}

#[test]
fn line_is_written_with_the_frames_turned_round() {
    let mut line = Line::new(3);
    line.frames.push(b"b".to_vec());
    line.frames.push(b"a".to_vec());
    assert_eq!(line.into_bytes(), b"a;b 3".to_vec());
    let mut one = Line::new(0);
    one.frames.push(b"only".to_vec());
    assert_eq!(one.into_bytes(), b"only 0".to_vec());
}
