use advent::day07::Node;

fn sample_tree() -> Node {
    let mut root = Node::new("/", 0);
    let mut sub = Node::new("sub", 0);
    sub.add_child(Node::new("inner.txt", 50));
    root.add_child(Node::new("top.txt", 100));
    root.add_child(sub);
    root
}

#[test]
fn sum_adds_everything_below() {
    let root = sample_tree();
    assert_eq!(root.sum(), 150);
}

#[test]
fn is_dir_means_size_zero() {
    let root = sample_tree();
    assert!(root.is_dir());
    assert!(!Node::new("file.txt", 10).is_dir());
}

#[test]
fn add_child_grows_the_tree() {
    let mut root = sample_tree();
    root.add_child(Node::new("extra.txt", 7));
    assert_eq!(root.sum(), 157);
}

#[test]
fn visit_reports_directory_totals() {
    let root = sample_tree();
    let mut totals = Vec::new();
    root.visit(&mut totals);
    assert_eq!(totals, vec![150, 50]);
}
