use gdua::shared::PartialEqMutex;
use gdua::tree::{add_file_entries, insert_to_tree, merge_tree, Leaf, Tree};

fn comps(parts: &[&str]) -> Vec<String> {
    parts.iter().map(|p| p.to_string()).collect()
}

/// Every `(path, size)` record held by the leaves of a forest, sorted.
fn collect_records(forest: &[Tree]) -> Vec<(Vec<String>, u64)> {
    let mut out = Vec::new();
    for t in forest {
        match t {
            Tree::Leaf(l) => out.push((l.path.clone(), l.size)),
            Tree::Node(n) => out.extend(collect_records(&n.children)),
        }
    }
    out.sort();
    out
}

#[test]
fn insert_single_component_path() {
    let mut forest: Vec<Tree> = Vec::new();
    insert_to_tree(&mut forest, comps(&["a"]), 10);
    assert_eq!(forest.len(), 1);
    match &forest[0] {
        Tree::Leaf(l) => {
            assert_eq!(l.name, "a");
            assert_eq!(l.size, 10);
        }
        Tree::Node(_) => panic!("a path with no parent becomes a top-level leaf"),
    }
}

#[test]
fn insert_builds_prefix_chain() {
    let mut forest: Vec<Tree> = Vec::new();
    insert_to_tree(&mut forest, comps(&["r", "b", "c"]), 5);
    assert_eq!(forest.len(), 1);
    match &forest[0] {
        Tree::Node(n) => {
            assert_eq!(n.name, "r");
            assert_eq!(n.path, comps(&["r"]));
            assert_eq!(n.children.len(), 1);
            match &n.children[0] {
                Tree::Node(b) => {
                    assert_eq!(b.name, "b");
                    assert_eq!(b.path, comps(&["r", "b"]));
                    assert_eq!(b.children.len(), 1);
                    match &b.children[0] {
                        Tree::Leaf(l) => {
                            assert_eq!(l.name, "c");
                            assert_eq!(l.path, comps(&["r", "b", "c"]));
                            assert_eq!(l.size, 5);
                        }
                        Tree::Node(_) => panic!("the last component is a leaf"),
                    }
                }
                Tree::Leaf(_) => panic!("an inner component is a node"),
            }
        }
        Tree::Leaf(_) => panic!("a nested path roots a node"),
    }
}

#[test]
fn insert_reuses_existing_nodes() {
    let mut forest: Vec<Tree> = Vec::new();
    insert_to_tree(&mut forest, comps(&["r", "a"]), 10);
    insert_to_tree(&mut forest, comps(&["r", "b"]), 5);
    // Both files share the node for "r"; no second root appears.
    assert_eq!(forest.len(), 1);
    match &forest[0] {
        Tree::Node(n) => assert_eq!(n.children.len(), 2),
        Tree::Leaf(_) => panic!("the shared prefix is a node"),
    }
    assert_eq!(
        collect_records(&forest),
        vec![(comps(&["r", "a"]), 10), (comps(&["r", "b"]), 5)]
    );
}

#[test]
fn insert_keeps_every_record() {
    let mut forest: Vec<Tree> = Vec::new();
    insert_to_tree(&mut forest, comps(&["r", "a"]), 10);
    insert_to_tree(&mut forest, comps(&["r", "b", "c"]), 5);
    insert_to_tree(&mut forest, comps(&["r", "b", "d"]), 7);
    insert_to_tree(&mut forest, comps(&["s"]), 1);
    assert_eq!(
        collect_records(&forest),
        vec![
            (comps(&["r", "a"]), 10),
            (comps(&["r", "b", "c"]), 5),
            (comps(&["r", "b", "d"]), 7),
            (comps(&["s"]), 1),
        ]
    );
}

#[test]
fn merge_without_ancestors_appends_leaf() {
    let mut forest: Vec<Tree> = Vec::new();
    let leaf = Leaf { name: "a".to_string(), path: comps(&["a"]), size: 3 };
    merge_tree(&mut forest, Vec::new(), leaf);
    assert_eq!(forest.len(), 1);
    assert!(matches!(&forest[0], Tree::Leaf(l) if l.size == 3));
}

#[test]
fn merge_descends_matching_node() {
    let mut forest: Vec<Tree> = Vec::new();
    insert_to_tree(&mut forest, comps(&["r", "a"]), 1);
    let leaf = Leaf { name: "b".to_string(), path: comps(&["r", "b"]), size: 2 };
    merge_tree(&mut forest, vec![comps(&["r"])], leaf);
    assert_eq!(forest.len(), 1);
    assert_eq!(
        collect_records(&forest),
        vec![(comps(&["r", "a"]), 1), (comps(&["r", "b"]), 2)]
    );
}

#[test]
fn batch_skips_paths_seen_before() {
    let mut forest: Vec<Tree> = Vec::new();
    let mut seen: Vec<Vec<String>> = Vec::new();
    add_file_entries(
        &mut forest,
        &mut seen,
        vec![(comps(&["r", "a"]), 10), (comps(&["r", "b"]), 5)],
    );
    // A later batch repeating a path adds nothing for it.
    add_file_entries(
        &mut forest,
        &mut seen,
        vec![(comps(&["r", "a"]), 10), (comps(&["r", "c"]), 7)],
    );
    assert_eq!(
        collect_records(&forest),
        vec![
            (comps(&["r", "a"]), 10),
            (comps(&["r", "b"]), 5),
            (comps(&["r", "c"]), 7),
        ]
    );
    assert_eq!(seen.len(), 3);
}

#[test]
fn batch_skips_duplicates_within_itself() {
    let mut forest: Vec<Tree> = Vec::new();
    let mut seen: Vec<Vec<String>> = Vec::new();
    add_file_entries(
        &mut forest,
        &mut seen,
        vec![(comps(&["r", "a"]), 10), (comps(&["r", "a"]), 10)],
    );
    assert_eq!(collect_records(&forest), vec![(comps(&["r", "a"]), 10)]);
    assert_eq!(seen, vec![comps(&["r", "a"])]);
}

#[test]
fn trees_compare_by_path_alone() {
    let a = Tree::Leaf(Leaf { name: "a".to_string(), path: comps(&["r", "a"]), size: 1 });
    let same_path = Tree::Leaf(Leaf { name: "x".to_string(), path: comps(&["r", "a"]), size: 9 });
    let other_path = Tree::Leaf(Leaf { name: "a".to_string(), path: comps(&["r", "b"]), size: 1 });
    assert!(a == same_path);
    assert!(a != other_path);

    let node = Tree::Node(gdua::tree::Node {
        name: "r".to_string(),
        path: comps(&["r"]),
        children: vec![],
    });
    // A node and a leaf never compare equal, whatever their paths.
    let leaf_at_r = Tree::Leaf(Leaf { name: "r".to_string(), path: comps(&["r"]), size: 0 });
    assert!(node != leaf_at_r);
}

#[test]
fn mutexes_always_compare_equal() {
    let a = PartialEqMutex(std::sync::Mutex::new(1));
    let b = PartialEqMutex(std::sync::Mutex::new(2));
    assert!(a == b);
    assert!(b == a);
}
