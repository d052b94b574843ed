use lutree::{NamedLuTree, TreeError};

fn s(x: &str) -> String {
    x.to_string()
}

fn strings(xs: &[&str]) -> Vec<String> {
    xs.iter().map(|x| x.to_string()).collect()
}

fn handle(tree: &NamedLuTree, name: &str) -> usize {
    tree.lookup(&s(name)).unwrap()
}

#[test]
fn using_box_vec() {
    let bv = vec![Box::new("a")];
    assert_eq!(bv.contains(&Box::new("a")), true);
    assert_eq!(bv.contains(&Box::new("b")), false);
}

#[test]
fn test_lutree_new() {
    let gr = NamedLuTree::new();
    assert_eq!(gr.len(), 0);
}

#[test]
fn test_add_to_parent() {
    let mut gr = NamedLuTree::new();

    // Add a node without parent
    gr.add_with_children_r("A", Vec::new());

    // Add children to root node
    let _ = gr.add_to_parent("B".to_string(), "A".to_string());
    assert_eq!(gr.len(), 2);
    assert_eq!(gr.children(0).unwrap().len(), 1);

    // Reject existing node
    let mut res = gr.add_to_parent("A".to_string(), "B".to_string());
    assert_eq!(res, Err(TreeError::DuplicateNode));
    assert_eq!(res.unwrap_err().message(), "Node exists already");

    // Add node with exotic name
    res = gr.add_to_parent("Wéïrd näµëß§".to_string(), "A".to_string());
    assert_eq!(res, Ok(2));
    assert_eq!(gr.len(), 3);
}

#[test]
fn test_add_with_children() {
    let mut gr = NamedLuTree::new();

    // Add node without parent
    gr.add_with_children_r("Root", Vec::new());
    assert_eq!(gr.len(), 1);

    // Add children to existing parent
    gr.add_with_children_r("Root", vec!["A"]);
    assert_eq!(gr.len(), 2);

    // Add more children
    let parent = "A";
    let children = vec!["B", "C", "D"];
    gr.add_with_children_r(parent, children);

    assert_eq!(gr.len(), 5);
    assert_eq!(gr.children(1).unwrap().len(), 3);
}

#[test]
fn test_parse_line() {
    let l1 = "A->B,C";
    let (parent1, children1) = NamedLuTree::parse_line(l1).unwrap();
    let ref_children = vec!["B".to_string(), "C".to_string()];
    assert_eq!(parent1, "A".to_string());
    assert_eq!(children1, ref_children);
}

#[test]
fn parse_line_edge_cases() {
    assert_eq!(NamedLuTree::parse_line("no separator"), None);
    assert_eq!(NamedLuTree::parse_line("A->"), None);
    assert_eq!(NamedLuTree::parse_line(""), None);
    assert_eq!(NamedLuTree::parse_line("A->B"), Some((s("A"), strings(&["B"]))));
    assert_eq!(NamedLuTree::parse_line(" A -> B ,C"), Some((s(" A "), strings(&[" B ", "C"]))));
    assert_eq!(NamedLuTree::parse_line("A->B,,C,"), Some((s("A"), strings(&["B", "", "C", ""]))));
    assert_eq!(NamedLuTree::parse_line("A->B->C"), Some((s("A"), strings(&["B"]))));
    assert_eq!(NamedLuTree::parse_line("A->->C"), None);
    assert_eq!(NamedLuTree::parse_line("A-->B"), Some((s("A-"), strings(&["B"]))));
    assert_eq!(NamedLuTree::parse_line("ä->ö,ü"), Some((s("ä"), strings(&["ö", "ü"]))));
}

#[test]
fn from_lines_accumulates_children() {
    let lines = strings(&["A->B,C", "B->D", "A->E"]);
    let tree = NamedLuTree::from_lines(&lines).unwrap();
    assert_eq!(tree.len(), 5);
    assert_eq!(tree.children(handle(&tree, "A")).unwrap(), vec![1, 2, 4]);
    assert_eq!(tree.children(handle(&tree, "B")).unwrap(), vec![3]);
    assert_eq!(tree.bfs(s("A")).unwrap(), strings(&["A", "B", "C", "E", "D"]));
}

#[test]
fn from_lines_reports_first_bad_line() {
    let lines = strings(&["A->B", "oops", "C"]);
    assert_eq!(NamedLuTree::from_lines(&lines).err(), Some(1));
    let empty: Vec<String> = Vec::new();
    assert_eq!(NamedLuTree::from_lines(&empty).unwrap().len(), 0);
}

#[test]
fn insert_root_twice_yields_same_handle() {
    let mut tree = NamedLuTree::new();
    let first = tree.insert_root_if_absent(s("R"));
    let second = tree.insert_root_if_absent(s("R"));
    assert_eq!(first, 0);
    assert_eq!(second, 0);
    assert_eq!(tree.len(), 1);
    assert_eq!(tree.parent(0), Err(TreeError::NoParent));
}

#[test]
fn duplicate_child_rejected_under_any_parent() {
    let mut tree = NamedLuTree::new();
    tree.add_with_children_r("A", vec!["B", "C"]);
    assert_eq!(tree.add_to_parent(s("X"), s("B")), Ok(3));
    assert_eq!(tree.add_to_parent(s("X"), s("C")), Err(TreeError::DuplicateNode));
    assert_eq!(tree.add_to_parent(s("X"), s("B")), Err(TreeError::DuplicateNode));
    assert_eq!(tree.len(), 4);
}

#[test]
fn duplicate_rejection_leaves_store_unchanged() {
    let mut tree = NamedLuTree::new();
    tree.add_with_children_r("A", vec!["B"]);
    let b = handle(&tree, "B");
    let before = tree.children(b).unwrap();
    assert_eq!(tree.add_to_parent(s("A"), s("B")), Err(TreeError::DuplicateNode));
    assert_eq!(tree.len(), 2);
    assert_eq!(tree.children(b).unwrap(), before);
}

#[test]
fn unknown_parent_rejected() {
    let mut tree = NamedLuTree::new();
    tree.add_with_children_r("A", vec![]);
    assert_eq!(tree.add_to_parent(s("B"), s("Z")), Err(TreeError::UnknownParent));
    assert_eq!(tree.add_to_parent(s("A"), s("Z")), Err(TreeError::UnknownParent));
    assert_eq!(tree.len(), 1);
    assert_eq!(TreeError::UnknownParent.message(), "Parent node not found");
}

#[test]
fn batch_insertion_skips_duplicates() {
    let mut tree = NamedLuTree::new();
    tree.add_with_children_r("A", vec!["B", "C"]);
    let h = tree.add_with_children_r("B", vec!["C", "D", "A", "E"]);
    assert_eq!(h, 1);
    assert_eq!(tree.len(), 5);
    assert_eq!(tree.children(1).unwrap(), vec![3, 4]);
    assert_eq!(tree.parent(4), Ok(1));
}

#[test]
fn end_to_end_scenario() {
    let mut tree = NamedLuTree::new();
    tree.add_with_children_r("A", vec!["B", "C", "D"]);
    assert_eq!(tree.add_to_parent(s("E"), s("B")), Ok(4));
    assert_eq!(tree.bfs(s("A")).unwrap(), strings(&["A", "B", "C", "D", "E"]));
    assert_eq!(tree.dfs(s("A")).unwrap(), strings(&["A", "D", "C", "B", "E"]));
}

#[test]
fn strategies_diverge_on_siblings() {
    let mut tree = NamedLuTree::new();
    tree.add_with_children_r("P", vec!["X", "Y", "Z"]);
    tree.add_with_children_r("X", vec!["X1"]);
    tree.add_with_children_r("Y", vec!["Y1"]);
    tree.add_with_children_r("Z", vec!["Z1"]);
    assert_eq!(tree.dfs(s("P")).unwrap(), strings(&["P", "Z", "Z1", "Y", "Y1", "X", "X1"]));
    assert_eq!(tree.bfs(s("P")).unwrap(), strings(&["P", "X", "Y", "Z", "X1", "Y1", "Z1"]));
}

#[test]
fn traversal_from_inner_node_covers_its_subtree_only() {
    let mut tree = NamedLuTree::new();
    tree.add_with_children_r("A", vec!["B", "C"]);
    tree.add_with_children_r("B", vec!["D"]);
    tree.add_with_children_r("Q", vec!["R"]);
    assert_eq!(tree.dfs(s("B")).unwrap(), strings(&["B", "D"]));
    assert_eq!(tree.bfs(s("B")).unwrap(), strings(&["B", "D"]));
    assert_eq!(tree.bfs(s("Q")).unwrap(), strings(&["Q", "R"]));
    assert_eq!(tree.dfs(s("D")).unwrap(), strings(&["D"]));
}

#[test]
fn unknown_start_fails_for_both_strategies() {
    let mut tree = NamedLuTree::new();
    tree.add_with_children_r("A", vec!["B"]);
    assert_eq!(tree.dfs(s("NoSuchName")), Err(TreeError::StartNotFound));
    assert_eq!(tree.bfs(s("NoSuchName")), Err(TreeError::StartNotFound));
    let empty = NamedLuTree::new();
    assert_eq!(empty.bfs(s("A")), Err(TreeError::StartNotFound));
    assert_eq!(TreeError::StartNotFound.message(), "Start node not found.");
}

#[test]
fn traverse_with_explicit_buffers() {
    let mut tree = NamedLuTree::new();
    tree.add_with_children_r("A", vec!["B", "C"]);
    let mut stack: Vec<usize> = Vec::new();
    let mut queue: std::collections::VecDeque<usize> = std::collections::VecDeque::new();
    assert_eq!(tree.traverse(s("A"), &mut stack).unwrap(), strings(&["A", "C", "B"]));
    assert_eq!(tree.traverse(s("A"), &mut queue).unwrap(), strings(&["A", "B", "C"]));
    assert!(stack.is_empty());
    assert!(queue.is_empty());
}

#[test]
fn lookup_finds_registered_names() {
    let mut tree = NamedLuTree::new();
    tree.add_with_children_r("A", vec!["B"]);
    assert_eq!(tree.lookup(&s("A")), Some(0));
    assert_eq!(tree.lookup(&s("B")), Some(1));
    assert_eq!(tree.lookup(&s("C")), None);
    assert_eq!(tree.children(2), Err(TreeError::OutOfBounds));
    assert_eq!(tree.parent(2), Err(TreeError::OutOfBounds));
}

#[test]
fn parent_chains_reach_a_root() {
    let mut tree = NamedLuTree::new();
    tree.add_with_children_r("A", vec!["B", "C"]);
    tree.add_with_children_r("C", vec!["D"]);
    tree.add_with_children_r("D", vec!["E"]);
    tree.add_with_children_r("Q", vec!["R"]);
    for start in 0..tree.len() {
        let mut h = start;
        let mut steps = 0;
        loop {
            match tree.parent(h) {
                Ok(p) => {
                    assert!(p < h);
                    h = p;
                    steps += 1;
                    assert!(steps <= start);
                }
                Err(e) => {
                    assert_eq!(e, TreeError::NoParent);
                    break;
                }
            }
        }
    }
    assert_eq!(tree.parent(handle(&tree, "E")), Ok(handle(&tree, "D")));
    assert_eq!(tree.parent(handle(&tree, "R")), Ok(handle(&tree, "Q")));
}

#[test]
fn traversals_visit_each_reachable_node_once() {
    let mut tree = NamedLuTree::new();
    tree.add_with_children_r("A", vec!["B", "C", "D"]);
    tree.add_with_children_r("B", vec!["E", "F"]);
    tree.add_with_children_r("D", vec!["G"]);
    tree.add_with_children_r("G", vec!["H"]);
    tree.add_with_children_r("X", vec!["Y"]);
    for start in ["A", "B", "D", "X"] {
        let mut d = tree.dfs(s(start)).unwrap();
        let mut b = tree.bfs(s(start)).unwrap();
        assert_eq!(d[0], s(start));
        assert_eq!(b[0], s(start));
        d.sort();
        b.sort();
        assert_eq!(d, b);
        let mut dedup = d.clone();
        dedup.dedup();
        assert_eq!(dedup, d);
    }
    assert_eq!(tree.dfs(s("A")).unwrap().len(), 8);
    assert_eq!(tree.bfs(s("B")).unwrap().len(), 3);
    assert_eq!(tree.dfs(s("A")).unwrap(), strings(&["A", "D", "G", "H", "C", "B", "F", "E"]));
    assert_eq!(tree.bfs(s("A")).unwrap(), strings(&["A", "B", "C", "D", "E", "F", "G", "H"]));
}
