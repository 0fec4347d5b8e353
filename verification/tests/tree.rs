use vcd::structures::{FileNode, FindProgress, Tree};
use vcd::filesystem::PathComponent;

fn names(list: &[&str]) -> Vec<String> {
    list.iter().map(|s| String::from(*s)).collect()
}

fn child_names(tree: &Tree, node: usize) -> Vec<String> {
    match &tree.nodes[node].subnodes {
        Some(kids) => kids
            .iter()
            .map(|k| String::from(tree.nodes[*k].file_node.name.as_str()))
            .collect(),
        None => panic!("node is not loaded"),
    }
}

#[test]
fn new_tree_has_single_unloaded_root() {
    let tree = Tree::new(FileNode { name: String::from("/") });
    assert_eq!(tree.len(), 1);
    assert!(!tree.is_loaded(0));
    assert_eq!(tree.nodes[0].file_node.name, "/");
    assert!(tree.nodes[0].parent.is_none());
}

#[test]
fn load_creates_children_in_listing_order() {
    let mut tree = Tree::new(FileNode { name: String::from("/") });
    tree.load(0, &names(&["bin", "home"]));
    assert!(tree.is_loaded(0));
    assert_eq!(tree.len(), 3);
    assert_eq!(child_names(&tree, 0), names(&["bin", "home"]));
    let kids = tree.nodes[0].subnodes.clone().unwrap();
    for k in kids {
        assert_eq!(tree.nodes[k].parent, Some(0));
        assert!(!tree.is_loaded(k));
    }
}

#[test]
fn load_on_loaded_node_is_a_no_op() {
    let mut tree = Tree::new(FileNode { name: String::from("/") });
    tree.load(0, &names(&["bin", "home"]));
    let before = tree.len();
    tree.load(0, &names(&["other", "stuff", "entirely"]));
    assert_eq!(tree.len(), before);
    assert_eq!(child_names(&tree, 0), names(&["bin", "home"]));
}

#[test]
fn unload_reverts_to_unloaded_and_reload_matches() {
    let mut tree = Tree::new(FileNode { name: String::from("/") });
    tree.load(0, &names(&["bin", "home"]));
    let first = child_names(&tree, 0);
    tree.unload(0);
    assert!(!tree.is_loaded(0));
    tree.load(0, &names(&["bin", "home"]));
    assert_eq!(child_names(&tree, 0), first);
}

#[test]
fn get_path_joins_segments_from_the_root() {
    let mut tree = Tree::new(FileNode { name: String::from("/") });
    tree.load(0, &names(&["bin", "home"]));
    let home = tree.nodes[0].subnodes.clone().unwrap()[1];
    tree.load(home, &names(&["user"]));
    let user = tree.nodes[home].subnodes.clone().unwrap()[0];
    assert_eq!(tree.get_path(0), "/");
    assert_eq!(tree.get_path(home), "/home");
    assert_eq!(tree.get_path(user), "/home/user");
}

#[test]
fn get_path_keeps_prefix_style_roots() {
    let mut tree = Tree::new(FileNode { name: String::from("C:/") });
    tree.load(0, &names(&["bin"]));
    let bin = tree.nodes[0].subnodes.clone().unwrap()[0];
    assert_eq!(tree.get_path(bin), "C:/bin");
}

#[test]
fn find_next_scans_siblings_cyclically() {
    let mut tree = Tree::new(FileNode { name: String::from("/") });
    tree.load(0, &names(&["alpha", "beta", "bar"]));
    let kids = tree.nodes[0].subnodes.clone().unwrap();
    let (alpha, beta, bar) = (kids[0], kids[1], kids[2]);
    assert_eq!(tree.find_next(beta, 'b'), Some(bar));
    assert_eq!(tree.find_next(bar, 'b'), Some(beta));
    assert_eq!(tree.find_next(beta, 'B'), Some(bar));
    assert_eq!(tree.find_next(bar, 'A'), Some(alpha));
    assert_eq!(tree.find_next(alpha, 'z'), None);
    assert_eq!(tree.find_next(0, 'b'), None);
}

#[test]
fn tree_find_walks_loaded_children() {
    let mut tree = Tree::new(FileNode { name: String::from("/") });
    tree.load(0, &names(&["bin", "home"]));
    let bin = tree.nodes[0].subnodes.clone().unwrap()[0];
    let comps = vec![PathComponent::Normal(String::from("bin"))];
    match tree.find(0, &comps, 0) {
        Ok(FindProgress::Found(n)) => assert_eq!(n, bin),
        _ => panic!("expected the walk to find bin"),
    }
}

#[test]
fn tree_find_reports_unloaded_node() {
    let tree = Tree::new(FileNode { name: String::from("/") });
    let comps = vec![PathComponent::Normal(String::from("bin"))];
    match tree.find(0, &comps, 0) {
        Ok(FindProgress::NeedLoad(n)) => assert_eq!(n, 0),
        _ => panic!("expected the walk to stop on the unloaded root"),
    }
}

#[test]
fn tree_find_fails_on_missing_name() {
    let mut tree = Tree::new(FileNode { name: String::from("/") });
    tree.load(0, &names(&["bin"]));
    let comps = vec![PathComponent::Normal(String::from("nope"))];
    match tree.find(0, &comps, 0) {
        Err(e) => assert_eq!(e.message(), "Cannot find specified path"),
        _ => panic!("expected the walk to fail"),
    }
}
