use json_joy::llrb::LlrbTree;
use json_joy::tree::print;

#[test]
fn print_empty_subtree() {
    let tree: LlrbTree<u32, u32> = LlrbTree::new();
    assert_eq!(print(tree.arena(), tree.root_index(), ""), "∅");
}

#[test]
fn print_single_node() {
    let mut tree: LlrbTree<u32, u32> = LlrbTree::new();
    tree.set(5, 50);
    let r = tree.root_index().unwrap();
    assert_eq!(print(tree.arena(), Some(r), "> "), format!("Node({r})\n> L=∅\n> R=∅"));
}

#[test]
fn print_two_nodes_indents_children() {
    let mut tree: LlrbTree<u32, u32> = LlrbTree::new();
    tree.set(1, 10);
    tree.set(2, 20);
    let r = tree.root_index().unwrap();
    let o = 1 - r;
    let child = format!("Node({o})\n  L=∅\n  R=∅");
    let expected = if *tree.key(r) == 2 {
        format!("Node({r})\nL={child}\nR=∅")
    } else {
        format!("Node({r})\nL=∅\nR={child}")
    };
    assert_eq!(print(tree.arena(), Some(r), ""), expected);
}

#[test]
fn print_counts_every_node() {
    let mut tree: LlrbTree<u32, u32> = LlrbTree::new();
    for k in 0..20u32 {
        tree.set(k, k);
    }
    let out = print(tree.arena(), tree.root_index(), "");
    assert_eq!(out.matches("Node(").count(), 20);
    assert_eq!(out.matches('∅').count(), 21);
}
