use json_joy::llrb::LlrbTree;
use json_joy::tree::{first, last, next};

#[test]
fn walk_in_order_from_first() {
    let mut tree: LlrbTree<u32, u32> = LlrbTree::new();
    for k in [50u32, 20, 80, 10, 30, 70, 90, 60] {
        tree.set(k, k * 10);
    }
    let mut keys = Vec::new();
    let mut cur = first(tree.arena(), tree.root_index());
    while let Some(i) = cur {
        keys.push(*tree.key(i));
        cur = next(tree.arena(), i);
    }
    assert_eq!(keys, vec![10, 20, 30, 50, 60, 70, 80, 90]);
    let l = last(tree.arena(), tree.root_index()).unwrap();
    assert_eq!(*tree.key(l), 90);
    assert_eq!(next(tree.arena(), l), None);
}

#[test]
fn walk_empty_tree() {
    let tree: LlrbTree<u32, u32> = LlrbTree::new();
    assert_eq!(first(tree.arena(), tree.root_index()), None);
    assert_eq!(last(tree.arena(), tree.root_index()), None);
}
