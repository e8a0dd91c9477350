use json_joy::print::{printBinary, printTree, print_binary, print_tree, PrintChild};

#[test]
fn print_tree_matrix() {
    let a = |tab: &str| format!("A({tab})");
    let c = |tab: &str| format!("C({tab})");
    let children: [Option<&PrintChild>; 4] = [Some(&a), None, Some(&c), None];

    let out = print_tree(Some(""), &children);
    assert_eq!(out, "\n├─ A(│  )\n└─ C(   )");
}

#[test]
fn print_tree_empty_child_matrix() {
    let empty = |_tab: &str| "".to_string();
    let leaf = |_tab: &str| "leaf".to_string();
    let children: [Option<&PrintChild>; 2] = [Some(&empty), Some(&leaf)];

    let out = print_tree(None, &children);
    assert_eq!(out, "\n│\n└─ leaf");
}

#[test]
fn print_binary_matrix() {
    let left = |tab: &str| format!("L({tab})");
    let right = |tab: &str| format!("R({tab})");

    let out = print_binary(Some("--"), [Some(&left as &PrintChild), Some(&right)]);
    assert_eq!(out, "\n--← L(--  )\n--→ R(--  )");
}

#[test]
fn print_tree_no_children_is_empty() {
    let children: [Option<&PrintChild>; 3] = [None, None, None];
    assert_eq!(print_tree(Some("xx"), &children), "");
    let none: [Option<&PrintChild>; 0] = [];
    assert_eq!(printTree(None, &none), "");
}

fn leaf(tab: &str) -> String {
    format!("leaf[{tab}]")
}

#[test]
fn print_tree_nested_indentation() {
    let inner = |tab: &str| {
        let kids: [Option<&PrintChild>; 2] = [Some(&leaf), Some(&leaf)];
        format!("inner{}", print_tree(Some(tab), &kids))
    };
    let children: [Option<&PrintChild>; 1] = [Some(&inner)];
    assert_eq!(
        printTree(Some(">"), &children),
        "\n>└─ inner\n>   ├─ leaf[>   │  ]\n>   └─ leaf[>      ]"
    );
}

#[test]
fn print_binary_one_side() {
    let right = |tab: &str| format!("R({tab})");
    assert_eq!(print_binary(None, [None, Some(&right as &PrintChild)]), "\n→ R(  )");
    assert_eq!(printBinary::<PrintChild>(None, [None, None]), "");
}
