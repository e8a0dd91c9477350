//! Indented tree dumps built from child printers.
//!
//! A child printer is a closure: given the indentation for the lines below
//! its first one, it returns its text.  `print_tree` lays children out with
//! box-drawing branches, `print_binary` with left and right arrows.  A
//! closure may answer differently from call to call, so the contracts speak
//! of the texts it did return.
use vstd::prelude::*;

verus! {

/// A child printer: given the indentation of its lines, its text.
pub type PrintChild = dyn Fn(&str) -> String;

/// A value that prints itself, its lines indented by `tab`.
pub trait Printable {
    fn to_string_with_tab(&self, tab: Option<&str>) -> String;
}

/// The indentation given: none counts as the empty one.
pub open spec fn tab_text(tab: Option<&str>) -> Seq<char> {
    match tab {
        Some(t) => t@,
        None => Seq::empty(),
    }
}

/// Called with a string holding `tab`, the printer `f` may return `out`.
pub open spec fn may_print<F: Fn(&str) -> String + ?Sized>(
    f: &F,
    tab: Seq<char>,
    out: Seq<char>,
) -> bool {
    exists|a: &str, o: String| #[trigger] call_ensures(f, (a,), o) && a@ == tab && o@ == out
}

/// Every child printer accepts every indentation.
pub open spec fn printers_ready<F: Fn(&str) -> String + ?Sized>(children: Seq<Option<&F>>) -> bool {
    forall|i: int, s: &str|
        0 <= i < children.len() && children[i] is Some ==> call_requires(
            #[trigger] children[i]->0,
            (s,),
        )
}

/// The line of one side of a binary node printed `out`: a newline, the
/// indentation, the arrow, and the text.
pub open spec fn binary_line(tab: Seq<char>, arrow: char, present: bool, out: Seq<char>) -> Seq<
    char,
> {
    if present {
        seq!['\n'] + tab + seq![arrow, ' '] + out
    } else {
        Seq::empty()
    }
}

/// The index of the last child present, or -1 if none is.
pub open spec fn last_present<F: ?Sized>(children: Seq<Option<&F>>) -> int
    decreases children.len(),
{
    if children.len() == 0 {
        -1
    } else if children.last() is Some {
        children.len() - 1
    } else {
        last_present(children.drop_last())
    }
}

/// The indentation handed to a child of a tree node: `tab`, then `"   "`
/// for the last child and `"│  "` for the others.
pub open spec fn child_tab(tab: Seq<char>, is_last: bool) -> Seq<char> {
    tab + seq![if is_last { ' ' } else { '│' }, ' ', ' ']
}

/// The line of one child of a tree node that printed `out`: a newline, the
/// indentation, the branch (`│` when `out` is empty, `└─` for the last
/// child, `├─` for the others) and, unless empty, a space and `out`.
pub open spec fn tree_line(tab: Seq<char>, present: bool, is_last: bool, out: Seq<char>) -> Seq<
    char,
> {
    if !present {
        Seq::empty()
    } else if out.len() == 0 {
        seq!['\n'] + tab + seq!['│']
    } else if is_last {
        seq!['\n'] + tab + seq!['└', '─', ' '] + out
    } else {
        seq!['\n'] + tab + seq!['├', '─', ' '] + out
    }
}

/// The lines of the first `n` children, child `i` having printed `outs[i]`
/// and the child at `last` drawn as the last one.
pub open spec fn tree_lines<F: ?Sized>(
    tab: Seq<char>,
    children: Seq<Option<&F>>,
    outs: Seq<Seq<char>>,
    last: int,
    n: int,
) -> Seq<char>
    decreases n,
{
    if n <= 0 {
        Seq::empty()
    } else {
        tree_lines(tab, children, outs, last, n - 1) + tree_line(
            tab,
            children[n - 1] is Some,
            n - 1 == last,
            outs[n - 1],
        )
    }
}

/// Each child present printed its text in `outs`, given its indentation.
pub open spec fn tree_outputs<F: Fn(&str) -> String + ?Sized>(
    tab: Seq<char>,
    children: Seq<Option<&F>>,
    outs: Seq<Seq<char>>,
    last: int,
) -> bool {
    &&& outs.len() == children.len()
    &&& forall|i: int|
        0 <= i < children.len() && children[i] is Some ==> may_print(
            children[i]->0,
            child_tab(tab, i == last),
            #[trigger] outs[i],
        )
}

/// `tab` followed by `suffix`, as a new string.
fn tab_then(tab: &str, suffix: &str) -> (r: String)
    ensures
        r@ == tab@ + suffix@,
{
    let mut s = String::from_str(tab);
    s.append(suffix);
    s
}

/// Prints the two children of a binary node, left (`←`) then right (`→`),
/// each on a line of its own; a child's lines are indented by two more
/// spaces.
pub fn print_binary<F: Fn(&str) -> String + ?Sized>(tab: Option<&str>, children: [Option<&F>; 2]) -> (r:
    String)
    requires
        printers_ready(children@),
    ensures
        exists|left: Seq<char>, right: Seq<char>|
            #![trigger binary_line(tab_text(tab), '←', children[0] is Some, left), binary_line(tab_text(tab), '→', children[1] is Some, right)]
            {
                &&& (children[0] matches Some(f) ==> may_print(
                    f,
                    tab_text(tab) + seq![' ', ' '],
                    left,
                ))
                &&& (children[1] matches Some(f) ==> may_print(
                    f,
                    tab_text(tab) + seq![' ', ' '],
                    right,
                ))
                &&& r@ == binary_line(tab_text(tab), '←', children[0] is Some, left) + binary_line(
                    tab_text(tab),
                    '→',
                    children[1] is Some,
                    right,
                )
            },
{
    let t: &str = match tab {
        Some(t) => t,
        None => "",
    };
    proof {
        reveal_strlit("");
        reveal_strlit("\n");
        reveal_strlit("← ");
        reveal_strlit("→ ");
        reveal_strlit("  ");
    }
    assert(t@ == tab_text(tab));
    assert("\n"@ =~= seq!['\n']);
    assert("← "@ =~= seq!['←', ' ']);
    assert("→ "@ =~= seq!['→', ' ']);
    assert("  "@ =~= seq![' ', ' ']);
    let mut out = String::new();
    let left = children[0];
    let right = children[1];
    assert(left == children@[0]);
    assert(right == children@[1]);
    let ghost mut lt: Seq<char> = Seq::empty();
    let ghost mut rt: Seq<char> = Seq::empty();
    if let Some(f) = left {
        let child_tab = tab_then(t, "  ");
        let ct: &str = child_tab.as_str();
        assert(call_requires(children@[0]->0, (ct,)));
        let text = f(ct);
        proof {
            lt = text@;
            assert(call_ensures(f, (ct,), text));
        }
        out.append("\n");
        out.append(t);
        out.append("← ");
        out.append(text.as_str());
    }
    let ghost mid = out@;
    assert(mid =~= binary_line(t@, '←', children[0] is Some, lt));
    if let Some(f) = right {
        let child_tab = tab_then(t, "  ");
        let ct: &str = child_tab.as_str();
        assert(call_requires(children@[1]->0, (ct,)));
        let text = f(ct);
        proof {
            rt = text@;
            assert(call_ensures(f, (ct,), text));
        }
        out.append("\n");
        out.append(t);
        out.append("→ ");
        out.append(text.as_str());
    }
    assert(out@ =~= mid + binary_line(t@, '→', children[1] is Some, rt));
    assert(out@ == binary_line(tab_text(tab), '←', children[0] is Some, lt) + binary_line(
        tab_text(tab),
        '→',
        children[1] is Some,
        rt,
    ));
    out
}

/// Same as `print_binary`.
#[allow(non_snake_case)]
pub fn printBinary<F: Fn(&str) -> String + ?Sized>(tab: Option<&str>, children: [Option<&F>; 2]) -> (r:
    String)
    requires
        printers_ready(children@),
    ensures
        exists|left: Seq<char>, right: Seq<char>|
            #![trigger binary_line(tab_text(tab), '←', children[0] is Some, left), binary_line(tab_text(tab), '→', children[1] is Some, right)]
            {
                &&& (children[0] matches Some(f) ==> may_print(
                    f,
                    tab_text(tab) + seq![' ', ' '],
                    left,
                ))
                &&& (children[1] matches Some(f) ==> may_print(
                    f,
                    tab_text(tab) + seq![' ', ' '],
                    right,
                ))
                &&& r@ == binary_line(tab_text(tab), '←', children[0] is Some, left) + binary_line(
                    tab_text(tab),
                    '→',
                    children[1] is Some,
                    right,
                )
            },
{
    print_binary(tab, children)
}

/// With no child present from `n` on, the last present one is before `n`.
proof fn lemma_last_present<F: ?Sized>(children: Seq<Option<&F>>, n: int)
    requires
        0 <= n <= children.len(),
        forall|k: int| n <= k < children.len() ==> children[k] is None,
        n == 0 || children[n - 1] is Some,
    ensures
        last_present(children) == n - 1,
    decreases children.len(),
{
    if children.len() > n {
        let d = children.drop_last();
        assert forall|k: int| n <= k < d.len() implies d[k] is None by {
            assert(d[k] == children[k]);
        }
        if n > 0 {
            assert(d[n - 1] == children[n - 1]);
        }
        lemma_last_present(d, n);
    }
}

/// Children that are absent add no lines.
proof fn lemma_tree_lines_absent<F: ?Sized>(
    tab: Seq<char>,
    children: Seq<Option<&F>>,
    outs: Seq<Seq<char>>,
    last: int,
    n: int,
    m: int,
)
    requires
        0 <= n <= m <= children.len(),
        forall|k: int| n <= k < children.len() ==> children[k] is None,
    ensures
        tree_lines(tab, children, outs, last, m) == tree_lines(tab, children, outs, last, n),
    decreases m,
{
    if m > n {
        lemma_tree_lines_absent(tab, children, outs, last, n, m - 1);
        assert(tree_lines(tab, children, outs, last, m - 1) + Seq::<char>::empty() =~= tree_lines(
            tab,
            children,
            outs,
            last,
            m - 1,
        ));
    }
}

/// Prints the children of a tree node, one line each, with box-drawing
/// branches; the last child present is drawn as the last one.  Absent
/// children print nothing.
pub fn print_tree<F: Fn(&str) -> String + ?Sized>(tab: Option<&str>, children: &[Option<&F>]) -> (r:
    String)
    requires
        printers_ready(children@),
    ensures
        exists|outs: Seq<Seq<char>>|
            #![trigger tree_outputs(tab_text(tab), children@, outs, last_present(children@))]
            {
                &&& tree_outputs(tab_text(tab), children@, outs, last_present(children@))
                &&& r@ == tree_lines(
                    tab_text(tab),
                    children@,
                    outs,
                    last_present(children@),
                    children@.len() as int,
                )
            },
{
    let t: &str = match tab {
        Some(t) => t,
        None => "",
    };
    proof {
        reveal_strlit("");
        reveal_strlit("\n");
        reveal_strlit("│");
        reveal_strlit("└─ ");
        reveal_strlit("├─ ");
        reveal_strlit("   ");
        reveal_strlit("│  ");
    }
    assert(t@ == tab_text(tab));
    assert("\n"@ =~= seq!['\n']);
    assert("│"@ =~= seq!['│']);
    assert("└─ "@ =~= seq!['└', '─', ' ']);
    assert("├─ "@ =~= seq!['├', '─', ' ']);
    assert("   "@ =~= seq![' ', ' ', ' ']);
    assert("│  "@ =~= seq!['│', ' ', ' ']);
    let mut n: usize = children.len();
    while n > 0 && children[n - 1].is_none()
        invariant
            n <= children@.len(),
            forall|k: int| n <= k < children@.len() ==> children@[k] is None,
        decreases n,
    {
        n = n - 1;
    }
    proof {
        lemma_last_present(children@, n as int);
    }
    let ghost last: int = n - 1;
    let ghost mut outs: Seq<Seq<char>> = Seq::empty();
    let mut out = String::new();
    let mut i: usize = 0;
    while i < n
        invariant
            i <= n <= children@.len(),
            last == n - 1,
            printers_ready(children@),
            t@ == tab_text(tab),
            "\n"@ == seq!['\n'],
            "│"@ == seq!['│'],
            "└─ "@ == seq!['└', '─', ' '],
            "├─ "@ == seq!['├', '─', ' '],
            "   "@ == seq![' ', ' ', ' '],
            "│  "@ == seq!['│', ' ', ' '],
            outs.len() == i,
            forall|k: int|
                0 <= k < i && children@[k] is Some ==> may_print(
                    children@[k]->0,
                    child_tab(t@, k == last),
                    #[trigger] outs[k],
                ),
            out@ == tree_lines(t@, children@, outs, last, i as int),
        decreases n - i,
    {
        let ghost before = out@;
        let ghost outs0 = outs;
        match children[i] {
            None => {
                proof {
                    outs = outs.push(Seq::empty());
                    assert(tree_lines(t@, children@, outs, last, i as int) == tree_lines(
                        t@,
                        children@,
                        outs0,
                        last,
                        i as int,
                    )) by {
                        lemma_tree_lines_prefix(t@, children@, outs0, outs, last, i as int);
                    }
                    assert(out@ =~= tree_lines(t@, children@, outs, last, i + 1));
                }
            },
            Some(f) => {
                let is_last = i + 1 == n;
                let child_tab_s = if is_last {
                    tab_then(t, "   ")
                } else {
                    tab_then(t, "│  ")
                };
                let ct: &str = child_tab_s.as_str();
                assert(call_requires(children@[i as int]->0, (ct,)));
                let child = f(ct);
                proof {
                    assert(call_ensures(f, (ct,), child));
                    assert(ct@ == child_tab(t@, i == last));
                    outs = outs.push(child@);
                    lemma_tree_lines_prefix(t@, children@, outs0, outs, last, i as int);
                }
                out.append("\n");
                out.append(t);
                if child.as_str().unicode_len() == 0 {
                    out.append("│");
                } else if is_last {
                    out.append("└─ ");
                    out.append(child.as_str());
                } else {
                    out.append("├─ ");
                    out.append(child.as_str());
                }
                assert(out@ =~= before + tree_line(t@, true, i == last, child@));
            },
        }
        i = i + 1;
    }
    proof {
        let full = outs + Seq::new((children@.len() - n) as nat, |k: int| Seq::<char>::empty());
        lemma_tree_lines_prefix(t@, children@, outs, full, last, n as int);
        lemma_tree_lines_absent(t@, children@, full, last, n as int, children@.len() as int);
        assert(tree_outputs(tab_text(tab), children@, full, last_present(children@)));
    }
    out
}

/// Same as `print_tree`.
#[allow(non_snake_case)]
pub fn printTree<F: Fn(&str) -> String + ?Sized>(tab: Option<&str>, children: &[Option<&F>]) -> (r:
    String)
    requires
        printers_ready(children@),
    ensures
        exists|outs: Seq<Seq<char>>|
            #![trigger tree_outputs(tab_text(tab), children@, outs, last_present(children@))]
            {
                &&& tree_outputs(tab_text(tab), children@, outs, last_present(children@))
                &&& r@ == tree_lines(
                    tab_text(tab),
                    children@,
                    outs,
                    last_present(children@),
                    children@.len() as int,
                )
            },
{
    print_tree(tab, children)
}

/// The lines of the first `n` children depend on the first `n` texts only.
proof fn lemma_tree_lines_prefix<F: ?Sized>(
    tab: Seq<char>,
    children: Seq<Option<&F>>,
    outs: Seq<Seq<char>>,
    longer: Seq<Seq<char>>,
    last: int,
    n: int,
)
    requires
        0 <= n <= outs.len() <= longer.len(),
        forall|k: int| 0 <= k < n ==> outs[k] == longer[k],
    ensures
        tree_lines(tab, children, outs, last, n) == tree_lines(tab, children, longer, last, n),
    decreases n,
{
    if n > 0 {
        lemma_tree_lines_prefix(tab, children, outs, longer, last, n - 1);
    }
}

} // verus!
