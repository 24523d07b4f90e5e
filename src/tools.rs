//! An indented dump of a tree, one line per node.
use vstd::prelude::*;
use crate::dom::{Node, NodeType};

verus! {

/// What the line of a node says after its prefix.
pub open spec fn label(t: NodeType) -> Seq<char> {
    match t {
        NodeType::Root => "Root"@,
        NodeType::Text(d) => "Text "@ + d@,
        NodeType::Comment(d) => "Comment "@ + d@,
        NodeType::Element(e) => e.line(),
        NodeType::Document(d) => d.line(),
    }
}

/// `s` with each `├─`, from the left, turned into `│ `.
pub open spec fn replaced(s: Seq<char>) -> Seq<char>
    decreases s.len(),
{
    if s.len() >= 2 && s[0] == '├' && s[1] == '─' {
        seq!['│', ' '] + replaced(s.skip(2))
    } else if s.len() == 0 {
        s
    } else {
        seq![s[0]] + replaced(s.drop_first())
    }
}

/// The prefix of the child at `i` of `n` children under a node whose prefix is `pre`.
pub open spec fn child_prefix(pre: Seq<char>, i: int, n: int) -> Seq<char> {
    (if i == n - 1 {
        replaced(pre)
    } else {
        pre
    }) + (if n > 1 {
        "\t├─"@
    } else {
        "\t└─"@
    })
}

/// The lines of the dump of `n` under the prefix `pre`: its own line, then those of its
/// children.
pub open spec fn dump(n: Node, pre: Seq<char>) -> Seq<Seq<char>>
    decreases n, n.children.len() + 1,
{
    seq![pre + label(n.node_type)] + dump_children(n, pre, n.children.len() as int)
}

/// The lines of the first `k` children of `n`.
pub open spec fn dump_children(n: Node, pre: Seq<char>, k: int) -> Seq<Seq<char>>
    decreases n, k,
{
    if k <= 0 || k > n.children.len() {
        seq![]
    } else {
        dump_children(n, pre, k - 1) + dump(
            n.children[k - 1],
            child_prefix(pre, k - 1, n.children.len() as int),
        )
    }
}

pub open spec fn lines_of(v: Seq<String>) -> Seq<Seq<char>> {
    v.map_values(|s: String| s@)
}

fn replace_branch(pre: &String) -> (r: String)
    ensures
        r@ == replaced(pre@),
{
    let src = pre.as_str();
    let n = src.unicode_len();
    let mut r = String::new();
    let mut k: usize = 0;
    proof {
        assert(pre@.skip(0) =~= pre@);
        assert(replaced(pre@) =~= r@ + replaced(pre@.skip(0)));
    }
    while k < n
        invariant
            n == pre@.len(),
            src@ == pre@,
            k <= n,
            replaced(pre@) == r@ + replaced(pre@.skip(k as int)),
        decreases n - k,
    {
        let ghost t = pre@.skip(k as int);
        if k + 1 < n && src.get_char(k) == '├' && src.get_char(k + 1) == '─' {
            r.append("│ ");
            proof {
                reveal_strlit("│ ");
                assert(t.skip(2) =~= pre@.skip(k + 2));
                assert(r@ + replaced(pre@.skip(k + 2)) =~= (r@.subrange(0, r@.len() - 2)) + (
                seq!['│', ' '] + replaced(t.skip(2))));
            }
            k = k + 2;
        } else {
            let c = src.substring_char(k, k + 1);
            r.append(c);
            proof {
                assert(t.drop_first() =~= pre@.skip(k + 1));
                assert(c@ =~= seq![t[0]]);
            }
            k = k + 1;
        }
    }
    assert(pre@.skip(k as int).len() == 0);
    assert(r@ + replaced(pre@.skip(k as int)) =~= r@);
    r
}

/// The line of a node: its prefix and its label.
fn node_line(tree: &Node, pre_line: &String) -> (r: String)
    ensures
        r@ == pre_line@ + label(tree.node_type),
{
    let mut line = pre_line.clone();
    match &tree.node_type {
        NodeType::Root => line.append("Root"),
        NodeType::Text(data) => {
            line.append("Text ");
            line.append(data.as_str());
        },
        NodeType::Comment(data) => {
            line.append("Comment ");
            line.append(data.as_str());
        },
        NodeType::Element(node_spec) => {
            let d = node_spec.to_string();
            line.append(d.as_str());
        },
        NodeType::Document(node_spec) => {
            let d = node_spec.to_string();
            line.append(d.as_str());
        },
    }
    line
}

/// Appends to `out` the lines of `tree` under the prefix `pre_line`.
fn dom_print(tree: &Node, pre_line: String, out: &mut Vec<String>)
    ensures
        lines_of(final(out)@) == lines_of(old(out)@) + dump(*tree, pre_line@),
    decreases tree,
{
    let ghost start = lines_of(out@);
    out.push(node_line(tree, &pre_line));
    let n = tree.children.len();
    let mut i: usize = 0;
    proof {
        assert(lines_of(out@) =~= start + seq![pre_line@ + label(tree.node_type)]);
    }
    while i < n
        invariant
            n == tree.children.len(),
            i <= n,
            lines_of(out@) == start + seq![pre_line@ + label(tree.node_type)] + dump_children(
                *tree,
                pre_line@,
                i as int,
            ),
        decreases n - i,
    {
        let mut pre_line_child = if i == n - 1 {
            replace_branch(&pre_line)
        } else {
            pre_line.clone()
        };
        if n > 1 {
            pre_line_child.append("\t├─");
        } else {
            pre_line_child.append("\t└─");
        }
        assert(pre_line_child@ == child_prefix(pre_line@, i as int, n as int));
        dom_print(&tree.children[i], pre_line_child, out);
        proof {
            assert(dump_children(*tree, pre_line@, i + 1) == dump_children(
                *tree,
                pre_line@,
                i as int,
            ) + dump(tree.children[i as int], child_prefix(pre_line@, i as int, n as int)));
            assert(lines_of(out@) =~= start + seq![pre_line@ + label(tree.node_type)]
                + dump_children(*tree, pre_line@, i + 1));
        }
        i = i + 1;
    }
    assert(start + seq![pre_line@ + label(tree.node_type)] + dump_children(
        *tree,
        pre_line@,
        n as int,
    ) =~= start + dump(*tree, pre_line@));
}

/// The dump of `tree`, one line per node: each child is indented under its parent by a tab
/// and a branch, `├─` where the parent has several children and `└─` where it has one.
pub fn pretty_print(tree: &Node) -> (r: Vec<String>)
    ensures
        lines_of(r@) == dump(*tree, seq![]),
{
    let mut out: Vec<String> = Vec::new();
    assert(lines_of(out@) =~= seq![]);
    dom_print(tree, String::new(), &mut out);
    assert(lines_of(out@) =~= dump(*tree, seq![]));
    out
}

} // verus!
