//! The text that stands for a node.

use crate::node::{lemma_view, views, Node, NodeType, NodeView};
use vstd::prelude::*;
use vstd::string::StringExecFns;

verus! {

/// The character of a decimal digit.
pub open spec fn digit(d: nat) -> char {
    if d == 0 {
        '0'
    } else if d == 1 {
        '1'
    } else if d == 2 {
        '2'
    } else if d == 3 {
        '3'
    } else if d == 4 {
        '4'
    } else if d == 5 {
        '5'
    } else if d == 6 {
        '6'
    } else if d == 7 {
        '7'
    } else if d == 8 {
        '8'
    } else {
        '9'
    }
}

/// A number in decimal digits, without leading zeros.
pub open spec fn decimal(n: nat) -> Seq<char>
    decreases n,
{
    if n < 10 {
        seq![digit(n)]
    } else {
        decimal(n / 10).push(digit(n % 10))
    }
}

/// The text of a file.
pub open spec fn file_text(node: NodeView) -> Seq<char> {
    "File: "@ + node.path + " (size: "@ + decimal(node.size) + ")"@
}

/// The first line of the text of a directory.
pub open spec fn directory_heading(node: NodeView) -> Seq<char> {
    "Directory: "@ + node.path + " (size: "@ + decimal(node.size) + ")\n"@
}

/// The line of a file among the children of a directory.
pub open spec fn file_entry(node: NodeView) -> Seq<char> {
    "    "@ + node.path + " (size: "@ + decimal(node.size) + " bytes)\n"@
}

/// The line of a directory among the children of a directory.
pub open spec fn directory_entry(node: NodeView) -> Seq<char> {
    "    "@ + node.path + "\n"@
}

/// The line of `node` where it is of the type `wanted`, else nothing.
pub open spec fn entry_of(node: NodeView, wanted: NodeType) -> Seq<char> {
    if node.node_type != wanted {
        Seq::empty()
    } else if wanted == NodeType::File {
        file_entry(node)
    } else {
        directory_entry(node)
    }
}

/// The lines of the children of the type `wanted`, in their order.
pub open spec fn entries_of(children: Seq<NodeView>, wanted: NodeType) -> Seq<char>
    decreases children.len(),
{
    if children.len() == 0 {
        Seq::empty()
    } else {
        entries_of(children.drop_last(), wanted) + entry_of(children.last(), wanted)
    }
}

/// Whether one of `children` is of the type `wanted`.
pub open spec fn any_of(children: Seq<NodeView>, wanted: NodeType) -> bool {
    exists|i: int| 0 <= i < children.len() && (#[trigger] children[i]).node_type == wanted
}

/// The section of the children of the type `wanted`: a heading and their
/// lines, or nothing where there is no such child.
pub open spec fn section(heading: Seq<char>, children: Seq<NodeView>, wanted: NodeType) -> Seq<
    char,
> {
    if any_of(children, wanted) {
        heading + entries_of(children, wanted)
    } else {
        Seq::empty()
    }
}

/// The text that stands for a node. A file shows its path and size. A
/// directory shows its path and size, then its files with path and size,
/// then its directories with their path; where it was not listed yet, a
/// note says so instead.
pub open spec fn rendered(node: NodeView) -> Seq<char> {
    match node.node_type {
        NodeType::File => file_text(node),
        NodeType::Directory => directory_heading(node) + match node.children {
            None => "  [Children not populated]"@,
            Some(children) => section("  File Children:\n"@, children, NodeType::File) + section(
                "  Directory Children:\n"@,
                children,
                NodeType::Directory,
            ),
        },
    }
}

/// The text of one decimal digit.
fn digit_text(d: u64) -> (text: &'static str)
    requires
        d < 10,
    ensures
        text@ == seq![digit(d as nat)],
{
    proof {
        reveal_strlit("0");
        reveal_strlit("1");
        reveal_strlit("2");
        reveal_strlit("3");
        reveal_strlit("4");
        reveal_strlit("5");
        reveal_strlit("6");
        reveal_strlit("7");
        reveal_strlit("8");
        reveal_strlit("9");
    }
    let text = if d == 0 {
        "0"
    } else if d == 1 {
        "1"
    } else if d == 2 {
        "2"
    } else if d == 3 {
        "3"
    } else if d == 4 {
        "4"
    } else if d == 5 {
        "5"
    } else if d == 6 {
        "6"
    } else if d == 7 {
        "7"
    } else if d == 8 {
        "8"
    } else {
        "9"
    };
    assert(text@ =~= seq![digit(d as nat)]);
    text
}

/// Appends `n` in decimal digits.
pub fn push_decimal(out: &mut String, n: u64)
    ensures
        final(out)@ == old(out)@ + decimal(n as nat),
    decreases n,
{
    if n >= 10 {
        push_decimal(out, n / 10);
    }
    out.append(digit_text(n % 10));
    assert(out@ =~= old(out)@ + decimal(n as nat));
}

/// Appends the line of `node` where it is of the type `wanted`.
fn push_entry(out: &mut String, node: &Node, wanted: NodeType)
    ensures
        final(out)@ == old(out)@ + entry_of(node@, wanted),
{
    proof {
        lemma_view(*node);
    }
    match (node.node_type, wanted) {
        (NodeType::File, NodeType::File) => {
            out.append("    ");
            out.append(node.path.as_str());
            out.append(" (size: ");
            push_decimal(out, node.size);
            out.append(" bytes)\n");
        },
        (NodeType::Directory, NodeType::Directory) => {
            out.append("    ");
            out.append(node.path.as_str());
            out.append("\n");
        },
        _ => {},
    }
    assert(out@ =~= old(out)@ + entry_of(node@, wanted));
}

/// Appends the section of the children of the type `wanted`.
fn push_section(out: &mut String, heading: &str, children: &Vec<Node>, wanted: NodeType)
    ensures
        final(out)@ == old(out)@ + section(heading@, views(children@), wanted),
{
    let ghost all = views(children@);
    let mut lines = String::new();
    let mut any = false;
    let mut i: usize = 0;
    assert(all.take(0) =~= Seq::empty());
    while i < children.len()
        invariant
            i <= children.len(),
            all == views(children@),
            lines@ == entries_of(all.take(i as int), wanted),
            any == any_of(all.take(i as int), wanted),
        decreases children.len() - i,
    {
        proof {
            lemma_view(children@[i as int]);
            assert(all.take(i + 1).drop_last() =~= all.take(i as int));
            assert(all.take(i + 1).last() == all[i as int]);
        }
        if children[i].node_type == wanted {
            any = true;
        }
        push_entry(&mut lines, &children[i], wanted);
        proof {
            let shorter = all.take(i as int);
            let longer = all.take(i + 1);
            if any_of(shorter, wanted) {
                let k = choose|k: int| 0 <= k < shorter.len() && (#[trigger] shorter[k]).node_type
                    == wanted;
                assert(longer[k].node_type == wanted);
            }
            if any_of(longer, wanted) && all[i as int].node_type != wanted {
                let k = choose|k: int| 0 <= k < longer.len() && (#[trigger] longer[k]).node_type
                    == wanted;
                assert(shorter[k].node_type == wanted);
            }
            if all[i as int].node_type == wanted {
                assert(longer[i as int].node_type == wanted);
            }
        }
        i += 1;
    }
    assert(all.take(i as int) =~= all);
    if any {
        out.append(heading);
        out.append(lines.as_str());
    }
    assert(out@ =~= old(out)@ + section(heading@, all, wanted));
}

impl Node {
    /// The text that stands for this node.
    pub fn render(&self) -> (text: String)
        ensures
            text@ == rendered(self@),
    {
        proof {
            lemma_view(*self);
        }
        let mut out = String::new();
        match self.node_type {
            NodeType::File => {
                out.append("File: ");
                out.append(self.path.as_str());
                out.append(" (size: ");
                push_decimal(&mut out, self.size);
                out.append(")");
            },
            NodeType::Directory => {
                out.append("Directory: ");
                out.append(self.path.as_str());
                out.append(" (size: ");
                push_decimal(&mut out, self.size);
                out.append(")\n");
                match &self.children {
                    None => {
                        out.append("  [Children not populated]");
                    },
                    Some(children) => {
                        push_section(&mut out, "  File Children:\n", children, NodeType::File);
                        push_section(
                            &mut out,
                            "  Directory Children:\n",
                            children,
                            NodeType::Directory,
                        );
                    },
                }
            },
        }
        assert(out@ =~= rendered(self@));
        out
    }
}

} // verus!
