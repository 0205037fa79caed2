//! The tree serializer: a document tree back to ordered terms, and terms to
//! markup text with a fixed declaration line.

use vstd::prelude::*;
use vstd::string::StrSliceExecFns;
use vstd::string::StringExecFns;

use crate::node::NodeV;
use crate::node::XMLTree;
use crate::node::tree_wf;
use crate::term::TermV;
use crate::term::XMLTerm;
use crate::term::terms_v;

verus! {

/// Two spaces of indentation per depth level.
pub open spec fn indent(depth: nat) -> Seq<char> {
    Seq::new(2 * depth, |t: int| ' ')
}

/// The terms node `i` serializes to at depth `depth`: indentation, the
/// opening tag, its text if any, a line break and the indented children if
/// any, then the closing tag and a line break.
pub open spec fn ser_node(nodes: Seq<NodeV>, i: int, depth: nat) -> Seq<TermV>
    decreases nodes.len() - i, 1int, 0int,
{
    if tree_wf(nodes) && 0 <= i < nodes.len() {
        let head = seq![TermV::Text(indent(depth)), TermV::Open(nodes[i].name)] + (if nodes[i].data.len() > 0 {
            seq![TermV::Text(nodes[i].data)]
        } else {
            Seq::empty()
        }) + (if nodes[i].children.len() > 0 {
            seq![TermV::Text(seq!['\n'])]
        } else {
            Seq::empty()
        });
        let tail = (if nodes[i].children.len() > 0 {
            seq![TermV::Text(indent(depth))]
        } else {
            Seq::empty()
        }) + seq![TermV::Close(nodes[i].name), TermV::Text(seq!['\n'])];
        head + ser_kids(nodes, i, 0, depth) + tail
    } else {
        Seq::empty()
    }
}

/// The terms children `k..` of node `i` serialize to, one level deeper.
pub open spec fn ser_kids(nodes: Seq<NodeV>, i: int, k: int, depth: nat) -> Seq<TermV>
    decreases nodes.len() - i, 0int, nodes[i].children.len() - k,
{
    if tree_wf(nodes) && 0 <= i < nodes.len() && 0 <= k < nodes[i].children.len() {
        ser_node(nodes, nodes[i].children[k], depth + 1) + ser_kids(nodes, i, k + 1, depth)
    } else {
        Seq::empty()
    }
}

/// A run of two spaces per depth level.
pub fn make_indent(depth: usize) -> (r: String)
    ensures
        r@ == indent(depth as nat),
{
    let mut r = String::new();
    proof {
        reveal_strlit("  ");
    }
    let mut t: usize = 0;
    while t < depth
        invariant
            t <= depth,
            r@ == indent(t as nat),
        decreases depth - t,
    {
        r.append("  ");
        proof {
            assert(r@ =~= indent(t as nat + 1));
        }
        t += 1;
    }
    r
}

/// Appends the terms the subtree under node `idx` serializes to, walking
/// depth-first at the given indentation depth.
pub fn recursive_xml_reverse_parse(
    tree: &XMLTree,
    idx: usize,
    terms: &mut Vec<XMLTerm>,
    depth: usize,
)
    requires
        tree.wf(),
        idx < tree.nodes.len(),
        depth <= idx,
    ensures
        terms_v(final(terms)@) == terms_v(old(terms)@) + ser_node(
            tree@,
            idx as int,
            depth as nat,
        ),
    decreases tree.nodes.len() - idx,
{
    let ghost before = terms_v(old(terms)@);
    let ghost head = seq![
        TermV::Text(indent(depth as nat)),
        TermV::Open(tree@[idx as int].name),
    ] + (if tree@[idx as int].data.len() > 0 {
        seq![TermV::Text(tree@[idx as int].data)]
    } else {
        Seq::empty()
    }) + (if tree@[idx as int].children.len() > 0 {
        seq![TermV::Text(seq!['\n'])]
    } else {
        Seq::empty()
    });
    terms.push(XMLTerm::Text(make_indent(depth)));
    terms.push(XMLTerm::OpeningTag(tree.nodes[idx].name.clone()));
    if !tree.nodes[idx].data.as_str().is_empty() {
        terms.push(XMLTerm::Text(tree.nodes[idx].data.clone()));
    }
    let n_kids = tree.nodes[idx].children.len();
    if n_kids > 0 {
        let nl = "\n".to_owned();
        proof {
            reveal_strlit("\n");
            assert(nl@ =~= seq!['\n']);
        }
        terms.push(XMLTerm::Text(nl));
    }
    proof {
        assert(terms_v(terms@) =~= before + head);
    }
    let mut k: usize = 0;
    while k < n_kids
        invariant
            k <= n_kids,
            n_kids == tree@[idx as int].children.len(),
            terms_v(terms@) + ser_kids(tree@, idx as int, k as int, depth as nat) == before + head
                + ser_kids(tree@, idx as int, 0, depth as nat),
        decreases n_kids - k,
    {
        let c = tree.nodes[idx].children[k];
        let ghost cur = terms_v(terms@);
        proof {
            assert(tree@[idx as int].children[k as int] == c as int);
        }
        recursive_xml_reverse_parse(tree, c, terms, depth + 1);
        proof {
            assert(ser_kids(tree@, idx as int, k as int, depth as nat) == ser_node(
                tree@,
                c as int,
                depth as nat + 1,
            ) + ser_kids(tree@, idx as int, k as int + 1, depth as nat));
            assert(terms_v(terms@) + ser_kids(tree@, idx as int, k as int + 1, depth as nat) =~= cur
                + ser_kids(tree@, idx as int, k as int, depth as nat));
        }
        k += 1;
    }
    proof {
        assert(ser_kids(tree@, idx as int, n_kids as int, depth as nat) =~= Seq::<
            TermV,
        >::empty());
        assert(terms_v(terms@) =~= before + head + ser_kids(tree@, idx as int, 0, depth as nat));
    }
    if n_kids > 0 {
        terms.push(XMLTerm::Text(make_indent(depth)));
    }
    terms.push(XMLTerm::ClosingTag(tree.nodes[idx].name.clone()));
    let nl2 = "\n".to_owned();
    proof {
        reveal_strlit("\n");
        assert(nl2@ =~= seq!['\n']);
    }
    terms.push(XMLTerm::Text(nl2));
    proof {
        let tail = (if tree@[idx as int].children.len() > 0 {
            seq![TermV::Text(indent(depth as nat))]
        } else {
            Seq::<TermV>::empty()
        }) + seq![TermV::Close(tree@[idx as int].name), TermV::Text(seq!['\n'])];
        assert(terms_v(terms@) =~= before + head + ser_kids(tree@, idx as int, 0, depth as nat)
            + tail);
        assert(ser_node(tree@, idx as int, depth as nat) == head + ser_kids(
            tree@,
            idx as int,
            0,
            depth as nat,
        ) + tail);
        assert(terms_v(terms@) =~= before + ser_node(tree@, idx as int, depth as nat));
    }
}

/// Serializes a tree into the ordered terms of its first top-level child;
/// further top-level siblings are ignored. The tree must have at least one
/// child under the synthetic root.
pub fn xml_reverse_parser(root: &XMLTree) -> (r: Vec<XMLTerm>)
    requires
        root.wf(),
        root@[0].children.len() > 0,
    ensures
        terms_v(r@) == ser_node(root@, root@[0].children[0], 0),
{
    let c = root.nodes[0].children[0];
    let mut terms: Vec<XMLTerm> = Vec::new();
    proof {
        assert(root@[0].children[0] == c as int);
        assert(c as int > 0);
    }
    recursive_xml_reverse_parse(root, c, &mut terms, 0);
    proof {
        assert(terms_v(terms@) =~= ser_node(root@, root@[0].children[0], 0));
    }
    terms
}

/// The text one term renders to: `<name>`, `</name>`, the text itself, or
/// nothing.
pub open spec fn render_term(t: TermV) -> Seq<char> {
    match t {
        TermV::Open(s) => seq!['<'] + s + seq!['>'],
        TermV::Close(s) => seq!['<', '/'] + s + seq!['>'],
        TermV::Text(s) => s,
        TermV::Nothing => Seq::empty(),
    }
}

/// The first `k` terms rendered in order.
pub open spec fn render_terms_up(ts: Seq<TermV>, k: int) -> Seq<char>
    decreases k,
{
    if k <= 0 {
        Seq::empty()
    } else {
        render_terms_up(ts, k - 1) + render_term(ts[k - 1])
    }
}

/// The fixed declaration line markup output always begins with.
pub open spec fn xml_decl() -> Seq<char> {
    "<?xml version=\"1.0\"?>\n"@
}

/// The whole markup text a term sequence renders to.
pub open spec fn spec_xml_format(ts: Seq<TermV>) -> Seq<char> {
    xml_decl() + render_terms_up(ts, ts.len() as int)
}

/// Converts ordered terms into markup text, prepending the declaration
/// line.
pub fn xml_formatter(terms: Vec<XMLTerm>) -> (r: String)
    ensures
        r@ == spec_xml_format(terms_v(terms@)),
{
    let mut out = "<?xml version=\"1.0\"?>\n".to_owned();
    proof {
        reveal_strlit("<");
        reveal_strlit(">");
        reveal_strlit("</");
        assert("<"@ =~= seq!['<']);
        assert(">"@ =~= seq!['>']);
        assert("</"@ =~= seq!['<', '/']);
    }
    let mut k: usize = 0;
    while k < terms.len()
        invariant
            k <= terms@.len(),
            out@ == xml_decl() + render_terms_up(terms_v(terms@), k as int),
        decreases terms@.len() - k,
    {
        match &terms[k] {
            XMLTerm::OpeningTag(s) => {
                out.append("<");
                out.append(s.as_str());
                out.append(">");
            },
            XMLTerm::ClosingTag(s) => {
                out.append("</");
                out.append(s.as_str());
                out.append(">");
            },
            XMLTerm::Text(s) => {
                out.append(s.as_str());
            },
            XMLTerm::Nothing => {},
        }
        proof {
            assert(out@ =~= xml_decl() + render_terms_up(terms_v(terms@), k as int + 1));
        }
        k += 1;
    }
    out
}

} // verus!
