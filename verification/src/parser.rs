//! The tree parser: an ordered term sequence to a document tree, built with
//! an explicit stack seeded with a synthetic root node.

use vstd::prelude::*;
use vstd::string::StringExecFns;

use crate::node::NodeV;
use crate::node::XMLNode;
use crate::node::XMLTree;
use crate::node::tree_wf;
use crate::term::TermV;
use crate::term::XMLTerm;
use crate::term::terms_v;

verus! {

/// The parser state: the arena built so far and the stack of open nodes.
#[verifier::ext_equal]
pub struct ParseSt {
    pub nodes: Seq<NodeV>,
    pub stack: Seq<int>,
}

/// What a parse comes to: a finished state, an abort with a message, or a
/// stack underflow (the one input the executable parser refuses to take).
pub enum ParseOut {
    Good(ParseSt),
    Fail(Seq<char>),
    Crash,
}

/// The state the parse starts in: one synthetic root node, on the stack.
pub open spec fn parse_init() -> ParseSt {
    ParseSt {
        nodes: seq![
            NodeV {
                name: "root"@,
                data: Seq::empty(),
                parent: Option::None,
                children: Seq::empty(),
            },
        ],
        stack: seq![0],
    }
}

/// The message a mismatched closing tag aborts with.
pub open spec fn parse_err_msg(found: Seq<char>, expected: Seq<char>) -> Seq<char> {
    "Unexpected closing tag. Found: "@ + found + ", Expected: "@ + expected
}

/// One step of the parse.
pub open spec fn parse_step(st: ParseSt, t: TermV) -> ParseOut {
    match t {
        TermV::Open(s) => if st.stack.len() == 0 {
            ParseOut::Crash
        } else {
            let top = st.stack.last();
            let idx = st.nodes.len() as int;
            ParseOut::Good(
                ParseSt {
                    nodes: st.nodes.update(
                        top,
                        NodeV { children: st.nodes[top].children.push(idx), ..st.nodes[top] },
                    ).push(
                        NodeV {
                            name: s,
                            data: Seq::empty(),
                            parent: Some(top),
                            children: Seq::empty(),
                        },
                    ),
                    stack: st.stack.push(idx),
                },
            )
        },
        TermV::Close(s) => if st.stack.len() == 0 {
            ParseOut::Crash
        } else {
            let top = st.stack.last();
            if s == st.nodes[top].name {
                ParseOut::Good(ParseSt { stack: st.stack.drop_last(), ..st })
            } else {
                ParseOut::Fail(parse_err_msg(s, st.nodes[top].name))
            }
        },
        TermV::Text(s) => if st.stack.len() == 0 {
            ParseOut::Crash
        } else {
            let top = st.stack.last();
            ParseOut::Good(
                ParseSt {
                    nodes: st.nodes.update(
                        top,
                        NodeV { data: st.nodes[top].data + s, ..st.nodes[top] },
                    ),
                    ..st
                },
            )
        },
        TermV::Nothing => ParseOut::Good(st),
    }
}

/// The parse folded over a term sequence, starting from `st`.
pub open spec fn parse_from(st: ParseSt, ts: Seq<TermV>) -> ParseOut
    decreases ts.len(),
{
    if ts.len() == 0 {
        ParseOut::Good(st)
    } else {
        match parse_step(st, ts[0]) {
            ParseOut::Good(st1) => parse_from(st1, ts.drop_first()),
            ParseOut::Fail(m) => ParseOut::Fail(m),
            ParseOut::Crash => ParseOut::Crash,
        }
    }
}

/// What parsing a whole term sequence comes to. The stack need not return
/// to the root: trailing unclosed tags are accepted silently.
pub open spec fn spec_parse(ts: Seq<TermV>) -> ParseOut {
    parse_from(parse_init(), ts)
}

/// The invariant every reachable parser state satisfies: a well-formed
/// arena, with every stack entry naming a node of it.
pub open spec fn parse_st_inv(st: ParseSt) -> bool {
    &&& tree_wf(st.nodes)
    &&& forall|k: int| 0 <= k < st.stack.len() ==> 0 <= #[trigger] st.stack[k] < st.nodes.len()
}

proof fn lemma_parse_step_inv(st: ParseSt, t: TermV)
    requires
        parse_st_inv(st),
    ensures
        parse_step(st, t) matches ParseOut::Good(st1) ==> parse_st_inv(st1),
{
    match parse_step(st, t) {
        ParseOut::Good(st1) => {
            match t {
                TermV::Open(s) => {
                    let top = st.stack.last();
                    let idx = st.nodes.len() as int;
                    let nodes1 = st1.nodes;
                    assert(nodes1.len() == st.nodes.len() + 1);
                    assert forall|i: int| 1 <= i < nodes1.len() implies ((
                    #[trigger] nodes1[i].parent) matches Some(p) && 0 <= p < i) by {
                        if i < idx {
                            assert(nodes1[i].parent == st.nodes[i].parent);
                        }
                    }
                    assert forall|i: int, k: int|
                        0 <= i < nodes1.len() && 0 <= k < nodes1[i].children.len() implies {
                        &&& i < #[trigger] nodes1[i].children[k] < nodes1.len()
                        &&& nodes1[nodes1[i].children[k]].parent == Some(i)
                    } by {
                        if i == top && k == nodes1[i].children.len() - 1 {
                            assert(nodes1[i].children[k] == idx);
                        } else if i < idx {
                            assert(nodes1[i].children[k] == st.nodes[i].children[k]);
                            assert(st.nodes[i].children[k] < idx);
                        }
                    }
                    assert forall|i: int, k1: int, k2: int|
                        0 <= i < nodes1.len() && 0 <= k1 < k2
                            < nodes1[i].children.len() implies #[trigger] nodes1[i].children[k1]
                        < #[trigger] nodes1[i].children[k2] by {
                        if i == top {
                            if k2 == nodes1[i].children.len() - 1 {
                                assert(nodes1[i].children[k1] == st.nodes[i].children[k1]);
                                assert(st.nodes[i].children[k1] < idx);
                            }
                        }
                    }
                },
                TermV::Close(s) => {},
                TermV::Text(s) => {
                    let top = st.stack.last();
                    let nodes1 = st1.nodes;
                    assert forall|i: int, k: int|
                        0 <= i < nodes1.len() && 0 <= k < nodes1[i].children.len() implies {
                        &&& i < #[trigger] nodes1[i].children[k] < nodes1.len()
                        &&& nodes1[nodes1[i].children[k]].parent == Some(i)
                    } by {
                        assert(nodes1[i].children == st.nodes[i].children);
                    }
                },
                TermV::Nothing => {},
            }
        },
        _ => {},
    }
}

/// The parse of a concatenation is the parse of the first part continued
/// over the second.
pub proof fn lemma_parse_from_app(st: ParseSt, a: Seq<TermV>, b: Seq<TermV>)
    ensures
        parse_from(st, a + b) == (match parse_from(st, a) {
            ParseOut::Good(st1) => parse_from(st1, b),
            ParseOut::Fail(m) => ParseOut::Fail(m),
            ParseOut::Crash => ParseOut::Crash,
        }),
    decreases a.len(),
{
    if a.len() == 0 {
        assert(a + b =~= b);
    } else {
        assert((a + b)[0] == a[0]);
        assert((a + b).drop_first() =~= a.drop_first() + b);
        match parse_step(st, a[0]) {
            ParseOut::Good(st1) => {
                lemma_parse_from_app(st1, a.drop_first(), b);
            },
            _ => {},
        }
    }
}

/// The parse of one more term is the parse so far followed by one step.
pub proof fn lemma_parse_from_snoc(st: ParseSt, a: Seq<TermV>, t: TermV)
    ensures
        parse_from(st, a.push(t)) == (match parse_from(st, a) {
            ParseOut::Good(st1) => parse_step(st1, t),
            ParseOut::Fail(m) => ParseOut::Fail(m),
            ParseOut::Crash => ParseOut::Crash,
        }),
{
    lemma_parse_from_app(st, a, seq![t]);
    assert(a.push(t) =~= a + seq![t]);
    assert(seq![t][0] == t);
    assert(seq![t].drop_first() =~= Seq::<TermV>::empty());
    match parse_from(st, a) {
        ParseOut::Good(st1) => {
            match parse_step(st1, t) {
                ParseOut::Good(st2) => {
                    assert(parse_from(st2, seq![t].drop_first()) == ParseOut::Good(st2));
                    assert(parse_from(st1, seq![t]) == ParseOut::Good(st2));
                },
                ParseOut::Fail(m) => {
                    assert(parse_from(st1, seq![t]) == ParseOut::Fail(m));
                },
                ParseOut::Crash => {
                    assert(parse_from(st1, seq![t]) == ParseOut::Crash);
                },
            }
        },
        _ => {},
    }
}

/// Converts an ordered term sequence into a document tree rooted at a
/// synthetic `root` node, or aborts on a mismatched closing tag.
///
/// A closing tag that pops the root off the stack followed by any further
/// tag or text underflows the stack; such inputs are excluded.
pub fn parser(terms: &Vec<XMLTerm>) -> (r: Result<XMLTree, String>)
    requires
        !(spec_parse(terms_v(terms@)) is Crash),
    ensures
        match spec_parse(terms_v(terms@)) {
            ParseOut::Good(st) => r matches Ok(t) && t@ == st.nodes && t.wf(),
            ParseOut::Fail(m) => r matches Err(e) && e@ == m,
            ParseOut::Crash => false,
        },
{
    let mut tree = XMLTree { nodes: Vec::new() };
    tree.nodes.push(XMLNode::new("root".to_owned(), None));
    let mut stack: Vec<usize> = Vec::new();
    stack.push(0);
    proof {
        assert(tree@ =~~= parse_init().nodes);
        assert(stack@.map_values(|u: usize| u as int) =~= parse_init().stack);
    }
    let mut j: usize = 0;
    while j < terms.len()
        invariant
            j <= terms.len(),
            parse_from(parse_init(), terms_v(terms@).take(j as int)) matches ParseOut::Good(stv)
                && {
                &&& stv.nodes == tree@
                &&& stv.stack == stack@.map_values(|u: usize| u as int)
                &&& parse_st_inv(stv)
            },
        decreases terms.len() - j,
    {
        let ghost pre = terms_v(terms@).take(j as int);
        let ghost stv = parse_from(parse_init(), pre)->Good_0;
        proof {
            lemma_parse_from_snoc(parse_init(), pre, terms@[j as int]@);
            assert(pre.push(terms@[j as int]@) =~= terms_v(terms@).take(j as int + 1));
            lemma_parse_step_inv(stv, terms@[j as int]@);
        }
        match &terms[j] {
            XMLTerm::OpeningTag(s) => {
                if stack.len() == 0 {
                    proof {
                        assert(terms_v(terms@) =~= terms_v(terms@).take(j as int + 1) + terms_v(
                            terms@,
                        ).skip(j as int + 1));
                        lemma_parse_from_app(
                            parse_init(),
                            terms_v(terms@).take(j as int + 1),
                            terms_v(terms@).skip(j as int + 1),
                        );
                        assert(false);
                    }
                    return Err(String::new());
                }
                let top = stack[stack.len() - 1];
                let idx = tree.nodes.len();
                tree.nodes[top].children.push(idx);
                tree.nodes.push(XMLNode::new(s.clone(), Some(top)));
                stack.push(idx);
                proof {
                    let stv1 = parse_step(stv, terms@[j as int]@)->Good_0;
                    assert(tree@ =~~= stv1.nodes);
                    assert(stack@.map_values(|u: usize| u as int) =~= stv1.stack);
                }
            },
            XMLTerm::ClosingTag(s) => {
                if stack.len() == 0 {
                    proof {
                        assert(terms_v(terms@) =~= terms_v(terms@).take(j as int + 1) + terms_v(
                            terms@,
                        ).skip(j as int + 1));
                        lemma_parse_from_app(
                            parse_init(),
                            terms_v(terms@).take(j as int + 1),
                            terms_v(terms@).skip(j as int + 1),
                        );
                        assert(false);
                    }
                    return Err(String::new());
                }
                let top = stack[stack.len() - 1];
                if *s == tree.nodes[top].name {
                    stack.pop();
                    proof {
                        let stv1 = parse_step(stv, terms@[j as int]@)->Good_0;
                        assert(stack@.map_values(|u: usize| u as int) =~= stv1.stack);
                    }
                } else {
                    let mut msg = "Unexpected closing tag. Found: ".to_owned();
                    msg.append(s.as_str());
                    msg.append(", Expected: ");
                    msg.append(tree.nodes[top].name.as_str());
                    proof {
                        assert(msg@ =~= parse_err_msg(s@, stv.nodes[top as int].name));
                        assert(terms_v(terms@) =~= terms_v(terms@).take(j as int + 1) + terms_v(
                            terms@,
                        ).skip(j as int + 1));
                        lemma_parse_from_app(
                            parse_init(),
                            terms_v(terms@).take(j as int + 1),
                            terms_v(terms@).skip(j as int + 1),
                        );
                    }
                    return Err(msg);
                }
            },
            XMLTerm::Text(s) => {
                if stack.len() == 0 {
                    proof {
                        assert(terms_v(terms@) =~= terms_v(terms@).take(j as int + 1) + terms_v(
                            terms@,
                        ).skip(j as int + 1));
                        lemma_parse_from_app(
                            parse_init(),
                            terms_v(terms@).take(j as int + 1),
                            terms_v(terms@).skip(j as int + 1),
                        );
                        assert(false);
                    }
                    return Err(String::new());
                }
                let top = stack[stack.len() - 1];
                tree.nodes[top].data.append(s.as_str());
                proof {
                    let stv1 = parse_step(stv, terms@[j as int]@)->Good_0;
                    assert(tree@ =~~= stv1.nodes);
                }
            },
            XMLTerm::Nothing => {},
        }
        j += 1;
    }
    proof {
        assert(terms_v(terms@).take(terms@.len() as int) =~= terms_v(terms@));
    }
    Ok(tree)
}

/// Tests whether parsing these terms would underflow the stack: whether a
/// closing tag pops the synthetic root and a further tag or text term
/// follows. [`parser`] requires exactly these inputs to be absent; a
/// caller that cannot rule them out tests here first.
pub fn parser_would_crash(terms: &Vec<XMLTerm>) -> (r: bool)
    ensures
        r == (spec_parse(terms_v(terms@)) is Crash),
{
    let mut names: Vec<String> = Vec::new();
    names.push("root".to_owned());
    proof {
        assert(names@.map_values(|s: String| s@) =~= seq!["root"@]);
    }
    let mut j: usize = 0;
    while j < terms.len()
        invariant
            j <= terms.len(),
            parse_from(parse_init(), terms_v(terms@).take(j as int)) matches ParseOut::Good(stv)
                && {
                &&& parse_st_inv(stv)
                &&& names@.len() == stv.stack.len()
                &&& forall|k: int|
                    0 <= k < names@.len() ==> (#[trigger] names@[k])@
                        == stv.nodes[stv.stack[k]].name
            },
        decreases terms.len() - j,
    {
        let ghost pre = terms_v(terms@).take(j as int);
        let ghost stv = parse_from(parse_init(), pre)->Good_0;
        proof {
            lemma_parse_from_snoc(parse_init(), pre, terms@[j as int]@);
            assert(pre.push(terms@[j as int]@) =~= terms_v(terms@).take(j as int + 1));
            lemma_parse_step_inv(stv, terms@[j as int]@);
        }
        match &terms[j] {
            XMLTerm::OpeningTag(s) => {
                if names.len() == 0 {
                    proof {
                        assert(terms_v(terms@) =~= terms_v(terms@).take(j as int + 1) + terms_v(
                            terms@,
                        ).skip(j as int + 1));
                        lemma_parse_from_app(
                            parse_init(),
                            terms_v(terms@).take(j as int + 1),
                            terms_v(terms@).skip(j as int + 1),
                        );
                    }
                    return true;
                }
                names.push(s.clone());
                proof {
                    let stv1 = parse_step(stv, terms@[j as int]@)->Good_0;
                    assert forall|k: int| 0 <= k < names@.len() implies (#[trigger] names@[k])@
                        == stv1.nodes[stv1.stack[k]].name by {
                        if k < names@.len() - 1 {
                            assert(names@[k] == names@.subrange(0, names@.len() - 1)[k]);
                            assert(stv1.stack[k] == stv.stack[k]);
                            assert(stv1.nodes[stv.stack[k]].name == stv.nodes[stv.stack[k]].name);
                        } else {
                            assert(stv1.stack[k] == stv.nodes.len());
                        }
                    }
                }
            },
            XMLTerm::ClosingTag(s) => {
                if names.len() == 0 {
                    proof {
                        assert(terms_v(terms@) =~= terms_v(terms@).take(j as int + 1) + terms_v(
                            terms@,
                        ).skip(j as int + 1));
                        lemma_parse_from_app(
                            parse_init(),
                            terms_v(terms@).take(j as int + 1),
                            terms_v(terms@).skip(j as int + 1),
                        );
                    }
                    return true;
                }
                if *s == names[names.len() - 1] {
                    names.pop();
                } else {
                    // the parse aborts with a message: no underflow follows
                    proof {
                        assert(terms_v(terms@) =~= terms_v(terms@).take(j as int + 1) + terms_v(
                            terms@,
                        ).skip(j as int + 1));
                        lemma_parse_from_app(
                            parse_init(),
                            terms_v(terms@).take(j as int + 1),
                            terms_v(terms@).skip(j as int + 1),
                        );
                    }
                    return false;
                }
            },
            XMLTerm::Text(s) => {
                if names.len() == 0 {
                    proof {
                        assert(terms_v(terms@) =~= terms_v(terms@).take(j as int + 1) + terms_v(
                            terms@,
                        ).skip(j as int + 1));
                        lemma_parse_from_app(
                            parse_init(),
                            terms_v(terms@).take(j as int + 1),
                            terms_v(terms@).skip(j as int + 1),
                        );
                    }
                    return true;
                }
                proof {
                    let stv1 = parse_step(stv, terms@[j as int]@)->Good_0;
                    assert forall|k: int| 0 <= k < names@.len() implies (#[trigger] names@[k])@
                        == stv1.nodes[stv1.stack[k]].name by {
                        assert(stv1.nodes[stv.stack[k]].name == stv.nodes[stv.stack[k]].name);
                    }
                }
            },
            XMLTerm::Nothing => {},
        }
        j += 1;
    }
    proof {
        assert(terms_v(terms@).take(terms@.len() as int) =~= terms_v(terms@));
    }
    false
}

} // verus!
