//! The hierarchical tree model: an arena of nodes addressed by indices.
//!
//! Each node owns the list of its children's indices and holds a non-owning
//! parent index, used only to compute ancestor paths.

use vstd::prelude::*;
use vstd::set_lib::lemma_int_range;
use vstd::set_lib::lemma_len_subset;
use vstd::set_lib::set_int_range;

verus! {

/// One element of the document tree: a name, a text payload, a parent
/// back-reference and the ordered children.
#[derive(Debug)]
pub struct XMLNode {
    pub name: String,
    pub data: String,
    pub parent: Option<usize>,
    pub children: Vec<usize>,
}

/// A whole document tree: an arena of nodes. Index 0 is the root.
#[derive(Debug)]
pub struct XMLTree {
    pub nodes: Vec<XMLNode>,
}

/// The mathematical value of a node.
#[verifier::ext_equal]
pub struct NodeV {
    pub name: Seq<char>,
    pub data: Seq<char>,
    pub parent: Option<int>,
    pub children: Seq<int>,
}

impl View for XMLNode {
    type V = NodeV;

    open spec fn view(&self) -> NodeV {
        NodeV {
            name: self.name@,
            data: self.data@,
            parent: match self.parent {
                Some(p) => Some(p as int),
                Option::None => Option::None,
            },
            children: self.children@.map_values(|c: usize| c as int),
        }
    }
}

impl View for XMLTree {
    type V = Seq<NodeV>;

    open spec fn view(&self) -> Seq<NodeV> {
        self.nodes@.map_values(|n: XMLNode| n@)
    }
}

/// Well-formedness of an arena: the root exists and has no parent, every
/// other node's parent precedes it, children lists point strictly forward
/// in ascending order, and a child's parent field names the node whose
/// children list holds it.
pub open spec fn tree_wf(nodes: Seq<NodeV>) -> bool {
    &&& nodes.len() > 0
    &&& nodes[0].parent is None
    &&& forall|i: int|
        1 <= i < nodes.len() ==> ((#[trigger] nodes[i].parent) matches Some(p) && 0 <= p < i)
    &&& forall|i: int, k: int|
        0 <= i < nodes.len() && 0 <= k < nodes[i].children.len() ==> {
            &&& i < #[trigger] nodes[i].children[k] < nodes.len()
            &&& nodes[nodes[i].children[k]].parent == Some(i)
        }
    &&& forall|i: int, k1: int, k2: int|
        0 <= i < nodes.len() && 0 <= k1 < k2 < nodes[i].children.len() ==> #[trigger] nodes[i].children[k1]
            < #[trigger] nodes[i].children[k2]
}

/// The number of nodes the depth-first walk from node `i` visits,
/// multiplicities included.
pub open spec fn subtree_size(nodes: Seq<NodeV>, i: int) -> nat
    decreases nodes.len() - i, 1int, 0int,
{
    if tree_wf(nodes) && 0 <= i < nodes.len() {
        1 + kids_size(nodes, i, 0)
    } else {
        1
    }
}

/// The combined size of the subtrees of children `k..` of node `i`.
pub open spec fn kids_size(nodes: Seq<NodeV>, i: int, k: int) -> nat
    decreases nodes.len() - i, 0int, nodes[i].children.len() - k,
{
    if tree_wf(nodes) && 0 <= i < nodes.len() && 0 <= k < nodes[i].children.len() {
        subtree_size(nodes, nodes[i].children[k]) + kids_size(nodes, i, k + 1)
    } else {
        0
    }
}

/// Node `i` lies on the parent chain of node `j` (or is `j` itself).
pub open spec fn is_anc(nodes: Seq<NodeV>, i: int, j: int) -> bool
    decreases j,
{
    if 0 <= j < nodes.len() {
        if i == j {
            true
        } else {
            match nodes[j].parent {
                Some(p) => if 0 <= p < j {
                    is_anc(nodes, i, p)
                } else {
                    false
                },
                Option::None => false,
            }
        }
    } else {
        false
    }
}

proof fn lemma_anc_le(nodes: Seq<NodeV>, i: int, j: int)
    requires
        is_anc(nodes, i, j),
    ensures
        i <= j < nodes.len(),
    decreases j,
{
    if i != j {
        match nodes[j].parent {
            Some(p) => {
                if 0 <= p < j {
                    lemma_anc_le(nodes, i, p);
                }
            },
            Option::None => {},
        }
    }
}

/// Two ancestors of one node lie on one chain.
proof fn lemma_anc_chain(nodes: Seq<NodeV>, a: int, b: int, j: int)
    requires
        is_anc(nodes, a, j),
        is_anc(nodes, b, j),
    ensures
        is_anc(nodes, a, b) || is_anc(nodes, b, a),
    decreases j,
{
    if a != j && b != j {
        match nodes[j].parent {
            Some(p) => {
                if 0 <= p < j {
                    lemma_anc_chain(nodes, a, b, p);
                }
            },
            Option::None => {},
        }
    }
}

proof fn lemma_anc_trans(nodes: Seq<NodeV>, a: int, b: int, j: int)
    requires
        is_anc(nodes, a, b),
        is_anc(nodes, b, j),
    ensures
        is_anc(nodes, a, j),
    decreases j,
{
    if b != j {
        match nodes[j].parent {
            Some(p) => {
                if 0 <= p < j {
                    lemma_anc_trans(nodes, a, b, p);
                }
            },
            Option::None => {},
        }
    }
}

/// The set of nodes the depth-first walk from `i` can visit.
spec fn desc_set(nodes: Seq<NodeV>, i: int) -> Set<int>
    decreases nodes.len() - i, 1int, 0int,
{
    if tree_wf(nodes) && 0 <= i < nodes.len() {
        kids_desc(nodes, i, 0).insert(i)
    } else {
        Set::empty()
    }
}

/// The nodes the walks from children `k..` of node `i` can visit.
spec fn kids_desc(nodes: Seq<NodeV>, i: int, k: int) -> Set<int>
    decreases nodes.len() - i, 0int, nodes[i].children.len() - k,
{
    if tree_wf(nodes) && 0 <= i < nodes.len() && 0 <= k < nodes[i].children.len() {
        desc_set(nodes, nodes[i].children[k]).union(kids_desc(nodes, i, k + 1))
    } else {
        Set::empty()
    }
}

/// A disjoint union's size is the sum of the parts' sizes.
proof fn lemma_len_disjoint_union(a: Set<int>, b: Set<int>)
    requires
        a.finite(),
        b.finite(),
        forall|x: int| !(a.contains(x) && b.contains(x)),
    ensures
        a.union(b).finite(),
        a.union(b).len() == a.len() + b.len(),
    decreases a.len(),
{
    if a.len() == 0 {
        a.lemma_len0_is_empty();
        assert(a.union(b) =~= b);
    } else {
        let x = a.choose();
        assert(a.contains(x));
        assert(a.remove(x).union(b) =~= a.union(b).remove(x));
        lemma_len_disjoint_union(a.remove(x), b);
        assert(a.union(b).contains(x));
        assert(a.union(b) =~= a.union(b).remove(x).insert(x));
    }
}

/// The walk from `i` stays within the descendants of `i`, and visits each
/// at most once: its size is bounded by the descendant set's.
proof fn lemma_desc_props(nodes: Seq<NodeV>, i: int)
    requires
        tree_wf(nodes),
        0 <= i < nodes.len(),
    ensures
        desc_set(nodes, i).finite(),
        forall|j: int| #[trigger] desc_set(nodes, i).contains(j) ==> is_anc(nodes, i, j) && i
            <= j,
        subtree_size(nodes, i) <= desc_set(nodes, i).len(),
    decreases nodes.len() - i, 1int, 0int,
{
    lemma_kids_desc_props(nodes, i, 0);
    let kd = kids_desc(nodes, i, 0);
    assert(!kd.contains(i));
    assert(desc_set(nodes, i) == kd.insert(i));
    assert forall|j: int| desc_set(nodes, i).contains(j) implies is_anc(nodes, i, j) && i
        <= j by {
        if j != i {
            assert(kd.contains(j));
        }
    }
}

proof fn lemma_kids_desc_props(nodes: Seq<NodeV>, i: int, k: int)
    requires
        tree_wf(nodes),
        0 <= i < nodes.len(),
        0 <= k,
    ensures
        kids_desc(nodes, i, k).finite(),
        forall|j: int|
            #[trigger] kids_desc(nodes, i, k).contains(j) ==> is_anc(nodes, i, j) && i < j && (
            exists|t: int|
                k <= t < nodes[i].children.len() && is_anc(
                    nodes,
                    #[trigger] nodes[i].children[t],
                    j,
                )),
        kids_size(nodes, i, k) <= kids_desc(nodes, i, k).len(),
    decreases nodes.len() - i, 0int, nodes[i].children.len() - k,
{
    if k < nodes[i].children.len() {
        let c = nodes[i].children[k];
        lemma_desc_props(nodes, c);
        lemma_kids_desc_props(nodes, i, k + 1);
        let a = desc_set(nodes, c);
        let b = kids_desc(nodes, i, k + 1);
        assert(is_anc(nodes, i, i));
        assert(is_anc(nodes, i, c));
        assert forall|j: int| a.contains(j) implies is_anc(nodes, i, j) && i < j && (exists|t: int|
            k <= t < nodes[i].children.len() && is_anc(
                nodes,
                #[trigger] nodes[i].children[t],
                j,
            )) by {
            lemma_anc_trans(nodes, i, c, j);
            lemma_anc_le(nodes, c, j);
            assert(is_anc(nodes, nodes[i].children[k], j));
        }
        assert forall|x: int| !(a.contains(x) && b.contains(x)) by {
            if a.contains(x) && b.contains(x) {
                let t = choose|t: int|
                    k + 1 <= t < nodes[i].children.len() && is_anc(
                        nodes,
                        #[trigger] nodes[i].children[t],
                        x,
                    );
                let ct = nodes[i].children[t];
                assert(c < ct);
                lemma_anc_chain(nodes, c, ct, x);
                if is_anc(nodes, c, ct) {
                    // the chain from ct goes straight to i, below c
                    assert(is_anc(nodes, c, i));
                    lemma_anc_le(nodes, c, i);
                } else {
                    assert(is_anc(nodes, ct, c));
                    assert(is_anc(nodes, ct, i));
                    lemma_anc_le(nodes, ct, i);
                }
            }
        }
        lemma_len_disjoint_union(a, b);
    }
}

/// A well-formed arena's depth-first walk from node `i` visits each node
/// at most once, so its size never exceeds the nodes from `i` on.
pub proof fn lemma_subtree_size_bound(nodes: Seq<NodeV>, i: int)
    requires
        tree_wf(nodes),
        0 <= i < nodes.len(),
    ensures
        subtree_size(nodes, i) <= nodes.len() - i,
{
    lemma_desc_props(nodes, i);
    let d = desc_set(nodes, i);
    assert forall|j: int| d.contains(j) implies set_int_range(i, nodes.len() as int).contains(
        j,
    ) by {
        lemma_anc_le(nodes, i, j);
    }
    lemma_int_range(i, nodes.len() as int);
    lemma_len_subset(d, set_int_range(i, nodes.len() as int));
}

/// The ordered ancestor names down to node `i`, the node's own name
/// included and the synthetic parentless wrapper excluded: the wrapper
/// itself has the empty path.
pub open spec fn path_of(nodes: Seq<NodeV>, i: int) -> Seq<Seq<char>>
    decreases i,
{
    if 0 <= i < nodes.len() {
        match nodes[i].parent {
            Option::None => Seq::empty(),
            Some(p) => if 0 <= p < i {
                path_of(nodes, p).push(nodes[i].name)
            } else {
                seq![nodes[i].name]
            },
        }
    } else {
        Seq::empty()
    }
}

impl XMLNode {
    /// A fresh node with the given name and parent, no text and no children.
    pub fn new(name: String, parent: Option<usize>) -> (r: XMLNode)
        ensures
            r.name == name,
            r.data@ == Seq::<char>::empty(),
            r.parent == parent,
            r.children@ == Seq::<usize>::empty(),
    {
        XMLNode { name, data: String::new(), parent, children: Vec::new() }
    }
}

impl XMLTree {
    pub open spec fn wf(&self) -> bool {
        tree_wf(self@)
    }

    /// The `/`-joinable path of node `idx`: every ancestor's name below
    /// the synthetic wrapper, ending with the node's own name. The wrapper
    /// itself yields the empty path.
    pub fn get_path(&self, idx: usize) -> (r: Vec<String>)
        requires
            self.wf(),
            idx < self.nodes.len(),
        ensures
            r@.map_values(|s: String| s@) == path_of(self@, idx as int),
        decreases idx,
    {
        let node = &self.nodes[idx];
        match node.parent {
            Option::None => {
                let v: Vec<String> = Vec::new();
                proof {
                    assert(v@.map_values(|s: String| s@) =~= path_of(self@, idx as int));
                }
                v
            },
            Some(p) => {
                proof {
                    assert(self@[idx as int].parent matches Some(q) && 0 <= q < idx as int);
                }
                let mut v = self.get_path(p);
                v.push(node.name.clone());
                proof {
                    assert(v@.map_values(|s: String| s@) =~= path_of(self@, idx as int));
                }
                v
            },
        }
    }
}

} // verus!
