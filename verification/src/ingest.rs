//! The table ingestor: comma-delimited tabular text to a synthetic document
//! tree, one `element` node per data row under a fixed two-level wrapper.

use vstd::prelude::*;
use vstd::string::StrSliceExecFns;
use vstd::string::StringExecFns;

use crate::node::NodeV;
use crate::node::XMLNode;
use crate::node::XMLTree;
use crate::node::tree_wf;
use crate::text::dec_seq;
use crate::text::trim_seq;
use crate::text::trim_range;
use crate::text::usize_to_string;

verus! {

/// The first position at or after `i` holding `sep`, or `s.len()`.
pub open spec fn first_sep(s: Seq<char>, sep: char, i: int) -> int
    decreases s.len() - i,
{
    if 0 <= i < s.len() {
        if s[i] == sep {
            i
        } else {
            first_sep(s, sep, i + 1)
        }
    } else {
        s.len() as int
    }
}

/// The pieces of `s` between occurrences of `sep`: always at least one
/// piece, pieces may be empty.
pub open spec fn split_on(s: Seq<char>, sep: char) -> Seq<Seq<char>>
    decreases s.len(),
{
    let j = first_sep(s, sep, 0);
    if 0 <= j < s.len() {
        seq![s.subrange(0, j)] + split_on(s.skip(j + 1), sep)
    } else {
        seq![s]
    }
}

proof fn lemma_first_sep_at(s: Seq<char>, sep: char, i: int, j: int)
    requires
        0 <= i <= j <= s.len(),
        forall|t: int| i <= t < j ==> s[t] != sep,
        j == s.len() || s[j] == sep,
    ensures
        first_sep(s, sep, i) == j,
    decreases j - i,
{
    if i < j {
        lemma_first_sep_at(s, sep, i + 1, j);
    }
}

/// Splits a string on a separator character. Every occurrence separates;
/// the piece count is one more than the occurrence count.
pub fn split_exec(s: &str, sep: char) -> (r: Vec<String>)
    ensures
        r@.map_values(|p: String| p@) == split_on(s@, sep),
{
    let n = s.unicode_len();
    let mut pieces: Vec<String> = Vec::new();
    let mut piece_start: usize = 0;
    let mut i: usize = 0;
    proof {
        assert(s@.subrange(0, n as int) =~= s@);
        assert(pieces@.map_values(|p: String| p@) + split_on(s@, sep) =~= split_on(s@, sep));
    }
    while i < n
        invariant
            piece_start <= i <= n,
            forall|t: int| piece_start <= t < i ==> s@[t] != sep,
            split_on(s@, sep) == pieces@.map_values(|p: String| p@) + split_on(
                s@.subrange(piece_start as int, n as int),
                sep,
            ),
        decreases n - i,
    {
        if s.get_char(i) == sep {
            let ghost rest = s@.subrange(piece_start as int, n as int);
            let ghost rest2 = s@.subrange(i as int + 1, n as int);
            pieces.push(s.substring_char(piece_start, i).to_owned());
            proof {
                lemma_first_sep_at(rest, sep, 0, i - piece_start);
                assert(rest.subrange(0, i - piece_start) =~= s@.subrange(
                    piece_start as int,
                    i as int,
                ));
                assert(rest.skip(i - piece_start + 1) =~= rest2);
                assert(split_on(rest, sep) =~= seq![
                    s@.subrange(piece_start as int, i as int),
                ] + split_on(rest2, sep));
                assert(pieces@.map_values(|p: String| p@) + split_on(rest2, sep) =~= (pieces@
                    .map_values(|p: String| p@).drop_last() + seq![
                    s@.subrange(piece_start as int, i as int),
                ]) + split_on(rest2, sep));
            }
            piece_start = i + 1;
        }
        i += 1;
    }
    let ghost rest = s@.subrange(piece_start as int, n as int);
    pieces.push(s.substring_char(piece_start, n).to_owned());
    proof {
        lemma_first_sep_at(rest, sep, 0, n - piece_start);
        assert(split_on(rest, sep) == seq![rest]);
        assert(pieces@.map_values(|p: String| p@) =~= pieces@.map_values(
            |p: String| p@,
        ).drop_last() + seq![rest]);
    }
    pieces
}

/// The index of the first data row with fewer fields than there are
/// columns, or `rows.len()`.
pub open spec fn first_short(rows: Seq<Seq<Seq<char>>>, klen: int, x: int) -> int
    decreases rows.len() - x,
{
    if 0 <= x < rows.len() {
        if rows[x].len() < klen {
            x
        } else {
            first_short(rows, klen, x + 1)
        }
    } else {
        rows.len() as int
    }
}

proof fn lemma_first_short_at(rows: Seq<Seq<Seq<char>>>, klen: int, i: int, j: int)
    requires
        0 <= i <= j <= rows.len(),
        forall|t: int| i <= t < j ==> #[trigger] rows[t].len() >= klen,
        j == rows.len() || rows[j].len() < klen,
    ensures
        first_short(rows, klen, i) == j,
    decreases j - i,
{
    if i < j {
        lemma_first_short_at(rows, klen, i + 1, j);
    }
}

/// The message ingestion aborts with when row `r` lacks the field for
/// column `k`.
pub open spec fn ingest_err_msg(k: nat, r: nat) -> Seq<char> {
    "Expected key "@ + dec_seq(k) + " for row "@ + dec_seq(r)
}

/// A leaf node carrying one field of one row.
pub open spec fn leaf_node(name: Seq<char>, val: Seq<char>, parent: int) -> NodeV {
    NodeV { name, data: val, parent: Some(parent), children: Seq::empty() }
}

/// The arena after one row's element node and its first `k` leaves are
/// appended (the element not yet linked under the wrapper).
pub open spec fn row_partial(pre: Seq<NodeV>, keys: Seq<Seq<char>>, row: Seq<Seq<char>>, k: int) -> Seq<
    NodeV,
> {
    let e = pre.len() as int;
    pre.push(
        NodeV {
            name: "element"@,
            data: Seq::empty(),
            parent: Some(1),
            children: Seq::new(k as nat, |t: int| e + 1 + t),
        },
    ) + Seq::new(k as nat, |t: int| leaf_node(keys[t], row[t], e))
}

/// The arena after one whole row: the element with all its leaves, linked
/// as the wrapper's next child.
pub open spec fn ingest_step(pre: Seq<NodeV>, keys: Seq<Seq<char>>, row: Seq<Seq<char>>) -> Seq<
    NodeV,
> {
    row_partial(pre, keys, row, keys.len() as int).update(
        1,
        NodeV { children: pre[1].children.push(pre.len() as int), ..pre[1] },
    )
}

/// The arena after rows `x..` are ingested.
pub open spec fn ingest_rows(
    nodes: Seq<NodeV>,
    keys: Seq<Seq<char>>,
    rows: Seq<Seq<Seq<char>>>,
    x: int,
) -> Seq<NodeV>
    decreases rows.len() - x,
{
    if 0 <= x < rows.len() {
        ingest_rows(ingest_step(nodes, keys, rows[x]), keys, rows, x + 1)
    } else {
        nodes
    }
}

/// The two-level synthetic wrapper every ingested tree starts from.
pub open spec fn ingest_base() -> Seq<NodeV> {
    seq![
        NodeV { name: "root"@, data: Seq::empty(), parent: Option::None, children: seq![1] },
        NodeV { name: "root2"@, data: Seq::empty(), parent: Some(0), children: Seq::empty() },
    ]
}

/// What ingesting a whole document yields: the finished arena, or the
/// message naming the first missing field.
pub open spec fn spec_csv_parse(contents: Seq<char>) -> Result<Seq<NodeV>, Seq<char>> {
    let lines = split_on(trim_seq(contents), '\n');
    if lines.len() <= 1 {
        Err("No entries in CSV file"@)
    } else {
        let keys = split_on(lines[0], ',');
        let rows = Seq::new((lines.len() - 1) as nat, |x: int| split_on(lines[x + 1], ','));
        let bad = first_short(rows, keys.len() as int, 0);
        if bad < rows.len() {
            Err(ingest_err_msg(rows[bad].len() as nat, bad as nat))
        } else {
            Ok(ingest_rows(ingest_base(), keys, rows, 0))
        }
    }
}

proof fn lemma_ingest_step_wf(pre: Seq<NodeV>, keys: Seq<Seq<char>>, row: Seq<Seq<char>>)
    requires
        tree_wf(pre),
        pre.len() >= 2,
        pre[1].parent == Some(0int),
    ensures
        tree_wf(ingest_step(pre, keys, row)),
        ingest_step(pre, keys, row).len() == pre.len() + keys.len() + 1,
        ingest_step(pre, keys, row)[0] == pre[0],
        ingest_step(pre, keys, row)[1].parent == Some(0int),
{
    let e = pre.len() as int;
    let klen = keys.len() as int;
    let nodes1 = ingest_step(pre, keys, row);
    assert(nodes1.len() == e + 1 + klen);
    assert forall|i: int| 1 <= i < nodes1.len() implies ((#[trigger] nodes1[i].parent) matches Some(
        p,
    ) && 0 <= p < i) by {
        if i < e && i != 1 {
            assert(nodes1[i] == pre[i]);
        } else if i == e {
            assert(nodes1[i].parent == Some(1int));
        } else if i > e {
            assert(nodes1[i].parent == Some(e));
        }
    }
    assert forall|i: int, k: int|
        0 <= i < nodes1.len() && 0 <= k < nodes1[i].children.len() implies {
        &&& i < #[trigger] nodes1[i].children[k] < nodes1.len()
        &&& nodes1[nodes1[i].children[k]].parent == Some(i)
    } by {
        if i == 1 {
            if k < pre[1].children.len() {
                assert(nodes1[i].children[k] == pre[1].children[k]);
                assert(pre[1].children[k] < e);
                assert(nodes1[pre[1].children[k]].parent == pre[pre[1].children[k]].parent);
            } else {
                assert(nodes1[i].children[k] == e);
            }
        } else if i < e {
            assert(nodes1[i] == pre[i]);
            assert(nodes1[i].children[k] == pre[i].children[k]);
            assert(nodes1[pre[i].children[k]].parent == pre[pre[i].children[k]].parent);
        } else if i == e {
            assert(nodes1[i].children[k] == e + 1 + k);
        } else {
            assert(nodes1[i].children.len() == 0);
        }
    }
    assert forall|i: int, k1: int, k2: int|
        0 <= i < nodes1.len() && 0 <= k1 < k2 < nodes1[i].children.len() implies #[trigger] nodes1[i].children[k1]
        < #[trigger] nodes1[i].children[k2] by {
        if i == 1 {
            if k2 == nodes1[i].children.len() - 1 {
                assert(nodes1[i].children[k1] == pre[1].children[k1]);
                assert(pre[1].children[k1] < e);
            } else {
                assert(nodes1[i].children[k1] == pre[1].children[k1]);
                assert(nodes1[i].children[k2] == pre[1].children[k2]);
            }
        } else if i < e {
            assert(nodes1[i] == pre[i]);
            assert(nodes1[i].children[k1] == pre[i].children[k1]);
            assert(nodes1[i].children[k2] == pre[i].children[k2]);
        }
    }
}

/// Converts comma-delimited tabular text into a synthetic document tree:
/// a root, one inner wrapper, and one `element` node per data row whose
/// leaves carry the row's fields under the declared column names.
pub fn csv_parser(file_contents: String) -> (r: Result<XMLTree, String>)
    ensures
        match spec_csv_parse(file_contents@) {
            Ok(nodes) => r matches Ok(t) && t@ == nodes && t.wf() && nodes[0].children.len() > 0,
            Err(m) => r matches Err(e) && e@ == m,
        },
{
    let n = file_contents.as_str().unicode_len();
    let body = trim_range(file_contents.as_str(), 0, n);
    proof {
        assert(file_contents@.subrange(0, n as int) =~= file_contents@);
    }
    let lines = split_exec(body.as_str(), '\n');
    if lines.len() <= 1 {
        return Err("No entries in CSV file".to_owned());
    }
    let keys = split_exec(lines[0].as_str(), ',');
    let ghost keys_v = keys@.map_values(|p: String| p@);
    let ghost lines_v = lines@.map_values(|p: String| p@);
    let ghost rows_v = Seq::new((lines_v.len() - 1) as nat, |x: int| split_on(lines_v[x + 1], ','));
    let mut tree = XMLTree { nodes: Vec::new() };
    let mut root = XMLNode::new("root".to_owned(), None);
    root.children.push(1);
    tree.nodes.push(root);
    tree.nodes.push(XMLNode::new("root2".to_owned(), Some(0)));
    proof {
        assert(tree@ =~~= ingest_base());
        assert(tree_wf(ingest_base()));
    }
    let mut x: usize = 0;
    while x + 1 < lines.len()
        invariant
            x < lines.len(),
            lines.len() >= 2,
            x <= rows_v.len(),
            rows_v.len() == lines.len() - 1,
            tree_wf(tree@),
            tree@.len() >= 2,
            tree@[0] == ingest_base()[0],
            tree@[1].parent == Some(0int),
            forall|t: int| 0 <= t < x ==> #[trigger] rows_v[t].len() >= keys_v.len(),
            ingest_rows(tree@, keys_v, rows_v, x as int) == ingest_rows(
                ingest_base(),
                keys_v,
                rows_v,
                0,
            ),
        decreases lines.len() - x,
    {
        let row = split_exec(lines[x + 1].as_str(), ',');
        let ghost row_v = row@.map_values(|p: String| p@);
        proof {
            assert(rows_v[x as int] == row_v);
        }
        if row.len() < keys.len() {
            proof {
                lemma_first_short_at(rows_v, keys_v.len() as int, 0, x as int);
            }
            let mut msg = "Expected key ".to_owned();
            msg.append(usize_to_string(row.len()).as_str());
            msg.append(" for row ");
            msg.append(usize_to_string(x).as_str());
            proof {
                assert(msg@ =~= ingest_err_msg(row_v.len() as nat, x as nat));
            }
            return Err(msg);
        }
        let ghost pre = tree@;
        let e = tree.nodes.len();
        tree.nodes.push(XMLNode::new("element".to_owned(), Some(1)));
        proof {
            assert(tree@ =~~= row_partial(pre, keys_v, row_v, 0));
        }
        let mut k: usize = 0;
        while k < keys.len()
            invariant
                k <= keys.len(),
                keys.len() <= row@.len(),
                e == pre.len(),
                pre.len() >= 2,
                tree@ == row_partial(pre, keys_v, row@.map_values(|p: String| p@), k as int),
            decreases keys.len() - k,
        {
            let leaf_idx = tree.nodes.len();
            let mut leaf = XMLNode::new(keys[k].clone(), Some(e));
            leaf.data = row[k].clone();
            let ghost rp0 = tree@;
            tree.nodes.push(leaf);
            let ghost mid = tree@;
            tree.nodes[e].children.push(leaf_idx);
            proof {
                let rowm = row@.map_values(|p: String| p@);
                let cur = tree@;
                let rp = row_partial(pre, keys_v, rowm, k as int + 1);
                assert(leaf_idx == e + 1 + k);
                assert(mid == rp0.push(leaf@));
                assert(mid[e as int] == rp0[e as int]);
                assert(cur[e as int].children =~= mid[e as int].children.push(leaf_idx as int));
                assert(cur.len() == rp.len());
                assert forall|t: int| 0 <= t < rp.len() implies cur[t] =~~= rp[t] by {
                    if t < e {
                        assert(cur[t] == rp0[t]);
                        assert(rp0[t] == pre[t]);
                        assert(rp[t] == pre[t]);
                    } else if t == e {
                        assert(cur[t].children =~= rp[t].children);
                        assert(cur[t].name == rp[t].name);
                        assert(cur[t].data == rp[t].data);
                        assert(cur[t].parent == rp[t].parent);
                    } else if t < e + 1 + k {
                        assert(cur[t] == rp0[t]);
                        assert(rp0[t] == leaf_node(keys_v[t - e - 1], rowm[t - e - 1], e as int));
                        assert(rp[t] == leaf_node(keys_v[t - e - 1], rowm[t - e - 1], e as int));
                    } else {
                        assert(cur[t] == leaf@);
                        assert(rp[t] == leaf_node(keys_v[k as int], rowm[k as int], e as int));
                        assert(leaf@ =~~= leaf_node(keys_v[k as int], rowm[k as int], e as int));
                    }
                }
                assert(cur =~~= rp);
            }
            k += 1;
        }
        let ghost rp_full = tree@;
        tree.nodes[1].children.push(e);
        proof {
            assert(rp_full == row_partial(pre, keys_v, row_v, keys_v.len() as int));
            assert(rp_full[1] == pre[1]);
            assert(tree@[1].children =~= rp_full[1].children.push(e as int));
            assert(tree@ =~~= rp_full.update(
                1,
                NodeV { children: rp_full[1].children.push(e as int), ..rp_full[1] },
            ));
            assert(tree@ =~~= ingest_step(pre, keys_v, row_v));
            lemma_ingest_step_wf(pre, keys_v, row_v);
        }
        x += 1;
    }
    proof {
        lemma_first_short_at(rows_v, keys_v.len() as int, 0, rows_v.len() as int);
        assert(ingest_rows(tree@, keys_v, rows_v, rows_v.len() as int) == tree@);
    }
    Ok(tree)
}

} // verus!
