//! The table projector: a document tree to comma-delimited tabular text.
//!
//! A depth-first walk collects, for every contributing leaf, its `/`-joined
//! ancestor path (the synthetic root wrapper excluded) as a column key and
//! its text as a value; one shared row
//! counter advances once per non-leaf node after its children. Column order
//! is the order in which keys are first seen.

use vstd::prelude::*;
use vstd::string::StrSliceExecFns;
use vstd::string::StringExecFns;

use crate::node::NodeV;
use crate::node::XMLTree;
use crate::node::kids_size;
use crate::node::path_of;
use crate::node::subtree_size;
use crate::node::tree_wf;

verus! {

/// One segment-joining of a list of parts, separators between them:
/// the first `k` parts.
pub open spec fn join_sep_up(parts: Seq<Seq<char>>, sep: Seq<char>, k: int) -> Seq<char>
    decreases k,
{
    if k <= 0 {
        Seq::empty()
    } else if k == 1 {
        parts[0]
    } else {
        join_sep_up(parts, sep, k - 1) + sep + parts[k - 1]
    }
}

/// The parts joined with the separator between consecutive parts.
pub open spec fn join_sep(parts: Seq<Seq<char>>, sep: Seq<char>) -> Seq<char> {
    join_sep_up(parts, sep, parts.len() as int)
}

/// The `/`-joined column key of a node path.
pub open spec fn join_path(parts: Seq<Seq<char>>) -> Seq<char> {
    join_sep(parts, "/"@)
}

/// Joins the given strings, putting `sep` between consecutive ones.
pub fn join_with(parts: &Vec<String>, sep: &str) -> (r: String)
    ensures
        r@ == join_sep(parts@.map_values(|s: String| s@), sep@),
{
    let mut r = String::new();
    let mut k: usize = 0;
    while k < parts.len()
        invariant
            k <= parts.len(),
            r@ == join_sep_up(parts@.map_values(|s: String| s@), sep@, k as int),
        decreases parts.len() - k,
    {
        if k > 0 {
            r.append(sep);
        }
        r.append(parts[k].as_str());
        proof {
            let pv = parts@.map_values(|s: String| s@);
            if k == 0 {
                assert(r@ =~= join_sep_up(pv, sep@, 1));
            } else {
                assert(r@ =~= join_sep_up(pv, sep@, k as int + 1));
            }
        }
        k += 1;
    }
    r
}

/// The index of the last `/` strictly before position `i`, or `-1`.
pub open spec fn last_slash(key: Seq<char>, i: int) -> int
    decreases i,
{
    if 0 < i <= key.len() {
        if key[i - 1] == '/' {
            i - 1
        } else {
            last_slash(key, i - 1)
        }
    } else {
        -1
    }
}

/// The part of a column key after its last `/`: the column's title.
pub open spec fn last_segment(key: Seq<char>) -> Seq<char> {
    key.skip(last_slash(key, key.len() as int) + 1)
}

proof fn lemma_last_slash_at(key: Seq<char>, i: int, j: int)
    requires
        -1 <= j < i <= key.len(),
        j >= 0 ==> key[j] == '/',
        forall|t: int| j < t < i ==> key[t] != '/',
    ensures
        last_slash(key, i) == j,
    decreases i - j,
{
    if j < i - 1 {
        lemma_last_slash_at(key, i - 1, j);
    }
}

/// The title of one column: its key's last path segment.
pub fn last_seg(key: &String) -> (r: String)
    ensures
        r@ == last_segment(key@),
{
    let s = key.as_str();
    let n = s.unicode_len();
    let mut i: usize = n;
    while i > 0 && s.get_char(i - 1) != '/'
        invariant
            i <= n,
            forall|t: int| i <= t < n ==> key@[t] != '/',
        decreases i,
    {
        i -= 1;
    }
    proof {
        if i == 0 {
            lemma_last_slash_at(key@, n as int, -1);
        } else {
            lemma_last_slash_at(key@, n as int, i as int - 1);
        }
        assert(key@.skip(i as int) =~= key@.subrange(i as int, n as int));
    }
    s.substring_char(i, n).to_owned()
}

/// The view of the growing keymap: ordered column keys, each with its
/// ordered value sequence.
pub open spec fn km_v(km: Seq<(String, Vec<String>)>) -> Seq<(Seq<char>, Seq<Seq<char>>)> {
    km.map_values(|p: (String, Vec<String>)| (p.0@, p.1@.map_values(|s: String| s@)))
}

/// The first position holding `key`, or `-1`.
pub open spec fn km_find(km: Seq<(Seq<char>, Seq<Seq<char>>)>, key: Seq<char>) -> int
    decreases km.len(),
{
    if km.len() == 0 {
        -1
    } else if km[0].0 == key {
        0
    } else {
        let r = km_find(km.drop_first(), key);
        if r == -1 {
            -1
        } else {
            r + 1
        }
    }
}

proof fn lemma_km_find_at(km: Seq<(Seq<char>, Seq<Seq<char>>)>, key: Seq<char>, j: int)
    requires
        0 <= j <= km.len(),
        forall|t: int| 0 <= t < j ==> (#[trigger] km[t]).0 != key,
        j == km.len() || km[j].0 == key,
    ensures
        km_find(km, key) == if j == km.len() {
            -1int
        } else {
            j
        },
    decreases km.len(),
{
    if km.len() == 0 {
    } else if j == 0 && km[0].0 == key {
    } else {
        assert(km[0].0 != key);
        let sub = km.drop_first();
        assert(forall|t: int| 0 <= t < j - 1 ==> (#[trigger] sub[t]).0 != key);
        lemma_km_find_at(sub, key, j - 1);
    }
}

/// A value sequence brought to exactly `idx` entries: truncated, or padded
/// with empty strings.
pub open spec fn pad_to(vals: Seq<Seq<char>>, idx: nat) -> Seq<Seq<char>> {
    Seq::new(
        idx,
        |t: int|
            if t < vals.len() {
                vals[t]
            } else {
                Seq::empty()
            },
    )
}

/// One leaf's contribution: its value appended under its key, the value
/// sequence first brought to the current row count.
pub open spec fn km_add(
    km: Seq<(Seq<char>, Seq<Seq<char>>)>,
    key: Seq<char>,
    val: Seq<char>,
    idx: nat,
) -> Seq<(Seq<char>, Seq<Seq<char>>)> {
    let j = km_find(km, key);
    if j == -1 {
        km.push((key, pad_to(Seq::empty(), idx).push(val)))
    } else {
        km.update(j, (key, pad_to(km[j].1, idx).push(val)))
    }
}

/// The walk from node `i`: the keymap and row counter it leaves behind.
pub open spec fn proj_node(
    nodes: Seq<NodeV>,
    i: int,
    km: Seq<(Seq<char>, Seq<Seq<char>>)>,
    idx: nat,
) -> (Seq<(Seq<char>, Seq<Seq<char>>)>, nat)
    decreases nodes.len() - i, 1int, 0int,
{
    if tree_wf(nodes) && 0 <= i < nodes.len() {
        if nodes[i].children.len() == 0 {
            if nodes[i].data.len() > 0 && nodes[i].name.len() > 0 {
                (km_add(km, join_path(path_of(nodes, i)), nodes[i].data, idx), idx)
            } else {
                (km, idx)
            }
        } else {
            let p = proj_kids(nodes, i, 0, km, idx);
            (p.0, p.1 + 1)
        }
    } else {
        (km, idx)
    }
}

/// The walk over children `k..` of node `i`.
pub open spec fn proj_kids(
    nodes: Seq<NodeV>,
    i: int,
    k: int,
    km: Seq<(Seq<char>, Seq<Seq<char>>)>,
    idx: nat,
) -> (Seq<(Seq<char>, Seq<Seq<char>>)>, nat)
    decreases nodes.len() - i, 0int, nodes[i].children.len() - k,
{
    if tree_wf(nodes) && 0 <= i < nodes.len() && 0 <= k < nodes[i].children.len() {
        let p = proj_node(nodes, nodes[i].children[k], km, idx);
        proj_kids(nodes, i, k + 1, p.0, p.1)
    } else {
        (km, idx)
    }
}

/// The row counter advances by at most the subtree's size.
pub proof fn lemma_proj_node_bound(
    nodes: Seq<NodeV>,
    i: int,
    km: Seq<(Seq<char>, Seq<Seq<char>>)>,
    idx: nat,
)
    ensures
        proj_node(nodes, i, km, idx).1 <= idx + subtree_size(nodes, i),
    decreases nodes.len() - i, 1int, 0int,
{
    if tree_wf(nodes) && 0 <= i < nodes.len() {
        if nodes[i].children.len() > 0 {
            lemma_proj_kids_bound(nodes, i, 0, km, idx);
        }
    }
}

pub proof fn lemma_proj_kids_bound(
    nodes: Seq<NodeV>,
    i: int,
    k: int,
    km: Seq<(Seq<char>, Seq<Seq<char>>)>,
    idx: nat,
)
    ensures
        proj_kids(nodes, i, k, km, idx).1 <= idx + kids_size(nodes, i, k),
    decreases nodes.len() - i, 0int, nodes[i].children.len() - k,
{
    if tree_wf(nodes) && 0 <= i < nodes.len() && 0 <= k < nodes[i].children.len() {
        let c = nodes[i].children[k];
        lemma_proj_node_bound(nodes, c, km, idx);
        let p = proj_node(nodes, c, km, idx);
        lemma_proj_kids_bound(nodes, i, k + 1, p.0, p.1);
    }
}

/// Looks `key` up in the keymap, yielding its position if present.
fn km_index_of(keymap: &Vec<(String, Vec<String>)>, key: &String) -> (r: Option<usize>)
    ensures
        match r {
            Some(j) => j < keymap@.len() && km_find(km_v(keymap@), key@) == j as int && km_v(
                keymap@,
            )[j as int].0 == key@,
            Option::None => km_find(km_v(keymap@), key@) == -1,
        },
{
    let mut j: usize = 0;
    while j < keymap.len()
        invariant
            j <= keymap@.len(),
            forall|t: int| 0 <= t < j ==> (#[trigger] km_v(keymap@)[t]).0 != key@,
        decreases keymap@.len() - j,
    {
        if keymap[j].0 == *key {
            proof {
                lemma_km_find_at(km_v(keymap@), key@, j as int);
            }
            return Some(j);
        }
        j += 1;
    }
    proof {
        lemma_km_find_at(km_v(keymap@), key@, keymap@.len() as int);
    }
    None
}

/// Brings the value sequence to exactly `target` entries, truncating or
/// padding with empty strings.
fn pad_rows(vals: &mut Vec<String>, target: usize)
    ensures
        final(vals)@.map_values(|s: String| s@) == pad_to(
            old(vals)@.map_values(|s: String| s@),
            target as nat,
        ),
{
    let ghost oldv = vals@.map_values(|s: String| s@);
    vals.truncate(target);
    proof {
        assert(vals@.map_values(|s: String| s@) =~= pad_to(oldv, vals@.len() as nat));
    }
    while vals.len() < target
        invariant
            vals@.map_values(|s: String| s@) == pad_to(oldv, vals@.len() as nat),
            vals@.len() <= target,
            vals@.len() >= oldv.len() || vals@.len() >= target,
        decreases target - vals@.len(),
    {
        let ghost prev = vals@;
        vals.push(String::new());
        proof {
            let cur = vals@.map_values(|s: String| s@);
            let pad = pad_to(oldv, vals@.len() as nat);
            assert(cur.len() == pad.len());
            assert forall|t: int| 0 <= t < cur.len() implies cur[t] == pad[t] by {
                if t < prev.len() {
                    assert(vals@[t] == prev[t]);
                    assert(cur[t] == prev.map_values(|s: String| s@)[t]);
                } else {
                    assert(cur[t] =~= Seq::<char>::empty());
                }
            }
            assert(cur =~= pad);
        }
    }
}

/// The header line: each key's last path segment, comma-joined, then a
/// line break. An empty keymap yields a bare line break.
pub open spec fn render_header(km: Seq<(Seq<char>, Seq<Seq<char>>)>) -> Seq<char> {
    if km.len() == 0 {
        seq!['\n']
    } else {
        join_sep(km.map_values(|p: (Seq<char>, Seq<Seq<char>>)| last_segment(p.0)), ","@)
            + seq!['\n']
    }
}

/// The values the first `j` keymap entries emit for row `r`: one per entry
/// whose value sequence reaches past `r`, in keymap order.
pub open spec fn row_values_up(km: Seq<(Seq<char>, Seq<Seq<char>>)>, j: int, r: int) -> Seq<
    Seq<char>,
>
    decreases j,
{
    if j <= 0 {
        Seq::empty()
    } else {
        row_values_up(km, j - 1, r) + (if km[j - 1].1.len() > r {
            seq![km[j - 1].1[r]]
        } else {
            Seq::empty()
        })
    }
}

/// The values all keymap entries emit for row `r`.
pub open spec fn row_values(km: Seq<(Seq<char>, Seq<Seq<char>>)>, r: int) -> Seq<Seq<char>> {
    row_values_up(km, km.len() as int, r)
}

/// One body row as text: its values comma-joined and a line break, or
/// nothing at all when no key reaches row `r`.
pub open spec fn row_render(km: Seq<(Seq<char>, Seq<Seq<char>>)>, r: int) -> Seq<char> {
    if row_values(km, r).len() == 0 {
        Seq::empty()
    } else {
        join_sep(row_values(km, r), ","@) + seq!['\n']
    }
}

/// The first `r` body rows as text.
pub open spec fn rows_up(km: Seq<(Seq<char>, Seq<Seq<char>>)>, r: int) -> Seq<char>
    decreases r,
{
    if r <= 0 {
        Seq::empty()
    } else {
        rows_up(km, r - 1) + row_render(km, r - 1)
    }
}

/// The whole tabular text a tree projects onto: the header and one line
/// per counted row group.
pub open spec fn spec_csv_format(nodes: Seq<NodeV>) -> Seq<char> {
    let p = proj_node(nodes, 0, Seq::empty(), 0);
    render_header(p.0) + rows_up(p.0, p.1 as int)
}

/// Walks the subtree under node `idx` depth-first, recording each
/// contributing leaf's path and value in the keymap and advancing the row
/// counter once per visited non-leaf node.
pub fn recursive_csv_format(
    tree: &XMLTree,
    idx: usize,
    keymap: &mut Vec<(String, Vec<String>)>,
    index: &mut usize,
)
    requires
        tree.wf(),
        idx < tree.nodes.len(),
        *old(index) + subtree_size(tree@, idx as int) <= usize::MAX,
    ensures
        km_v(final(keymap)@) == proj_node(
            tree@,
            idx as int,
            km_v(old(keymap)@),
            *old(index) as nat,
        ).0,
        *final(index) == proj_node(tree@, idx as int, km_v(old(keymap)@), *old(index) as nat).1,
    decreases tree.nodes.len() - idx,
{
    let nchildren = tree.nodes[idx].children.len();
    if nchildren == 0 {
        if !tree.nodes[idx].data.as_str().is_empty() && !tree.nodes[idx].name.as_str().is_empty() {
            let ghost km0 = km_v(keymap@);
            let path_vec = tree.get_path(idx);
            let path_str = join_with(&path_vec, "/");
            let pos: usize = match km_index_of(keymap, &path_str) {
                Some(p) => p,
                Option::None => {
                    keymap.push((path_str.clone(), Vec::new()));
                    keymap.len() - 1
                },
            };
            let ghost km_a = keymap@;
            pad_rows(&mut keymap[pos].1, *index);
            keymap[pos].1.push(tree.nodes[idx].data.clone());
            proof {
                let keyv = join_path(path_of(tree@, idx as int));
                let valv = tree@[idx as int].data;
                let idxv = *index as nat;
                let cur = km_v(keymap@);
                let tgt = km_add(km0, keyv, valv, idxv);
                assert(path_str@ == keyv);
                assert(km_v(km_a)[pos as int].0 == keyv);
                assert(keymap@ == km_a.update(
                    pos as int,
                    (km_a[pos as int].0, keymap@[pos as int].1),
                ));
                assert(keymap@[pos as int].1@.map_values(|s: String| s@) == pad_to(
                    km_a[pos as int].1@.map_values(|s: String| s@),
                    idxv,
                ).push(valv));
                assert(cur.len() == tgt.len());
                assert forall|t: int| 0 <= t < cur.len() implies cur[t] == tgt[t] by {
                    if t == pos as int {
                        assert(cur[t].0 == keyv);
                        assert(cur[t].1 == tgt[t].1);
                    } else {
                        assert(keymap@[t] == km_a[t]);
                        if t < km0.len() {
                            assert(km_v(km_a)[t] == km0[t]);
                        }
                    }
                }
                assert(cur =~= tgt);
            }
        }
    } else {
        let ghost km0 = km_v(keymap@);
        let ghost idx0 = *index as nat;
        let mut k: usize = 0;
        while k < nchildren
            invariant
                k <= nchildren,
                nchildren == tree@[idx as int].children.len(),
                proj_kids(tree@, idx as int, k as int, km_v(keymap@), *index as nat) == proj_kids(
                    tree@,
                    idx as int,
                    0,
                    km0,
                    idx0,
                ),
                *index + kids_size(tree@, idx as int, k as int) + 1 <= usize::MAX,
            decreases nchildren - k,
        {
            let c = tree.nodes[idx].children[k];
            let ghost km_pre = km_v(keymap@);
            let ghost idx_pre = *index as nat;
            proof {
                assert(tree@[idx as int].children[k as int] == c as int);
                assert(kids_size(tree@, idx as int, k as int) == subtree_size(tree@, c as int)
                    + kids_size(tree@, idx as int, k as int + 1));
            }
            recursive_csv_format(tree, c, keymap, index);
            proof {
                lemma_proj_node_bound(tree@, c as int, km_pre, idx_pre);
                assert(proj_kids(tree@, idx as int, k as int, km_pre, idx_pre) == proj_kids(
                    tree@,
                    idx as int,
                    k as int + 1,
                    km_v(keymap@),
                    *index as nat,
                ));
            }
            k += 1;
        }
        proof {
            assert(proj_kids(tree@, idx as int, nchildren as int, km_v(keymap@), *index as nat)
                == (km_v(keymap@), *index as nat));
        }
        *index += 1;
    }
}

/// Converts a document tree into the comma-delimited tabular text it
/// projects onto.
pub fn csv_formatter(root: &XMLTree) -> (r: String)
    requires
        root.wf(),
    ensures
        r@ == spec_csv_format(root@),
{
    let mut keymap: Vec<(String, Vec<String>)> = Vec::new();
    let mut index: usize = 0;
    let n = root.nodes.len();
    proof {
        assert(km_v(keymap@) =~= Seq::<(Seq<char>, Seq<Seq<char>>)>::empty());
        // the walk's size is bounded by the arena's length, so the row
        // counter cannot overflow
        crate::node::lemma_subtree_size_bound(root@, 0);
        assert(root@.len() == n);
    }
    recursive_csv_format(root, 0, &mut keymap, &mut index);
    let ghost kmv = km_v(keymap@);
    proof {
        reveal_strlit("\n");
        assert("\n"@ =~= seq!['\n']);
    }
    let mut out: String;
    if keymap.len() == 0 {
        out = "\n".to_owned();
        proof {
            assert(out@ =~= render_header(kmv));
        }
    } else {
        let mut titles: Vec<String> = Vec::new();
        let mut j: usize = 0;
        while j < keymap.len()
            invariant
                j <= keymap@.len(),
                kmv == km_v(keymap@),
                titles@.map_values(|s: String| s@) == kmv.map_values(
                    |p: (Seq<char>, Seq<Seq<char>>)| last_segment(p.0),
                ).take(j as int),
            decreases keymap@.len() - j,
        {
            titles.push(last_seg(&keymap[j].0));
            proof {
                assert(titles@.map_values(|s: String| s@) =~= kmv.map_values(
                    |p: (Seq<char>, Seq<Seq<char>>)| last_segment(p.0),
                ).take(j as int + 1));
            }
            j += 1;
        }
        out = join_with(&titles, ",");
        out.append("\n");
        proof {
            assert(titles@.map_values(|s: String| s@) =~= kmv.map_values(
                |p: (Seq<char>, Seq<Seq<char>>)| last_segment(p.0),
            ));
            assert(out@ =~= render_header(kmv));
        }
    }
    let mut row: usize = 0;
    while row < index
        invariant
            row <= index,
            kmv == km_v(keymap@),
            out@ == render_header(kmv) + rows_up(kmv, row as int),
        decreases index - row,
    {
        let mut rowvals: Vec<String> = Vec::new();
        let mut t: usize = 0;
        while t < keymap.len()
            invariant
                t <= keymap@.len(),
                kmv == km_v(keymap@),
                rowvals@.map_values(|s: String| s@) == row_values_up(kmv, t as int, row as int),
            decreases keymap@.len() - t,
        {
            if keymap[t].1.len() >= row + 1 {
                rowvals.push(keymap[t].1[row].clone());
            }
            proof {
                assert(rowvals@.map_values(|s: String| s@) =~= row_values_up(
                    kmv,
                    t as int + 1,
                    row as int,
                ));
            }
            t += 1;
        }
        if rowvals.len() > 0 {
            let line = join_with(&rowvals, ",");
            out.append(line.as_str());
            out.append("\n");
        }
        proof {
            assert(out@ =~= render_header(kmv) + rows_up(kmv, row as int + 1));
        }
        row += 1;
    }
    proof {
        assert(out@ =~= spec_csv_format(root@));
    }
    out
}

} // verus!
