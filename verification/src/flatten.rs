//! Flattening the filesystem tree into display rows: expanded directories
//! show their children, siblings are ordered by size (largest first,
//! ties in the order given).

use vstd::prelude::*;
use vstd::hash_set::StringHashSet;
use crate::fs_node::{FsNode, NodeView, node_view, forest_view, lemma_children_view};
use crate::tree::{sum_sizes, lemma_sums_prefix_bounded};
use crate::paths::{canonical_path, path_key};

verus! {

/// The set of directory paths that are expanded in the tree view, each held
/// by its canonical text (see [`path_key`]).
pub type ExpandedPaths = StringHashSet;

/// One display row: a node with its depth in the displayed tree, whether it
/// is expanded, and the total size of it and its siblings (from which the
/// share of the parent is computed for display).
#[derive(Debug)]
pub struct UiNode {
    /// The underlying filesystem node.
    pub fs_node: FsNode,
    /// Depth of this node in the displayed tree (roots are at 0).
    pub depth: usize,
    /// Whether this directory is expanded in the tree view.
    pub expanded: bool,
    /// Total size of this node and its siblings.
    pub parent_total: u64,
}

/// The mathematical value of a [`UiNode`].
pub struct UiView {
    pub node: NodeView,
    pub depth: int,
    pub expanded: bool,
    pub parent_total: u64,
}

impl View for UiNode {
    type V = UiView;

    open spec fn view(&self) -> UiView {
        UiView {
            node: self.fs_node@,
            depth: self.depth as int,
            expanded: self.expanded,
            parent_total: self.parent_total,
        }
    }
}

/// The views of a sequence of rows.
pub open spec fn rows_view(s: Seq<UiNode>) -> Seq<UiView> {
    Seq::new(s.len(), |i: int| s[i]@)
}

impl UiNode {
    /// Wraps `node` at `depth`, collapsed and with no sibling total.
    pub fn new(node: FsNode, depth: usize) -> (u: Self)
        ensures
            u@.node == node@,
            u@.depth == depth,
            !u@.expanded,
            u@.parent_total == 0,
    {
        UiNode { fs_node: node, depth, expanded: false, parent_total: 0 }
    }

    /// The underlying node's path.
    pub fn path(&self) -> (p: &str)
        ensures
            p@ == self.fs_node.path@,
    {
        self.fs_node.path.as_str()
    }

    /// The underlying node's display name.
    pub fn name(&self) -> (p: &str)
        ensures
            p@ == self.fs_node.name@,
    {
        self.fs_node.name.as_str()
    }

    /// Whether the underlying node is a directory.
    pub fn is_dir(&self) -> (r: bool)
        ensures
            r == self.fs_node.is_dir,
    {
        self.fs_node.is_dir
    }
}

/// Position at which a key `k` enters an order that is sorted by
/// descending key: after every entry whose key is at least `k`.
pub open spec fn insert_pos(order: Seq<int>, keys: Seq<u64>, k: u64) -> int
    decreases order.len(),
{
    if order.len() == 0 {
        0
    } else if keys[order[0]] < k {
        0
    } else {
        1 + insert_pos(order.drop_first(), keys, k)
    }
}

/// The indices `0..n` ordered by descending key, equal keys keeping their
/// index order (a stable sort).
pub open spec fn desc_order(keys: Seq<u64>, n: nat) -> Seq<int>
    decreases n,
{
    if n == 0 {
        seq![]
    } else {
        let o = desc_order(keys, (n - 1) as nat);
        o.insert(insert_pos(o, keys, keys[n - 1]), n - 1)
    }
}

/// The sizes of a sequence of nodes.
pub open spec fn sizes_of(s: Seq<NodeView>) -> Seq<u64> {
    Seq::new(s.len(), |i: int| s[i].size)
}

/// Whether a node is shown expanded.
pub open spec fn is_expanded(n: NodeView, expanded: Set<Seq<char>>) -> bool {
    n.is_dir && expanded.contains(path_key(n.path))
}

/// The rows of one node: itself, then the rows of its children when it is
/// expanded.
pub open spec fn flat_node(n: NodeView, depth: int, total: u64, expanded: Set<Seq<char>>) -> Seq<UiView>
    decreases n, 2nat, 0nat,
{
    let e = is_expanded(n, expanded);
    seq![UiView { node: n, depth, expanded: e, parent_total: total }] + if e {
        flat_forest(n.children, depth + 1, expanded)
    } else {
        seq![]
    }
}

/// The rows of a sequence of siblings, largest first.
pub open spec fn flat_forest(s: Seq<NodeView>, depth: int, expanded: Set<Seq<char>>) -> Seq<UiView>
    decreases s, 1nat, 0nat,
{
    flat_ordered(
        s,
        desc_order(sizes_of(s), s.len()),
        depth,
        sum_sizes(s) as u64,
        expanded,
        s.len(),
    )
}

/// The rows of the first `k` siblings in `order`.
pub open spec fn flat_ordered(
    s: Seq<NodeView>,
    order: Seq<int>,
    depth: int,
    total: u64,
    expanded: Set<Seq<char>>,
    k: nat,
) -> Seq<UiView>
    decreases s, 0nat, k,
{
    if k == 0 {
        seq![]
    } else {
        let prev = flat_ordered(s, order, depth, total, expanded, (k - 1) as nat);
        let j = order[k - 1];
        if 0 <= j < s.len() {
            prev + flat_node(s[j], depth, total, expanded)
        } else {
            prev
        }
    }
}

/// Flattening `s` at `depth` stays within machine integers: every sibling
/// total fits in `u64` and every depth in `usize`.
pub open spec fn flat_fits(s: Seq<NodeView>, depth: int, expanded: Set<Seq<char>>) -> bool
    decreases s,
{
    &&& sum_sizes(s) <= u64::MAX
    &&& 0 <= depth <= usize::MAX
    &&& forall|i: int|
        #![trigger s[i]]
        0 <= i < s.len() && is_expanded(s[i], expanded) ==> {
            &&& depth + 1 <= usize::MAX
            &&& flat_fits(s[i].children, depth + 1, expanded)
        }
}

proof fn lemma_insert_pos(order: Seq<int>, keys: Seq<u64>, k: u64, j: int)
    requires
        0 <= j <= order.len(),
        forall|t: int| 0 <= t < j ==> keys[#[trigger] order[t]] >= k,
        j == order.len() || keys[order[j]] < k,
    ensures
        insert_pos(order, keys, k) == j,
    decreases order.len(),
{
    if order.len() > 0 && j > 0 {
        assert forall|t: int| 0 <= t < j - 1 implies keys[#[trigger] order.drop_first()[t]] >= k by {
            assert(order.drop_first()[t] == order[t + 1]);
        }
        lemma_insert_pos(order.drop_first(), keys, k, j - 1);
    }
}

proof fn lemma_insert_pos_bounds(order: Seq<int>, keys: Seq<u64>, k: u64)
    ensures
        0 <= insert_pos(order, keys, k) <= order.len(),
    decreases order.len(),
{
    if order.len() > 0 {
        lemma_insert_pos_bounds(order.drop_first(), keys, k);
    }
}

proof fn lemma_desc_order_range(keys: Seq<u64>, n: nat)
    ensures
        desc_order(keys, n).len() == n,
        forall|t: int| 0 <= t < n ==> 0 <= #[trigger] desc_order(keys, n)[t] < n,
    decreases n,
{
    if n > 0 {
        let o = desc_order(keys, (n - 1) as nat);
        lemma_desc_order_range(keys, (n - 1) as nat);
        lemma_insert_pos_bounds(o, keys, keys[n - 1]);
        let p = insert_pos(o, keys, keys[n - 1]);
        assert forall|t: int| 0 <= t < n implies 0 <= #[trigger] desc_order(keys, n)[t] < n by {
            if t < p {
                assert(desc_order(keys, n)[t] == o[t]);
            } else if t > p {
                assert(desc_order(keys, n)[t] == o[t - 1]);
            }
        }
    }
}

proof fn lemma_insert_pos_spec(order: Seq<int>, keys: Seq<u64>, k: u64)
    ensures
        0 <= insert_pos(order, keys, k) <= order.len(),
        forall|t: int| 0 <= t < insert_pos(order, keys, k) ==> keys[#[trigger] order[t]] >= k,
        insert_pos(order, keys, k) < order.len() ==> keys[order[insert_pos(order, keys, k)]] < k,
    decreases order.len(),
{
    if order.len() > 0 && keys[order[0]] >= k {
        let rest = order.drop_first();
        lemma_insert_pos_spec(rest, keys, k);
        assert forall|t: int| 0 <= t < insert_pos(order, keys, k) implies keys[#[trigger] order[t]] >= k by {
            if t > 0 {
                assert(order[t] == rest[t - 1]);
            }
        }
    }
}

/// Entry `a` comes before entry `b` in a stable descending order.
pub open spec fn ordered_before(keys: Seq<u64>, a: int, b: int) -> bool {
    keys[a] > keys[b] || (keys[a] == keys[b] && a < b)
}

/// Siblings are listed largest first, equal sizes in the order given:
/// the order lists each index below `n` exactly once (its entries are in
/// range and strictly ordered), and of any two entries the earlier one has
/// the larger key, or the same key and the smaller index.
pub proof fn lemma_desc_order_sorted(keys: Seq<u64>, n: nat)
    requires
        n <= keys.len(),
    ensures
        desc_order(keys, n).len() == n,
        forall|t: int| 0 <= t < n ==> 0 <= #[trigger] desc_order(keys, n)[t] < n,
        forall|a: int, b: int|
            0 <= a < b < n ==> ordered_before(
                keys,
                #[trigger] desc_order(keys, n)[a],
                #[trigger] desc_order(keys, n)[b],
            ),
    decreases n,
{
    lemma_desc_order_range(keys, n);
    if n > 0 {
        let m = (n - 1) as nat;
        let o = desc_order(keys, m);
        let k = keys[m as int];
        lemma_desc_order_sorted(keys, m);
        lemma_insert_pos_spec(o, keys, k);
        let p = insert_pos(o, keys, k);
        let r = desc_order(keys, n);
        assert(r == o.insert(p, m as int));
        assert forall|t: int| p <= t < m implies keys[#[trigger] o[t]] < k by {
            if t > p {
                assert(ordered_before(keys, o[p], o[t]));
            }
        }
        assert forall|a: int, b: int| 0 <= a < b < n implies ordered_before(keys, #[trigger] r[a], #[trigger] r[b]) by {
            if b < p {
                assert(r[a] == o[a] && r[b] == o[b]);
            } else if b == p {
                assert(r[a] == o[a]);
                assert(keys[o[a]] >= k);
            } else if a < p {
                assert(r[a] == o[a] && r[b] == o[b - 1]);
                assert(ordered_before(keys, o[a], o[b - 1]));
            } else if a == p {
                assert(r[b] == o[b - 1]);
                assert(keys[o[b - 1]] < k);
            } else {
                assert(r[a] == o[a - 1] && r[b] == o[b - 1]);
                assert(ordered_before(keys, o[a - 1], o[b - 1]));
            }
        }
    }
}

/// The nodes of the rows at depth `depth`, in row order.
pub open spec fn heads(rows: Seq<UiView>, depth: int) -> Seq<NodeView>
    decreases rows.len(),
{
    if rows.len() == 0 {
        seq![]
    } else {
        heads(rows.drop_last(), depth) + if rows.last().depth == depth {
            seq![rows.last().node]
        } else {
            Seq::<NodeView>::empty()
        }
    }
}

/// `o` lists every index of `keys` once, largest key first, equal keys in
/// index order.
pub open spec fn is_stable_desc(o: Seq<int>, keys: Seq<u64>) -> bool {
    &&& o.len() == keys.len()
    &&& forall|t: int| 0 <= t < o.len() ==> 0 <= #[trigger] o[t] < keys.len()
    &&& forall|a: int, b: int| 0 <= a < b < o.len() ==> ordered_before(keys, #[trigger] o[a], #[trigger] o[b])
}

proof fn lemma_heads_concat(a: Seq<UiView>, b: Seq<UiView>, depth: int)
    ensures
        heads(a + b, depth) == heads(a, depth) + heads(b, depth),
    decreases b.len(),
{
    if b.len() == 0 {
        assert(a + b =~= a);
        assert(heads(a, depth) + heads(b, depth) =~= heads(a, depth));
    } else {
        lemma_heads_concat(a, b.drop_last(), depth);
        assert((a + b).drop_last() =~= a + b.drop_last());
        assert((a + b).last() == b.last());
    }
}

proof fn lemma_heads_deeper(rows: Seq<UiView>, depth: int)
    requires
        forall|i: int| 0 <= i < rows.len() ==> (#[trigger] rows[i]).depth > depth,
    ensures
        heads(rows, depth) == Seq::<NodeView>::empty(),
    decreases rows.len(),
{
    if rows.len() > 0 {
        assert(rows.last() == rows[rows.len() - 1]);
        lemma_heads_deeper(rows.drop_last(), depth);
    }
}

proof fn lemma_node_rows(n: NodeView, depth: int, total: u64, expanded: Set<Seq<char>>)
    ensures
        forall|i: int| 0 <= i < flat_node(n, depth, total, expanded).len()
            ==> (#[trigger] flat_node(n, depth, total, expanded)[i]).depth >= depth,
        heads(flat_node(n, depth, total, expanded), depth) == seq![n],
    decreases n, 2nat, 0nat,
{
    let e = is_expanded(n, expanded);
    let head = seq![UiView { node: n, depth, expanded: e, parent_total: total }];
    let tail = if e {
        flat_forest(n.children, depth + 1, expanded)
    } else {
        seq![]
    };
    assert(flat_node(n, depth, total, expanded) == head + tail);
    if e {
        assert(decreases_to!(n => n.children));
        lemma_forest_rows(n.children, depth + 1, expanded);
    }
    assert forall|i: int| 0 <= i < tail.len() implies (#[trigger] tail[i]).depth > depth by {}
    lemma_heads_deeper(tail, depth);
    lemma_heads_concat(head, tail, depth);
    assert(head.drop_last() =~= Seq::<UiView>::empty());
    assert(heads(Seq::<UiView>::empty(), depth) == Seq::<NodeView>::empty());
    assert(head.last().depth == depth);
    assert(heads(head, depth) == heads(head.drop_last(), depth) + seq![n]);
    assert(heads(head, depth) =~= seq![n]);
    assert(seq![n] + Seq::<NodeView>::empty() =~= seq![n]);
}

proof fn lemma_forest_rows(s: Seq<NodeView>, depth: int, expanded: Set<Seq<char>>)
    ensures
        forall|i: int| 0 <= i < flat_forest(s, depth, expanded).len()
            ==> (#[trigger] flat_forest(s, depth, expanded)[i]).depth >= depth,
        heads(flat_forest(s, depth, expanded), depth) == Seq::new(
            s.len(),
            |t: int| s[desc_order(sizes_of(s), s.len())[t]],
        ),
    decreases s, 1nat, 0nat,
{
    let o = desc_order(sizes_of(s), s.len());
    lemma_desc_order_range(sizes_of(s), s.len());
    lemma_ordered_rows(s, o, depth, sum_sizes(s) as u64, expanded, s.len());
    assert(heads(flat_forest(s, depth, expanded), depth) =~= Seq::new(s.len(), |t: int| s[o[t]]));
}

proof fn lemma_ordered_rows(
    s: Seq<NodeView>,
    order: Seq<int>,
    depth: int,
    total: u64,
    expanded: Set<Seq<char>>,
    k: nat,
)
    requires
        k <= order.len(),
        forall|t: int| 0 <= t < k ==> 0 <= #[trigger] order[t] < s.len(),
    ensures
        forall|i: int| 0 <= i < flat_ordered(s, order, depth, total, expanded, k).len()
            ==> (#[trigger] flat_ordered(s, order, depth, total, expanded, k)[i]).depth >= depth,
        heads(flat_ordered(s, order, depth, total, expanded, k), depth) =~= Seq::new(k as nat, |t: int| s[order[t]]),
    decreases s, 0nat, k,
{
    if k > 0 {
        let prev = flat_ordered(s, order, depth, total, expanded, (k - 1) as nat);
        lemma_ordered_rows(s, order, depth, total, expanded, (k - 1) as nat);
        let j = order[k - 1];
        assert(0 <= j < s.len());
        assert(decreases_to!(s => s[j]));
        lemma_node_rows(s[j], depth, total, expanded);
        let nr = flat_node(s[j], depth, total, expanded);
        assert(flat_ordered(s, order, depth, total, expanded, k) == prev + nr);
        lemma_heads_concat(prev, nr, depth);
        assert forall|i: int| 0 <= i < (prev + nr).len() implies (#[trigger] (prev + nr)[i]).depth >= depth by {
            if i >= prev.len() {
                assert((prev + nr)[i] == nr[i - prev.len()]);
            } else {
                assert((prev + nr)[i] == prev[i]);
            }
        }
    } else {
        assert(heads(flat_ordered(s, order, depth, total, expanded, k), depth) =~= Seq::<NodeView>::empty());
    }
}

/// At every depth, the rows of a sequence of siblings (the roots, or the
/// children of an expanded directory) lie at that depth or below it, and
/// the rows at that depth are the siblings themselves, each once, largest
/// first and equal sizes in the order given.
pub proof fn lemma_siblings_largest_first(s: Seq<NodeView>, depth: int, expanded: Set<Seq<char>>)
    ensures
        forall|i: int| 0 <= i < flat_forest(s, depth, expanded).len()
            ==> (#[trigger] flat_forest(s, depth, expanded)[i]).depth >= depth,
        exists|o: Seq<int>|
            #[trigger] is_stable_desc(o, sizes_of(s)) && heads(flat_forest(s, depth, expanded), depth) == Seq::new(
                s.len(),
                |t: int| s[o[t]],
            ),
{
    lemma_forest_rows(s, depth, expanded);
    lemma_desc_order_sorted(sizes_of(s), s.len());
    let o = desc_order(sizes_of(s), s.len());
    assert(is_stable_desc(o, sizes_of(s)));
}

/// The stable descending order of the sizes of `nodes`.
fn size_order(nodes: &Vec<FsNode>) -> (order: Vec<usize>)
    ensures
        order@.len() == nodes@.len(),
        forall|t: int|
            0 <= t < order@.len() ==> #[trigger] order@[t] as int == desc_order(
                sizes_of(forest_view(nodes@)),
                nodes@.len() as nat,
            )[t],
{
    let ghost keys = sizes_of(forest_view(nodes@));
    let n = nodes.len();
    let mut order: Vec<usize> = Vec::new();
    for i in 0..n
        invariant
            n == nodes@.len(),
            keys == sizes_of(forest_view(nodes@)),
            order@.len() == i,
            forall|t: int| 0 <= t < i ==> #[trigger] order@[t] as int == desc_order(keys, i as nat)[t],
    {
        let ghost o = desc_order(keys, i as nat);
        proof {
            lemma_desc_order_range(keys, i as nat);
        }
        assert(keys[i as int] == nodes@[i as int].size) by {
            assert(forest_view(nodes@)[i as int] == node_view(nodes@[i as int]));
        }
        let k = nodes[i].size;
        let mut j: usize = 0;
        while j < order.len() && nodes[order[j]].size >= k
            invariant
                0 <= j <= order@.len(),
                order@.len() == i,
                i < n,
                n == nodes@.len(),
                keys == sizes_of(forest_view(nodes@)),
                k == keys[i as int],
                o.len() == i,
                forall|t: int| 0 <= t < i ==> 0 <= #[trigger] o[t] < i,
                forall|t: int| 0 <= t < i ==> #[trigger] order@[t] as int == o[t],
                forall|t: int| 0 <= t < j ==> keys[#[trigger] o[t]] >= k,
            decreases order@.len() - j,
        {
            assert(keys[o[j as int]] == nodes@[order@[j as int] as int].size) by {
                assert(forest_view(nodes@)[o[j as int]] == node_view(nodes@[o[j as int]]));
            }
            j = j + 1;
        }
        proof {
            if j < order@.len() {
                assert(keys[o[j as int]] == nodes@[order@[j as int] as int].size) by {
                    assert(forest_view(nodes@)[o[j as int]] == node_view(nodes@[o[j as int]]));
                }
            }
            lemma_insert_pos(o, keys, k, j as int);
        }
        order.insert(j, i);
        assert forall|t: int| 0 <= t < i + 1 implies #[trigger] order@[t] as int == desc_order(keys, (i + 1) as nat)[t] by {
            assert(desc_order(keys, (i + 1) as nat) == o.insert(j as int, i as int));
        }
    }
    order
}


/// Appends the rows of `node` (and of its subtree when expanded) to `out`.
fn flatten_node(node: &FsNode, depth: usize, total: u64, expanded: &ExpandedPaths, out: &mut Vec<UiNode>)
    requires
        is_expanded(node@, expanded@) ==> {
            &&& depth + 1 <= usize::MAX
            &&& flat_fits(node@.children, depth + 1, expanded@)
        },
    ensures
        rows_view(final(out)@) == rows_view(old(out)@) + flat_node(node@, depth as int, total, expanded@),
    decreases node, 1nat,
{
    let e = node.is_dir && expanded.contains(canonical_path(node.path.as_str()).as_str());
    let ghost before = rows_view(out@);
    let row = UiNode { fs_node: node.duplicate(), depth, expanded: e, parent_total: total };
    out.push(row);
    let ghost head = seq![UiView { node: node@, depth: depth as int, expanded: e, parent_total: total }];
    assert(rows_view(out@) =~= before + head);
    if e {
        proof {
            lemma_children_view(*node);
            assert(decreases_to!(node => node.children));
        }
        flatten_level(&node.children, depth + 1, expanded, out);
        assert(rows_view(out@) =~= before + flat_node(node@, depth as int, total, expanded@));
    } else {
        assert(rows_view(out@) =~= before + flat_node(node@, depth as int, total, expanded@));
    }
}

/// Appends the rows of a sequence of siblings, largest first, to `out`.
fn flatten_level(nodes: &Vec<FsNode>, depth: usize, expanded: &ExpandedPaths, out: &mut Vec<UiNode>)
    requires
        flat_fits(forest_view(nodes@), depth as int, expanded@),
    ensures
        rows_view(final(out)@) == rows_view(old(out)@) + flat_forest(
            forest_view(nodes@),
            depth as int,
            expanded@,
        ),
    decreases nodes, 0nat,
{
    let ghost fv = forest_view(nodes@);
    let n = nodes.len();
    let mut total: u64 = 0;
    for i in 0..n
        invariant
            n == nodes@.len(),
            fv == forest_view(nodes@),
            sum_sizes(fv) <= u64::MAX,
            total == sum_sizes(fv.take(i as int)),
    {
        proof {
            assert(fv.take(i + 1).drop_last() =~= fv.take(i as int));
            lemma_sums_prefix_bounded(fv, i + 1);
        }
        total = total + nodes[i].size;
    }
    assert(fv.take(n as int) =~= fv);
    let order = size_order(nodes);
    let ghost dord = desc_order(sizes_of(fv), n as nat);
    proof {
        lemma_desc_order_range(sizes_of(fv), n as nat);
    }
    let ghost start = rows_view(out@);
    for k in 0..n
        invariant
            n == nodes@.len(),
            fv == forest_view(nodes@),
            flat_fits(fv, depth as int, expanded@),
            total == sum_sizes(fv) as u64,
            order@.len() == n,
            dord.len() == n,
            forall|t: int| 0 <= t < n ==> #[trigger] order@[t] as int == dord[t],
            forall|t: int| 0 <= t < n ==> 0 <= #[trigger] dord[t] < n,
            rows_view(out@) == start + flat_ordered(fv, dord, depth as int, total, expanded@, k as nat),
    {
        let j = order[k];
        assert(fv[j as int] == nodes@[j as int]@);
        assert(order@[k as int] as int == dord[k as int]);
        proof {
            assert(decreases_to!(nodes => nodes@));
            assert(decreases_to!(nodes@ => nodes@[j as int]));
        }
        flatten_node(&nodes[j], depth, total, expanded, out);
        assert(flat_ordered(fv, dord, depth as int, total, expanded@, (k + 1) as nat)
            == flat_ordered(fv, dord, depth as int, total, expanded@, k as nat)
                + flat_node(fv[j as int], depth as int, total, expanded@));
        assert(rows_view(out@) =~= start + flat_ordered(fv, dord, depth as int, total, expanded@, (k + 1) as nat));
    }
}

/// Flattens `roots` into display rows. Only directories whose path is in
/// `expanded_paths` show their children; siblings are ordered by size,
/// largest first, equal sizes keeping the order given. Each row
/// carries its depth and the total size of its siblings.
pub fn flatten_tree(roots: &Vec<FsNode>, expanded_paths: &ExpandedPaths) -> (rows: Vec<UiNode>)
    requires
        flat_fits(forest_view(roots@), 0, expanded_paths@),
    ensures
        rows_view(rows@) == flat_forest(forest_view(roots@), 0, expanded_paths@),
{
    let mut out: Vec<UiNode> = Vec::new();
    assert(rows_view(out@) =~= Seq::<UiView>::empty());
    flatten_level(roots, 0, expanded_paths, &mut out);
    assert(rows_view(out@) =~= flat_forest(forest_view(roots@), 0, expanded_paths@));
    out
}

} // verus!
