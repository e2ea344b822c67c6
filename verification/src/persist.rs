//! Converting between the filesystem tree and the flat rows stored for a
//! scan: the rows to insert (parents before children) and the tree rebuilt
//! from loaded rows.

use vstd::prelude::*;
use vstd::hash_map::HashMapWithView;
use crate::db_node::{DbNode, DbView, rows_view};
use crate::fs_node::{FsNode, NodeView, node_view, lemma_children_view, forest_view, is_subtree};

verus! {

/// The row stored for node `n` at position `pos` under parent `parent`.
/// Positions serve as provisional ids; the stored columns are the name,
/// path, kind, size and counts.
pub open spec fn row_for(n: NodeView, pos: int, parent: Option<int>, scan_id: i64) -> DbView {
    DbView {
        id: pos,
        parent_id: parent,
        name: n.name,
        path: n.path,
        size: n.size,
        prev_size: None,
        file_count: n.file_count,
        folder_count: n.folder_count,
        is_dir: n.is_dir,
        modified_secs: None,
        scan_id,
    }
}

/// The rows of the subtree `n`, its own row at position `pos`: the node
/// first, then the subtrees of its children from the last child to the
/// first (the order in which a stack of pending nodes yields them).
pub open spec fn save_rows(n: NodeView, pos: int, parent: Option<int>, scan_id: i64) -> Seq<DbView>
    decreases n, 1nat, 0nat,
{
    seq![row_for(n, pos, parent, scan_id)] + save_rev(
        n.children,
        0,
        n.children.len() as int,
        pos + 1,
        pos,
        scan_id,
    )
}

/// The rows of the children `s[lo..hi]`, from `s[hi - 1]` down to `s[lo]`,
/// the first of them at position `start`.
pub open spec fn save_rev(s: Seq<NodeView>, lo: int, hi: int, start: int, parent: int, scan_id: i64) -> Seq<DbView>
    decreases s, 0nat, hi - lo,
{
    if hi <= lo || hi > s.len() || lo < 0 {
        seq![]
    } else {
        let first = save_rows(s[hi - 1], start, Some(parent), scan_id);
        first + save_rev(s, lo, hi - 1, start + first.len(), parent, scan_id)
    }
}

proof fn lemma_save_rev_extend(s: Seq<NodeView>, lo: int, hi: int, start: int, parent: int, scan_id: i64)
    requires
        0 < lo <= hi <= s.len(),
    ensures
        save_rev(s, lo - 1, hi, start, parent, scan_id) == save_rev(s, lo, hi, start, parent, scan_id)
            + save_rows(
            s[lo - 1],
            start + save_rev(s, lo, hi, start, parent, scan_id).len(),
            Some(parent),
            scan_id,
        ),
    decreases hi - lo,
{
    if hi > lo {
        let first = save_rows(s[hi - 1], start, Some(parent), scan_id);
        lemma_save_rev_extend(s, lo, hi - 1, start + first.len(), parent, scan_id);
        assert(save_rev(s, lo - 1, hi, start, parent, scan_id) =~= first + save_rev(
            s,
            lo - 1,
            hi - 1,
            start + first.len(),
            parent,
            scan_id,
        ));
    } else {
        assert(save_rev(s, lo, hi, start, parent, scan_id) =~= Seq::<DbView>::empty());
        let r = save_rows(s[lo - 1], start, Some(parent), scan_id);
        assert(save_rev(s, lo - 1, hi - 1, start + r.len(), parent, scan_id) =~= Seq::<DbView>::empty());
        assert(save_rev(s, lo - 1, hi, start, parent, scan_id) =~= r);
    }
}

/// Appends the rows of the subtree `n` (see [`save_rows`]).
fn plan_node(n: &FsNode, parent: Option<i64>, scan_id: i64, out: &mut Vec<DbNode>)
    requires
        old(out)@.len() + save_rows(
            n@,
            old(out)@.len() as int,
            crate::db_node::id_view(parent),
            scan_id,
        ).len() <= i64::MAX,
        parent matches Some(p) ==> 0 <= p,
    ensures
        rows_view(final(out)@) == rows_view(old(out)@) + save_rows(
            n@,
            old(out)@.len() as int,
            crate::db_node::id_view(parent),
            scan_id,
        ),
    decreases n,
{
    let ghost start = rows_view(out@);
    let ghost all = save_rows(n@, out@.len() as int, crate::db_node::id_view(parent), scan_id);
    let pos = out.len() as i64;
    out.push(DbNode {
        id: pos,
        parent_id: parent,
        name: n.name.clone(),
        path: n.path.clone(),
        size: n.size,
        prev_size: None,
        file_count: n.file_count,
        folder_count: n.folder_count,
        is_dir: n.is_dir,
        modified_secs: None,
        scan_id,
    });
    proof {
        lemma_children_view(*n);
    }
    let ghost kids = n@.children;
    let len = n.children.len();
    assert(rows_view(out@) =~= start + seq![row_for(n@, pos as int, crate::db_node::id_view(parent), scan_id)]);
    assert(save_rev(kids, len as int, len as int, pos + 1, pos as int, scan_id) =~= Seq::<DbView>::empty());
    let mut k = len;
    while k > 0
        invariant
            k <= len,
            len == n.children@.len(),
            kids == n@.children,
            kids == forest_view(n.children@),
            0 <= pos,
            pos as int == start.len(),
            all == seq![row_for(n@, pos as int, crate::db_node::id_view(parent), scan_id)] + save_rev(
                kids,
                0,
                len as int,
                pos + 1,
                pos as int,
                scan_id,
            ),
            start.len() + all.len() <= i64::MAX,
            rows_view(out@) == start + seq![row_for(n@, pos as int, crate::db_node::id_view(parent), scan_id)]
                + save_rev(kids, k as int, len as int, pos + 1, pos as int, scan_id),
        decreases k,
    {
        proof {
            lemma_save_rev_extend(kids, k as int, len as int, pos + 1, pos as int, scan_id);
            lemma_save_rev_prefix_len(kids, 0, len as int, pos + 1, pos as int, scan_id);
            assert(decreases_to!(n => n.children));
            assert(decreases_to!(n.children => n.children@));
            assert(decreases_to!(n.children@ => n.children@[k - 1]));
        }
        let ghost done_rows = save_rev(kids, k as int, len as int, pos + 1, pos as int, scan_id);
        assert(out@.len() == rows_view(out@).len());
        assert(out@.len() == pos + 1 + done_rows.len());
        k = k - 1;
        assert(kids[k as int] == n.children@[k as int]@);
        assert(save_rev(kids, k as int, len as int, pos + 1, pos as int, scan_id) == done_rows + save_rows(
            kids[k as int],
            pos + 1 + done_rows.len(),
            Some(pos as int),
            scan_id,
        ));
        assert(save_rev(kids, k as int, len as int, pos + 1, pos as int, scan_id).len() <= save_rev(kids, 0, len as int, pos + 1, pos as int, scan_id).len());
        assert(crate::db_node::id_view(Some(pos)) == Some(pos as int));
        plan_node(&n.children[k], Some(pos), scan_id, out);
        assert(rows_view(out@) =~= start + seq![row_for(n@, pos as int, crate::db_node::id_view(parent), scan_id)]
            + save_rev(kids, k as int, len as int, pos + 1, pos as int, scan_id));
    }
}

proof fn lemma_save_rev_prefix_len(s: Seq<NodeView>, lo: int, hi: int, start: int, parent: int, scan_id: i64)
    requires
        0 <= lo <= hi <= s.len(),
    ensures
        forall|m: int|
            lo <= m <= hi ==> #[trigger] save_rev(s, m, hi, start, parent, scan_id).len() <= save_rev(
                s,
                lo,
                hi,
                start,
                parent,
                scan_id,
            ).len(),
    decreases hi - lo,
{
    if lo < hi {
        lemma_save_rev_prefix_len(s, lo + 1, hi, start, parent, scan_id);
        lemma_save_rev_extend(s, lo + 1, hi, start, parent, scan_id);
    }
}

/// Row `r` stores the columns of node `m`: name, path, kind, size and
/// counts, with no previous size, for scan `scan_id`.
pub open spec fn stores(r: DbView, m: NodeView, scan_id: i64) -> bool {
    &&& r.name == m.name
    &&& r.path == m.path
    &&& r.is_dir == m.is_dir
    &&& r.size == m.size
    &&& r.file_count == m.file_count
    &&& r.folder_count == m.folder_count
    &&& r.prev_size is None
    &&& r.scan_id == scan_id
}

/// The first row saved for a subtree stores its root, at position `pos`
/// under `parent`; every row saved for it stores some node of it, with
/// that node's own size, file count and folder count.
pub proof fn lemma_saved_rows_store_their_nodes(n: NodeView, pos: int, parent: Option<int>, scan_id: i64, j: int)
    requires
        0 <= j < save_rows(n, pos, parent, scan_id).len(),
    ensures
        save_rows(n, pos, parent, scan_id)[0].id == pos,
        save_rows(n, pos, parent, scan_id)[0].parent_id == parent,
        stores(save_rows(n, pos, parent, scan_id)[0], n, scan_id),
        exists|m: NodeView| #[trigger] is_subtree(m, n) && stores(save_rows(n, pos, parent, scan_id)[j], m, scan_id),
{
    let m = lemma_row_node(n, pos, parent, scan_id, j);
    assert(is_subtree(m, n));
}

proof fn lemma_row_node(n: NodeView, pos: int, parent: Option<int>, scan_id: i64, j: int) -> (m: NodeView)
    requires
        0 <= j < save_rows(n, pos, parent, scan_id).len(),
    ensures
        is_subtree(m, n),
        stores(save_rows(n, pos, parent, scan_id)[j], m, scan_id),
    decreases n, 1nat, 0nat,
{
    let rest = save_rev(n.children, 0, n.children.len() as int, pos + 1, pos, scan_id);
    assert(save_rows(n, pos, parent, scan_id) == seq![row_for(n, pos, parent, scan_id)] + rest);
    if j == 0 {
        n
    } else {
        assert(save_rows(n, pos, parent, scan_id)[j] == rest[j - 1]);
        assert(decreases_to!(n => n.children));
        let (m, i) = lemma_rev_row_node(n.children, 0, n.children.len() as int, pos + 1, pos, scan_id, j - 1);
        assert(is_subtree(m, n.children[i]));
        m
    }
}

proof fn lemma_rev_row_node(s: Seq<NodeView>, lo: int, hi: int, start: int, parent: int, scan_id: i64, j: int) -> (r: (NodeView, int))
    requires
        0 <= j < save_rev(s, lo, hi, start, parent, scan_id).len(),
    ensures
        0 <= r.1 < s.len(),
        is_subtree(r.0, s[r.1]),
        stores(save_rev(s, lo, hi, start, parent, scan_id)[j], r.0, scan_id),
    decreases s, 0nat, hi - lo,
{
    if hi <= lo || hi > s.len() || lo < 0 {
        assert(false);
        arbitrary()
    } else {
        let first = save_rows(s[hi - 1], start, Some(parent), scan_id);
        let rest = save_rev(s, lo, hi - 1, start + first.len(), parent, scan_id);
        assert(save_rev(s, lo, hi, start, parent, scan_id) == first + rest);
        if j < first.len() {
            assert(decreases_to!(s => s[hi - 1]));
            let m = lemma_row_node(s[hi - 1], start, Some(parent), scan_id, j);
            (m, hi - 1)
        } else {
            assert(save_rev(s, lo, hi, start, parent, scan_id)[j] == rest[j - first.len()]);
            lemma_rev_row_node(s, lo, hi - 1, start + first.len(), parent, scan_id, j - first.len())
        }
    }
}

/// The rows to store for a scan tree, parents before children: each row's
/// `id` is its position and `parent_id` the position of its parent's row;
/// the root comes first, then the subtrees of its children from the last
/// child to the first.
pub fn plan_save(root: &FsNode, scan_id: i64) -> (rows: Vec<DbNode>)
    requires
        save_rows(root@, 0, None, scan_id).len() <= i64::MAX,
    ensures
        rows_view(rows@) == save_rows(root@, 0, None, scan_id),
{
    let mut out: Vec<DbNode> = Vec::new();
    assert(rows_view(out@) =~= Seq::<DbView>::empty());
    plan_node(root, None, scan_id, &mut out);
    assert(rows_view(out@) =~= save_rows(root@, 0, None, scan_id));
    out
}


/// Index of the last row with id `id`, or -1.
pub open spec fn last_index_of(s: Seq<DbView>, id: int) -> int
    decreases s.len(),
{
    if s.len() == 0 {
        -1
    } else if s.last().id == id {
        s.len() - 1
    } else {
        last_index_of(s.drop_last(), id)
    }
}

/// Ids of the rows whose parent is `pid`, in row order.
pub open spec fn child_ids(s: Seq<DbView>, pid: int) -> Seq<int>
    decreases s.len(),
{
    if s.len() == 0 {
        seq![]
    } else {
        let r = child_ids(s.drop_last(), pid);
        if s.last().parent_id == Some(pid) {
            r.push(s.last().id)
        } else {
            r
        }
    }
}

/// Index of the first row without a parent, or -1.
pub open spec fn first_root(s: Seq<DbView>) -> int
    decreases s.len(),
{
    if s.len() == 0 {
        -1
    } else {
        let r = first_root(s.drop_last());
        if r >= 0 {
            r
        } else if s.last().parent_id is None {
            s.len() - 1
        } else {
            -1
        }
    }
}

/// The tree node for a row, with the given children.
pub open spec fn node_of_row(r: DbView, children: Seq<NodeView>) -> NodeView {
    NodeView {
        name: r.name,
        path: r.path,
        size: r.size,
        prev_size: None,
        file_count: r.file_count,
        folder_count: r.folder_count,
        modified: None,
        is_dir: r.is_dir,
        children,
    }
}

/// The subtree rebuilt for id `id`: the last row with that id, and below
/// it (while `fuel` lasts) the subtrees of the rows naming `id` as their
/// parent, in row order.
pub open spec fn built(s: Seq<DbView>, id: int, fuel: nat) -> NodeView
    decreases fuel,
{
    let kids = if fuel == 0 {
        seq![]
    } else {
        let c = child_ids(s, id);
        Seq::new(
            c.len(),
            |k: int|
                if 0 <= k < c.len() {
                    built(s, c[k], (fuel - 1) as nat)
                } else {
                    arbitrary()
                },
        )
    };
    node_of_row(s[last_index_of(s, id)], kids)
}

/// The tree rebuilt from loaded rows: `None` without rows or without a
/// root row, otherwise the subtree of the first root row. Descending
/// through as many levels as there are rows always reaches the leaves
/// unless an id repeats along a path.
pub open spec fn built_tree(s: Seq<DbView>) -> Option<NodeView> {
    if s.len() == 0 || first_root(s) < 0 {
        None
    } else {
        Some(built(s, s[first_root(s)].id, s.len()))
    }
}

/// Every rebuilt node carries the columns of the last row with its id:
/// name, path, kind, size, file count and folder count, with no previous
/// size or modification time; its children are the rebuilt nodes of the
/// rows naming it as their parent, in row order.
pub proof fn lemma_rebuilt_node_is_its_row(s: Seq<DbView>, id: int, fuel: nat)
    ensures
        ({
            let b = built(s, id, fuel);
            let r = s[last_index_of(s, id)];
            &&& b.name == r.name
            &&& b.path == r.path
            &&& b.is_dir == r.is_dir
            &&& b.size == r.size
            &&& b.file_count == r.file_count
            &&& b.folder_count == r.folder_count
            &&& b.prev_size is None
            &&& b.modified is None
        }),
        fuel > 0 ==> built(s, id, fuel).children.len() == child_ids(s, id).len(),
        fuel > 0 ==> forall|k: int| #![trigger built(s, id, fuel).children[k]] 0 <= k < child_ids(s, id).len()
            ==> built(s, id, fuel).children[k].path == s[last_index_of(s, child_ids(s, id)[k])].path,
        fuel == 0 ==> built(s, id, fuel).children.len() == 0,
{
    if fuel > 0 {
        assert forall|k: int| #![trigger built(s, id, fuel).children[k]] 0 <= k < child_ids(s, id).len()
            implies built(s, id, fuel).children[k].path == s[last_index_of(s, child_ids(s, id)[k])].path by {
            assert(built(s, id, fuel).children[k] == built(s, child_ids(s, id)[k], (fuel - 1) as nat));
        }
    }
}

/// The rebuilt tree's root is the first row without a parent, with that
/// row's columns.
pub proof fn lemma_rebuilt_root_is_first_root_row(s: Seq<DbView>)
    ensures
        built_tree(s) is Some <==> (s.len() > 0 && first_root(s) >= 0),
        built_tree(s) matches Some(t) ==> {
            let r = s[last_index_of(s, s[first_root(s)].id)];
            &&& t.name == r.name
            &&& t.path == r.path
            &&& t.is_dir == r.is_dir
            &&& t.size == r.size
            &&& t.file_count == r.file_count
            &&& t.folder_count == r.folder_count
        },
{
    if s.len() > 0 && first_root(s) >= 0 {
        lemma_rebuilt_node_is_its_row(s, s[first_root(s)].id, s.len());
    }
}

proof fn lemma_child_ids_present(s: Seq<DbView>, pid: int)
    ensures
        forall|k: int| 0 <= k < child_ids(s, pid).len() ==> 0 <= #[trigger] last_index_of(s, child_ids(s, pid)[k]) < s.len(),
    decreases s.len(),
{
    if s.len() > 0 {
        lemma_child_ids_present(s.drop_last(), pid);
        let r = child_ids(s.drop_last(), pid);
        assert forall|k: int| 0 <= k < child_ids(s, pid).len() implies 0 <= #[trigger] last_index_of(s, child_ids(s, pid)[k]) < s.len() by {
            let id = child_ids(s, pid)[k];
            lemma_last_index_bounds(s.drop_last(), id);
            if k < r.len() {
                assert(child_ids(s, pid)[k] == r[k]);
                assert(0 <= last_index_of(s.drop_last(), id));
            } else {
                assert(id == s.last().id);
            }
        }
    }
}

proof fn lemma_last_index_bounds(s: Seq<DbView>, id: int)
    ensures
        -1 <= last_index_of(s, id) < s.len(),
        last_index_of(s, id) >= 0 ==> s[last_index_of(s, id)].id == id,
    decreases s.len(),
{
    if s.len() > 0 {
        lemma_last_index_bounds(s.drop_last(), id);
    }
}

/// Builds the subtree for `id` from the lookups of the rows.
fn build_node(
    rows: &Vec<DbNode>,
    index_of: &HashMapWithView<i64, usize>,
    children_of: &HashMapWithView<i64, Vec<i64>>,
    id: i64,
    fuel: usize,
) -> (n: FsNode)
    requires
        0 <= last_index_of(rows_view(rows@), id as int),
        forall|k: i64|
            #![trigger index_of@.contains_key(k)]
            index_of@.contains_key(k) <==> last_index_of(rows_view(rows@), k as int) >= 0,
        forall|k: i64|
            #![trigger index_of@.contains_key(k)]
            index_of@.contains_key(k) ==> index_of@[k] as int == last_index_of(rows_view(rows@), k as int),
        forall|k: i64|
            #![trigger children_of@.contains_key(k)]
            children_of@.contains_key(k) <==> child_ids(rows_view(rows@), k as int).len() > 0,
        forall|k: i64|
            #![trigger children_of@.contains_key(k)]
            children_of@.contains_key(k) ==> ids_match(children_of@[k]@, child_ids(rows_view(rows@), k as int)),
    ensures
        n@ == built(rows_view(rows@), id as int, fuel as nat),
    decreases fuel,
{
    let ghost s = rows_view(rows@);
    let i = *index_of.get(&id).unwrap();
    proof {
        lemma_last_index_bounds(s, id as int);
    }
    let r = &rows[i];
    assert(s[i as int] == r@);
    let mut kids: Vec<FsNode> = Vec::new();
    if fuel > 0 {
        let ghost c = child_ids(s, id as int);
        proof {
            lemma_child_ids_present(s, id as int);
        }
        match children_of.get(&id) {
            Some(ids) => {
                let m = ids.len();
                for k in 0..m
                    invariant
                        fuel > 0,
                        m == ids@.len(),
                        ids_match(ids@, c),
                        c == child_ids(s, id as int),
                        s == rows_view(rows@),
                        forall|t: int| 0 <= t < c.len() ==> 0 <= #[trigger] last_index_of(s, c[t]) < s.len(),
                        forall|k: i64|
                            #![trigger index_of@.contains_key(k)]
                            index_of@.contains_key(k) <==> last_index_of(rows_view(rows@), k as int) >= 0,
                        forall|k: i64|
                            #![trigger index_of@.contains_key(k)]
                            index_of@.contains_key(k) ==> index_of@[k] as int == last_index_of(rows_view(rows@), k as int),
                        forall|k: i64|
                            #![trigger children_of@.contains_key(k)]
                            children_of@.contains_key(k) <==> child_ids(rows_view(rows@), k as int).len() > 0,
                        forall|k: i64|
                            #![trigger children_of@.contains_key(k)]
                            children_of@.contains_key(k) ==> ids_match(children_of@[k]@, child_ids(rows_view(rows@), k as int)),
                        kids@.len() == k,
                        forall|t: int| 0 <= t < k ==> #[trigger] kids@[t]@ == built(s, c[t], (fuel - 1) as nat),
                {
                    let cid = ids[k];
                    assert(cid as int == c[k as int]);
                    kids.push(build_node(rows, index_of, children_of, cid, fuel - 1));
                }
            },
            None => {},
        }
    }
    let ghost expect = built(s, id as int, fuel as nat);
    assert(kids@.len() == expect.children.len());
    assert(forall|t: int| 0 <= t < kids@.len() ==> #[trigger] kids@[t]@ == expect.children[t]);
    let ghost kv = kids@;
    let n = FsNode {
        name: r.name.clone(),
        path: r.path.clone(),
        size: r.size,
        prev_size: None,
        file_count: r.file_count,
        folder_count: r.folder_count,
        modified: None,
        is_dir: r.is_dir,
        children: kids,
    };
    proof {
        assert(n.children@ == kv);
        assert forall|t: int| 0 <= t < n@.children.len() implies #[trigger] n@.children[t] == expect.children[t] by {
            assert(n@.children[t] == node_view(n.children@[t]));
            assert(kv[t]@ == expect.children[t]);
        }
        assert(n@.children =~= expect.children);
    }
    n
}

/// The ids of a vector equal a sequence of integer ids.
pub open spec fn ids_match(v: Seq<i64>, c: Seq<int>) -> bool {
    v.len() == c.len() && forall|t: int| 0 <= t < v.len() ==> #[trigger] v[t] as int == c[t]
}

/// Rebuilds the scan tree from loaded rows: the first row without a parent
/// is the root, and each node's children are the rows naming it as their
/// parent, in row order. Returns `None` when there are no rows or no root.
pub fn build_fs_tree(db_nodes: &Vec<DbNode>) -> (tree: Option<FsNode>)
    ensures
        match (tree, built_tree(rows_view(db_nodes@))) {
            (Some(t), Some(b)) => t@ == b,
            (None, None) => true,
            _ => false,
        },
{
    broadcast use vstd::std_specs::hash::group_hash_axioms;
    let ghost s = rows_view(db_nodes@);
    let n = db_nodes.len();
    if n == 0 {
        return None;
    }
    let mut index_of: HashMapWithView<i64, usize> = HashMapWithView::new();
    let mut children_of: HashMapWithView<i64, Vec<i64>> = HashMapWithView::new();
    let mut root: Option<usize> = None;
    for i in 0..n
        invariant
            n == db_nodes@.len(),
            s == rows_view(db_nodes@),
            match root {
                Some(r) => r as int == first_root(s.take(i as int)) && 0 <= r < i,
                None => first_root(s.take(i as int)) == -1,
            },
            forall|k: i64|
                #![trigger index_of@.contains_key(k)]
                index_of@.contains_key(k) <==> last_index_of(s.take(i as int), k as int) >= 0,
            forall|k: i64|
                #![trigger index_of@.contains_key(k)]
                index_of@.contains_key(k) ==> index_of@[k] as int == last_index_of(s.take(i as int), k as int),
            forall|k: i64|
                #![trigger children_of@.contains_key(k)]
                children_of@.contains_key(k) <==> child_ids(s.take(i as int), k as int).len() > 0,
            forall|k: i64|
                #![trigger children_of@.contains_key(k)]
                children_of@.contains_key(k) ==> ids_match(children_of@[k]@, child_ids(s.take(i as int), k as int)),
    {
        let ghost pre = s.take(i as int);
        let ghost post = s.take(i + 1);
        assert(post.drop_last() =~= pre);
        assert(post.last() == db_nodes@[i as int]@);
        let row = &db_nodes[i];
        index_of.insert(row.id, i);
        if root.is_none() && row.parent_id.is_none() {
            root = Some(i);
        }
        match row.parent_id {
            Some(pid) => {
                let ids = match children_of.remove(&pid) {
                    Some(v) => v,
                    None => Vec::new(),
                };
                let mut ids = ids;
                ids.push(row.id);
                children_of.insert(pid, ids);
            },
            None => {},
        }
        assert forall|k: i64| #![trigger children_of@.contains_key(k)]
            children_of@.contains_key(k) ==> ids_match(children_of@[k]@, child_ids(post, k as int)) by {
            if children_of@.contains_key(k) {
                if Some(k as int) == post.last().parent_id {
                    assert(children_of@[k]@ =~= children_of@[k]@);
                }
            }
        }
    }
    let ghost all = s.take(n as int);
    assert(all =~= s);
    match root {
        None => None,
        Some(r) => {
            let rid = db_nodes[r].id;
            proof {
                lemma_last_index_bounds(s, rid as int);
                assert(s[r as int].id == rid);
                lemma_last_index_present(s, rid as int, r as int);
            }
            Some(build_node(db_nodes, &index_of, &children_of, rid, n))
        },
    }
}

proof fn lemma_last_index_present(s: Seq<DbView>, id: int, j: int)
    requires
        0 <= j < s.len(),
        s[j].id == id,
    ensures
        last_index_of(s, id) >= j,
    decreases s.len(),
{
    if s.last().id != id {
        lemma_last_index_present(s.drop_last(), id, j);
    }
}

} // verus!
