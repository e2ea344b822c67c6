//! Operations on the filesystem tree: bottom-up aggregation, incremental
//! insertion of scanned children, flattening for display and baseline
//! comparison.

use vstd::prelude::*;
use crate::fs_node::{FsNode, NodeView, node_view, forest_view, lemma_children_view, is_subtree};
use vstd::hash_map::StringHashMap;
use crate::db_node::DbNode;
use crate::paths::{path_starts_with, same_path, is_same_path, starts_with_path, path_key, canonical_path};

verus! {

/// What a child contributes to its parent's file count.
pub open spec fn file_contrib(c: NodeView) -> int {
    if c.is_dir {
        c.file_count as int
    } else {
        1
    }
}

/// What a child contributes to its parent's folder count.
pub open spec fn folder_contrib(c: NodeView) -> int {
    if c.is_dir {
        1 + c.folder_count
    } else {
        0
    }
}

/// Sum of the `size` fields of a sequence of nodes.
pub open spec fn sum_sizes(s: Seq<NodeView>) -> int
    decreases s.len(),
{
    if s.len() == 0 {
        0
    } else {
        sum_sizes(s.drop_last()) + s.last().size
    }
}

/// Sum of the file contributions of a sequence of nodes.
pub open spec fn sum_files(s: Seq<NodeView>) -> int
    decreases s.len(),
{
    if s.len() == 0 {
        0
    } else {
        sum_files(s.drop_last()) + file_contrib(s.last())
    }
}

/// Sum of the folder contributions of a sequence of nodes.
pub open spec fn sum_folders(s: Seq<NodeView>) -> int
    decreases s.len(),
{
    if s.len() == 0 {
        0
    } else {
        sum_folders(s.drop_last()) + folder_contrib(s.last())
    }
}

/// The children of a directory after their own recalculation.
pub open spec fn recalc_children(n: NodeView) -> Seq<NodeView>
    decreases n, 0nat,
{
    Seq::new(
        n.children.len(),
        |i: int|
            if 0 <= i < n.children.len() {
                recalc(n.children[i])
            } else {
                arbitrary()
            },
    )
}

/// A node after bottom-up recalculation: files are left alone; every
/// directory gets the sums over its (recalculated) children.
pub open spec fn recalc(n: NodeView) -> NodeView
    decreases n, 1nat,
{
    if !n.is_dir {
        n
    } else {
        let kids = recalc_children(n);
        NodeView {
            size: sum_sizes(kids) as u64,
            file_count: sum_files(kids) as u64,
            folder_count: sum_folders(kids) as u64,
            children: kids,
            ..n
        }
    }
}

/// Bottom-up recalculation of `n` stays within `u64` at every directory.
pub open spec fn recalc_fits(n: NodeView) -> bool
    decreases n,
{
    n.is_dir ==> {
        &&& forall|i: int| #![trigger n.children[i]] 0 <= i < n.children.len() ==> recalc_fits(n.children[i])
        &&& sum_sizes(recalc_children(n)) <= u64::MAX
        &&& sum_files(recalc_children(n)) <= u64::MAX
        &&& sum_folders(recalc_children(n)) <= u64::MAX
    }
}

/// Every prefix sum lies between zero and the whole sum.
pub proof fn lemma_sums_prefix_bounded(s: Seq<NodeView>, k: int)
    requires
        0 <= k <= s.len(),
    ensures
        0 <= sum_sizes(s.take(k)) <= sum_sizes(s),
        0 <= sum_files(s.take(k)) <= sum_files(s),
        0 <= sum_folders(s.take(k)) <= sum_folders(s),
    decreases s.len(),
{
    if s.len() == 0 {
        assert(s.take(k) =~= s);
    } else if k == s.len() {
        assert(s.take(k) =~= s);
        lemma_sums_prefix_bounded(s.drop_last(), k - 1);
        assert(s.drop_last().take(k - 1) =~= s.drop_last());
    } else {
        lemma_sums_prefix_bounded(s.drop_last(), k);
        assert(s.drop_last().take(k) =~= s.take(k));
    }
}

/// Recalculating an already recalculated tree changes nothing.
pub proof fn lemma_recalc_idempotent(n: NodeView)
    ensures
        recalc(recalc(n)) == recalc(n),
    decreases n,
{
    if n.is_dir {
        let kids = recalc_children(n);
        let m = recalc(n);
        assert(m.children == kids);
        assert(m.is_dir);
        assert forall|i: int| 0 <= i < kids.len() implies #[trigger] recalc_children(m)[i] == kids[i] by {
            assert(decreases_to!(n => n.children));
            assert(decreases_to!(n.children => n.children[i]));
            lemma_recalc_idempotent(n.children[i]);
            assert(kids[i] == recalc(n.children[i]));
            assert(recalc_children(m)[i] == recalc(m.children[i]));
        }
        assert(recalc_children(m) =~= kids);
    }
}

/// After recalculation every directory's size, file count and folder count
/// are the sums over its children.
pub proof fn lemma_recalc_sums(n: NodeView)
    requires
        recalc_fits(n),
        n.is_dir,
    ensures
        recalc(n).size == sum_sizes(recalc(n).children),
        recalc(n).file_count == sum_files(recalc(n).children),
        recalc(n).folder_count == sum_folders(recalc(n).children),
{
    lemma_sums_prefix_bounded(recalc_children(n), 0);
}

/// Every directory reached through directories from `n` holds the sums
/// over its children: size, files below it and folders below it.
pub open spec fn sums_hold(n: NodeView) -> bool
    decreases n,
{
    n.is_dir ==> {
        &&& n.size == sum_sizes(n.children)
        &&& n.file_count == sum_files(n.children)
        &&& n.folder_count == sum_folders(n.children)
        &&& forall|i: int| #![trigger n.children[i]] 0 <= i < n.children.len() ==> sums_hold(n.children[i])
    }
}

/// `b` is `a` with at most the sizes and counts of directories changed:
/// files are equal, and a directory keeps its name, path, previous size,
/// modification time and number of children, each child again so.
pub open spec fn same_but_sums(a: NodeView, b: NodeView) -> bool
    decreases a,
{
    if !a.is_dir {
        b == a
    } else {
        &&& b.is_dir
        &&& b.name == a.name
        &&& b.path == a.path
        &&& b.prev_size == a.prev_size
        &&& b.modified == a.modified
        &&& b.children.len() == a.children.len()
        &&& forall|i: int| #![trigger a.children[i]] 0 <= i < a.children.len()
            ==> same_but_sums(a.children[i], b.children[i])
    }
}

/// Bottom-up recalculation, at every depth: the tree keeps its shape and
/// everything but the sizes and counts of directories, and every directory
/// reached through directories gets the sums over its children.
pub proof fn lemma_recalc_every_depth(n: NodeView)
    requires
        recalc_fits(n),
    ensures
        sums_hold(recalc(n)),
        same_but_sums(n, recalc(n)),
    decreases n,
{
    if n.is_dir {
        lemma_recalc_sums(n);
        let m = recalc(n);
        assert forall|i: int| 0 <= i < m.children.len() implies #[trigger] sums_hold(m.children[i])
            && same_but_sums(n.children[i], m.children[i]) by {
            assert(decreases_to!(n => n.children));
            assert(decreases_to!(n.children => n.children[i]));
            assert(recalc_fits(n.children[i]));
            lemma_recalc_every_depth(n.children[i]);
            assert(m.children[i] == recalc(n.children[i]));
        }
        assert forall|i: int| #![trigger n.children[i]] 0 <= i < n.children.len()
            implies same_but_sums(n.children[i], m.children[i]) by {
            assert(sums_hold(m.children[i]));
        }
        assert(m.is_dir);
        assert(m.size == sum_sizes(m.children));
        assert(forall|i: int| #![trigger m.children[i]] 0 <= i < m.children.len() ==> sums_hold(m.children[i]));
        assert(sums_hold(m));
    }
}

/// Recalculates `size`, `file_count` and `folder_count` bottom-up: every
/// directory gets the sum of its children's sizes, the files below it and
/// the folders below it. Files are left unchanged.
pub fn recalculate_sizes(node: &mut FsNode)
    requires
        recalc_fits(old(node)@),
    ensures
        final(node)@ == recalc(old(node)@),
    decreases *old(node),
{
    if !node.is_dir {
        return;
    }
    let n = node.children.len();
    let ghost old_kids = node.children@;
    assert forall|j: int| 0 <= j < n implies recalc_fits(#[trigger] old_kids[j]@) by {
        assert(old(node)@.children[j] == old_kids[j]@);
        assert(recalc_fits(old(node)@.children[j]));
    }
    for i in 0..n
        invariant
            n == old_kids.len(),
            old_kids == old(node).children@,
            node.children@.len() == n,
            node.name == old(node).name,
            node.path == old(node).path,
            node.size == old(node).size,
            node.prev_size == old(node).prev_size,
            node.file_count == old(node).file_count,
            node.folder_count == old(node).folder_count,
            node.modified == old(node).modified,
            node.is_dir == old(node).is_dir,
            forall|j: int| 0 <= j < n ==> recalc_fits(#[trigger] old_kids[j]@),
            forall|j: int| 0 <= j < i ==> #[trigger] node.children@[j]@ == recalc(old_kids[j]@),
            forall|j: int| i <= j < n ==> #[trigger] node.children@[j] == old_kids[j],
    {
        proof {
            assert(decreases_to!(*old(node) => old(node).children));
            assert(decreases_to!(old(node).children => old(node).children@));
            assert(decreases_to!(old(node).children@ => old(node).children@[i as int]));
        }
        recalculate_sizes(&mut node.children[i]);
    }
    let ghost kids = recalc_children(old(node)@);
    assert forall|j: int| 0 <= j < n implies #[trigger] node@.children[j] == kids[j] by {
        assert(node@.children[j] == node_view(node.children@[j]));
        assert(node.children@[j]@ == recalc(old_kids[j]@));
        assert(old(node)@.children[j] == old_kids[j]@);
        assert(kids[j] == recalc(old(node)@.children[j]));
    }
    assert(node@.children =~= kids);
    let mut size: u64 = 0;
    let mut files: u64 = 0;
    let mut folders: u64 = 0;
    for i in 0..n
        invariant
            n == kids.len(),
            node@.children == kids,
            node.children@.len() == n,
            sum_sizes(kids) <= u64::MAX,
            sum_files(kids) <= u64::MAX,
            sum_folders(kids) <= u64::MAX,
            size == sum_sizes(kids.take(i as int)),
            files == sum_files(kids.take(i as int)),
            folders == sum_folders(kids.take(i as int)),
    {
        proof {
            assert(kids.take(i + 1).drop_last() =~= kids.take(i as int));
            lemma_sums_prefix_bounded(kids, i + 1);
            assert(node@.children[i as int] == node_view(node.children@[i as int]));
        }
        let c = &node.children[i];
        size = size + c.size;
        if c.is_dir {
            files = files + c.file_count;
            folders = folders + 1 + c.folder_count;
        } else {
            files = files + 1;
        }
    }
    assert(kids.take(n as int) =~= kids);
    node.size = size;
    node.file_count = files;
    node.folder_count = folders;
    assert(node@.children =~= kids);
}


/// The size, file count and folder count that bottom-up recalculation
/// gives `n`, or `None` when a sum on the way does not fit in `u64`.
pub fn recalc_totals(n: &FsNode) -> (t: Option<(u64, u64, u64)>)
    ensures
        t is Some <==> recalc_fits(n@),
        t matches Some(v) ==> v.0 == recalc(n@).size && v.1 == recalc(n@).file_count && v.2 == recalc(
            n@,
        ).folder_count,
    decreases n,
{
    if !n.is_dir {
        return Some((n.size, n.file_count, n.folder_count));
    }
    let len = n.children.len();
    let ghost kids = recalc_children(n@);
    proof {
        lemma_children_view(*n);
    }
    let mut size: u64 = 0;
    let mut files: u64 = 0;
    let mut folders: u64 = 0;
    for i in 0..len
        invariant
            len == n.children@.len(),
            n.is_dir,
            n@.children == forest_view(n.children@),
            kids == recalc_children(n@),
            kids.len() == len,
            forall|j: int| 0 <= j < i ==> recalc_fits(#[trigger] n@.children[j]),
            size == sum_sizes(kids.take(i as int)),
            files == sum_files(kids.take(i as int)),
            folders == sum_folders(kids.take(i as int)),
    {
        proof {
            assert(decreases_to!(*n => n.children));
            assert(decreases_to!(n.children => n.children@));
            assert(decreases_to!(n.children@ => n.children@[i as int]));
            assert(kids.take(i + 1).drop_last() =~= kids.take(i as int));
            assert(kids.take(i + 1).last() == kids[i as int]);
            lemma_sums_prefix_bounded(kids, i + 1);
        }
        let c = &n.children[i];
        assert(n@.children[i as int] == c@);
        assert(kids[i as int] == recalc(c@));
        let r = recalc_totals(c);
        match r {
            None => {
                return None;
            },
            Some((cs, cf, cd)) => {
                let fc: u64 = if c.is_dir {
                    cf
                } else {
                    1
                };
                let dc: u64 = if c.is_dir {
                    match cd.checked_add(1) {
                        Some(v) => v,
                        None => {
                            assert(sum_folders(kids.take(i + 1)) > u64::MAX);
                            return None;
                        },
                    }
                } else {
                    0
                };
                match size.checked_add(cs) {
                    Some(v) => size = v,
                    None => {
                        return None;
                    },
                }
                match files.checked_add(fc) {
                    Some(v) => files = v,
                    None => {
                        return None;
                    },
                }
                match folders.checked_add(dc) {
                    Some(v) => folders = v,
                    None => {
                        return None;
                    },
                }
            },
        }
    }
    assert(kids.take(len as int) =~= kids);
    Some((size, files, folders))
}

/// A child through which the node at `target` is searched: a directory
/// whose path is a component prefix of `target`.
pub open spec fn leads_to(c: NodeView, target: Seq<char>) -> bool {
    c.is_dir && path_starts_with(target, c.path)
}

/// Index of the first child that [`leads_to`] `target`, or -1.
pub open spec fn first_lead(s: Seq<NodeView>, target: Seq<char>) -> int
    decreases s.len(),
{
    if s.len() == 0 {
        -1
    } else if leads_to(s[0], target) {
        0
    } else {
        let r = first_lead(s.drop_first(), target);
        if r < 0 {
            -1
        } else {
            r + 1
        }
    }
}

/// The tree after replacing the children of the node at `target`, and
/// whether that node was found. The search descends only into the first
/// child that leads to `target`.
pub open spec fn inserted(n: NodeView, target: Seq<char>, kids: Seq<NodeView>) -> (NodeView, bool)
    decreases n,
{
    if same_path(n.path, target) {
        (NodeView { children: kids, ..n }, true)
    } else {
        let i = first_lead(n.children, target);
        if 0 <= i < n.children.len() {
            let (c, found) = inserted(n.children[i], target, kids);
            (NodeView { children: n.children.update(i, c), ..n }, found)
        } else {
            (n, false)
        }
    }
}

proof fn lemma_first_lead(s: Seq<NodeView>, target: Seq<char>, i: int)
    requires
        0 <= i <= s.len(),
        forall|j: int| 0 <= j < i ==> !leads_to(#[trigger] s[j], target),
    ensures
        i < s.len() && leads_to(s[i], target) ==> first_lead(s, target) == i,
        i == s.len() ==> first_lead(s, target) == -1,
    decreases s.len(),
{
    if s.len() > 0 && i > 0 {
        assert forall|j: int| 0 <= j < i - 1 implies !leads_to(#[trigger] s.drop_first()[j], target) by {
            assert(s.drop_first()[j] == s[j + 1]);
        }
        lemma_first_lead(s.drop_first(), target, i - 1);
    }
}

/// The same node but for its children.
pub open spec fn same_but_children(a: NodeView, b: NodeView) -> bool {
    &&& a.name == b.name && a.path == b.path && a.size == b.size && a.is_dir == b.is_dir
    &&& a.file_count == b.file_count && a.folder_count == b.folder_count
    &&& a.prev_size == b.prev_size && a.modified == b.modified
}

/// Inserting children replaces, rather than extends, the children of the
/// node found: when the node at `target` is found, the tree holds, in
/// place of a node of the old tree at that path, the same node with
/// exactly `kids` as children, whatever it had before; the root keeps its
/// own fields; when nothing is found the tree is unchanged.
pub proof fn lemma_insert_replaces_children(n: NodeView, target: Seq<char>, kids: Seq<NodeView>)
    ensures
        ({
            let (t, found) = inserted(n, target, kids);
            &&& same_but_children(t, n)
            &&& same_path(n.path, target) ==> found && t.children == kids
            &&& found ==> exists|o: NodeView, m: NodeView|
                #![trigger is_subtree(o, n), is_subtree(m, t)]
                is_subtree(o, n) && is_subtree(m, t) && same_path(o.path, target) && same_but_children(m, o)
                    && m.children == kids
            &&& !found ==> t == n
        }),
    decreases n,
{
    if !same_path(n.path, target) {
        let i = first_lead(n.children, target);
        if 0 <= i < n.children.len() {
            assert(decreases_to!(n => n.children));
            assert(decreases_to!(n.children => n.children[i]));
            lemma_insert_replaces_children(n.children[i], target, kids);
            if !inserted(n, target, kids).1 {
                assert(n.children.update(i, n.children[i]) =~= n.children);
            }
        }
    }
    if inserted(n, target, kids).1 {
        let (o, m) = lemma_found_node(n, target, kids);
        assert(is_subtree(o, n) && is_subtree(m, inserted(n, target, kids).0));
    }
}

proof fn lemma_found_node(n: NodeView, target: Seq<char>, kids: Seq<NodeView>) -> (r: (NodeView, NodeView))
    requires
        inserted(n, target, kids).1,
    ensures
        is_subtree(r.0, n),
        is_subtree(r.1, inserted(n, target, kids).0),
        same_path(r.0.path, target),
        same_but_children(r.1, r.0),
        r.1.children == kids,
    decreases n,
{
    let t = inserted(n, target, kids).0;
    if same_path(n.path, target) {
        (n, t)
    } else {
        let i = first_lead(n.children, target);
        assert(0 <= i < n.children.len());
        assert(decreases_to!(n => n.children));
        assert(decreases_to!(n.children => n.children[i]));
        let (o, m) = lemma_found_node(n.children[i], target, kids);
        assert(t.children[i] == inserted(n.children[i], target, kids).0);
        assert(is_subtree(m, t.children[i]));
        assert(is_subtree(o, n.children[i]));
        (o, m)
    }
}

/// Replaces the children of the node whose path is `parent_path` (compared
/// as paths) by `children`. The search descends from `root` into the first
/// directory child that `parent_path` lies at or below. Returns `true`
/// when the node was found and its children were replaced.
pub fn insert_children(root: &mut FsNode, parent_path: &str, children: Vec<FsNode>) -> (found: bool)
    ensures
        (final(root)@, found) == inserted(old(root)@, parent_path@, forest_view(children@)),
    decreases *old(root),
{
    if is_same_path(root.path.as_str(), parent_path) {
        let ghost kv = forest_view(children@);
        root.children = children;
        assert forall|j: int| 0 <= j < kv.len() implies #[trigger] root@.children[j] == kv[j] by {
            assert(root@.children[j] == node_view(root.children@[j]));
        }
        assert(root@.children =~= kv);
        return true;
    }
    let n = root.children.len();
    let mut i: usize = 0;
    while i < n
        invariant
            i <= n,
            n == root.children@.len(),
            *root == *old(root),
            !same_path(root@.path, parent_path@),
            forall|j: int| 0 <= j < i ==> !leads_to(#[trigger] root@.children[j], parent_path@),
        decreases n - i,
    {
        let c = &root.children[i];
        assert(root@.children[i as int] == node_view(root.children@[i as int]));
        if c.is_dir && starts_with_path(parent_path, c.path.as_str()) {
            proof {
                lemma_first_lead(root@.children, parent_path@, i as int);
                assert(decreases_to!(*old(root) => old(root).children));
                assert(decreases_to!(old(root).children => old(root).children@));
                assert(decreases_to!(old(root).children@ => old(root).children@[i as int]));
            }
            let ghost kv = forest_view(children@);
            let ghost before = root@;
            let found = insert_children(&mut root.children[i], parent_path, children);
            proof {
                let (c2, f2) = inserted(before.children[i as int], parent_path@, kv);
                assert(found == f2);
                assert forall|j: int| 0 <= j < n implies #[trigger] root@.children[j] == before.children.update(i as int, c2)[j] by {
                    assert(root@.children[j] == node_view(root.children@[j]));
                    assert(before.children[j] == node_view(old(root).children@[j]));
                }
                assert(root@.children =~= before.children.update(i as int, c2));
            }
            return found;
        }
        i = i + 1;
    }
    proof {
        lemma_first_lead(root@.children, parent_path@, n as int);
    }
    false
}


/// A path → size lookup built from the nodes of an earlier scan.
pub type BaselineMap = StringHashMap<u64>;

/// The lookup that [`build_baseline_map`] builds: each node's path (by its
/// canonical text, so that texts naming the same path share one entry)
/// maps to its size, a later node overriding an earlier one with the same
/// path.
pub open spec fn baseline_of(nodes: Seq<DbNode>) -> Map<Seq<char>, u64>
    decreases nodes.len(),
{
    if nodes.len() == 0 {
        Map::empty()
    } else {
        baseline_of(nodes.drop_last()).insert(path_key(nodes.last().path@), nodes.last().size)
    }
}

/// Builds a path → size lookup from a flat slice of nodes.
pub fn build_baseline_map(nodes: &[DbNode]) -> (map: BaselineMap)
    ensures
        map@ == baseline_of(nodes@),
{
    let mut map = BaselineMap::new();
    let n = nodes.len();
    for i in 0..n
        invariant
            n == nodes@.len(),
            map@ == baseline_of(nodes@.take(i as int)),
    {
        assert(nodes@.take(i + 1).drop_last() =~= nodes@.take(i as int));
        map.insert(canonical_path(nodes[i].path.as_str()), nodes[i].size);
    }
    assert(nodes@.take(n as int) =~= nodes@);
    map
}

/// A node whose `prev_size` (and those of all its descendants) is taken
/// from `baseline`: the size recorded for its path (looked up by its
/// canonical text), or `None`.
pub open spec fn merged(n: NodeView, baseline: Map<Seq<char>, u64>) -> NodeView
    decreases n,
{
    NodeView {
        prev_size: if baseline.contains_key(path_key(n.path)) {
            Some(baseline[path_key(n.path)])
        } else {
            None
        },
        children: Seq::new(
            n.children.len(),
            |i: int|
                if 0 <= i < n.children.len() {
                    merged(n.children[i], baseline)
                } else {
                    arbitrary()
                },
        ),
        ..n
    }
}

/// Walks `nodes` recursively, setting every `prev_size` from `baseline`:
/// the size recorded for the node's path, or `None` when it has none.
pub fn merge_baseline(nodes: &mut Vec<FsNode>, baseline: &BaselineMap)
    ensures
        final(nodes)@.len() == old(nodes)@.len(),
        forall|i: int|
            0 <= i < old(nodes)@.len() ==> #[trigger] final(nodes)@[i]@ == merged(
                old(nodes)@[i]@,
                baseline@,
            ),
    decreases *old(nodes),
{
    let n = nodes.len();
    for i in 0..n
        invariant
            n == nodes@.len(),
            n == old(nodes)@.len(),
            forall|j: int| 0 <= j < i ==> #[trigger] nodes@[j]@ == merged(old(nodes)@[j]@, baseline@),
            forall|j: int| i <= j < n ==> #[trigger] nodes@[j] == old(nodes)@[j],
    {
        let ghost before = nodes@[i as int];
        let key = canonical_path(nodes[i].path.as_str());
        let prev = match baseline.get(key.as_str()) {
            Some(v) => Some(*v),
            None => None,
        };
        let node = &mut nodes[i];
        node.prev_size = prev;
        proof {
            assert(decreases_to!(*old(nodes) => old(nodes)@));
            assert(decreases_to!(old(nodes)@ => old(nodes)@[i as int]));
            assert(decreases_to!(old(nodes)@[i as int] => old(nodes)@[i as int].children));
        }
        let ghost pre = node.children@;
        assert(pre == before.children@);
        merge_baseline(&mut node.children, baseline);
        proof {
            let m = merged(before@, baseline@);
            assert forall|j: int| 0 <= j < node.children@.len() implies #[trigger] node@.children[j] == m.children[j] by {
                assert(node@.children[j] == node_view(node.children@[j]));
                assert(before@.children[j] == node_view(before.children@[j]));
                assert(node.children@[j]@ == merged(pre[j]@, baseline@));
            }
            assert(node@.children =~= m.children);
        }
    }
}

} // verus!
