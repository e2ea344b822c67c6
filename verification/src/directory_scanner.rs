//! The state of an incremental scan as results arrive: the children found
//! for each scanned directory, progress, cancellation, and the finished
//! tree assembled from the collected children.
//!
//! The scan itself and the timer run outside; each batch of messages they
//! produce is handed in, and the events to emit are handed back.

use vstd::prelude::*;
use vstd::hash_map::StringHashMap;
use crate::flatten::{ExpandedPaths, UiNode, UiView, rows_view};
use crate::fs_node::{FsNode, NodeView, forest_view, node_view, lemma_children_view};
use crate::tree::{recalc, recalc_fits, recalc_totals, recalculate_sizes};
use crate::paths::{canonical_path, path_key};

verus! {

/// The children collected per directory, as views, each directory held by
/// the canonical text of its path (see [`path_key`]).
pub open spec fn kids_map(m: Map<Seq<char>, Vec<FsNode>>) -> Map<Seq<char>, Seq<NodeView>> {
    Map::new(|k: Seq<char>| m.dom().contains(k), |k: Seq<char>| forest_view(m[k]@))
}

/// A node assembled from the collected children: a directory whose path
/// has collected children takes them (the entry is used up), each of them
/// assembled in turn, while `fuel` lasts.
pub open spec fn assembled(
    n: NodeView,
    m: Map<Seq<char>, Seq<NodeView>>,
    fuel: nat,
) -> (NodeView, Map<Seq<char>, Seq<NodeView>>)
    decreases fuel, 0nat, 0nat,
{
    if fuel == 0 || !n.is_dir || !m.contains_key(path_key(n.path)) {
        (n, m)
    } else {
        let r = assembled_kids(m[path_key(n.path)], m.remove(path_key(n.path)), (fuel - 1) as nat);
        (NodeView { children: r.0, ..n }, r.1)
    }
}

/// A sequence of nodes assembled in order, each using the entries that
/// the ones before it left.
pub open spec fn assembled_kids(
    kids: Seq<NodeView>,
    m: Map<Seq<char>, Seq<NodeView>>,
    fuel: nat,
) -> (Seq<NodeView>, Map<Seq<char>, Seq<NodeView>>)
    decreases fuel, 1nat, kids.len(),
{
    if kids.len() == 0 {
        (seq![], m)
    } else {
        let a = assembled_kids(kids.drop_last(), m, fuel);
        let b = assembled(kids.last(), a.1, fuel);
        (a.0.push(b.0), b.1)
    }
}

proof fn lemma_kids_map_remove(m: Map<Seq<char>, Vec<FsNode>>, k: Seq<char>)
    ensures
        kids_map(m.remove(k)) == kids_map(m).remove(k),
{
    assert(kids_map(m.remove(k)) =~= kids_map(m).remove(k));
}

proof fn lemma_kids_map_insert(m: Map<Seq<char>, Vec<FsNode>>, k: Seq<char>, v: Vec<FsNode>)
    ensures
        kids_map(m.insert(k, v)) == kids_map(m).insert(k, forest_view(v@)),
{
    assert(kids_map(m.insert(k, v)) =~= kids_map(m).insert(k, forest_view(v@)));
}

/// Copies a list of nodes.
fn copy_nodes(v: &Vec<FsNode>) -> (r: Vec<FsNode>)
    ensures
        forest_view(r@) == forest_view(v@),
{
    let mut r: Vec<FsNode> = Vec::new();
    let n = v.len();
    for i in 0..n
        invariant
            n == v@.len(),
            r@.len() == i,
            forall|j: int| 0 <= j < i ==> #[trigger] r@[j]@ == v@[j]@,
    {
        r.push(v[i].duplicate());
    }
    assert forall|j: int| 0 <= j < n implies #[trigger] forest_view(r@)[j] == forest_view(v@)[j] by {
        assert(r@[j]@ == v@[j]@);
    }
    assert(forest_view(r@) =~= forest_view(v@));
    r
}

/// Attaches to `node` (recursively) the children collected for it, using
/// up the entries taken.
fn assemble(node: &mut FsNode, map: &mut StringHashMap<Vec<FsNode>>, fuel: usize)
    ensures
        (final(node)@, kids_map(final(map)@)) == assembled(old(node)@, kids_map(old(map)@), fuel as nat),
    decreases fuel, 0nat,
{
    if fuel == 0 || !node.is_dir {
        return;
    }
    let key = canonical_path(node.path.as_str());
    let found = match map.get(key.as_str()) {
        Some(v) => Some(copy_nodes(v)),
        None => None,
    };
    let mut kids = match found {
        Some(k) => k,
        None => {
            return;
        },
    };
    let ghost m0 = kids_map(map@);
    assert(m0[key@] == forest_view(kids@));
    map.remove(key.as_str());
    proof {
        lemma_kids_map_remove(old(map)@, key@);
    }
    let ghost orig = forest_view(kids@);
    let ghost m1 = kids_map(map@);
    assert(assembled_kids(orig.take(0), m1, (fuel - 1) as nat).0 =~= Seq::<NodeView>::empty());
    let n = kids.len();
    for i in 0..n
        invariant
            n == kids@.len(),
            orig.len() == n,
            fuel > 0,
            ({
                let a = assembled_kids(orig.take(i as int), m1, (fuel - 1) as nat);
                &&& kids_map(map@) == a.1
                &&& forall|j: int| 0 <= j < i ==> #[trigger] kids@[j]@ == a.0[j]
                &&& a.0.len() == i
            }),
            forall|j: int| i <= j < n ==> #[trigger] kids@[j]@ == orig[j],
    {
        let ghost before = kids@;
        let ghost a = assembled_kids(orig.take(i as int), m1, (fuel - 1) as nat);
        proof {
            assert(orig.take(i + 1).drop_last() =~= orig.take(i as int));
            assert(orig.take(i + 1).last() == orig[i as int]);
        }
        assemble(&mut kids[i], map, fuel - 1);
        proof {
            let a2 = assembled_kids(orig.take(i + 1), m1, (fuel - 1) as nat);
            assert(a2.0 == a.0.push(kids@[i as int]@));
            assert forall|j: int| 0 <= j < i + 1 implies #[trigger] kids@[j]@ == a2.0[j] by {
                if j < i {
                    assert(kids@[j] == before[j]);
                }
            }
            assert forall|j: int| i + 1 <= j < n implies #[trigger] kids@[j]@ == orig[j] by {
                assert(kids@[j] == before[j]);
            }
        }
    }
    assert(orig.take(n as int) =~= orig);
    let ghost done = assembled_kids(orig, m1, (fuel - 1) as nat);
    assert(done.0.len() == n);
    assert forall|j: int| 0 <= j < n implies #[trigger] forest_view(kids@)[j] == done.0[j] by {
        assert(kids@[j]@ == done.0[j]);
    }
    assert(forest_view(kids@) =~= done.0);
    node.children = kids;
    proof {
        lemma_children_view(*node);
    }
    assert(node@.children == done.0);
    assert(node@ == (NodeView { children: done.0, ..old(node)@ }));
}

/// Events emitted by the scanner.
#[derive(Debug, Clone, Copy, PartialEq, Eq, Structural)]
pub enum ScannerEvent {
    /// Emitted at most every [`PROGRESS_INTERVAL_MS`] during a scan.
    Progress,
    /// Emitted once when the scan finishes.
    Complete { was_cancelled: bool },
}

/// Messages produced by the incremental scan.
#[derive(Debug)]
pub enum ScanMessage {
    /// A directory was read; these are its immediate children.
    DirScanned { parent_path: String, children: Vec<FsNode> },
    /// A directory could not be read.
    ScanError { path: String, error: String },
    /// Every worker has finished.
    Complete,
}

/// Minimum time between two progress events, in milliseconds.
pub const PROGRESS_INTERVAL_MS: u64 = 200;

/// Owns the state of one scan: the children collected per directory while
/// the scan runs, and the assembled tree once it has finished.
pub struct DirectoryScanner {
    children_map: StringHashMap<Vec<FsNode>>,
    root_path: Option<String>,
    root_display_name: Option<String>,
    /// Number of directories scanned so far.
    pub dirs_scanned: usize,
    /// Whether a scan is running.
    pub is_scanning: bool,
    cancelled: bool,
    finished_tree: Option<FsNode>,
}

/// The mathematical value of the scanner's private state.
pub struct ScannerView {
    pub children: Map<Seq<char>, Seq<NodeView>>,
    pub root_path: Option<Seq<char>>,
    pub root_name: Option<Seq<char>>,
    pub dirs_scanned: nat,
    pub is_scanning: bool,
    pub cancelled: bool,
    pub finished: Option<NodeView>,
}

/// The view of an optional string.
pub open spec fn opt_view(s: Option<String>) -> Option<Seq<char>> {
    match s {
        Some(t) => Some(t@),
        None => None,
    }
}

/// The view of an optional node.
pub open spec fn opt_node_view(n: Option<FsNode>) -> Option<NodeView> {
    match n {
        Some(t) => Some(t@),
        None => None,
    }
}

impl View for DirectoryScanner {
    type V = ScannerView;

    closed spec fn view(&self) -> ScannerView {
        ScannerView {
            children: kids_map(self.children_map@),
            root_path: opt_view(self.root_path),
            root_name: opt_view(self.root_display_name),
            dirs_scanned: self.dirs_scanned as nat,
            is_scanning: self.is_scanning,
            cancelled: self.cancelled,
            finished: opt_node_view(self.finished_tree),
        }
    }
}

/// The collected children after the messages `msgs`: each scanned
/// directory's children replace any collected before for the same path
/// (compared as paths).
pub open spec fn collected(m: Map<Seq<char>, Seq<NodeView>>, msgs: Seq<ScanMessage>) -> Map<Seq<char>, Seq<NodeView>>
    decreases msgs.len(),
{
    if msgs.len() == 0 {
        m
    } else {
        let c = collected(m, msgs.drop_last());
        match msgs.last() {
            ScanMessage::DirScanned { parent_path, children } => c.insert(path_key(parent_path@), forest_view(children@)),
            _ => c,
        }
    }
}

/// Number of scanned-directory messages in `msgs`.
pub open spec fn scanned_count(msgs: Seq<ScanMessage>) -> nat
    decreases msgs.len(),
{
    if msgs.len() == 0 {
        0
    } else {
        scanned_count(msgs.drop_last()) + if msgs.last() is DirScanned {
            1nat
        } else {
            0nat
        }
    }
}

/// Whether `msgs` contains the message that the scan is complete.
pub open spec fn has_complete(msgs: Seq<ScanMessage>) -> bool {
    exists|i: int| 0 <= i < msgs.len() && #[trigger] msgs[i] is Complete
}

/// A directory node with the given name and path and nothing else.
pub open spec fn bare_node(name: Seq<char>, path: Seq<char>, is_dir: bool) -> NodeView {
    NodeView {
        name,
        path,
        size: 0,
        prev_size: None,
        file_count: 0,
        folder_count: 0,
        modified: None,
        is_dir,
        children: seq![],
    }
}

/// The state once the scan has finished: no longer running and, when a
/// root was set, the tree assembled from the collected children (using them
/// up), with its sizes aggregated bottom-up when they fit in `u64`.
pub open spec fn finished_state(v: ScannerView) -> ScannerView {
    match (v.root_name, v.root_path) {
        (Some(name), Some(path)) => {
            let a = assembled(bare_node(name, path, true), v.children, v.children.len());
            ScannerView {
                children: a.1,
                finished: Some(if recalc_fits(a.0) { recalc(a.0) } else { a.0 }),
                is_scanning: false,
                ..v
            }
        },
        _ => ScannerView { is_scanning: false, ..v },
    }
}

/// The events emitted for a batch: progress when the interval has passed,
/// then completion (with whether the scan was cancelled) when the batch
/// holds the final message.
pub open spec fn batch_events(ms_since_progress: u64, done: bool, cancelled: bool) -> Seq<ScannerEvent> {
    (if ms_since_progress >= PROGRESS_INTERVAL_MS {
        seq![ScannerEvent::Progress]
    } else {
        Seq::empty()
    }) + (if done {
        seq![ScannerEvent::Complete { was_cancelled: cancelled }]
    } else {
        Seq::empty()
    })
}

/// A display row collected during a scan: no sibling total.
pub open spec fn scan_row(node: NodeView, depth: int, expanded: bool) -> UiView {
    UiView { node, depth, expanded, parent_total: 0 }
}

/// The rows shown during a scan for the node at `path`: a directory (it
/// has collected children, or it is the root) is expanded when its path
/// is; an expanded directory shows its collected children below it, while
/// `fuel` lasts.
pub open spec fn visible_node(
    m: Map<Seq<char>, Seq<NodeView>>,
    path: Seq<char>,
    name: Seq<char>,
    depth: int,
    expanded: Set<Seq<char>>,
    fuel: nat,
) -> Seq<UiView>
    decreases fuel, 0nat, 0nat,
{
    let key = path_key(path);
    let is_dir = m.contains_key(key) || depth == 0;
    let e = is_dir && expanded.contains(key);
    let row = scan_row(bare_node(name, path, is_dir), depth, e);
    if e && m.contains_key(key) && fuel > 0 {
        seq![row] + visible_kids(m, m[key], depth + 1, expanded, (fuel - 1) as nat)
    } else {
        seq![row]
    }
}

/// The rows shown for collected children, in order: directories as in
/// [`visible_node`], files as they were collected.
pub open spec fn visible_kids(
    m: Map<Seq<char>, Seq<NodeView>>,
    kids: Seq<NodeView>,
    depth: int,
    expanded: Set<Seq<char>>,
    fuel: nat,
) -> Seq<UiView>
    decreases fuel, 1nat, kids.len(),
{
    if kids.len() == 0 {
        seq![]
    } else {
        let c = kids.last();
        visible_kids(m, kids.drop_last(), depth, expanded, fuel) + if c.is_dir {
            visible_node(m, c.path, c.name, depth, expanded, fuel)
        } else {
            seq![scan_row(c, depth, false)]
        }
    }
}

proof fn lemma_collected_step(m: Map<Seq<char>, Seq<NodeView>>, pre: Seq<ScanMessage>, msg: ScanMessage)
    ensures
        collected(m, pre.push(msg)) == collected(collected(m, pre), seq![msg]),
        scanned_count(pre.push(msg)) == scanned_count(pre) + scanned_count(seq![msg]),
        scanned_count(seq![msg]) == (if msg is DirScanned {
            1nat
        } else {
            0nat
        }),
        collected(m, seq![msg]) == (match msg {
            ScanMessage::DirScanned { parent_path, children } => m.insert(path_key(parent_path@), forest_view(children@)),
            _ => m,
        }),
{
    assert(pre.push(msg).drop_last() =~= pre);
    assert(seq![msg].drop_last() =~= Seq::<ScanMessage>::empty());
    assert(seq![msg].last() == msg);
    assert(collected(m, Seq::<ScanMessage>::empty()) == m);
    assert(collected(collected(m, pre), Seq::<ScanMessage>::empty()) == collected(m, pre));
    assert(scanned_count(Seq::<ScanMessage>::empty()) == 0);
    assert(scanned_count(seq![msg]) == scanned_count(seq![msg].drop_last()) + if seq![msg].last() is DirScanned {
        1nat
    } else {
        0nat
    });
}

proof fn lemma_kids_map_len(m: Map<Seq<char>, Vec<FsNode>>)
    ensures
        kids_map(m).len() == m.len(),
{
    assert(kids_map(m).dom() =~= m.dom());
}

impl DirectoryScanner {
    /// A scanner with no scan started.
    pub fn new() -> (s: Self)
        ensures
            s@ == (ScannerView {
                children: Map::empty(),
                root_path: None,
                root_name: None,
                dirs_scanned: 0,
                is_scanning: false,
                cancelled: false,
                finished: None,
            }),
    {
        let s = DirectoryScanner {
            children_map: StringHashMap::new(),
            root_path: None,
            root_display_name: None,
            dirs_scanned: 0,
            is_scanning: false,
            cancelled: false,
            finished_tree: None,
        };
        assert(kids_map(s.children_map@) =~= Map::<Seq<char>, Seq<NodeView>>::empty());
        s
    }

    /// Starts a new scan of `root_path`, shown as `display_name`: forgets
    /// everything collected, resets the count and the cancellation, and
    /// marks the scan as running.
    pub fn start_scan(&mut self, root_path: &str, display_name: &str)
        ensures
            final(self)@ == (ScannerView {
                children: Map::empty(),
                root_path: Some(root_path@),
                root_name: Some(display_name@),
                dirs_scanned: 0,
                is_scanning: true,
                cancelled: false,
                finished: None,
            }),
    {
        self.children_map.clear();
        self.root_path = Some(root_path.to_string());
        self.root_display_name = Some(display_name.to_string());
        self.dirs_scanned = 0;
        self.is_scanning = true;
        self.finished_tree = None;
        self.cancelled = false;
        assert(kids_map(self.children_map@) =~= Map::<Seq<char>, Seq<NodeView>>::empty());
    }

    /// Asks the running scan to stop.
    pub fn cancel(&mut self)
        ensures
            final(self)@ == (ScannerView { cancelled: true, ..old(self)@ }),
    {
        self.cancelled = true;
    }

    /// Whether the scan was asked to stop.
    pub fn is_cancelled(&self) -> (r: bool)
        ensures
            r == self@.cancelled,
    {
        self.cancelled
    }

    /// Takes the finished tree out of the scanner.
    pub fn take_tree(&mut self) -> (t: Option<FsNode>)
        ensures
            opt_node_view(t) == old(self)@.finished,
            final(self)@ == (ScannerView { finished: None, ..old(self)@ }),
    {
        let t = self.finished_tree.take();
        t
    }

    /// Records one message; returns whether it is the final one.
    fn record(&mut self, msg: &ScanMessage) -> (done: bool)
        requires
            old(self)@.dirs_scanned + 1 <= usize::MAX,
        ensures
            done == msg is Complete,
            final(self)@ == (ScannerView {
                children: collected(old(self)@.children, seq![*msg]),
                dirs_scanned: old(self)@.dirs_scanned + scanned_count(seq![*msg]),
                ..old(self)@
            }),
    {
        proof {
            lemma_collected_step(old(self)@.children, Seq::<ScanMessage>::empty(), *msg);
        }
        match msg {
            ScanMessage::DirScanned { parent_path, children } => {
                let kids = copy_nodes(children);
                let key = canonical_path(parent_path.as_str());
                let ghost kv = key@;
                self.children_map.insert(key, kids);
                proof {
                    lemma_kids_map_insert(old(self).children_map@, kv, kids);
                }
                self.dirs_scanned = self.dirs_scanned + 1;
                false
            },
            ScanMessage::ScanError { .. } => false,
            ScanMessage::Complete => true,
        }
    }

    /// Assembles the finished tree from the collected children and marks
    /// the scan as no longer running.
    fn finish(&mut self)
        ensures
            final(self)@ == finished_state(old(self)@),
    {
        match (&self.root_display_name, &self.root_path) {
            (Some(name), Some(path)) => {
                let mut root = FsNode::new(name.as_str(), path.as_str(), true);
                assert(root@.children =~= Seq::<NodeView>::empty());
                assert(root@ == bare_node(name@, path@, true));
                let fuel = self.children_map.len();
                proof {
                    lemma_kids_map_len(self.children_map@);
                }
                assemble(&mut root, &mut self.children_map, fuel);
                if recalc_totals(&root).is_some() {
                    recalculate_sizes(&mut root);
                }
                self.finished_tree = Some(root);
            },
            _ => {},
        }
        self.is_scanning = false;
    }

    /// Handles a batch of messages from the scan, received
    /// `ms_since_progress` milliseconds after the last progress event:
    /// records the children of every scanned directory, counts them, and
    /// when the batch holds the final message assembles the finished tree.
    /// Returns the events to emit (see [`batch_events`]).
    pub fn handle_batch(&mut self, batch: &Vec<ScanMessage>, ms_since_progress: u64) -> (events: Vec<
        ScannerEvent,
    >)
        requires
            old(self)@.dirs_scanned + batch@.len() <= usize::MAX,
        ensures
            events@ == batch_events(ms_since_progress, has_complete(batch@), old(self)@.cancelled),
            ({
                let after = ScannerView {
                    children: collected(old(self)@.children, batch@),
                    dirs_scanned: old(self)@.dirs_scanned + scanned_count(batch@),
                    ..old(self)@
                };
                final(self)@ == if has_complete(batch@) {
                    finished_state(after)
                } else {
                    after
                }
            }),
    {
        let ghost start = self@;
        let n = batch.len();
        let mut done = false;
        for i in 0..n
            invariant
                n == batch@.len(),
                start.dirs_scanned + n <= usize::MAX,
                scanned_count(batch@.take(i as int)) <= i,
                self@ == (ScannerView {
                    children: collected(start.children, batch@.take(i as int)),
                    dirs_scanned: start.dirs_scanned + scanned_count(batch@.take(i as int)),
                    ..start
                }),
                done == has_complete(batch@.take(i as int)),
                start == old(self)@,
        {
            let ghost pre = batch@.take(i as int);
            let ghost post = batch@.take(i + 1);
            proof {
                assert(post.drop_last() =~= pre);
                assert(post.last() == batch@[i as int]);
            }
            let ghost before = self@;
            let d = self.record(&batch[i]);
            proof {
                lemma_collected_step(start.children, pre, batch@[i as int]);
                assert(pre.push(batch@[i as int]) == post);
                if d {
                    assert(post[i as int] is Complete);
                }
                if has_complete(post) && !d {
                    let w = choose|w: int| 0 <= w < post.len() && #[trigger] post[w] is Complete;
                    assert(pre[w] is Complete);
                }
                if done {
                    let w = choose|w: int| 0 <= w < pre.len() && #[trigger] pre[w] is Complete;
                    assert(post[w] is Complete);
                }
            }
            done = done || d;
        }
        assert(batch@.take(n as int) =~= batch@);
        let mut events: Vec<ScannerEvent> = Vec::new();
        if ms_since_progress >= PROGRESS_INTERVAL_MS {
            events.push(ScannerEvent::Progress);
        }
        if done {
            let was_cancelled = self.cancelled;
            self.finish();
            events.push(ScannerEvent::Complete { was_cancelled });
        }
        assert(events@ =~= batch_events(ms_since_progress, done, old(self)@.cancelled));
        events
    }

    /// The rows to show while the scan runs: the root and, below each
    /// expanded directory, the children collected for it (see
    /// [`visible_node`]); nothing before a scan was started.
    pub fn flatten_visible(&self, expanded: &ExpandedPaths) -> (rows: Vec<UiNode>)
        ensures
            rows_view(rows@) == match (self@.root_path, self@.root_name) {
                (Some(p), Some(n)) => visible_node(self@.children, p, n, 0, expanded@, self@.children.len()),
                _ => Seq::<UiView>::empty(),
            },
    {
        let mut out: Vec<UiNode> = Vec::new();
        assert(rows_view(out@) =~= Seq::<UiView>::empty());
        match (&self.root_path, &self.root_display_name) {
            (Some(p), Some(n)) => {
                let fuel = self.children_map.len();
                proof {
                    lemma_kids_map_len(self.children_map@);
                }
                self.flatten_map_node(p.as_str(), n.as_str(), 0, expanded, &mut out, fuel);
                assert(rows_view(out@) =~= visible_node(self@.children, p@, n@, 0, expanded@, self@.children.len()));
            },
            _ => {},
        }
        out
    }

    fn flatten_map_node(
        &self,
        path: &str,
        name: &str,
        depth: usize,
        expanded: &ExpandedPaths,
        out: &mut Vec<UiNode>,
        fuel: usize,
    )
        requires
            depth + fuel <= usize::MAX,
        ensures
            rows_view(final(out)@) == rows_view(old(out)@) + visible_node(
                self@.children,
                path@,
                name@,
                depth as int,
                expanded@,
                fuel as nat,
            ),
        decreases fuel, 0nat, 0nat,
    {
        let key = canonical_path(path);
        let children = self.children_map.get(key.as_str());
        let has = children.is_some();
        let is_dir = has || depth == 0;
        let e = is_dir && expanded.contains(key.as_str());
        let node = FsNode::new(name, path, is_dir);
        assert(node@.children =~= Seq::<NodeView>::empty());
        assert(node@ == bare_node(name@, path@, is_dir));
        let ghost before = rows_view(out@);
        out.push(UiNode { fs_node: node, depth, expanded: e, parent_total: 0 });
        let ghost row = scan_row(bare_node(name@, path@, is_dir), depth as int, e);
        assert(rows_view(out@) =~= before + seq![row]);
        if e && fuel > 0 {
            match children {
                Some(kids) => {
                    assert(self@.children[path_key(path@)] == forest_view(kids@));
                    self.flatten_kids(kids, depth + 1, expanded, out, fuel - 1);
                    assert(rows_view(out@) =~= before + (seq![row] + visible_kids(
                        self@.children,
                        forest_view(kids@),
                        depth + 1,
                        expanded@,
                        (fuel - 1) as nat,
                    )));
                },
                None => {},
            }
        }
    }

    fn flatten_kids(
        &self,
        kids: &Vec<FsNode>,
        depth: usize,
        expanded: &ExpandedPaths,
        out: &mut Vec<UiNode>,
        fuel: usize,
    )
        requires
            depth + fuel <= usize::MAX,
        ensures
            rows_view(final(out)@) == rows_view(old(out)@) + visible_kids(
                self@.children,
                forest_view(kids@),
                depth as int,
                expanded@,
                fuel as nat,
            ),
        decreases fuel, 1nat, kids@.len(),
    {
        let ghost kv = forest_view(kids@);
        let ghost start = rows_view(out@);
        let n = kids.len();
        assert(kv.take(0) =~= Seq::<NodeView>::empty());
        assert(rows_view(out@) =~= start + visible_kids(self@.children, kv.take(0), depth as int, expanded@, fuel as nat));
        for i in 0..n
            invariant
                n == kids@.len(),
                kv == forest_view(kids@),
                depth + fuel <= usize::MAX,
                rows_view(out@) == start + visible_kids(
                    self@.children,
                    kv.take(i as int),
                    depth as int,
                    expanded@,
                    fuel as nat,
                ),
        {
            proof {
                assert(kv.take(i + 1).drop_last() =~= kv.take(i as int));
                assert(kv.take(i + 1).last() == kv[i as int]);
            }
            let ghost mid = rows_view(out@);
            let c = &kids[i];
            assert(kv[i as int] == c@);
            if c.is_dir {
                self.flatten_map_node(c.path.as_str(), c.name.as_str(), depth, expanded, out, fuel);
            } else {
                out.push(UiNode { fs_node: c.duplicate(), depth, expanded: false, parent_total: 0 });
                assert(rows_view(out@) =~= mid + seq![scan_row(c@, depth as int, false)]);
            }
            assert(rows_view(out@) =~= start + visible_kids(
                self@.children,
                kv.take(i + 1),
                depth as int,
                expanded@,
                fuel as nat,
            ));
        }
        assert(kv.take(n as int) =~= kv);
    }
}

} // verus!