//! Turning what was read from the filesystem into scan results: the
//! entries of one directory, and the flat, size-aggregated list of a
//! recursive scan.
//!
//! The reads themselves happen outside this module; what they returned is
//! handed in as plain values, in the order in which they were made.

use vstd::prelude::*;

verus! {

/// The kind of an I/O failure, as far as scanning tells kinds apart.
#[derive(Debug, Clone, Copy, PartialEq, Eq, Structural)]
pub enum IoKind {
    /// Access was denied.
    PermissionDenied,
    /// The platform reported an uncategorised ("other") error.
    Other,
    /// Any other kind of failure.
    Failed,
}

/// A failed read: its kind and the platform's message.
#[derive(Debug)]
pub struct IoFailure {
    /// What kind of failure it was.
    pub kind: IoKind,
    /// Human-readable description.
    pub message: String,
}

/// Errors that can occur during filesystem scanning.
#[derive(Debug)]
pub enum ScanError {
    /// An I/O error occurred while accessing a path.
    Io {
        /// The path that was being read.
        path: String,
        /// What kind of failure it was.
        kind: IoKind,
        /// Human-readable description.
        message: String,
    },
    /// The scan was cancelled before completion.
    Cancelled,
}

impl ScanError {
    /// Returns `true` if this error represents a permission denial.
    pub fn is_permission_denied(&self) -> (r: bool)
        ensures
            r == (self matches ScanError::Io { kind, .. } && kind == IoKind::PermissionDenied),
    {
        match self {
            ScanError::Io { kind, .. } => *kind == IoKind::PermissionDenied,
            ScanError::Cancelled => false,
        }
    }
}

/// A single filesystem entry returned by the scanner.
#[derive(Debug)]
pub struct DirEntry {
    /// Absolute path of the entry.
    pub path: String,
    /// `true` when the entry is a directory.
    pub is_dir: bool,
    /// Size in bytes (`0` for directories when listed, the aggregated
    /// subtree size in a recursive scan).
    pub size: u64,
}

/// The mathematical value of a [`DirEntry`].
pub struct EntryView {
    pub path: Seq<char>,
    pub is_dir: bool,
    pub size: u64,
}

impl View for DirEntry {
    type V = EntryView;

    open spec fn view(&self) -> EntryView {
        EntryView { path: self.path@, is_dir: self.is_dir, size: self.size }
    }
}

/// The views of a sequence of entries.
pub open spec fn entries_view(s: Seq<DirEntry>) -> Seq<EntryView> {
    Seq::new(s.len(), |i: int| s[i]@)
}

impl DirEntry {
    /// Creates an entry.
    pub fn new(path: &str, is_dir: bool, size: u64) -> (e: Self)
        ensures
            e@ == (EntryView { path: path@, is_dir, size }),
    {
        DirEntry { path: path.to_string(), is_dir, size }
    }

    /// A copy of this entry.
    pub fn copy(&self) -> (e: Self)
        ensures
            e@ == self@,
    {
        DirEntry { path: self.path.clone(), is_dir: self.is_dir, size: self.size }
    }
}

/// What reading an entry's metadata returned.
#[derive(Debug)]
pub enum MetaRead {
    /// The metadata: whether it is a directory, and its length in bytes.
    Read { is_dir: bool, len: u64 },
    /// Reading the metadata failed; `path_is_dir` is what asking the path
    /// itself whether it is a directory answered.
    Failed { failure: IoFailure, path_is_dir: bool },
}

/// One step of iterating a directory.
#[derive(Debug)]
pub enum RawEntry {
    /// An entry and what reading its metadata returned.
    Entry { path: String, meta: MetaRead },
    /// Iterating failed at this point.
    Failed(IoFailure),
}

/// What opening and iterating a directory returned.
#[derive(Debug)]
pub enum DirRead {
    /// The directory was opened; these are the iteration steps in order.
    Opened(Vec<RawEntry>),
    /// The directory could not be opened.
    Failed(IoFailure),
}

/// Whether a failure is one that scanning skips silently.
pub open spec fn skipped(kind: IoKind) -> bool {
    kind == IoKind::PermissionDenied || kind == IoKind::Other
}

/// The view of a scan error.
pub enum ErrorView {
    Io { path: Seq<char>, kind: IoKind, message: Seq<char> },
    Cancelled,
}

/// The view of a scan error value.
pub open spec fn error_view(e: ScanError) -> ErrorView {
    match e {
        ScanError::Io { path, kind, message } => ErrorView::Io { path: path@, kind, message: message@ },
        ScanError::Cancelled => ErrorView::Cancelled,
    }
}

/// The error reported for `dir` after a failure.
pub open spec fn io_error(dir: Seq<char>, f: IoFailure) -> ErrorView {
    ErrorView::Io { path: dir, kind: f.kind, message: f.message@ }
}

/// The entries listed from the first iteration steps `steps` of `dir`:
/// skipped failures leave no trace, the first other iteration failure ends
/// the listing with an error, and an entry whose metadata could not be
/// read (for a reason not skipped) is listed with size 0.
pub open spec fn listed(dir: Seq<char>, steps: Seq<RawEntry>) -> Result<Seq<EntryView>, ErrorView>
    decreases steps.len(),
{
    if steps.len() == 0 {
        Ok(seq![])
    } else {
        match listed(dir, steps.drop_last()) {
            Err(e) => Err(e),
            Ok(rows) => match steps.last() {
                RawEntry::Failed(f) => if skipped(f.kind) {
                    Ok(rows)
                } else {
                    Err(io_error(dir, f))
                },
                RawEntry::Entry { path, meta } => match meta {
                    MetaRead::Read { is_dir, len } => Ok(
                        rows.push(EntryView { path: path@, is_dir, size: if is_dir { 0 } else { len } }),
                    ),
                    MetaRead::Failed { failure, path_is_dir } => if skipped(failure.kind) {
                        Ok(rows)
                    } else {
                        Ok(rows.push(EntryView { path: path@, is_dir: path_is_dir, size: 0 }))
                    },
                },
            },
        }
    }
}

/// The result of listing a directory: a directory that cannot be opened
/// for a skipped reason lists as empty, for another reason as an error.
pub open spec fn listing_of(dir: Seq<char>, read: DirRead) -> Result<Seq<EntryView>, ErrorView> {
    match read {
        DirRead::Failed(f) => if skipped(f.kind) {
            Ok(seq![])
        } else {
            Err(io_error(dir, f))
        },
        DirRead::Opened(steps) => listed(dir, steps@),
    }
}

/// Copies a failure into a scan error for `dir`.
fn to_scan_error(dir: &str, f: &IoFailure) -> (e: ScanError)
    ensures
        error_view(e) == io_error(dir@, *f),
{
    ScanError::Io { path: dir.to_string(), kind: f.kind, message: f.message.clone() }
}

/// Returns `true` when a failure kind represents a permission / access
/// denial (the platform's uncategorised errors included); such failures
/// are skipped silently.
pub fn is_permission_error(kind: IoKind) -> (r: bool)
    ensures
        r == skipped(kind),
{
    kind == IoKind::PermissionDenied || kind == IoKind::Other
}

/// Lists one directory level of `dir` from what reading it returned:
/// its direct children, with permission (and uncategorised) failures
/// skipped silently and other failures reported.
pub fn read_dir_immediate(dir: &str, read: &DirRead) -> (r: Result<Vec<DirEntry>, ScanError>)
    ensures
        match (r, listing_of(dir@, *read)) {
            (Ok(v), Ok(rows)) => entries_view(v@) == rows,
            (Err(e), Err(ev)) => error_view(e) == ev,
            _ => false,
        },
{
    match read {
        DirRead::Failed(f) => {
            if is_permission_error(f.kind) {
                let v: Vec<DirEntry> = Vec::new();
                assert(entries_view(v@) =~= Seq::<EntryView>::empty());
                Ok(v)
            } else {
                Err(to_scan_error(dir, f))
            }
        },
        DirRead::Opened(steps) => {
            let n = steps.len();
            let mut out: Vec<DirEntry> = Vec::new();
            assert(entries_view(out@) =~= Seq::<EntryView>::empty());
            for i in 0..n
                invariant
                    n == steps@.len(),
                    *read == DirRead::Opened(*steps),
                    listed(dir@, steps@.take(i as int)) == Ok::<Seq<EntryView>, ErrorView>(
                        entries_view(out@),
                    ),
            {
                assert(steps@.take(i + 1).drop_last() =~= steps@.take(i as int));
                assert(steps@.take(i + 1).last() == steps@[i as int]);
                let ghost before = entries_view(out@);
                match &steps[i] {
                    RawEntry::Failed(f) => {
                        if !is_permission_error(f.kind) {
                            let e = to_scan_error(dir, f);
                            proof {
                                lemma_listed_err_sticks(dir@, steps@, i as int + 1);
                                assert(steps@.take(n as int) =~= steps@);
                            }
                            return Err(e);
                        }
                    },
                    RawEntry::Entry { path, meta } => {
                        match meta {
                            MetaRead::Read { is_dir, len } => {
                                let size = if *is_dir { 0 } else { *len };
                                out.push(DirEntry { path: path.clone(), is_dir: *is_dir, size });
                            },
                            MetaRead::Failed { failure, path_is_dir } => {
                                if !is_permission_error(failure.kind) {
                                    out.push(DirEntry { path: path.clone(), is_dir: *path_is_dir, size: 0 });
                                }
                            },
                        }
                    },
                }
                assert(entries_view(out@) =~= match listed(dir@, steps@.take(i + 1)) {
                    Ok(rows) => rows,
                    Err(_) => before,
                });
            }
            assert(steps@.take(n as int) =~= steps@);
            Ok(out)
        },
    }
}

/// Once the listing of a prefix fails, the listing of every longer prefix
/// fails with the same error.
proof fn lemma_listed_err_sticks(dir: Seq<char>, steps: Seq<RawEntry>, k: int)
    requires
        0 <= k <= steps.len(),
        listed(dir, steps.take(k)) is Err,
    ensures
        listed(dir, steps) == listed(dir, steps.take(k)),
    decreases steps.len() - k,
{
    if k < steps.len() {
        assert(steps.take(k + 1).drop_last() =~= steps.take(k));
        lemma_listed_err_sticks(dir, steps, k + 1);
    } else {
        assert(steps.take(k) =~= steps);
    }
}


/// What a recursive scan observed at one directory, in the order the
/// observations were made.
#[derive(Debug)]
pub struct DirVisit {
    /// The directory visited.
    pub path: String,
    /// What was found there.
    pub outcome: VisitOutcome,
}

/// The outcome of visiting a directory.
#[derive(Debug)]
pub enum VisitOutcome {
    /// The scan had been cancelled when the directory was reached.
    Cancelled,
    /// The directory could not be listed.
    Unreadable,
    /// The directory's children, in listing order.
    Listed(Vec<ChildVisit>),
}

/// A listed child of a visited directory.
#[derive(Debug)]
pub enum ChildVisit {
    /// A file entry.
    File(DirEntry),
    /// A sub-directory and what its visit found.
    Dir(DirVisit),
}

/// Total size of the files found under a visited directory.
pub open spec fn visit_total(v: DirVisit) -> int
    decreases v, 1nat,
{
    match v.outcome {
        VisitOutcome::Listed(kids) => kids_total(kids@),
        _ => 0,
    }
}

/// Total size of the files found under a sequence of children.
pub open spec fn kids_total(s: Seq<ChildVisit>) -> int
    decreases s, 0nat,
{
    if s.len() == 0 {
        0
    } else {
        kids_total(s.drop_last()) + match s.last() {
            ChildVisit::File(e) => e.size as int,
            ChildVisit::Dir(d) => visit_total(d),
        }
    }
}

/// The entries a recursive scan reports for a visited directory: nothing
/// when it was cancelled or unreadable; otherwise the directory itself with
/// the total size of the files under it, followed by the entries of its
/// children in order (files as listed, sub-directories recursively).
pub open spec fn visit_rows(v: DirVisit) -> Seq<EntryView>
    decreases v, 1nat,
{
    match v.outcome {
        VisitOutcome::Listed(kids) => seq![
            EntryView { path: v.path@, is_dir: true, size: visit_total(v) as u64 },
        ] + kids_rows(kids@),
        _ => seq![],
    }
}

/// The entries reported for a sequence of children.
pub open spec fn kids_rows(s: Seq<ChildVisit>) -> Seq<EntryView>
    decreases s, 0nat,
{
    if s.len() == 0 {
        seq![]
    } else {
        kids_rows(s.drop_last()) + match s.last() {
            ChildVisit::File(e) => seq![e@],
            ChildVisit::Dir(d) => visit_rows(d),
        }
    }
}

/// Every listed file of a visit is reported as a file.
pub open spec fn files_are_files(v: DirVisit) -> bool
    decreases v, 1nat,
{
    match v.outcome {
        VisitOutcome::Listed(kids) => kids_are_files(kids@),
        _ => true,
    }
}

/// Every listed file among `s`, and below it, is reported as a file.
pub open spec fn kids_are_files(s: Seq<ChildVisit>) -> bool
    decreases s, 0nat,
{
    forall|i: int|
        #![trigger s[i]]
        0 <= i < s.len() ==> match s[i] {
            ChildVisit::File(e) => !e.is_dir,
            ChildVisit::Dir(d) => files_are_files(d),
        }
}

/// Total size of the file entries among `rows`.
pub open spec fn file_bytes(rows: Seq<EntryView>) -> int
    decreases rows.len(),
{
    if rows.len() == 0 {
        0
    } else {
        file_bytes(rows.drop_last()) + if rows.last().is_dir {
            0
        } else {
            rows.last().size as int
        }
    }
}

proof fn lemma_file_bytes_concat(a: Seq<EntryView>, b: Seq<EntryView>)
    ensures
        file_bytes(a + b) == file_bytes(a) + file_bytes(b),
    decreases b.len(),
{
    if b.len() == 0 {
        assert(a + b =~= a);
    } else {
        lemma_file_bytes_concat(a, b.drop_last());
        assert((a + b).drop_last() =~= a + b.drop_last());
        assert((a + b).last() == b.last());
    }
}

proof fn lemma_visit_bytes(v: DirVisit)
    requires
        files_are_files(v),
    ensures
        file_bytes(visit_rows(v)) == visit_total(v),
    decreases v, 1nat,
{
    match v.outcome {
        VisitOutcome::Listed(kids) => {
            assert(decreases_to!(v => v.outcome));
            lemma_kids_bytes(kids@);
            let top = EntryView { path: v.path@, is_dir: true, size: visit_total(v) as u64 };
            lemma_file_bytes_concat(seq![top], kids_rows(kids@));
            assert(seq![top].drop_last() =~= Seq::<EntryView>::empty());
            assert(seq![top].last() == top);
            assert(file_bytes(Seq::<EntryView>::empty()) == 0);
            assert(file_bytes(seq![top]) == 0);
        },
        _ => {
            assert(visit_rows(v) =~= Seq::<EntryView>::empty());
        },
    }
}

proof fn lemma_kids_bytes(s: Seq<ChildVisit>)
    requires
        kids_are_files(s),
    ensures
        file_bytes(kids_rows(s)) == kids_total(s),
    decreases s, 0nat,
{
    if s.len() > 0 {
        assert forall|i: int| 0 <= i < s.drop_last().len() implies match #[trigger] s.drop_last()[i] {
            ChildVisit::File(e) => !e.is_dir,
            ChildVisit::Dir(d) => files_are_files(d),
        } by {
            assert(s.drop_last()[i] == s[i]);
        }
        lemma_kids_bytes(s.drop_last());
        let last = s.last();
        assert(last == s[s.len() - 1]);
        match last {
            ChildVisit::File(e) => {
                lemma_file_bytes_concat(kids_rows(s.drop_last()), seq![e@]);
                assert(seq![e@].drop_last() =~= Seq::<EntryView>::empty());
                assert(seq![e@].last() == e@);
                assert(file_bytes(Seq::<EntryView>::empty()) == 0);
                assert(!e.is_dir);
                assert(file_bytes(seq![e@]) == e.size as int);
                assert(kids_rows(s) == kids_rows(s.drop_last()) + seq![e@]);
                assert(kids_total(s) == kids_total(s.drop_last()) + e.size as int);
            },
            ChildVisit::Dir(d) => {
                assert(decreases_to!(s => s[s.len() - 1]));
                lemma_visit_bytes(d);
                lemma_file_bytes_concat(kids_rows(s.drop_last()), visit_rows(d));
                assert(kids_rows(s) == kids_rows(s.drop_last()) + visit_rows(d));
                assert(kids_total(s) == kids_total(s.drop_last()) + visit_total(d));
            },
        }
    }
}

/// The size reported for a listed directory is the total of the file
/// entries reported with it: sizes aggregate bottom-up.
pub proof fn lemma_scan_size_is_file_total(v: DirVisit)
    requires
        files_are_files(v),
        v.outcome is Listed,
        visit_total(v) <= u64::MAX,
    ensures
        visit_rows(v).len() >= 1,
        visit_rows(v)[0].path == v.path@,
        visit_rows(v)[0].is_dir,
        visit_rows(v)[0].size == file_bytes(visit_rows(v)),
{
    lemma_visit_bytes(v);
    lemma_visit_total_nonneg(v);
}

/// `d` is `v` or a directory visited somewhere below it.
pub open spec fn is_sub_visit(d: DirVisit, v: DirVisit) -> bool
    decreases v, 1nat,
{
    d == v || match v.outcome {
        VisitOutcome::Listed(kids) => kids_have_sub_visit(d, kids@),
        _ => false,
    }
}

/// `d` is visited at or below one of the sub-directories among `s`.
pub open spec fn kids_have_sub_visit(d: DirVisit, s: Seq<ChildVisit>) -> bool
    decreases s, 0nat,
{
    exists|i: int| #![trigger s[i]] 0 <= i < s.len() && match s[i] {
        ChildVisit::Dir(c) => is_sub_visit(d, c),
        ChildVisit::File(_) => false,
    }
}

/// Every directory that the flat scan reports, at any depth, heads the
/// run of rows that the scan of that very directory gives, and is
/// reported with the total size of the files in that run: sizes aggregate
/// bottom-up at every level.
pub proof fn lemma_every_dir_row_is_its_file_total(v: DirVisit, j: int)
    requires
        files_are_files(v),
        visit_total(v) <= u64::MAX,
        0 <= j < visit_rows(v).len(),
        visit_rows(v)[j].is_dir,
    ensures
        exists|d: DirVisit|
            #![trigger is_sub_visit(d, v)]
            is_sub_visit(d, v) && visit_rows(d).len() >= 1 && j + visit_rows(d).len() <= visit_rows(v).len()
                && visit_rows(v).subrange(j, j + visit_rows(d).len()) == visit_rows(d)
                && visit_rows(v)[j].path == d.path@ && visit_rows(v)[j].size == file_bytes(visit_rows(d)),
{
    let d = lemma_visit_segment(v, j);
    assert(visit_rows(v)[j] == visit_rows(v).subrange(j, j + visit_rows(d).len())[0]);
}

proof fn lemma_visit_segment(v: DirVisit, j: int) -> (d: DirVisit)
    requires
        files_are_files(v),
        visit_total(v) <= u64::MAX,
        0 <= j < visit_rows(v).len(),
        visit_rows(v)[j].is_dir,
    ensures
        is_sub_visit(d, v),
        visit_rows(d).len() >= 1,
        j + visit_rows(d).len() <= visit_rows(v).len(),
        visit_rows(v).subrange(j, j + visit_rows(d).len()) == visit_rows(d),
        visit_rows(d)[0].path == d.path@,
        visit_rows(d)[0].size == file_bytes(visit_rows(d)),
    decreases v, 1nat,
{
    match v.outcome {
        VisitOutcome::Listed(kids) => {
            let rows = visit_rows(v);
            let top = EntryView { path: v.path@, is_dir: true, size: visit_total(v) as u64 };
            let kr = kids_rows(kids@);
            assert(rows == seq![top] + kr);
            if j == 0 {
                lemma_scan_size_is_file_total(v);
                assert(rows.subrange(0, rows.len() as int) =~= rows);
                v
            } else {
                assert(decreases_to!(v => v.outcome));
                lemma_kids_total_nonneg(kids@);
                assert(kr[j - 1] == rows[j]);
                let d = lemma_kids_segment(kids@, j - 1);
                let len = visit_rows(d).len() as int;
                assert(rows.subrange(j, j + len) =~= kr.subrange(j - 1, j - 1 + len));
                d
            }
        },
        _ => {
            assert(visit_rows(v) =~= Seq::<EntryView>::empty());
            v
        },
    }
}

proof fn lemma_kids_segment(s: Seq<ChildVisit>, j: int) -> (d: DirVisit)
    requires
        kids_are_files(s),
        kids_total(s) <= u64::MAX,
        0 <= j < kids_rows(s).len(),
        kids_rows(s)[j].is_dir,
    ensures
        kids_have_sub_visit(d, s),
        visit_rows(d).len() >= 1,
        j + visit_rows(d).len() <= kids_rows(s).len(),
        kids_rows(s).subrange(j, j + visit_rows(d).len()) == visit_rows(d),
        visit_rows(d)[0].path == d.path@,
        visit_rows(d)[0].size == file_bytes(visit_rows(d)),
    decreases s, 0nat,
{
    let t = s.drop_last();
    let p = kids_rows(t);
    assert forall|i: int| 0 <= i < t.len() implies match #[trigger] t[i] {
        ChildVisit::File(e) => !e.is_dir,
        ChildVisit::Dir(c) => files_are_files(c),
    } by {
        assert(t[i] == s[i]);
    }
    lemma_kids_total_nonneg(t);
    let last = s.last();
    assert(last == s[s.len() - 1]);
    match last {
        ChildVisit::Dir(c) => {
            lemma_visit_total_nonneg(c);
        },
        _ => {},
    }
    if j < p.len() {
        let d = lemma_kids_segment(t, j);
        let len = visit_rows(d).len() as int;
        let i = choose|i: int| #![trigger t[i]] 0 <= i < t.len() && match t[i] {
            ChildVisit::Dir(c) => is_sub_visit(d, c),
            ChildVisit::File(_) => false,
        };
        assert(t[i] == s[i]);
        assert(kids_rows(s).subrange(j, j + len) =~= p.subrange(j, j + len));
        d
    } else {
        match last {
            ChildVisit::File(e) => {
                assert(kids_rows(s) == p + seq![e@]);
                assert(kids_rows(s)[j] == e@);
                assert(false);
                arbitrary()
            },
            ChildVisit::Dir(c) => {
                assert(decreases_to!(s => s[s.len() - 1]));
                assert(files_are_files(c));
                assert(kids_rows(s) == p + visit_rows(c));
                let k = j - p.len();
                assert(visit_rows(c)[k] == kids_rows(s)[j]);
                let d = lemma_visit_segment(c, k);
                let len = visit_rows(d).len() as int;
                assert(kids_rows(s).subrange(j, j + len) =~= visit_rows(c).subrange(k, k + len));
                assert(s[s.len() - 1] matches ChildVisit::Dir(cc) && is_sub_visit(d, cc));
                d
            },
        }
    }
}

proof fn lemma_kids_total_prefix(s: Seq<ChildVisit>, k: int)
    requires
        0 <= k <= s.len(),
    ensures
        0 <= kids_total(s.take(k)) <= kids_total(s),
    decreases s.len(),
{
    lemma_kids_total_nonneg(s);
    if k < s.len() {
        lemma_kids_total_prefix(s.drop_last(), k);
        assert(s.drop_last().take(k) =~= s.take(k));
        match s.last() {
            ChildVisit::Dir(d) => lemma_visit_total_nonneg(d),
            _ => {},
        }
    } else {
        assert(s.take(k) =~= s);
    }
}

proof fn lemma_visit_total_nonneg(v: DirVisit)
    ensures
        visit_total(v) >= 0,
    decreases v, 1nat,
{
    match v.outcome {
        VisitOutcome::Listed(kids) => {
            assert(decreases_to!(v => v.outcome));
            lemma_kids_total_nonneg(kids@);
        },
        _ => {},
    }
}

proof fn lemma_kids_total_nonneg(s: Seq<ChildVisit>)
    ensures
        kids_total(s) >= 0,
    decreases s, 0nat,
{
    if s.len() > 0 {
        lemma_kids_total_nonneg(s.drop_last());
        match s.last() {
            ChildVisit::Dir(d) => {
                assert(decreases_to!(s => s.last()));
                lemma_visit_total_nonneg(d);
            },
            _ => {},
        }
    }
}

/// Appends the entries of a visited directory to `out` and returns the
/// total size of the files under it.
fn scan_recursive(v: &DirVisit, out: &mut Vec<DirEntry>) -> (size: u64)
    requires
        visit_total(*v) <= u64::MAX,
    ensures
        size == visit_total(*v),
        entries_view(final(out)@) == entries_view(old(out)@) + visit_rows(*v),
    decreases v,
{
    let kids = match &v.outcome {
        VisitOutcome::Listed(kids) => kids,
        _ => {
            assert(entries_view(out@) =~= entries_view(old(out)@) + visit_rows(*v));
            return 0;
        },
    };
    proof {
        lemma_kids_total_nonneg(kids@);
    }
    let ghost start = entries_view(out@);
    let dir_index = out.len();
    out.push(DirEntry { path: v.path.clone(), is_dir: true, size: 0 });
    let n = kids.len();
    let mut dir_size: u64 = 0;
    for i in 0..n
        invariant
            n == kids@.len(),
            v.outcome == VisitOutcome::Listed(*kids),
            kids_total(kids@) <= u64::MAX,
            dir_index == start.len(),
            dir_size == kids_total(kids@.take(i as int)),
            entries_view(out@) == start + seq![EntryView { path: v.path@, is_dir: true, size: 0 }]
                + kids_rows(kids@.take(i as int)),
    {
        proof {
            assert(kids@.take(i + 1).drop_last() =~= kids@.take(i as int));
            assert(kids@.take(i + 1).last() == kids@[i as int]);
            lemma_kids_total_prefix(kids@, i + 1);
            lemma_kids_total_prefix(kids@.take(i + 1), i as int);
        }
        let ghost before = entries_view(out@);
        match &kids[i] {
            ChildVisit::Dir(d) => {
                proof {
                    assert(decreases_to!(v => v.outcome));
                    assert(decreases_to!(v.outcome => v.outcome->Listed_0));
                    assert(decreases_to!(*kids => kids@));
                    assert(decreases_to!(kids@ => kids@[i as int]));
                    assert(decreases_to!(kids@[i as int] => kids@[i as int]->Dir_0));
                }
                let sub = scan_recursive(d, out);
                dir_size = dir_size + sub;
            },
            ChildVisit::File(e) => {
                dir_size = dir_size + e.size;
                out.push(e.copy());
                assert(entries_view(out@) =~= before + seq![e@]);
            },
        }
        assert(entries_view(out@) =~= start + seq![EntryView { path: v.path@, is_dir: true, size: 0 }]
            + kids_rows(kids@.take(i + 1)));
    }
    assert(kids@.take(n as int) =~= kids@);
    let ghost rows = kids_rows(kids@);
    let ghost mid = entries_view(out@);
    assert(mid == start + seq![EntryView { path: v.path@, is_dir: true, size: 0 }] + rows);
    let ghost old_vec = out@;
    assert(mid[dir_index as int] == old_vec[dir_index as int]@);
    out[dir_index].size = dir_size;
    assert(out@[dir_index as int]@ == EntryView { path: v.path@, is_dir: true, size: dir_size });
    assert forall|j: int| 0 <= j < out@.len() && j != dir_index implies #[trigger] out@[j] == old_vec[j] by {}
    assert(visit_total(*v) == kids_total(kids@));
    let ghost top = EntryView { path: v.path@, is_dir: true, size: dir_size };
    assert(entries_view(out@) =~= mid.update(dir_index as int, top));
    assert(mid.update(dir_index as int, top) =~= start + seq![top] + rows);
    assert(visit_rows(*v) == seq![top] + rows);
    assert(entries_view(out@) =~= start + visit_rows(*v));
    dir_size
}

/// The flat result of a recursive scan: every visited directory that could
/// be listed is reported before its contents with the total size of the
/// files under it; files are reported as listed.
pub fn scan_dir_sync(root: &DirVisit) -> (entries: Vec<DirEntry>)
    requires
        visit_total(*root) <= u64::MAX,
    ensures
        entries_view(entries@) == visit_rows(*root),
{
    let mut out: Vec<DirEntry> = Vec::new();
    assert(entries_view(out@) =~= Seq::<EntryView>::empty());
    scan_recursive(root, &mut out);
    assert(entries_view(out@) =~= visit_rows(*root));
    out
}

} // verus!
