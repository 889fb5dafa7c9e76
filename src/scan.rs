use vstd::prelude::*;
use crate::paths::{extension_of, file_extension, opt_view, path_starts_with, path_within};

verus! {

/// One discovered file and the metadata captured for it. Timestamps are
/// seconds since the epoch, `0` where the platform gave none.
pub struct FileInfo {
    pub path: String,
    pub size: u64,
    pub modified: i64,
    pub accessed: i64,
    pub created: i64,
    pub ext: String,
}

impl FileInfo {
    /// The record of the file at `path`; its extension is taken from the path.
    pub fn new(path: String, size: u64, modified: i64, accessed: i64, created: i64) -> (r: FileInfo)
        ensures
            r.path == path,
            r.size == size,
            r.modified == modified,
            r.accessed == accessed,
            r.created == created,
            r.ext@ == extension_of(path@),
    {
        let ext = file_extension(path.as_str());
        FileInfo { path, size, modified, accessed, created, ext }
    }

    /// A field-by-field copy of the record.
    pub fn duplicate(&self) -> (r: FileInfo)
        ensures
            r == *self,
    {
        FileInfo {
            path: self.path.clone(),
            size: self.size,
            modified: self.modified,
            accessed: self.accessed,
            created: self.created,
            ext: self.ext.clone(),
        }
    }
}

/// A snapshot of a scan's progress.
pub struct ScanStatus {
    pub running: bool,
    pub scanned_files: u64,
    pub scanned_bytes: u64,
    pub current_path: Option<String>,
}

impl ScanStatus {
    /// A field-by-field copy of the snapshot.
    pub fn duplicate(&self) -> (r: ScanStatus)
        ensures
            r == *self,
    {
        let current_path = match &self.current_path {
            Some(p) => Some(p.clone()),
            None => None,
        };
        ScanStatus {
            running: self.running,
            scanned_files: self.scanned_files,
            scanned_bytes: self.scanned_bytes,
            current_path,
        }
    }
}

impl Default for ScanStatus {
    fn default() -> (r: ScanStatus)
        ensures
            !r.running,
            r.scanned_files == 0,
            r.scanned_bytes == 0,
            r.current_path is None,
    {
        ScanStatus { running: false, scanned_files: 0, scanned_bytes: 0, current_path: None }
    }
}

/// The character views of a sequence of strings.
pub open spec fn views_of(v: Seq<String>) -> Seq<Seq<char>> {
    v.map_values(|s: String| s@)
}

/// `path` lies at or under one of `bases`.
pub open spec fn within_any(path: Seq<char>, bases: Seq<Seq<char>>) -> bool {
    exists|i: int| 0 <= i < bases.len() && path_starts_with(path, #[trigger] bases[i])
}

/// Tests `path` against each of `bases` in turn.
fn within_any_of(path: &str, bases: &Vec<String>) -> (r: bool)
    ensures
        r == within_any(path@, views_of(bases@)),
{
    let mut i: usize = 0;
    while i < bases.len()
        invariant
            0 <= i <= bases.len(),
            forall|j: int| 0 <= j < i ==> !path_starts_with(path@, #[trigger] views_of(bases@)[j]),
        decreases bases.len() - i,
    {
        if path_within(path, bases[i].as_str()) {
            assert(path_starts_with(path@, views_of(bases@)[i as int]));
            return true;
        }
        i = i + 1;
    }
    false
}

/// The protected locations that a scan keeps out of unless asked for them.
pub struct PathFilter {
    blocked: Vec<String>,
}

impl View for PathFilter {
    type V = Seq<Seq<char>>;

    closed spec fn view(&self) -> Seq<Seq<char>> {
        views_of(self.blocked@)
    }
}

impl PathFilter {
    /// A filter that protects the given locations.
    pub fn new(locations: Vec<String>) -> (r: PathFilter)
        ensures
            r@ == views_of(locations@),
    {
        PathFilter { blocked: locations }
    }

    /// Whether `p` is one of the protected locations or lies under one.
    pub fn should_skip(&self, p: &str) -> (r: bool)
        ensures
            r == within_any(p@, self@),
    {
        within_any_of(p, &self.blocked)
    }
}

} // verus!

verus! {

/// The sum of the sizes of `files`.
pub open spec fn total_size(files: Seq<FileInfo>) -> nat
    decreases files.len(),
{
    if files.len() == 0 {
        0
    } else {
        (total_size(files.drop_last()) + files.last().size) as nat
    }
}

/// What a scanner holds, as plain values.
pub struct ScanModel {
    pub running: bool,
    pub cancelled: bool,
    pub scanned_files: nat,
    pub scanned_bytes: nat,
    pub current_path: Option<Seq<char>>,
    pub results: Seq<FileInfo>,
    pub roots: Seq<Seq<char>>,
    pub blocked: Seq<Seq<char>>,
}

impl ScanModel {
    /// A path is kept out of the scan when it lies in a protected location
    /// and under none of the requested roots.
    pub open spec fn excludes(self, path: Seq<char>) -> bool {
        within_any(path, self.blocked) && !within_any(path, self.roots)
    }

    /// A traversal may go on to its next root.
    pub open spec fn may_begin_root(self) -> bool {
        self.running && !self.cancelled
    }

    /// A traversal may look at the entry at `path`.
    pub open spec fn may_visit(self, path: Seq<char>) -> bool {
        self.running && !self.cancelled && !self.excludes(path)
    }

    /// The counters describe the results, no result is a protected path
    /// outside the roots, and an idle scan visits nothing.
    pub open spec fn inv(self) -> bool {
        &&& self.scanned_files == self.results.len()
        &&& self.scanned_bytes == total_size(self.results)
        &&& forall|i: int| 0 <= i < self.results.len() ==> !self.excludes(#[trigger] self.results[i].path@)
        &&& !self.running ==> self.current_path is None
    }

    /// After a request to scan `roots`: nothing changes while a scan runs;
    /// otherwise a fresh scan of `roots` begins.
    pub open spec fn started(self, roots: Seq<Seq<char>>) -> ScanModel {
        if self.running {
            self
        } else {
            ScanModel {
                running: true,
                cancelled: false,
                scanned_files: 0,
                scanned_bytes: 0,
                current_path: None,
                results: Seq::empty(),
                roots,
                blocked: self.blocked,
            }
        }
    }

    /// After a file was read: a running scan keeps it unless it is excluded.
    pub open spec fn recorded(self, file: FileInfo) -> ScanModel {
        if self.running && !self.excludes(file.path@) {
            ScanModel {
                scanned_files: self.scanned_files + 1,
                scanned_bytes: (self.scanned_bytes + file.size) as nat,
                current_path: Some(file.path@),
                results: self.results.push(file),
                ..self
            }
        } else {
            self
        }
    }

    /// After a request to cancel.
    pub open spec fn cancelled_now(self) -> ScanModel {
        ScanModel { cancelled: true, ..self }
    }

    /// After the traversal has stopped.
    pub open spec fn finished(self) -> ScanModel {
        ScanModel { running: false, current_path: None, ..self }
    }
}

/// Records `files` one after another, in their order.
pub open spec fn record_all(s: ScanModel, files: Seq<FileInfo>) -> ScanModel
    decreases files.len(),
{
    if files.len() == 0 {
        s
    } else {
        record_all(s, files.drop_last()).recorded(files.last())
    }
}

/// The lifecycle of one traversal at a time: its roots, its results so far,
/// its progress and its cancellation request.
pub struct Scanner {
    status: ScanStatus,
    cancel: bool,
    results: Vec<FileInfo>,
    roots: Vec<String>,
    filter: PathFilter,
}

impl View for Scanner {
    type V = ScanModel;

    closed spec fn view(&self) -> ScanModel {
        ScanModel {
            running: self.status.running,
            cancelled: self.cancel,
            scanned_files: self.status.scanned_files as nat,
            scanned_bytes: self.status.scanned_bytes as nat,
            current_path: opt_view(self.status.current_path),
            results: self.results@,
            roots: views_of(self.roots@),
            blocked: self.filter@,
        }
    }
}

proof fn lemma_total_size_push(files: Seq<FileInfo>, file: FileInfo)
    ensures
        total_size(files.push(file)) == total_size(files) + file.size,
{
    assert(files.push(file).drop_last() =~= files);
}

impl Scanner {
    /// The scanner's state satisfies the model's invariant.
    pub open spec fn wf(&self) -> bool {
        self@.inv()
    }

    /// An idle scanner that protects the locations of `filter`.
    pub fn new(filter: PathFilter) -> (r: Scanner)
        ensures
            r.wf(),
            r@ == (ScanModel {
                running: false,
                cancelled: false,
                scanned_files: 0,
                scanned_bytes: 0,
                current_path: None,
                results: Seq::empty(),
                roots: Seq::empty(),
                blocked: filter@,
            }),
    {
        let r = Scanner {
            status: ScanStatus::default(),
            cancel: false,
            results: Vec::new(),
            roots: Vec::new(),
            filter,
        };
        assert(views_of(r.roots@) =~= Seq::empty());
        r
    }

    /// Begins a scan of `roots` unless one is running; returns whether it began,
    /// that is whether a traversal is to be dispatched.
    pub fn start(&mut self, roots: Vec<String>) -> (began: bool)
        requires
            old(self).wf(),
        ensures
            final(self).wf(),
            final(self)@ == old(self)@.started(views_of(roots@)),
            began == !old(self)@.running,
    {
        if self.status.running {
            return false;
        }
        self.roots = roots;
        self.results = Vec::new();
        self.cancel = false;
        self.status = ScanStatus { running: true, scanned_files: 0, scanned_bytes: 0, current_path: None };
        assert(self@ =~= old(self)@.started(views_of(roots@)));
        true
    }

    /// A snapshot of the progress.
    pub fn status(&self) -> (r: ScanStatus)
        ensures
            r.running == self@.running,
            r.scanned_files == self@.scanned_files,
            r.scanned_bytes == self@.scanned_bytes,
            opt_view(r.current_path) == self@.current_path,
    {
        self.status.duplicate()
    }

    /// A copy of the files recorded so far.
    pub fn results(&self) -> (r: Vec<FileInfo>)
        ensures
            r@ == self@.results,
    {
        let mut r: Vec<FileInfo> = Vec::new();
        let mut i: usize = 0;
        while i < self.results.len()
            invariant
                0 <= i <= self.results.len(),
                r@ == self.results@.subrange(0, i as int),
            decreases self.results.len() - i,
        {
            r.push(self.results[i].duplicate());
            i = i + 1;
            assert(r@ =~= self.results@.subrange(0, i as int));
        }
        assert(self.results@.subrange(0, i as int) =~= self.results@);
        r
    }

    /// Asks the running traversal, if any, to stop.
    pub fn cancel(&mut self)
        requires
            old(self).wf(),
        ensures
            final(self).wf(),
            final(self)@ == old(self)@.cancelled_now(),
    {
        self.cancel = true;
        assert(self@ =~= old(self)@.cancelled_now());
    }

    /// A copy of the roots of the current or last scan.
    pub fn roots(&self) -> (r: Vec<String>)
        ensures
            views_of(r@) == self@.roots,
    {
        let mut r: Vec<String> = Vec::new();
        let mut i: usize = 0;
        while i < self.roots.len()
            invariant
                0 <= i <= self.roots.len(),
                r@ == self.roots@.subrange(0, i as int),
            decreases self.roots.len() - i,
        {
            r.push(self.roots[i].clone());
            i = i + 1;
            assert(r@ =~= self.roots@.subrange(0, i as int));
        }
        assert(self.roots@.subrange(0, i as int) =~= self.roots@);
        r
    }

    /// Whether `path` is kept out of the current scan.
    pub fn excludes(&self, path: &str) -> (r: bool)
        ensures
            r == self@.excludes(path@),
    {
        self.filter.should_skip(path) && !within_any_of(path, &self.roots)
    }

    /// Whether the traversal may go on to its next root.
    pub fn may_begin_root(&self) -> (r: bool)
        ensures
            r == self@.may_begin_root(),
    {
        self.status.running && !self.cancel
    }

    /// Whether the traversal may look at the entry at `path`.
    pub fn may_visit(&self, path: &str) -> (r: bool)
        ensures
            r == self@.may_visit(path@),
    {
        self.status.running && !self.cancel && !self.excludes(path)
    }

    /// Adds a file that the traversal read; returns whether it was kept.
    pub fn record(&mut self, file: FileInfo) -> (kept: bool)
        requires
            old(self).wf(),
            old(self)@.scanned_files < u64::MAX,
            old(self)@.scanned_bytes + file.size <= u64::MAX,
        ensures
            final(self).wf(),
            final(self)@ == old(self)@.recorded(file),
            kept == (old(self)@.running && !old(self)@.excludes(file.path@)),
    {
        let kept = self.status.running && !self.excludes(file.path.as_str());
        if kept {
            proof {
                lemma_total_size_push(self.results@, file);
            }
            let current = file.path.clone();
            let size = file.size;
            self.results.push(file);
            self.status.scanned_files = self.status.scanned_files + 1;
            self.status.scanned_bytes = self.status.scanned_bytes + size;
            self.status.current_path = Some(current);
            assert(self@ =~= old(self)@.recorded(file));
        }
        kept
    }

    /// Marks the traversal as stopped, whether it completed or was cancelled.
    pub fn finish(&mut self)
        requires
            old(self).wf(),
        ensures
            final(self).wf(),
            final(self)@ == old(self)@.finished(),
    {
        self.status.running = false;
        self.status.current_path = None;
        assert(self@ =~= old(self)@.finished());
    }
}

} // verus!

verus! {

proof fn lemma_record_all_fresh(s: ScanModel, files: Seq<FileInfo>)
    requires
        s.running,
        s.results.len() == 0,
        s.scanned_files == 0,
        s.scanned_bytes == 0,
        forall|i: int| 0 <= i < files.len() ==> within_any(#[trigger] files[i].path@, s.roots),
    ensures
        record_all(s, files).running,
        record_all(s, files).roots == s.roots,
        record_all(s, files).blocked == s.blocked,
        record_all(s, files).results =~= files,
        record_all(s, files).scanned_files == files.len(),
        record_all(s, files).scanned_bytes == total_size(files),
    decreases files.len(),
{
    if files.len() > 0 {
        let prefix = files.drop_last();
        assert forall|i: int| 0 <= i < prefix.len() implies within_any(#[trigger] prefix[i].path@, s.roots) by {
            assert(prefix[i] == files[i]);
        }
        lemma_record_all_fresh(s, prefix);
        assert(within_any(files[files.len() - 1].path@, s.roots));
        assert(files =~= prefix.push(files.last()));
    }
}

/// A traversal that reads every file under its roots and then stops holds
/// exactly those files, and its counters give their number and their total size.
pub proof fn lemma_traversal_totals(s: ScanModel, roots: Seq<Seq<char>>, files: Seq<FileInfo>)
    requires
        !s.running,
        forall|i: int| 0 <= i < files.len() ==> within_any(#[trigger] files[i].path@, roots),
    ensures
        !record_all(s.started(roots), files).finished().running,
        record_all(s.started(roots), files).finished().results == files,
        record_all(s.started(roots), files).finished().scanned_files == files.len(),
        record_all(s.started(roots), files).finished().scanned_bytes == total_size(files),
{
    lemma_record_all_fresh(s.started(roots), files);
}

/// Starting while a traversal runs changes nothing: its roots, results,
/// progress and flags stay as they were.
pub proof fn lemma_start_while_running(s: ScanModel, roots: Seq<Seq<char>>)
    requires
        s.running,
    ensures
        s.started(roots) == s,
{
}

proof fn lemma_record_all_cancelled(s: ScanModel, files: Seq<FileInfo>)
    ensures
        record_all(s.cancelled_now(), files) == record_all(s, files).cancelled_now(),
    decreases files.len(),
{
    if files.len() > 0 {
        lemma_record_all_cancelled(s, files.drop_last());
    }
}

/// Once cancelled, a traversal begins no further root and visits no further
/// entry; what it has recorded stays, files still in flight are kept exactly
/// as they would have been without the request, and stopping it leaves it idle.
pub proof fn lemma_cancel_winds_down(s: ScanModel, in_flight: Seq<FileInfo>)
    ensures
        !s.cancelled_now().may_begin_root(),
        forall|path: Seq<char>| !(#[trigger] s.cancelled_now().may_visit(path)),
        s.cancelled_now().results == s.results,
        record_all(s.cancelled_now(), in_flight).results == record_all(s, in_flight).results,
        !record_all(s.cancelled_now(), in_flight).finished().running,
{
    lemma_record_all_cancelled(s, in_flight);
}

/// Recording a file never lowers the progress counters.
pub proof fn lemma_progress_grows(s: ScanModel, file: FileInfo)
    ensures
        s.recorded(file).scanned_files >= s.scanned_files,
        s.recorded(file).scanned_bytes >= s.scanned_bytes,
        s.recorded(file).results.len() >= s.results.len(),
{
}

/// Every step of the lifecycle keeps the scanner's invariant, and under it a
/// recorded path that lies in a protected location lies under a requested root.
pub proof fn lemma_protected_paths_stay_out(s: ScanModel, roots: Seq<Seq<char>>, file: FileInfo)
    requires
        s.inv(),
    ensures
        s.started(roots).inv(),
        s.recorded(file).inv(),
        s.cancelled_now().inv(),
        s.finished().inv(),
        forall|i: int|
            0 <= i < s.results.len() && within_any(#[trigger] s.results[i].path@, s.blocked)
                ==> within_any(s.results[i].path@, s.roots),
{
    lemma_total_size_push(s.results, file);
    if s.running && !s.excludes(file.path@) {
        let t = s.recorded(file);
        assert forall|i: int| 0 <= i < t.results.len() implies !t.excludes(#[trigger] t.results[i].path@) by {
            if i < s.results.len() {
                assert(t.results[i] == s.results[i]);
            }
        }
    }
}

} // verus!
