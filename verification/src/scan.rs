//! What one scan task does with the listing of its directory: which counters
//! grow, which errors are reported, and which subdirectories become new work.

use vstd::prelude::*;
use crate::stats::{views, Counts, DisplayStats};

verus! {

/// The kind under which an entry is counted.
#[derive(Copy, Clone, Debug, PartialEq, Eq, Structural)]
pub enum EntryKind {
    File,
    Symlink,
    Dir,
    /// Neither of the three (a socket, a device node, a pipe): not counted.
    Other,
}

/// What the metadata of an entry says, as far as the walk reads it.
/// The entry itself is described, never the target of a link.
#[derive(Copy, Clone, Debug, PartialEq, Eq, Structural)]
pub struct Meta {
    pub is_symlink: bool,
    pub is_file: bool,
    pub is_dir: bool,
    /// Identifier of the filesystem device that holds the entry.
    pub device: u64,
}

/// The kind of an entry: a symlink before anything else, then a regular file,
/// then a directory.
pub open spec fn kind_of(meta: Meta) -> EntryKind {
    if meta.is_symlink {
        EntryKind::Symlink
    } else if meta.is_file {
        EntryKind::File
    } else if meta.is_dir {
        EntryKind::Dir
    } else {
        EntryKind::Other
    }
}

/// A directory awaiting its scan.
#[derive(Clone, Debug, PartialEq, Eq)]
pub struct WorkItem {
    pub path: Vec<u8>,
    /// Device of the directory; subdirectories on another device are not entered.
    pub device: u64,
}

/// Mathematical value of a [`WorkItem`].
pub struct WorkItemView {
    pub path: Seq<u8>,
    pub device: u64,
}

impl View for WorkItem {
    type V = WorkItemView;

    open spec fn view(&self) -> WorkItemView {
        WorkItemView { path: self.path@, device: self.device }
    }
}

/// A failure met during the walk: where, and why.
#[derive(Clone, Debug, PartialEq, Eq)]
pub struct ErrorRecord {
    pub path: Vec<u8>,
    pub cause: String,
}

/// Mathematical value of an [`ErrorRecord`].
pub struct ErrorView {
    pub path: Seq<u8>,
    pub cause: Seq<char>,
}

impl View for ErrorRecord {
    type V = ErrorView;

    open spec fn view(&self) -> ErrorView {
        ErrorView { path: self.path@, cause: self.cause@ }
    }
}

/// What listing a directory yielded for one of its children.
#[derive(Clone, Debug, PartialEq, Eq)]
pub enum ChildEntry {
    /// The listing itself failed at this position; no name is known.
    Broken { cause: String },
    /// The child is known by name but its metadata could not be read.
    Unreadable { path: Vec<u8>, cause: String },
    /// The child and its metadata.
    Found { path: Vec<u8>, meta: Meta },
}

/// Mathematical value of a [`ChildEntry`].
pub enum ChildView {
    Broken { cause: Seq<char> },
    Unreadable { path: Seq<u8>, cause: Seq<char> },
    Found { path: Seq<u8>, meta: Meta },
}

impl View for ChildEntry {
    type V = ChildView;

    open spec fn view(&self) -> ChildView {
        match *self {
            ChildEntry::Broken { cause } => ChildView::Broken { cause: cause@ },
            ChildEntry::Unreadable { path, cause } => ChildView::Unreadable {
                path: path@,
                cause: cause@,
            },
            ChildEntry::Found { path, meta } => ChildView::Found { path: path@, meta },
        }
    }
}

impl ChildView {
    /// What this child adds to the counters of the task that lists it.
    pub open spec fn counts(self) -> Counts {
        match self {
            ChildView::Found { meta, .. } => match kind_of(meta) {
                EntryKind::File => Counts { file: 1, sym: 0, dir: 0 },
                EntryKind::Symlink => Counts { file: 0, sym: 1, dir: 0 },
                EntryKind::Dir => Counts { file: 0, sym: 0, dir: 1 },
                EntryKind::Other => Counts::zero(),
            },
            _ => Counts::zero(),
        }
    }

    /// The error that this child makes the task report, if any. A failure of
    /// the listing is laid to the directory, a failure to read metadata to
    /// the child.
    pub open spec fn error(self, dir: WorkItemView) -> Option<ErrorView> {
        match self {
            ChildView::Broken { cause } => Some(ErrorView { path: dir.path, cause }),
            ChildView::Unreadable { path, cause } => Some(ErrorView { path, cause }),
            ChildView::Found { .. } => None,
        }
    }

    /// The work that this child becomes: a directory on the device of the
    /// directory that lists it, and nothing else.
    pub open spec fn work(self, dir: WorkItemView) -> Option<WorkItemView> {
        match self {
            ChildView::Found { path, meta } => if kind_of(meta) == EntryKind::Dir && meta.device
                == dir.device {
                Some(WorkItemView { path, device: meta.device })
            } else {
                None
            },
            _ => None,
        }
    }
}

/// Sum of what each child adds to the counters.
pub open spec fn scan_counts(children: Seq<ChildView>) -> Counts
    decreases children.len(),
{
    if children.len() == 0 {
        Counts::zero()
    } else {
        scan_counts(children.drop_last()).plus(children.last().counts())
    }
}

/// The errors of the children, in listing order.
pub open spec fn scan_errors(dir: WorkItemView, children: Seq<ChildView>) -> Seq<ErrorView>
    decreases children.len(),
{
    if children.len() == 0 {
        Seq::empty()
    } else {
        let before = scan_errors(dir, children.drop_last());
        match children.last().error(dir) {
            Some(e) => before.push(e),
            None => before,
        }
    }
}

/// The work discovered among the children, in listing order.
pub open spec fn scan_discovered(dir: WorkItemView, children: Seq<ChildView>) -> Seq<
    WorkItemView,
>
    decreases children.len(),
{
    if children.len() == 0 {
        Seq::empty()
    } else {
        let before = scan_discovered(dir, children.drop_last());
        match children.last().work(dir) {
            Some(w) => before.push(w),
            None => before,
        }
    }
}

/// Everything one scan task produces.
#[derive(Debug, PartialEq, Eq)]
pub struct ScanOutcome {
    /// What the task adds to its shard.
    pub counts: DisplayStats,
    /// What it reports, in the order in which it met the failures.
    pub errors: Vec<ErrorRecord>,
    /// What it adds to the work queue.
    pub discovered: Vec<WorkItem>,
}

/// Mathematical value of a [`ScanOutcome`].
pub struct ScanView {
    pub counts: Counts,
    pub errors: Seq<ErrorView>,
    pub discovered: Seq<WorkItemView>,
}

impl View for ScanOutcome {
    type V = ScanView;

    open spec fn view(&self) -> ScanView {
        ScanView {
            counts: self.counts@,
            errors: views(self.errors@),
            discovered: views(self.discovered@),
        }
    }
}

/// Mathematical value of a listing: the children, or why there are none.
pub open spec fn listing_view(listing: Result<Vec<ChildEntry>, String>) -> Result<
    Seq<ChildView>,
    Seq<char>,
> {
    match listing {
        Ok(children) => Ok(views(children@)),
        Err(cause) => Err(cause@),
    }
}

/// What a scan of `dir` produces from the listing of `dir`. A listing that
/// failed as a whole is one error laid to the directory and nothing more.
pub open spec fn scan(dir: WorkItemView, listing: Result<Seq<ChildView>, Seq<char>>) -> ScanView {
    match listing {
        Ok(children) => ScanView {
            counts: scan_counts(children),
            errors: scan_errors(dir, children),
            discovered: scan_discovered(dir, children),
        },
        Err(cause) => ScanView {
            counts: Counts::zero(),
            errors: seq![ErrorView { path: dir.path, cause }],
            discovered: Seq::empty(),
        },
    }
}

/// The kind of an entry, from its metadata.
pub fn classify(meta: &Meta) -> (kind: EntryKind)
    ensures
        kind == kind_of(*meta),
{
    if meta.is_symlink {
        EntryKind::Symlink
    } else if meta.is_file {
        EntryKind::File
    } else if meta.is_dir {
        EntryKind::Dir
    } else {
        EntryKind::Other
    }
}

/// A copy of a path.
pub fn copy_path(path: &Vec<u8>) -> (copy: Vec<u8>)
    ensures
        copy@ == path@,
{
    let copy = path.clone();
    assert(copy@ =~= path@);
    copy
}

/// A copy of a record.
pub fn copy_record(record: &ErrorRecord) -> (copy: ErrorRecord)
    ensures
        copy@ == record@,
{
    ErrorRecord { path: copy_path(&record.path), cause: record.cause.clone() }
}

/// Scans one directory: counts each child by its kind, reports each failure
/// once and goes on with the next child, and hands back as new work every
/// subdirectory that lies on the device of `dir`.
pub fn scan_directory(dir: &WorkItem, listing: Result<Vec<ChildEntry>, String>) -> (out:
    ScanOutcome)
    ensures
        out@ == scan(dir@, listing_view(listing)),
{
    let mut counts = DisplayStats::new();
    let mut errors: Vec<ErrorRecord> = Vec::new();
    let mut discovered: Vec<WorkItem> = Vec::new();
    match listing {
        Err(cause) => {
            errors.push(ErrorRecord { path: copy_path(&dir.path), cause });
            assert(views(errors@) =~= seq![ErrorView { path: dir@.path, cause: cause@ }]);
            assert(views(discovered@) =~= Seq::<WorkItemView>::empty());
        },
        Ok(children) => {
            let ghost all = views(children@);
            proof {
                assert(views(errors@) =~= Seq::<ErrorView>::empty());
                assert(views(discovered@) =~= Seq::<WorkItemView>::empty());
                assert(all.take(0) =~= Seq::<ChildView>::empty());
                assert(all.len() == children.len());
            }
            let mut done: usize = 0;
            for child in it: children
                invariant
                    done == it.index(),
                    it.seq().len() == all.len(),
                    all.len() <= usize::MAX,
                    views(it.seq()) == all,
                    counts@ == scan_counts(all.take(done as int)),
                    counts@.entries() <= done,
                    views(errors@) == scan_errors(dir@, all.take(done as int)),
                    views(discovered@) == scan_discovered(dir@, all.take(done as int)),
            {
                proof {
                    let upto = all.take(done as int + 1);
                    assert(upto.drop_last() =~= all.take(done as int));
                    assert(upto.last() == child@);
                }
                let ghost errors_before = views(errors@);
                let ghost discovered_before = views(discovered@);
                match child {
                    ChildEntry::Broken { cause } => {
                        errors.push(ErrorRecord { path: copy_path(&dir.path), cause });
                        assert(views(errors@) =~= errors_before.push(
                            ErrorView { path: dir@.path, cause: cause@ },
                        ));
                    },
                    ChildEntry::Unreadable { path, cause } => {
                        errors.push(ErrorRecord { path, cause });
                        assert(views(errors@) =~= errors_before.push(
                            ErrorView { path: path@, cause: cause@ },
                        ));
                    },
                    ChildEntry::Found { path, meta } => {
                        match classify(&meta) {
                            EntryKind::Symlink => {
                                counts.sym = counts.sym + 1;
                            },
                            EntryKind::File => {
                                counts.file = counts.file + 1;
                            },
                            EntryKind::Dir => {
                                counts.dir = counts.dir + 1;
                                if meta.device == dir.device {
                                    discovered.push(WorkItem { path, device: meta.device });
                                    assert(views(discovered@) =~= discovered_before.push(
                                        WorkItemView { path: path@, device: meta.device },
                                    ));
                                }
                            },
                            EntryKind::Other => {},
                        }
                    },
                }
                done = done + 1;
            }
            assert(all.take(done as int) =~= all);
        },
    }
    ScanOutcome { counts, errors, discovered }
}

} // verus!
