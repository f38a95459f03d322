//! Lists of file records, and the breadth-first scan that makes them.

use std::collections::VecDeque;
use vstd::prelude::*;
use crate::cli::fs::treeitem::{ItemView, TreeItem, TreeItemBuilder};

verus! {

/// The records that `items` holds.
pub open spec fn items_view(items: Seq<TreeItem>) -> Seq<ItemView> {
    items.map_values(|item: TreeItem| item@)
}

/// A list of file records in the order in which the files were digested.
/// It may hold several records with one digest.
#[derive(Debug)]
pub struct TreeList {
    pub list: Vec<TreeItem>,
}

impl View for TreeList {
    type V = Seq<ItemView>;

    open spec fn view(&self) -> Seq<ItemView> {
        items_view(self.list@)
    }
}

impl Default for TreeList {
    fn default() -> (list: Self)
        ensures
            list@ == Seq::<ItemView>::empty(),
    {
        let list = TreeList { list: Vec::new() };
        assert(list@ =~= Seq::<ItemView>::empty());
        list
    }
}

impl Clone for TreeList {
    fn clone(&self) -> (list: Self)
        ensures
            list@ == self@,
    {
        let mut items: Vec<TreeItem> = Vec::new();
        let mut i: usize = 0;
        while i < self.list.len()
            invariant
                i <= self.list@.len(),
                items@.len() == i,
                forall|j: int| 0 <= j < i ==> (#[trigger] items@[j])@ == self.list@[j]@,
            decreases self.list@.len() - i,
        {
            items.push(self.list[i].clone());
            i += 1;
        }
        let list = TreeList { list: items };
        assert(list@ =~= self@);
        list
    }
}

/// One piece of work of a scan.
#[derive(Debug)]
pub enum TreeWork {
    /// List the directory at this path.
    Scan(String),
    /// Digest the file at this path.
    Digest(String),
}

/// What a piece of work says.
pub enum WorkView {
    Scan(Seq<char>),
    Digest(Seq<char>),
}

impl View for TreeWork {
    type V = WorkView;

    open spec fn view(&self) -> WorkView {
        match self {
            TreeWork::Scan(path) => WorkView::Scan(path@),
            TreeWork::Digest(path) => WorkView::Digest(path@),
        }
    }
}

/// What a directory entry points at.
#[derive(Clone, Copy, Debug, PartialEq, Eq, Structural)]
pub enum EntryKind {
    /// A directory.
    Dir,
    /// A regular file.
    File,
    /// Neither of them.
    Other,
}

impl EntryKind {
    /// What an entry is, from what was found at its path: a directory
    /// where there is one, a regular file where there is one and no
    /// directory, and neither otherwise.
    pub fn of(is_dir: bool, is_file: bool) -> (kind: EntryKind)
        ensures
            kind == if is_dir {
                EntryKind::Dir
            } else if is_file {
                EntryKind::File
            } else {
                EntryKind::Other
            },
    {
        if is_dir {
            EntryKind::Dir
        } else if is_file {
            EntryKind::File
        } else {
            EntryKind::Other
        }
    }
}

/// One entry of a directory listing.
#[derive(Debug)]
pub struct DirEntry {
    /// The path of the entry.
    pub path: String,
    pub kind: EntryKind,
    /// The size from the metadata of the entry, and `None` where the
    /// lookup failed.
    pub size: Option<u64>,
}

/// What a directory entry says.
pub struct EntryView {
    pub path: Seq<char>,
    pub kind: EntryKind,
    pub size: Option<u64>,
}

impl View for DirEntry {
    type V = EntryView;

    open spec fn view(&self) -> EntryView {
        EntryView { path: self.path@, kind: self.kind, size: self.size }
    }
}

/// The entries that `entries` holds.
pub open spec fn entries_view(entries: Seq<DirEntry>) -> Seq<EntryView> {
    entries.map_values(|entry: DirEntry| entry@)
}

/// The pieces of work that `queue` holds.
pub open spec fn queue_view(queue: Seq<TreeWork>) -> Seq<WorkView> {
    queue.map_values(|work: TreeWork| work@)
}

/// The size by which a file is admitted: the one its metadata gave, and 0
/// where the lookup failed.
pub open spec fn entry_size(entry: EntryView) -> u64 {
    match entry.size {
        Some(size) => size,
        None => 0,
    }
}

/// The work that an entry asks for. A directory is scanned. A regular file
/// is digested unless it is larger than `max_size`. Anything else is passed
/// over.
pub open spec fn work_for(entry: EntryView, max_size: u64) -> Option<WorkView> {
    match entry.kind {
        EntryKind::Dir => Some(WorkView::Scan(entry.path)),
        EntryKind::File => if entry_size(entry) <= max_size {
            Some(WorkView::Digest(entry.path))
        } else {
            None
        },
        EntryKind::Other => None,
    }
}

/// The work that the entries of a listing ask for, in their order.
pub open spec fn works_for(entries: Seq<EntryView>, max_size: u64) -> Seq<WorkView>
    decreases entries.len(),
{
    if entries.len() == 0 {
        Seq::empty()
    } else {
        let rest = works_for(entries.drop_last(), max_size);
        match work_for(entries.last(), max_size) {
            Some(work) => rest.push(work),
            None => rest,
        }
    }
}

/// A listing of regular files that are all within the bound asks for the
/// digest of each, in the order of the listing.
pub proof fn lemma_works_for_files(entries: Seq<EntryView>, max_size: u64)
    requires
        forall|i: int|
            0 <= i < entries.len() ==> (#[trigger] entries[i]).kind == EntryKind::File
                && entry_size(entries[i]) <= max_size,
    ensures
        works_for(entries, max_size) == entries.map_values(
            |entry: EntryView| WorkView::Digest(entry.path),
        ),
    decreases entries.len(),
{
    let works = entries.map_values(|entry: EntryView| WorkView::Digest(entry.path));
    if entries.len() == 0 {
        assert(works_for(entries, max_size) =~= works);
    } else {
        let front = entries.drop_last();
        assert forall|i: int| 0 <= i < front.len() implies (#[trigger] front[i]).kind
            == EntryKind::File && entry_size(front[i]) <= max_size by {
            assert(front[i] == entries[i]);
        }
        lemma_works_for_files(front, max_size);
        assert(entries[entries.len() - 1] == entries.last());
        assert(works_for(entries, max_size) =~= works);
    }
}

/// The state of a scan.
pub struct ScanView {
    /// Whether large files are sampled at head and tail.
    pub fast: bool,
    /// The size above which files are passed over.
    pub max_size: u64,
    /// The work that waits, first in, first out.
    pub queue: Seq<WorkView>,
    /// The records of the files digested so far.
    pub list: Seq<ItemView>,
}

/// A scan of a directory tree in progress. It hands out its work piece by
/// piece, in the order in which the work came in, and takes in what each
/// piece brought: directories are listed before any of their entries is
/// looked at, so the tree is walked breadth first.
pub struct TreeScan {
    fast: bool,
    max_size: u64,
    queue: VecDeque<TreeWork>,
    list: TreeList,
}

impl View for TreeScan {
    type V = ScanView;

    closed spec fn view(&self) -> ScanView {
        ScanView {
            fast: self.fast,
            max_size: self.max_size,
            queue: queue_view(self.queue@),
            list: self.list@,
        }
    }
}

impl TreeScan {
    /// The piece of work that waited longest, which leaves the queue; or
    /// `None` when the scan is complete.
    pub fn next(&mut self) -> (work: Option<TreeWork>)
        ensures
            match work {
                Some(w) => old(self)@.queue.len() > 0 && w@ == old(self)@.queue[0] && final(self)@
                    == (ScanView { queue: old(self)@.queue.drop_first(), ..old(self)@ }),
                None => old(self)@.queue.len() == 0 && final(self)@ == old(self)@,
            },
    {
        let work = self.queue.pop_front();
        proof {
            if work is Some {
                assert(self@.queue =~= old(self)@.queue.drop_first());
            } else {
                assert(self@.queue =~= old(self)@.queue);
            }
        }
        work
    }

    /// Takes in the listing of a directory: the work that its entries ask
    /// for joins the queue behind all that waits.
    pub fn listed(&mut self, entries: &Vec<DirEntry>)
        ensures
            final(self)@ == (ScanView {
                queue: old(self)@.queue + works_for(entries_view(entries@), old(self)@.max_size),
                ..old(self)@
            }),
    {
        let mut i: usize = 0;
        let ghost all = entries_view(entries@);
        assert(self@.queue =~= old(self)@.queue + works_for(all.subrange(0, 0), self.max_size));
        while i < entries.len()
            invariant
                i <= entries@.len(),
                all == entries_view(entries@),
                self@ == (ScanView {
                    queue: old(self)@.queue + works_for(
                        all.subrange(0, i as int),
                        old(self)@.max_size,
                    ),
                    ..old(self)@
                }),
            decreases entries@.len() - i,
        {
            let entry = &entries[i];
            let ghost before = self@.queue;
            proof {
                let now = all.subrange(0, i + 1);
                assert(now.drop_last() =~= all.subrange(0, i as int));
                assert(now.last() == entry@);
            }
            match entry.kind {
                EntryKind::Dir => {
                    self.queue.push_back(TreeWork::Scan(entry.path.clone()));
                    assert(self@.queue =~= before.push(WorkView::Scan(entry.path@)));
                },
                EntryKind::File => {
                    let size: u64 = match entry.size {
                        Some(size) => size,
                        None => 0,
                    };
                    if size <= self.max_size {
                        self.queue.push_back(TreeWork::Digest(entry.path.clone()));
                        assert(self@.queue =~= before.push(WorkView::Digest(entry.path@)));
                    }
                },
                EntryKind::Other => {},
            }
            i += 1;
            assert(self@.queue =~= old(self)@.queue + works_for(
                all.subrange(0, i as int),
                old(self)@.max_size,
            ));
        }
        assert(all.subrange(0, i as int) =~= all);
    }

    /// The builder for the digest of the file at `path`, in the mode of
    /// this scan.
    pub fn digest(&self, path: &str) -> (b: TreeItemBuilder)
        ensures
            b.is_fast() == self@.fast,
            b.file_path() == path@,
    {
        TreeItemBuilder::new().fast(self.fast).path(path)
    }

    /// Takes in the record of a digested file: it joins the list behind
    /// all others.
    pub fn digested(&mut self, item: TreeItem)
        ensures
            final(self)@ == (ScanView { list: old(self)@.list.push(item@), ..old(self)@ }),
    {
        self.list.list.push(item);
        assert(self@.list =~= old(self)@.list.push(item@));
    }

    /// The list of the files that were digested, once no work waits.
    pub fn finish(self) -> (list: TreeList)
        requires
            self@.queue.len() == 0,
        ensures
            list@ == self@.list,
    {
        self.list
    }
}

/// Sets up the scan of a directory tree.
pub struct TreeListBuilder {
    fast: bool,
    max_size: u64,
    path: String,
}

impl TreeListBuilder {
    /// Whether large files are sampled at head and tail.
    pub closed spec fn is_fast(&self) -> bool {
        self.fast
    }

    /// The size above which files are passed over.
    pub closed spec fn size_bound(&self) -> u64 {
        self.max_size
    }

    /// The root of the tree.
    pub closed spec fn root(&self) -> Seq<char> {
        self.path@
    }

    /// A builder of scans that digest in full and pass over no file, with
    /// an empty path as the root.
    pub fn new() -> (b: Self)
        ensures
            !b.is_fast(),
            b.size_bound() == u64::MAX,
            b.root() == Seq::<char>::empty(),
    {
        TreeListBuilder { fast: false, max_size: u64::MAX, path: String::new() }
    }

    /// Sets whether large files are sampled at head and tail.
    pub fn fast(self, fast: bool) -> (b: Self)
        ensures
            b.is_fast() == fast,
            b.size_bound() == self.size_bound(),
            b.root() == self.root(),
    {
        let mut b = self;
        b.fast = fast;
        b
    }

    /// Sets the size above which files are passed over.
    pub fn max_size(self, max: u64) -> (b: Self)
        ensures
            b.is_fast() == self.is_fast(),
            b.size_bound() == max,
            b.root() == self.root(),
    {
        let mut b = self;
        b.max_size = max;
        b
    }

    /// Sets the root of the tree.
    pub fn path(self, path: &str) -> (b: Self)
        ensures
            b.is_fast() == self.is_fast(),
            b.size_bound() == self.size_bound(),
            b.root() == path@,
    {
        let mut b = self;
        b.path = String::from_str(path);
        b
    }

    /// The scan, with the root as the one directory to list and no file
    /// digested yet.
    pub fn build(self) -> (scan: TreeScan)
        ensures
            scan@ == (ScanView {
                fast: self.is_fast(),
                max_size: self.size_bound(),
                queue: seq![WorkView::Scan(self.root())],
                list: Seq::empty(),
            }),
    {
        let mut queue: VecDeque<TreeWork> = VecDeque::new();
        queue.push_back(TreeWork::Scan(self.path));
        let scan = TreeScan {
            fast: self.fast,
            max_size: self.max_size,
            queue,
            list: TreeList::default(),
        };
        assert(scan@.queue =~= seq![WorkView::Scan(self.root())]);
        scan
    }
}

} // verus!
