//! File records, groups of duplicates, and the lines that write them.

use vstd::prelude::*;
use crate::cli::fs::digester::{content_record, digest_content, DigestView, Digester};
use crate::cli::fs::hasher::is_hex_digest;
use crate::error::Error;
use crate::text::{decimal, push_decimal};

verus! {

/// What a file record says: the digest of the content, the path, and the
/// size in bytes.
pub struct ItemView {
    pub digest: Seq<char>,
    pub path: Seq<char>,
    pub size: u64,
}

/// What a group says: the primary record, and the paths of the files
/// believed to hold the same content, in the order in which they came.
pub struct GroupView {
    pub item: ItemView,
    pub dupes: Seq<Seq<char>>,
}

/// The paths that `paths` holds.
pub open spec fn paths_view(paths: Seq<String>) -> Seq<Seq<char>> {
    paths.map_values(|p: String| p@)
}

/// The line of a primary record, without its line break: digest, size and
/// path, with one space between them.
pub open spec fn item_line(item: ItemView) -> Seq<char> {
    item.digest + seq![' '] + decimal(item.size as nat) + seq![' '] + item.path
}

/// The line of a duplicate, without its line break: a dash in place of the
/// digest, a space, and the path.
pub open spec fn dupe_line(path: Seq<char>) -> Seq<char> {
    seq!['-', ' '] + path
}

/// The text of a primary record: its line and a line break.
pub open spec fn item_text(item: ItemView) -> Seq<char> {
    item_line(item) + seq!['\n']
}

/// The text of the duplicates of a group: one line each, in order.
pub open spec fn dupes_text(dupes: Seq<Seq<char>>) -> Seq<char>
    decreases dupes.len(),
{
    if dupes.len() == 0 {
        Seq::empty()
    } else {
        dupes_text(dupes.drop_last()) + dupe_line(dupes.last()) + seq!['\n']
    }
}

/// The text of a group: the primary line, then the duplicates.
pub open spec fn group_text(group: GroupView) -> Seq<char> {
    item_text(group.item) + dupes_text(group.dupes)
}

/// A path to a file, with the digest of its content and its size.
#[derive(Debug)]
pub struct TreeItem {
    pub digest: String,
    pub path: String,
    pub size: u64,
}

impl View for TreeItem {
    type V = ItemView;

    open spec fn view(&self) -> ItemView {
        ItemView { digest: self.digest@, path: self.path@, size: self.size }
    }
}

impl Clone for TreeItem {
    fn clone(&self) -> (item: Self)
        ensures
            item@ == self@,
    {
        Self { digest: self.digest.clone(), path: self.path.clone(), size: self.size }
    }
}

impl TreeItem {
    /// A record of the file at `path`.
    pub fn new(digest: &str, path: &str, size: u64) -> (item: Self)
        ensures
            item@ == (ItemView { digest: digest@, path: path@, size }),
    {
        Self { digest: String::from_str(digest), path: String::from_str(path), size }
    }

    /// Appends the line of this record, with its line break, to `out`.
    pub fn write_text(&self, out: &mut String)
        ensures
            final(out)@ == old(out)@ + item_text(self@),
    {
        out.append(self.digest.as_str());
        out.push(' ');
        push_decimal(out, self.size);
        out.push(' ');
        out.append(self.path.as_str());
        out.push('\n');
        assert(out@ =~= old(out)@ + item_text(self@));
    }

    /// The line of this record, with its line break.
    pub fn to_text(&self) -> (text: String)
        ensures
            text@ == item_text(self@),
    {
        let mut out = String::new();
        self.write_text(&mut out);
        assert(out@ =~= item_text(self@));
        out
    }
}

/// Makes the record of one file from what was found at its path.
pub struct TreeItemBuilder {
    fast: bool,
    path: String,
}

impl TreeItemBuilder {
    /// Whether large files are sampled at head and tail.
    pub closed spec fn is_fast(&self) -> bool {
        self.fast
    }

    /// The path of the file.
    pub closed spec fn file_path(&self) -> Seq<char> {
        self.path@
    }

    /// A builder for full digests, with an empty path.
    pub fn new() -> (b: Self)
        ensures
            !b.is_fast(),
            b.file_path() == Seq::<char>::empty(),
    {
        TreeItemBuilder { fast: false, path: String::new() }
    }

    /// Sets whether large files are sampled at head and tail.
    pub fn fast(self, fast: bool) -> (b: Self)
        ensures
            b.is_fast() == fast,
            b.file_path() == self.file_path(),
    {
        let mut b = self;
        b.fast = fast;
        b
    }

    /// Sets the path of the file.
    pub fn path(self, path: &str) -> (b: Self)
        ensures
            b.is_fast() == self.is_fast(),
            b.file_path() == path@,
    {
        let mut b = self;
        b.path = String::from_str(path);
        b
    }

    /// Starts the digest of the file. `size` is the size of the regular
    /// file at the path, and `None` when there is no regular file there,
    /// which is an error.
    pub fn digester(&self, size: Option<u64>) -> (r: Result<Digester, Error>)
        ensures
            match (size, r) {
                (Some(n), Ok(d)) => d@ == DigestView::start(self.file_path(), n, self.is_fast())
                    && d@.wf(),
                (None, Err(Error::NotAFile(p))) => p@ == self.file_path(),
                _ => false,
            },
    {
        match size {
            Some(n) => Ok(Digester::new(self.path.as_str(), n, self.fast)),
            None => Err(Error::NotAFile(self.path.clone())),
        }
    }

    /// The record of the file. `content` is what the regular file at the
    /// path holds, and `None` when there is no regular file there, which
    /// is an error.
    pub fn build(self, content: Option<&[u8]>) -> (r: Result<TreeItem, Error>)
        ensures
            match (content, r) {
                (Some(bytes), Ok(item)) => item@ == content_record(
                    self.file_path(),
                    bytes@,
                    self.is_fast(),
                ) && is_hex_digest(item@.digest),
                (None, Err(Error::NotAFile(p))) => p@ == self.file_path(),
                _ => false,
            },
    {
        match content {
            Some(bytes) => Ok(digest_content(self.path.as_str(), bytes, self.fast)),
            None => Err(Error::NotAFile(self.path)),
        }
    }
}

/// A record with the paths of the other files that have its digest.
#[derive(Debug)]
pub struct TreeItemDupes {
    pub item: TreeItem,
    pub dupes: Vec<String>,
}

impl View for TreeItemDupes {
    type V = GroupView;

    open spec fn view(&self) -> GroupView {
        GroupView { item: self.item@, dupes: paths_view(self.dupes@) }
    }
}

impl TreeItemDupes {
    /// A group of the file at `path` alone.
    pub fn new(digest: &str, path: &str, size: u64) -> (group: Self)
        ensures
            group@ == (GroupView {
                item: ItemView { digest: digest@, path: path@, size },
                dupes: Seq::empty(),
            }),
    {
        let group = Self { item: TreeItem::new(digest, path, size), dupes: Vec::new() };
        assert(group@.dupes =~= Seq::empty());
        group
    }
}

impl Clone for TreeItemDupes {
    fn clone(&self) -> (group: Self)
        ensures
            group@ == self@,
    {
        let mut dupes: Vec<String> = Vec::new();
        let mut i: usize = 0;
        while i < self.dupes.len()
            invariant
                i <= self.dupes@.len(),
                dupes@.len() == i,
                forall|j: int| 0 <= j < i ==> (#[trigger] dupes@[j])@ == self.dupes@[j]@,
            decreases self.dupes@.len() - i,
        {
            dupes.push(self.dupes[i].clone());
            i += 1;
        }
        assert(paths_view(dupes@) =~= paths_view(self.dupes@));
        Self { item: self.item.clone(), dupes }
    }
}

impl TreeItemDupes {
    /// Adds `dupe` behind the duplicates that the group has.
    pub fn push(&mut self, dupe: String)
        ensures
            final(self)@ == (GroupView { dupes: old(self)@.dupes.push(dupe@), ..old(self)@ }),
    {
        self.dupes.push(dupe);
        assert(self@.dupes =~= old(self)@.dupes.push(dupe@));
    }

    /// Appends the lines of this group to `out`.
    pub fn write_text(&self, out: &mut String)
        ensures
            final(out)@ == old(out)@ + group_text(self@),
    {
        self.item.write_text(out);
        let mut i: usize = 0;
        while i < self.dupes.len()
            invariant
                i <= self.dupes@.len(),
                out@ == old(out)@ + item_text(self.item@) + dupes_text(
                    self@.dupes.subrange(0, i as int),
                ),
            decreases self.dupes@.len() - i,
        {
            let ghost before = self@.dupes.subrange(0, i as int);
            let ghost now = self@.dupes.subrange(0, i + 1);
            out.append("- ");
            out.append(self.dupes[i].as_str());
            out.push('\n');
            proof {
                reveal_strlit("- ");
                assert("- "@ =~= seq!['-', ' ']);
                assert(now.drop_last() =~= before);
                assert(now.last() == self.dupes@[i as int]@);
                assert(out@ =~= old(out)@ + item_text(self.item@) + dupes_text(now));
            }
            i += 1;
        }
        assert(self@.dupes.subrange(0, i as int) =~= self@.dupes);
        assert(out@ =~= old(out)@ + group_text(self@));
    }

    /// The lines of this group: the primary record, then one line for each
    /// duplicate.
    pub fn to_text(&self) -> (text: String)
        ensures
            text@ == group_text(self@),
    {
        let mut out = String::new();
        self.write_text(&mut out);
        assert(out@ =~= group_text(self@));
        out
    }
}

impl From<&TreeItem> for TreeItemDupes {
    /// The group of `item` alone.
    fn from(item: &TreeItem) -> (group: Self)
        ensures
            group@ == (GroupView { item: item@, dupes: Seq::empty() }),
    {
        let group = Self { item: item.clone(), dupes: Vec::new() };
        assert(group@.dupes =~= Seq::empty());
        group
    }
}

impl vstd::std_specs::convert::FromSpecImpl<&TreeItem> for TreeItemDupes {
    open spec fn obeys_from_spec() -> bool {
        false
    }

    open spec fn from_spec(item: &TreeItem) -> Self {
        arbitrary()
    }
}

} // verus!
