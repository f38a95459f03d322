//! What is drawn from indexes: matches against a scanned tree or another
//! index, and the sums and lists that the reports show.

use vstd::prelude::*;
use vstd::hash_map::StringHashMap;
use crate::cli::fs::treeindex::{distinct_keys, groups_view, has_key, key_index, with_dupe, TreeIndex};
use crate::cli::fs::treeitem::{paths_view, GroupView, ItemView};
use crate::cli::fs::treelist::TreeList;
use crate::text::{decimal, push_decimal};

verus! {

/// `groups` after every record of `list` whose digest is known was added
/// as a duplicate of the group with that digest. Records with other
/// digests are passed over.
pub open spec fn matched(groups: Seq<GroupView>, list: Seq<ItemView>) -> Seq<GroupView>
    decreases list.len(),
{
    if list.len() == 0 {
        groups
    } else {
        with_dupe(matched(groups, list.drop_last()), list.last().digest, list.last().path)
    }
}

/// The paths of `paths` that differ from `path`, in order.
pub open spec fn without(paths: Seq<Seq<char>>, path: Seq<char>) -> Seq<Seq<char>>
    decreases paths.len(),
{
    if paths.len() == 0 {
        Seq::empty()
    } else if paths.last() == path {
        without(paths.drop_last(), path)
    } else {
        without(paths.drop_last(), path).push(paths.last())
    }
}

/// Where the content of a needle is found in the haystack: the record of
/// the needle, with the duplicates it had, then the primary path of the
/// haystack group and those of its duplicates that are not the needle
/// itself.
pub open spec fn found_group(needle: GroupView, hay: GroupView) -> GroupView {
    GroupView {
        item: needle.item,
        dupes: needle.dupes.push(hay.item.path) + without(hay.dupes, needle.item.path),
    }
}

/// Whether the haystack holds the content of the needle at another path
/// than the needle does.
pub open spec fn is_found(needle: GroupView, hay: Seq<GroupView>) -> bool {
    has_key(hay, needle.item.digest) && hay[key_index(hay, needle.item.digest)].item.path
        != needle.item.path
}

/// For each group of the needle index that the haystack has under another
/// path, in order, where it is found.
pub open spec fn found(needle: Seq<GroupView>, hay: Seq<GroupView>) -> Seq<GroupView>
    decreases needle.len(),
{
    if needle.len() == 0 {
        Seq::empty()
    } else {
        let rest = found(needle.drop_last(), hay);
        let last = needle.last();
        if is_found(last, hay) {
            rest.push(found_group(last, hay[key_index(hay, last.item.digest)]))
        } else {
            rest
        }
    }
}

/// The groups whose primary record has a size above 0, in order.
pub open spec fn non_empty(groups: Seq<GroupView>) -> Seq<GroupView>
    decreases groups.len(),
{
    if groups.len() == 0 {
        Seq::empty()
    } else if groups.last().item.size > 0 {
        non_empty(groups.drop_last()).push(groups.last())
    } else {
        non_empty(groups.drop_last())
    }
}

/// The storage that removing every duplicate would free: for each group
/// the size of its primary record times the number of its duplicates.
pub open spec fn reclaimable(groups: Seq<GroupView>) -> nat
    decreases groups.len(),
{
    if groups.len() == 0 {
        0
    } else {
        reclaimable(groups.drop_last()) + groups.last().item.size as nat
            * groups.last().dupes.len()
    }
}

/// The paths of all duplicates, group by group.
pub open spec fn all_dupes(groups: Seq<GroupView>) -> Seq<Seq<char>>
    decreases groups.len(),
{
    if groups.len() == 0 {
        Seq::empty()
    } else {
        all_dupes(groups.drop_last()) + groups.last().dupes
    }
}

/// The paths that are given, each once, in the order in which they first
/// occur.
pub open spec fn unique(dirs: Seq<Option<Seq<char>>>) -> Seq<Seq<char>>
    decreases dirs.len(),
{
    if dirs.len() == 0 {
        Seq::empty()
    } else {
        let rest = unique(dirs.drop_last());
        match dirs.last() {
            Some(dir) => if rest.contains(dir) {
                rest
            } else {
                rest.push(dir)
            },
            None => rest,
        }
    }
}

/// What a size is shown as: in whole units of 1024 bytes, of 1024 of
/// those, or of 1024 of those again, where it is above one such unit, the
/// remainder cut off; in bytes otherwise.
pub open spec fn size_text(size: u64) -> Seq<char> {
    if size > 1024 * 1024 * 1024 {
        decimal((size >> 30) as nat) + " GB"@
    } else if size > 1024 * 1024 {
        decimal((size >> 20) as nat) + " MB"@
    } else if size > 1024 {
        decimal((size >> 10) as nat) + " KB"@
    } else {
        decimal(size as nat) + " Bytes"@
    }
}

/// Matching brings duplicates and nothing else: the groups stay in their
/// places with their primary records.
pub proof fn lemma_matched_keeps_primaries(groups: Seq<GroupView>, list: Seq<ItemView>)
    ensures
        matched(groups, list).len() == groups.len(),
        forall|i: int|
            0 <= i < groups.len() ==> (#[trigger] matched(groups, list)[i]).item == groups[i].item,
    decreases list.len(),
{
    if list.len() > 0 {
        lemma_matched_keeps_primaries(groups, list.drop_last());
        let before = matched(groups, list.drop_last());
        assert forall|i: int| 0 <= i < groups.len() implies (#[trigger] matched(
            groups,
            list,
        )[i]).item == groups[i].item by {
            assert(before[i].item == groups[i].item);
        }
    }
}

/// A group of `found` has the digest of a group of the needle index.
pub proof fn lemma_found_keys(needle: Seq<GroupView>, hay: Seq<GroupView>, digest: Seq<char>)
    requires
        has_key(found(needle, hay), digest),
    ensures
        has_key(needle, digest),
    decreases needle.len(),
{
    let front = needle.drop_last();
    let k = key_index(found(needle, hay), digest);
    if is_found(needle.last(), hay) && k == found(front, hay).len() {
        assert(needle[needle.len() - 1].item.digest == digest);
    } else {
        assert(found(front, hay)[k].item.digest == digest);
        lemma_found_keys(front, hay, digest);
        let j = key_index(front, digest);
        assert(needle[j] == front[j]);
    }
}

/// The storage of the first groups is no more than that of all.
pub proof fn lemma_reclaimable_grows(groups: Seq<GroupView>, k: int)
    requires
        0 <= k <= groups.len(),
    ensures
        reclaimable(groups.subrange(0, k)) <= reclaimable(groups),
    decreases groups.len() - k,
{
    if k == groups.len() {
        assert(groups.subrange(0, k) =~= groups);
    } else {
        lemma_reclaimable_grows(groups.drop_last(), k);
        assert(groups.drop_last().subrange(0, k) =~= groups.subrange(0, k));
        assert(groups.last().item.size as nat * groups.last().dupes.len() >= 0) by (nonlinear_arith);
    }
}

/// No path occurs twice in `unique`.
pub proof fn lemma_unique_no_duplicates(dirs: Seq<Option<Seq<char>>>)
    ensures
        unique(dirs).no_duplicates(),
    decreases dirs.len(),
{
    if dirs.len() > 0 {
        lemma_unique_no_duplicates(dirs.drop_last());
    }
}

/// `unique` holds exactly the paths that are given.
pub proof fn lemma_unique_contains(dirs: Seq<Option<Seq<char>>>, dir: Seq<char>)
    ensures
        unique(dirs).contains(dir) <==> dirs.contains(Some(dir)),
    decreases dirs.len(),
{
    if dirs.len() > 0 {
        let front = dirs.drop_last();
        lemma_unique_contains(front, dir);
        let rest = unique(front);
        if dirs.contains(Some(dir)) {
            let i = choose|i: int| 0 <= i < dirs.len() && dirs[i] == Some(dir);
            if i < front.len() {
                assert(front[i] == Some(dir));
                let j = choose|j: int| 0 <= j < rest.len() && rest[j] == dir;
                assert(unique(dirs)[j] == dir);
            } else {
                if rest.contains(dir) {
                } else {
                    assert(unique(dirs)[rest.len() as int] == dir);
                }
            }
        }
        if unique(dirs).contains(dir) {
            let j = choose|j: int| 0 <= j < unique(dirs).len() && unique(dirs)[j] == dir;
            if j < rest.len() {
                assert(rest[j] == dir);
                let i = choose|i: int| 0 <= i < front.len() && front[i] == Some(dir);
                assert(dirs[i] == Some(dir));
            } else {
                assert(dirs[dirs.len() - 1] == Some(dir));
            }
        }
    }
}

impl TreeIndex {
    /// Matches the index against a scanned tree: the path of every record
    /// of `list` whose digest the index has becomes a duplicate of the
    /// group with that digest.
    pub fn match_list(&mut self, list: &TreeList)
        requires
            old(self).wf(),
        ensures
            final(self).wf(),
            final(self)@ == matched(old(self)@, list@),
    {
        let mut i: usize = 0;
        assert(list@.subrange(0, 0) =~= Seq::<ItemView>::empty());
        while i < list.list.len()
            invariant
                i <= list.list@.len(),
                self.wf(),
                self@ == matched(old(self)@, list@.subrange(0, i as int)),
            decreases list.list@.len() - i,
        {
            proof {
                let now = list@.subrange(0, i + 1);
                assert(now.drop_last() =~= list@.subrange(0, i as int));
                assert(now.last() == list.list@[i as int]@);
            }
            let item = &list.list[i];
            self.push_dupe(item.digest.as_str(), item.path.clone());
            i += 1;
        }
        assert(list@.subrange(0, i as int) =~= list@);
    }

    /// Finds the groups of this index, the needles, in `haystack`: see
    /// `found`.
    pub fn find(&self, haystack: &TreeIndex) -> (out: TreeIndex)
        requires
            self.wf(),
            haystack.wf(),
        ensures
            out.wf(),
            out@ == found(self@, haystack@),
    {
        let needles = self.groups();
        let mut out = TreeIndex::new();
        let mut i: usize = 0;
        assert(self@.subrange(0, 0) =~= Seq::<GroupView>::empty());
        proof {
            self.lemma_distinct();
        }
        while i < needles.len()
            invariant
                i <= needles@.len(),
                groups_view(needles@) == self@,
                distinct_keys(self@),
                haystack.wf(),
                out.wf(),
                out@ == found(self@.subrange(0, i as int), haystack@),
            decreases needles@.len() - i,
        {
            let needle = &needles[i];
            let ghost front = self@.subrange(0, i as int);
            proof {
                let now = self@.subrange(0, i + 1);
                assert(now.drop_last() =~= front);
                assert(now.last() == needle@);
            }
            match haystack.get(needle.item.digest.as_str()) {
                Some(hay) => {
                    if !(needle.item.path == hay.item.path) {
                        let mut group = needle.clone();
                        group.push(hay.item.path.clone());
                        let mut j: usize = 0;
                        assert(hay@.dupes.subrange(0, 0) =~= Seq::<Seq<char>>::empty());
                        assert(group@.dupes =~= needle@.dupes.push(hay@.item.path) + without(
                            hay@.dupes.subrange(0, 0),
                            needle@.item.path,
                        ));
                        while j < hay.dupes.len()
                            invariant
                                j <= hay.dupes@.len(),
                                group@.item == needle@.item,
                                group@.dupes == needle@.dupes.push(hay@.item.path) + without(
                                    hay@.dupes.subrange(0, j as int),
                                    needle@.item.path,
                                ),
                            decreases hay.dupes@.len() - j,
                        {
                            proof {
                                let now = hay@.dupes.subrange(0, j + 1);
                                assert(now.drop_last() =~= hay@.dupes.subrange(0, j as int));
                                assert(now.last() == hay.dupes@[j as int]@);
                            }
                            if !(needle.item.path == hay.dupes[j]) {
                                group.push(hay.dupes[j].clone());
                            }
                            j += 1;
                            assert(group@.dupes =~= needle@.dupes.push(hay@.item.path) + without(
                                hay@.dupes.subrange(0, j as int),
                                needle@.item.path,
                            ));
                        }
                        proof {
                            assert(hay@.dupes.subrange(0, j as int) =~= hay@.dupes);
                            assert(group@ == found_group(needle@, hay@));
                            if has_key(out@, needle@.item.digest) {
                                lemma_found_keys(front, haystack@, needle@.item.digest);
                                let k = key_index(front, needle@.item.digest);
                                assert(front[k] == self@[k]);
                                assert(self@[k].item.digest != self@[i as int].item.digest);
                            }
                        }
                        out.insert(group);
                    }
                },
                None => {},
            }
            i += 1;
        }
        assert(self@.subrange(0, i as int) =~= self@);
        out
    }

    /// The index without the groups of empty files: the groups whose
    /// primary record has a size above 0, with their duplicates.
    pub fn prune_zeroes(&self) -> (out: TreeIndex)
        requires
            self.wf(),
        ensures
            out.wf(),
            out@ == non_empty(self@),
    {
        let groups = self.groups();
        let mut out = TreeIndex::new();
        let mut i: usize = 0;
        assert(self@.subrange(0, 0) =~= Seq::<GroupView>::empty());
        proof {
            self.lemma_distinct();
        }
        while i < groups.len()
            invariant
                i <= groups@.len(),
                groups_view(groups@) == self@,
                distinct_keys(self@),
                out.wf(),
                out@ == non_empty(self@.subrange(0, i as int)),
            decreases groups@.len() - i,
        {
            let group = &groups[i];
            let ghost front = self@.subrange(0, i as int);
            proof {
                let now = self@.subrange(0, i + 1);
                assert(now.drop_last() =~= front);
                assert(now.last() == group@);
            }
            if group.item.size > 0 {
                proof {
                    if has_key(out@, group@.item.digest) {
                        lemma_non_empty_keys(front, group@.item.digest);
                        let k = key_index(front, group@.item.digest);
                        assert(front[k] == self@[k]);
                        assert(self@[k].item.digest != self@[i as int].item.digest);
                    }
                }
                out.insert(group.clone());
            }
            i += 1;
        }
        assert(self@.subrange(0, i as int) =~= self@);
        out
    }

    /// The storage that removing every duplicate would free, or `None`
    /// where that is more than 64 bits hold.
    pub fn dupe_size(&self) -> (total: Option<u64>)
        ensures
            match total {
                Some(size) => size == reclaimable(self@),
                None => reclaimable(self@) > u64::MAX,
            },
    {
        let groups = self.groups();
        let mut size: u64 = 0;
        let mut i: usize = 0;
        assert(self@.subrange(0, 0) =~= Seq::<GroupView>::empty());
        while i < groups.len()
            invariant
                i <= groups@.len(),
                groups_view(groups@) == self@,
                size == reclaimable(self@.subrange(0, i as int)),
            decreases groups@.len() - i,
        {
            let group = &groups[i];
            let count: usize = group.dupes.len();
            proof {
                let now = self@.subrange(0, i + 1);
                assert(now.drop_last() =~= self@.subrange(0, i as int));
                assert(now.last() == group@);
                assert(group@.dupes.len() == count);
                lemma_reclaimable_grows(self@, i + 1);
            }
            let sized: u128 = group.item.size as u128;
            let times: u128 = count as u128;
            assert(0 <= sized * times <= 0xffff_ffff_ffff_ffff * 0xffff_ffff_ffff_ffff)
                by (nonlinear_arith)
                requires
                    0 <= sized <= 0xffff_ffff_ffff_ffff,
                    0 <= times <= 0xffff_ffff_ffff_ffff,
            ;
            let product: u128 = sized * times;
            let sum: u128 = size as u128 + product;
            if sum > u64::MAX as u128 {
                return None;
            }
            size = sum as u64;
            i += 1;
        }
        assert(self@.subrange(0, i as int) =~= self@);
        Some(size)
    }

    /// The paths of all duplicates, group by group.
    pub fn dupe_paths(&self) -> (paths: Vec<String>)
        ensures
            paths_view(paths@) == all_dupes(self@),
    {
        let groups = self.groups();
        let mut paths: Vec<String> = Vec::new();
        let mut i: usize = 0;
        assert(self@.subrange(0, 0) =~= Seq::<GroupView>::empty());
        assert(paths_view(paths@) =~= Seq::<Seq<char>>::empty());
        while i < groups.len()
            invariant
                i <= groups@.len(),
                groups_view(groups@) == self@,
                paths_view(paths@) == all_dupes(self@.subrange(0, i as int)),
            decreases groups@.len() - i,
        {
            let group = &groups[i];
            let ghost before = paths_view(paths@);
            proof {
                let now = self@.subrange(0, i + 1);
                assert(now.drop_last() =~= self@.subrange(0, i as int));
                assert(now.last() == group@);
            }
            let mut j: usize = 0;
            while j < group.dupes.len()
                invariant
                    j <= group.dupes@.len(),
                    paths_view(paths@) == before + group@.dupes.subrange(0, j as int),
                decreases group.dupes@.len() - j,
            {
                let ghost prev = paths_view(paths@);
                paths.push(group.dupes[j].clone());
                assert(paths_view(paths@) =~= prev.push(group@.dupes[j as int]));
                j += 1;
                assert(group@.dupes.subrange(0, j as int) =~= group@.dupes.subrange(0, j - 1).push(
                    group@.dupes[j - 1],
                ));
                assert(paths_view(paths@) =~= before + group@.dupes.subrange(0, j as int));
            }
            assert(group@.dupes.subrange(0, j as int) =~= group@.dupes);
            i += 1;
        }
        assert(self@.subrange(0, i as int) =~= self@);
        paths
    }

    /// The parent directories of the duplicates, each once, in the order
    /// in which they first occur. A path without a parent brings none.
    pub fn dupe_dirs(&self) -> (dirs: Vec<String>)
        ensures
            paths_view(dirs@) == unique(parent_dirs(all_dupes(self@))),
            paths_view(dirs@).no_duplicates(),
    {
        let paths = self.dupe_paths();
        let mut parents: Vec<Option<String>> = Vec::new();
        let mut i: usize = 0;
        while i < paths.len()
            invariant
                i <= paths@.len(),
                parents@.len() == i,
                forall|j: int|
                    0 <= j < i ==> dir_view(#[trigger] parents@[j]) == parent_dir(paths@[j]@),
            decreases paths@.len() - i,
        {
            parents.push(parent_of(paths[i].as_str()));
            i += 1;
        }
        assert(dirs_view(parents@) =~= parent_dirs(paths_view(paths@)));
        unique_dirs(&parents)
    }
}

/// A group of `non_empty` is one of the groups.
pub proof fn lemma_non_empty_keys(groups: Seq<GroupView>, digest: Seq<char>)
    requires
        has_key(non_empty(groups), digest),
    ensures
        has_key(groups, digest),
    decreases groups.len(),
{
    let front = groups.drop_last();
    let k = key_index(non_empty(groups), digest);
    if groups.last().item.size > 0 && k == non_empty(front).len() {
        assert(groups[groups.len() - 1].item.digest == digest);
    } else {
        assert(non_empty(front)[k].item.digest == digest);
        lemma_non_empty_keys(front, digest);
        let j = key_index(front, digest);
        assert(groups[j] == front[j]);
    }
}

/// The directory that `dir` holds, if any.
pub open spec fn dir_view(dir: Option<String>) -> Option<Seq<char>> {
    match dir {
        Some(d) => Some(d@),
        None => None,
    }
}

/// The directories that `dirs` holds.
pub open spec fn dirs_view(dirs: Seq<Option<String>>) -> Seq<Option<Seq<char>>> {
    dirs.map_values(|dir: Option<String>| dir_view(dir))
}

/// The parent directory of a path: the path without its last component,
/// and `None` where it has none to take away. Where one component ends and
/// the next begins is as the platform that the library is built for has
/// it.
pub uninterp spec fn parent_dir(path: Seq<char>) -> Option<Seq<char>>;

/// The parent directories of the paths, in their order.
pub open spec fn parent_dirs(paths: Seq<Seq<char>>) -> Seq<Option<Seq<char>>> {
    paths.map_values(|path: Seq<char>| parent_dir(path))
}

/// `Path::parent`: the path without its last component, where it has one.
/// The result is a part of the path that was given, which is text, and is
/// handed back as text.
#[verifier::external_body]
fn parent_of(path: &str) -> (parent: Option<String>)
    ensures
        dir_view(parent) == parent_dir(path@),
{
    match std::path::Path::new(path).parent() {
        Some(dir) => Some(dir.to_string_lossy().into_owned()),
        None => None,
    }
}

/// The directories that are given, each once, in the order in which they
/// first occur.
pub fn unique_dirs(dirs: &Vec<Option<String>>) -> (out: Vec<String>)
    ensures
        paths_view(out@) == unique(dirs_view(dirs@)),
        paths_view(out@).no_duplicates(),
{
    let mut out: Vec<String> = Vec::new();
    let mut seen: StringHashMap<bool> = StringHashMap::new();
    let mut i: usize = 0;
    let ghost all = dirs_view(dirs@);
    assert(paths_view(out@) =~= unique(all.subrange(0, 0)));
    while i < dirs.len()
        invariant
            i <= dirs@.len(),
            all == dirs_view(dirs@),
            paths_view(out@) == unique(all.subrange(0, i as int)),
            forall|dir: Seq<char>| seen@.contains_key(dir) <==> paths_view(out@).contains(dir),
        decreases dirs@.len() - i,
    {
        proof {
            let now = all.subrange(0, i + 1);
            assert(now.drop_last() =~= all.subrange(0, i as int));
            assert(now.last() == all[i as int]);
        }
        let ghost before = paths_view(out@);
        match &dirs[i] {
            Some(dir) => {
                if !seen.contains_key(dir.as_str()) {
                    seen.insert(dir.clone(), true);
                    out.push(dir.clone());
                    proof {
                        assert(paths_view(out@) =~= before.push(dir@));
                        assert forall|d: Seq<char>| seen@.contains_key(d) <==> paths_view(
                            out@,
                        ).contains(d) by {
                            if before.contains(d) {
                                let k = choose|k: int| 0 <= k < before.len() && before[k] == d;
                                assert(paths_view(out@)[k] == d);
                            }
                            if d == dir@ {
                                assert(paths_view(out@)[before.len() as int] == d);
                            }
                        }
                    }
                }
            },
            None => {},
        }
        i += 1;
    }
    proof {
        assert(all.subrange(0, i as int) =~= all);
        lemma_unique_no_duplicates(all);
    }
    out
}

/// The size as the reports show it.
pub fn format_size(size: u64) -> (text: String)
    ensures
        text@ == size_text(size),
{
    let mut text = String::new();
    if size > 1024 * 1024 * 1024 {
        push_decimal(&mut text, size >> 30);
        text.append(" GB");
    } else if size > 1024 * 1024 {
        push_decimal(&mut text, size >> 20);
        text.append(" MB");
    } else if size > 1024 {
        push_decimal(&mut text, size >> 10);
        text.append(" KB");
    } else {
        push_decimal(&mut text, size);
        text.append(" Bytes");
    }
    assert(text@ =~= size_text(size));
    text
}

} // verus!
