//! The index: groups of duplicates, one for each digest.

use vstd::prelude::*;
use vstd::hash_map::StringHashMap;
use crate::cli::fs::treeitem::{group_text, GroupView, ItemView, TreeItem, TreeItemDupes};
use crate::cli::fs::confirm::{Confirm, ConfirmView};
use crate::cli::fs::format::{fault_message, read_index, read_text};
use crate::cli::fs::merge::{lemma_merge, merged};
use crate::cli::fs::treelist::TreeList;
use crate::error::Error;

verus! {

/// Whether one of `groups` has the digest.
pub open spec fn has_key(groups: Seq<GroupView>, digest: Seq<char>) -> bool {
    exists|i: int| 0 <= i < groups.len() && (#[trigger] groups[i]).item.digest == digest
}

/// The place of a group that has the digest.
pub open spec fn key_index(groups: Seq<GroupView>, digest: Seq<char>) -> int {
    choose|i: int| 0 <= i < groups.len() && (#[trigger] groups[i]).item.digest == digest
}

/// No two of `groups` have the same digest.
pub open spec fn distinct_keys(groups: Seq<GroupView>) -> bool {
    forall|i: int, j: int|
        0 <= i < j < groups.len() ==> (#[trigger] groups[i]).item.digest != (
        #[trigger] groups[j]).item.digest
}

/// `groups` with `path` added behind the duplicates of the group that has
/// the digest. Without such a group nothing changes.
pub open spec fn with_dupe(groups: Seq<GroupView>, digest: Seq<char>, path: Seq<char>) -> Seq<
    GroupView,
> {
    if has_key(groups, digest) {
        let i = key_index(groups, digest);
        groups.update(i, GroupView { dupes: groups[i].dupes.push(path), ..groups[i] })
    } else {
        groups
    }
}

/// `groups` with `group` stored under its digest: in the place of the group
/// that had the digest, or behind all others when there was none.
pub open spec fn with_group(groups: Seq<GroupView>, group: GroupView) -> Seq<GroupView> {
    if has_key(groups, group.item.digest) {
        groups.update(key_index(groups, group.item.digest), group)
    } else {
        groups.push(group)
    }
}

/// `groups` with `item` as the primary record of the group that has its
/// digest, which keeps its duplicates. Without such a group nothing
/// changes.
pub open spec fn with_item(groups: Seq<GroupView>, item: ItemView) -> Seq<GroupView> {
    if has_key(groups, item.digest) {
        let i = key_index(groups, item.digest);
        groups.update(i, GroupView { item, dupes: groups[i].dupes })
    } else {
        groups
    }
}

/// `groups` after one more record was seen. The first record with a digest
/// starts a group; a later one adds its path to that group when duplicates
/// are tracked, and is dropped when they are not.
pub open spec fn absorb(groups: Seq<GroupView>, record: ItemView, with_dupes: bool) -> Seq<
    GroupView,
> {
    if !has_key(groups, record.digest) {
        groups.push(GroupView { item: record, dupes: Seq::empty() })
    } else if with_dupes {
        with_dupe(groups, record.digest, record.path)
    } else {
        groups
    }
}

/// `groups` after the records of `list` were seen in order.
pub open spec fn merge(groups: Seq<GroupView>, list: Seq<ItemView>, with_dupes: bool) -> Seq<
    GroupView,
>
    decreases list.len(),
{
    if list.len() == 0 {
        groups
    } else {
        absorb(merge(groups, list.drop_last(), with_dupes), list.last(), with_dupes)
    }
}

/// The largest size among the primary records, and 0 without any.
pub open spec fn max_size(groups: Seq<GroupView>) -> u64
    decreases groups.len(),
{
    if groups.len() == 0 {
        0
    } else {
        let rest = max_size(groups.drop_last());
        if groups.last().item.size > rest {
            groups.last().item.size
        } else {
            rest
        }
    }
}

/// The number of duplicates in all groups together.
pub open spec fn dupe_count(groups: Seq<GroupView>) -> nat
    decreases groups.len(),
{
    if groups.len() == 0 {
        0
    } else {
        dupe_count(groups.drop_last()) + groups.last().dupes.len()
    }
}

/// The text of an index: the text of each group, in order.
pub open spec fn index_text(groups: Seq<GroupView>) -> Seq<char>
    decreases groups.len(),
{
    if groups.len() == 0 {
        Seq::empty()
    } else {
        index_text(groups.drop_last()) + group_text(groups.last())
    }
}

/// `max_size` is an upper bound that one of the groups reaches.
pub proof fn lemma_max_size(groups: Seq<GroupView>)
    ensures
        forall|i: int| 0 <= i < groups.len() ==> (#[trigger] groups[i]).item.size <= max_size(groups),
        groups.len() == 0 ==> max_size(groups) == 0,
        groups.len() > 0 ==> exists|i: int|
            0 <= i < groups.len() && (#[trigger] groups[i]).item.size == max_size(groups),
    decreases groups.len(),
{
    if groups.len() > 0 {
        let rest = groups.drop_last();
        lemma_max_size(rest);
        assert forall|i: int| 0 <= i < groups.len() implies (#[trigger] groups[i]).item.size
            <= max_size(groups) by {
            if i < rest.len() {
                assert(groups[i] == rest[i]);
            }
        }
        if groups.last().item.size > max_size(rest) || rest.len() == 0 {
            assert(groups[groups.len() - 1].item.size == max_size(groups));
        } else {
            let i = choose|i: int| 0 <= i < rest.len() && (#[trigger] rest[i]).item.size == max_size(rest);
            assert(groups[i] == rest[i]);
        }
    }
}

/// With distinct digests, the place of a digest is the only place where
/// it stands.
pub proof fn lemma_key_index(groups: Seq<GroupView>, i: int)
    requires
        distinct_keys(groups),
        0 <= i < groups.len(),
    ensures
        has_key(groups, groups[i].item.digest),
        key_index(groups, groups[i].item.digest) == i,
{
    let d = groups[i].item.digest;
    let k = key_index(groups, d);
    if k < i {
        assert(groups[k].item.digest != groups[i].item.digest);
    } else if i < k {
        assert(groups[i].item.digest != groups[k].item.digest);
    }
}

/// A map from digest to group. Each group is stored under the digest of
/// its primary record, and the groups keep the order in which their digests
/// were first stored.
pub struct TreeIndex {
    groups: Vec<TreeItemDupes>,
    slots: StringHashMap<usize>,
}

/// The groups that `groups` holds.
pub open spec fn groups_view(groups: Seq<TreeItemDupes>) -> Seq<GroupView> {
    groups.map_values(|g: TreeItemDupes| g@)
}

impl View for TreeIndex {
    type V = Seq<GroupView>;

    closed spec fn view(&self) -> Seq<GroupView> {
        groups_view(self.groups@)
    }
}

impl Default for TreeIndex {
    fn default() -> (index: Self)
        ensures
            index.wf(),
            index@ == Seq::<GroupView>::empty(),
    {
        TreeIndex::new()
    }
}

impl Clone for TreeIndex {
    fn clone(&self) -> (index: Self)
        ensures
            index@ == self@,
            self.wf() ==> index.wf(),
    {
        let mut groups: Vec<TreeItemDupes> = Vec::new();
        let mut slots: StringHashMap<usize> = StringHashMap::new();
        let mut i: usize = 0;
        while i < self.groups.len()
            invariant
                i <= self.groups@.len(),
                groups@.len() == i,
                forall|j: int| 0 <= j < i ==> (#[trigger] groups@[j])@ == self.groups@[j]@,
                self.wf() ==> forall|j: int|
                    0 <= j < i ==> slots@.contains_key((#[trigger] self.groups@[j]).item.digest@)
                        && slots@[self.groups@[j].item.digest@] == j,
                self.wf() ==> forall|k: Seq<char>|
                    slots@.contains_key(k) ==> (#[trigger] slots@[k]) < i
                        && self.groups@[slots@[k] as int].item.digest@ == k,
            decreases self.groups@.len() - i,
        {
            let group = self.groups[i].clone();
            proof {
                if self.wf() && slots@.contains_key(group.item.digest@) {
                    let j = slots@[group.item.digest@];
                    assert(self.slots@[self.groups@[j as int].item.digest@] == j);
                    assert(self.slots@[self.groups@[i as int].item.digest@] == i);
                }
            }
            slots.insert(group.item.digest.clone(), i);
            groups.push(group);
            i += 1;
        }
        let index = TreeIndex { groups, slots };
        proof {
            assert(index@ =~= self@);
            if self.wf() {
                assert forall|j: int| 0 <= j < index.groups@.len() implies index.slots@.contains_key(
                    (#[trigger] index.groups@[j]).item.digest@,
                ) && index.slots@[index.groups@[j].item.digest@] == j by {
                    assert(index.groups@[j]@ == self.groups@[j]@);
                }
                assert forall|k: Seq<char>| index.slots@.contains_key(k) implies (
                #[trigger] index.slots@[k]) < index.groups@.len() && index.groups@[index.slots@[k] as int].item.digest@
                    == k by {
                    let j = index.slots@[k];
                    assert(index.groups@[j as int]@ == self.groups@[j as int]@);
                }
            }
        }
        index
    }
}

impl TreeIndex {
    /// Each digest has one group, and the index knows its place.
    pub closed spec fn wf(&self) -> bool {
        &&& forall|i: int|
            0 <= i < self.groups@.len() ==> self.slots@.contains_key(
                (#[trigger] self.groups@[i]).item.digest@,
            ) && self.slots@[self.groups@[i].item.digest@] == i
        &&& forall|k: Seq<char>|
            self.slots@.contains_key(k) ==> (#[trigger] self.slots@[k]) < self.groups@.len()
                && self.groups@[self.slots@[k] as int].item.digest@ == k
    }

    /// No digest has two groups.
    pub proof fn lemma_distinct(&self)
        requires
            self.wf(),
        ensures
            distinct_keys(self@),
    {
        assert forall|i: int, j: int| 0 <= i < j < self@.len() implies (#[trigger] self@[i]).item.digest
            != (#[trigger] self@[j]).item.digest by {
            assert(self@[i] == self.groups@[i]@);
            assert(self@[j] == self.groups@[j]@);
        }
    }

    /// An index without groups.
    pub fn new() -> (index: Self)
        ensures
            index.wf(),
            index@ == Seq::<GroupView>::empty(),
    {
        let index = TreeIndex { groups: Vec::new(), slots: StringHashMap::new() };
        assert(index@ =~= Seq::<GroupView>::empty());
        index
    }

    /// The number of groups.
    pub fn len(&self) -> (n: usize)
        ensures
            n == self@.len(),
    {
        self.groups.len()
    }

    /// The groups, in the order in which their digests were first stored.
    pub fn groups(&self) -> (groups: &[TreeItemDupes])
        ensures
            groups_view(groups@) == self@,
    {
        self.groups.as_slice()
    }

    /// The place of the group that has the digest.
    fn slot(&self, digest: &str) -> (at: Option<usize>)
        requires
            self.wf(),
        ensures
            at is Some <==> has_key(self@, digest@),
            at matches Some(i) ==> i < self@.len() && i == key_index(self@, digest@)
                && self.groups@[i as int].item.digest@ == digest@,
    {
        proof {
            self.lemma_distinct();
        }
        match self.slots.get(digest) {
            Some(i) => {
                proof {
                    assert(self@[*i as int] == self.groups@[*i as int]@);
                    lemma_key_index(self@, *i as int);
                }
                Some(*i)
            },
            None => {
                proof {
                    if has_key(self@, digest@) {
                        let k = key_index(self@, digest@);
                        assert(self@[k] == self.groups@[k]@);
                    }
                }
                None
            },
        }
    }

    /// The group that has the digest.
    pub fn get(&self, digest: &str) -> (found: Option<&TreeItemDupes>)
        requires
            self.wf(),
        ensures
            found is Some <==> has_key(self@, digest@),
            found matches Some(group) ==> group@ == self@[key_index(self@, digest@)]
                && group@.item.digest == digest@,
    {
        match self.slot(digest) {
            Some(i) => Some(&self.groups[i]),
            None => None,
        }
    }

    /// Whether a group has the digest.
    pub fn contains_key(&self, digest: &str) -> (found: bool)
        requires
            self.wf(),
        ensures
            found == has_key(self@, digest@),
    {
        self.slot(digest).is_some()
    }

    /// Stores `group` under the digest of its primary record. A group that
    /// was stored under that digest is replaced.
    pub fn insert(&mut self, group: TreeItemDupes)
        requires
            old(self).wf(),
        ensures
            final(self).wf(),
            final(self)@ == with_group(old(self)@, group@),
    {
        match self.slot(group.item.digest.as_str()) {
            Some(i) => {
                let ghost before = self.groups@;
                self.groups[i] = group;
                proof {
                    assert(self@ =~= with_group(old(self)@, group@));
                    assert forall|k: Seq<char>| self.slots@.contains_key(k) implies (
                    #[trigger] self.slots@[k]) < self.groups@.len() && self.groups@[self.slots@[k] as int].item.digest@
                        == k by {
                        let j = self.slots@[k];
                        if j != i {
                            assert(self.groups@[j as int] == before[j as int]);
                        }
                    }
                    assert forall|j: int| 0 <= j < self.groups@.len() implies self.slots@.contains_key(
                        (#[trigger] self.groups@[j]).item.digest@,
                    ) && self.slots@[self.groups@[j].item.digest@] == j by {
                        if j != i {
                            assert(self.groups@[j] == before[j]);
                        } else {
                            assert(before[i as int].item.digest@ == group.item.digest@);
                        }
                    }
                }
            },
            None => {
                let n = self.groups.len();
                let ghost before = self.groups@;
                assert(!self.slots@.contains_key(group.item.digest@)) by {
                    if self.slots@.contains_key(group.item.digest@) {
                        let k = self.slots@[group.item.digest@];
                        assert(self@[k as int] == self.groups@[k as int]@);
                    }
                }
                self.slots.insert(group.item.digest.clone(), n);
                self.groups.push(group);
                proof {
                    assert(self@ =~= with_group(old(self)@, group@));
                    assert forall|j: int| 0 <= j < self.groups@.len() implies self.slots@.contains_key(
                        (#[trigger] self.groups@[j]).item.digest@,
                    ) && self.slots@[self.groups@[j].item.digest@] == j by {
                        if j < n {
                            assert(self.groups@[j] == before[j]);
                        }
                    }
                    assert forall|k: Seq<char>| self.slots@.contains_key(k) implies (
                    #[trigger] self.slots@[k]) < self.groups@.len() && self.groups@[self.slots@[k] as int].item.digest@
                        == k by {
                        if k != group.item.digest@ {
                            let j = self.slots@[k];
                            assert(self.groups@[j as int] == before[j as int]);
                        }
                    }
                }
            },
        }
    }

    /// Makes `item` the primary record of the group that has its digest,
    /// which keeps its duplicates, and says whether there is such a group.
    pub fn replace_item(&mut self, item: TreeItem) -> (found: bool)
        requires
            old(self).wf(),
        ensures
            final(self).wf(),
            found == has_key(old(self)@, item@.digest),
            final(self)@ == with_item(old(self)@, item@),
    {
        match self.slot(item.digest.as_str()) {
            Some(i) => {
                let ghost before = self.groups@;
                self.groups[i].item = item;
                proof {
                    assert(self.groups@[i as int].dupes == before[i as int].dupes);
                    assert forall|j: int| 0 <= j < before.len() && j != i implies self.groups@[j]
                        == before[j] by {}
                    assert(self@ =~= with_item(old(self)@, item@));
                    assert forall|k: Seq<char>| self.slots@.contains_key(k) implies (
                    #[trigger] self.slots@[k]) < self.groups@.len() && self.groups@[self.slots@[k] as int].item.digest@
                        == k by {
                        let j = self.slots@[k];
                        if j != i {
                            assert(self.groups@[j as int] == before[j as int]);
                        }
                    }
                    assert forall|j: int| 0 <= j < self.groups@.len() implies self.slots@.contains_key(
                        (#[trigger] self.groups@[j]).item.digest@,
                    ) && self.slots@[self.groups@[j].item.digest@] == j by {
                        if j != i {
                            assert(self.groups@[j] == before[j]);
                        } else {
                            assert(before[i as int].item.digest@ == item.digest@);
                        }
                    }
                }
                true
            },
            None => false,
        }
    }

    /// Adds `path` behind the duplicates of the group that has the digest,
    /// and says whether there is such a group.
    pub fn push_dupe(&mut self, digest: &str, path: String) -> (found: bool)
        requires
            old(self).wf(),
        ensures
            final(self).wf(),
            found == has_key(old(self)@, digest@),
            final(self)@ == with_dupe(old(self)@, digest@, path@),
    {
        match self.slot(digest) {
            Some(i) => {
                let ghost before = self.groups@;
                self.groups[i].dupes.push(path);
                proof {
                    assert(self.groups@[i as int].item == before[i as int].item);
                    assert(self.groups@[i as int]@.dupes =~= before[i as int]@.dupes.push(path@));
                    assert forall|j: int| 0 <= j < before.len() && j != i implies self.groups@[j]
                        == before[j] by {}
                    assert(self@ =~= with_dupe(old(self)@, digest@, path@));
                    assert forall|k: Seq<char>| self.slots@.contains_key(k) implies (
                    #[trigger] self.slots@[k]) < self.groups@.len() && self.groups@[self.slots@[k] as int].item.digest@
                        == k by {
                        let j = self.slots@[k];
                        if j != i {
                            assert(self.groups@[j as int] == before[j as int]);
                        }
                    }
                    assert forall|j: int| 0 <= j < self.groups@.len() implies self.slots@.contains_key(
                        (#[trigger] self.groups@[j]).item.digest@,
                    ) && self.slots@[self.groups@[j].item.digest@] == j by {
                        if j != i {
                            assert(self.groups@[j] == before[j]);
                        }
                    }
                }
                true
            },
            None => false,
        }
    }

    /// Takes in one record: see `absorb`.
    pub fn absorb(&mut self, record: &TreeItem, with_dupes: bool)
        requires
            old(self).wf(),
        ensures
            final(self).wf(),
            final(self)@ == absorb(old(self)@, record@, with_dupes),
    {
        if !self.contains_key(record.digest.as_str()) {
            self.insert(TreeItemDupes::from(record));
        } else if with_dupes {
            self.push_dupe(record.digest.as_str(), record.path.clone());
        }
    }

    /// The largest size among the primary records, and 0 for an index
    /// without groups.
    pub fn max(&self) -> (max: u64)
        ensures
            max == max_size(self@),
            forall|i: int| 0 <= i < self@.len() ==> (#[trigger] self@[i]).item.size <= max,
            self@.len() == 0 ==> max == 0,
            self@.len() > 0 ==> exists|i: int|
                0 <= i < self@.len() && (#[trigger] self@[i]).item.size == max,
    {
        let mut max: u64 = 0;
        let mut i: usize = 0;
        while i < self.groups.len()
            invariant
                i <= self.groups@.len(),
                max == max_size(self@.subrange(0, i as int)),
            decreases self.groups@.len() - i,
        {
            assert(self@.subrange(0, i + 1).drop_last() =~= self@.subrange(0, i as int));
            if self.groups[i].item.size > max {
                max = self.groups[i].item.size;
            }
            i += 1;
        }
        proof {
            assert(self@.subrange(0, i as int) =~= self@);
            lemma_max_size(self@);
        }
        max
    }

    /// The number of duplicates in all groups together.
    pub fn count_dupes(&self) -> (count: usize)
        requires
            dupe_count(self@) <= usize::MAX,
        ensures
            count == dupe_count(self@),
    {
        let mut count: usize = 0;
        let mut i: usize = 0;
        while i < self.groups.len()
            invariant
                i <= self.groups@.len(),
                count == dupe_count(self@.subrange(0, i as int)),
                dupe_count(self@) <= usize::MAX,
            decreases self.groups@.len() - i,
        {
            proof {
                assert(self@.subrange(0, i + 1).drop_last() =~= self@.subrange(0, i as int));
                lemma_dupe_count_grows(self@, i + 1);
            }
            count += self.groups[i].dupes.len();
            i += 1;
        }
        assert(self@.subrange(0, i as int) =~= self@);
        count
    }

    /// Appends the text of the index to `out`.
    pub fn write_text(&self, out: &mut String)
        ensures
            final(out)@ == old(out)@ + index_text(self@),
    {
        let mut i: usize = 0;
        assert(out@ =~= old(out)@ + index_text(self@.subrange(0, 0)));
        while i < self.groups.len()
            invariant
                i <= self.groups@.len(),
                out@ == old(out)@ + index_text(self@.subrange(0, i as int)),
            decreases self.groups@.len() - i,
        {
            self.groups[i].write_text(out);
            proof {
                let now = self@.subrange(0, i + 1);
                assert(now.drop_last() =~= self@.subrange(0, i as int));
                assert(now.last() == self.groups@[i as int]@);
                assert(out@ =~= old(out)@ + index_text(now));
            }
            i += 1;
        }
        assert(self@.subrange(0, i as int) =~= self@);
    }

    /// The text of the index: the lines of each group, in the order of the
    /// groups.
    pub fn to_text(&self) -> (text: String)
        ensures
            text@ == index_text(self@),
    {
        let mut out = String::new();
        self.write_text(&mut out);
        assert(out@ =~= index_text(self@));
        out
    }
}

/// The duplicates of the first groups are no more than those of all.
pub proof fn lemma_dupe_count_grows(groups: Seq<GroupView>, k: int)
    requires
        0 <= k <= groups.len(),
    ensures
        dupe_count(groups.subrange(0, k)) <= dupe_count(groups),
    decreases groups.len() - k,
{
    if k == groups.len() {
        assert(groups.subrange(0, k) =~= groups);
    } else {
        lemma_dupe_count_grows(groups.drop_last(), k);
        assert(groups.drop_last().subrange(0, k) =~= groups.subrange(0, k));
    }
}

/// Where an index is built from.
enum TreeIndexFrom<'a> {
    New,
    List(&'a TreeList),
    Reader(&'a str),
}

/// What an index is built from.
pub enum SourceView {
    /// Nothing: the index has no groups.
    New,
    /// The records of a list.
    List(Seq<ItemView>),
    /// The text of an index.
    Reader(Seq<char>),
}

/// Builds an index from nothing, from a list or from text, with or without
/// the duplicates.
pub struct TreeIndexBuilder<'a> {
    with_dupes: bool,
    from: TreeIndexFrom<'a>,
}

impl<'a> TreeIndexBuilder<'a> {
    /// Whether the paths of later records with a known digest are kept.
    pub closed spec fn tracks_dupes(&self) -> bool {
        self.with_dupes
    }

    /// What the index is built from.
    pub closed spec fn source(&self) -> SourceView {
        match self.from {
            TreeIndexFrom::New => SourceView::New,
            TreeIndexFrom::List(list) => SourceView::List(list@),
            TreeIndexFrom::Reader(text) => SourceView::Reader(text@),
        }
    }

    /// A builder of an index without groups, which does not track
    /// duplicates.
    pub fn new() -> (b: Self)
        ensures
            !b.tracks_dupes(),
            b.source() == SourceView::New,
    {
        TreeIndexBuilder { with_dupes: false, from: TreeIndexFrom::New }
    }

    /// Sets whether the paths of later records with a known digest are
    /// kept as duplicates.
    pub fn with_dupes(self, dupes: bool) -> (b: Self)
        ensures
            b.tracks_dupes() == dupes,
            b.source() == self.source(),
    {
        let mut b = self;
        b.with_dupes = dupes;
        b
    }

    /// Builds from the records of `list`.
    pub fn from_list(self, list: &'a TreeList) -> (b: Self)
        ensures
            b.tracks_dupes() == self.tracks_dupes(),
            b.source() == SourceView::List(list@),
    {
        let mut b = self;
        b.from = TreeIndexFrom::List(list);
        b
    }

    /// Builds from the text of an index, as it was read from a file or
    /// from standard input.
    pub fn from_reader(self, text: &'a str) -> (b: Self)
        ensures
            b.tracks_dupes() == self.tracks_dupes(),
            b.source() == SourceView::Reader(text@),
    {
        let mut b = self;
        b.from = TreeIndexFrom::Reader(text);
        b
    }

    /// Starts the confirmation of `index`: a new index is built from full
    /// digests of its files.
    pub fn confirm(self, index: &'a TreeIndex) -> (c: Confirm<'a>)
        requires
            index.wf(),
        ensures
            c.wf(),
            c@.wf(),
            c@ == ConfirmView::start(index@),
    {
        Confirm::new(index)
    }

    /// The index. From a list, the records are merged in order: each digest
    /// gets one group, whose primary record is the first record with that
    /// digest, and whose duplicates are the paths of the later ones where
    /// duplicates are tracked. From text, the records of its lines are
    /// merged in the same way, and the first malformed line is an error
    /// that names it.
    pub fn build(self) -> (r: Result<TreeIndex, Error>)
        ensures
            match self.source() {
                SourceView::New => r matches Ok(index) && index.wf() && index@ == Seq::<
                    GroupView,
                >::empty(),
                SourceView::List(list) => r matches Ok(index) && index.wf() && index@ == merge(
                    Seq::empty(),
                    list,
                    self.tracks_dupes(),
                ) && merged(index@, list, self.tracks_dupes()),
                SourceView::Reader(text) => match read_text(text, self.tracks_dupes()) {
                    Ok(read) => r matches Ok(index) && index.wf() && index@ == read.groups,
                    Err(fault) => r matches Err(Error::InvalidFormat(m)) && m@ == fault_message(
                        fault,
                    ),
                },
            },
    {
        match self.from {
            TreeIndexFrom::New => Ok(TreeIndex::new()),
            TreeIndexFrom::List(list) => {
                let mut index = TreeIndex::new();
                let mut i: usize = 0;
                assert(list@.subrange(0, 0) =~= Seq::<ItemView>::empty());
                while i < list.list.len()
                    invariant
                        i <= list.list@.len(),
                        index.wf(),
                        index@ == merge(Seq::empty(), list@.subrange(0, i as int), self.with_dupes),
                    decreases list.list@.len() - i,
                {
                    proof {
                        let now = list@.subrange(0, i + 1);
                        assert(now.drop_last() =~= list@.subrange(0, i as int));
                        assert(now.last() == list.list@[i as int]@);
                    }
                    index.absorb(&list.list[i], self.with_dupes);
                    i += 1;
                }
                proof {
                    assert(list@.subrange(0, i as int) =~= list@);
                    lemma_merge(list@, self.with_dupes);
                }
                Ok(index)
            },
            TreeIndexFrom::Reader(text) => read_index(text, self.with_dupes),
        }
    }
}

impl<'a> Default for TreeIndexBuilder<'a> {
    fn default() -> (b: Self)
        ensures
            !b.tracks_dupes(),
            b.source() == SourceView::New,
    {
        TreeIndexBuilder::new()
    }
}

} // verus!
