//! Writing an index and reading the text back gives the index again.

use vstd::prelude::*;
use crate::cli::fs::hasher::{is_hex_digest, is_hex_digit};
use crate::cli::fs::format::{lemma_first_break_is, lines_of, parse_line, read_from, read_start, read_text, Fault, LineView, ReadView};
use crate::cli::fs::treeindex::{distinct_keys, has_key, index_text, key_index, lemma_key_index, with_dupe};
use crate::cli::fs::treeitem::{dupe_line, dupes_text, group_text, item_line, GroupView, ItemView};
use crate::text::{decimal, is_white, lemma_decimal, lemma_first_white_is, no_white, size_of};

verus! {

/// A digest that a line can hold: without white space, and not the dash
/// that marks a duplicate.
pub open spec fn writable_digest(digest: Seq<char>) -> bool {
    no_white(digest) && digest != seq!['-']
}

/// Text that is a line of its own when a line break follows it: without a
/// line break, and not ending in a carriage return.
pub open spec fn whole_line(line: Seq<char>) -> bool {
    &&& forall|i: int| 0 <= i < line.len() ==> #[trigger] line[i] != '\n'
    &&& line.len() > 0 ==> line.last() != '\r'
}

/// A path that a line can hold: one that ends a line as it is.
pub open spec fn writable_path(path: Seq<char>) -> bool {
    whole_line(path)
}

/// A group whose digest and paths lines can hold.
pub open spec fn writable_group(group: GroupView) -> bool {
    &&& writable_digest(group.item.digest)
    &&& writable_path(group.item.path)
    &&& forall|i: int| 0 <= i < group.dupes.len() ==> writable_path(#[trigger] group.dupes[i])
}

/// Groups that a text can hold.
pub open spec fn writable(groups: Seq<GroupView>) -> bool {
    forall|i: int| 0 <= i < groups.len() ==> writable_group(#[trigger] groups[i])
}

/// The lines of the duplicates of a group.
pub open spec fn dupe_lines(dupes: Seq<Seq<char>>) -> Seq<Seq<char>> {
    dupes.map_values(|path: Seq<char>| dupe_line(path))
}

/// The lines of a group.
pub open spec fn group_lines(group: GroupView) -> Seq<Seq<char>> {
    seq![item_line(group.item)] + dupe_lines(group.dupes)
}

/// The lines of an index.
pub open spec fn index_lines(groups: Seq<GroupView>) -> Seq<Seq<char>>
    decreases groups.len(),
{
    if groups.len() == 0 {
        Seq::empty()
    } else {
        index_lines(groups.drop_last()) + group_lines(groups.last())
    }
}

/// A whole line with its line break is the first line of a text.
pub proof fn lemma_lines_of_line(line: Seq<char>, rest: Seq<char>)
    requires
        whole_line(line),
    ensures
        lines_of(line + seq!['\n'] + rest) == seq![line] + lines_of(rest),
{
    let text = line + seq!['\n'] + rest;
    let k = line.len() as int;
    assert forall|i: int| 0 <= i < k implies #[trigger] text[i] != '\n' by {
        assert(text[i] == line[i]);
    }
    assert(text[k] == '\n');
    lemma_first_break_is(text, k);
    assert(text.subrange(0, k) =~= line);
    assert(text.subrange(k + 1, text.len() as int) =~= rest);
}

/// The line of a record that can be written is whole.
pub proof fn lemma_item_line_whole(item: ItemView)
    requires
        writable_digest(item.digest),
        writable_path(item.path),
    ensures
        whole_line(item_line(item)),
{
    let line = item_line(item);
    let number = decimal(item.size as nat);
    lemma_decimal(item.size as nat);
    let a = item.digest.len() as int;
    let b = a + 1 + number.len();
    assert forall|i: int| 0 <= i < line.len() implies #[trigger] line[i] != '\n' by {
        if i < a {
            assert(line[i] == item.digest[i]);
            assert(!is_white(item.digest[i]));
        } else if i == a {
        } else if i < b {
            assert(line[i] == number[i - a - 1]);
            assert(!is_white(number[i - a - 1]));
        } else if i == b {
        } else {
            assert(line[i] == item.path[i - b - 1]);
        }
    }
    if item.path.len() > 0 {
        assert(line.last() == item.path.last());
    } else {
        assert(line.last() == ' ');
    }
}

/// The line of a duplicate whose path can be written is whole.
pub proof fn lemma_dupe_line_whole(path: Seq<char>)
    requires
        writable_path(path),
    ensures
        whole_line(dupe_line(path)),
{
    let line = dupe_line(path);
    assert forall|i: int| 0 <= i < line.len() implies #[trigger] line[i] != '\n' by {
        if i >= 2 {
            assert(line[i] == path[i - 2]);
        }
    }
    if path.len() > 0 {
        assert(line.last() == path.last());
    } else {
        assert(line.last() == ' ');
    }
}

/// The text of duplicates, before any other text, gives their lines.
pub proof fn lemma_lines_of_dupes(dupes: Seq<Seq<char>>, rest: Seq<char>)
    requires
        forall|i: int| 0 <= i < dupes.len() ==> writable_path(#[trigger] dupes[i]),
    ensures
        lines_of(dupes_text(dupes) + rest) == dupe_lines(dupes) + lines_of(rest),
    decreases dupes.len(),
{
    if dupes.len() == 0 {
        assert(dupes_text(dupes) + rest =~= rest);
        assert(dupe_lines(dupes) + lines_of(rest) =~= lines_of(rest));
    } else {
        let front = dupes.drop_last();
        let line = dupe_line(dupes.last());
        let tail = line + seq!['\n'] + rest;
        assert(dupes_text(dupes) + rest =~= dupes_text(front) + tail);
        assert forall|i: int| 0 <= i < front.len() implies writable_path(#[trigger] front[i]) by {
            assert(front[i] == dupes[i]);
        }
        lemma_lines_of_dupes(front, tail);
        lemma_dupe_line_whole(dupes.last());
        lemma_lines_of_line(line, rest);
        assert(dupe_lines(front) + (seq![line] + lines_of(rest)) =~= dupe_lines(dupes) + lines_of(
            rest,
        ));
    }
}

/// The text of a group, before any other text, gives its lines.
pub proof fn lemma_lines_of_group(group: GroupView, rest: Seq<char>)
    requires
        writable_group(group),
    ensures
        lines_of(group_text(group) + rest) == group_lines(group) + lines_of(rest),
{
    let line = item_line(group.item);
    let tail = dupes_text(group.dupes) + rest;
    assert(group_text(group) + rest =~= line + seq!['\n'] + tail);
    lemma_item_line_whole(group.item);
    lemma_lines_of_line(line, tail);
    lemma_lines_of_dupes(group.dupes, rest);
    assert(seq![line] + (dupe_lines(group.dupes) + lines_of(rest)) =~= group_lines(group)
        + lines_of(rest));
}

/// The text of an index, before any other text, gives its lines.
pub proof fn lemma_lines_of_index(groups: Seq<GroupView>, rest: Seq<char>)
    requires
        writable(groups),
    ensures
        lines_of(index_text(groups) + rest) == index_lines(groups) + lines_of(rest),
    decreases groups.len(),
{
    if groups.len() == 0 {
        assert(index_text(groups) + rest =~= rest);
        assert(index_lines(groups) + lines_of(rest) =~= lines_of(rest));
    } else {
        let front = groups.drop_last();
        let tail = group_text(groups.last()) + rest;
        assert(index_text(groups) + rest =~= index_text(front) + tail);
        assert forall|i: int| 0 <= i < front.len() implies writable_group(#[trigger] front[i]) by {
            assert(front[i] == groups[i]);
        }
        lemma_lines_of_index(front, tail);
        lemma_lines_of_group(groups.last(), rest);
        assert(index_lines(front) + (group_lines(groups.last()) + lines_of(rest)) =~= index_lines(
            groups,
        ) + lines_of(rest));
    }
}

/// The line of a record reads back as that record.
pub proof fn lemma_parse_item_line(item: ItemView)
    requires
        writable_digest(item.digest),
    ensures
        parse_line(item_line(item)) == LineView::Primary(item),
{
    let line = item_line(item);
    let number = decimal(item.size as nat);
    lemma_decimal(item.size as nat);
    let a = item.digest.len() as int;
    assert forall|i: int| 0 <= i < a implies !is_white(#[trigger] line[i]) by {
        assert(line[i] == item.digest[i]);
    }
    assert(line[a] == ' ');
    lemma_first_white_is(line, a);
    assert(line.subrange(0, a) =~= item.digest);
    let rest = line.subrange(a + 1, line.len() as int);
    assert(rest =~= number + seq![' '] + item.path);
    let b = number.len() as int;
    assert forall|i: int| 0 <= i < b implies !is_white(#[trigger] rest[i]) by {
        assert(rest[i] == number[i]);
    }
    assert(rest[b] == ' ');
    lemma_first_white_is(rest, b);
    assert(rest.subrange(0, b) =~= number);
    assert(rest.subrange(b + 1, rest.len() as int) =~= item.path);
    assert(size_of(number) == item.size);
}

/// The line of a duplicate reads back as its path.
pub proof fn lemma_parse_dupe_line(path: Seq<char>)
    ensures
        parse_line(dupe_line(path)) == LineView::Dupe(path),
{
    let line = dupe_line(path);
    assert(!is_white(line[0]));
    assert(line[1] == ' ');
    lemma_first_white_is(line, 1);
    assert(line.subrange(0, 1) =~= seq!['-']);
    assert(line.subrange(2, line.len() as int) =~= path);
}

/// Lines can be taken in in two parts.
pub proof fn lemma_read_from_parts(
    state: Result<ReadView, Fault>,
    done: nat,
    first: Seq<Seq<char>>,
    second: Seq<Seq<char>>,
    with_dupes: bool,
)
    ensures
        read_from(state, done, first + second, with_dupes) == read_from(
            read_from(state, done, first, with_dupes),
            done + first.len() as nat,
            second,
            with_dupes,
        ),
    decreases second.len(),
{
    if second.len() == 0 {
        assert(first + second =~= first);
    } else {
        lemma_read_from_parts(state, done, first, second.drop_last(), with_dupes);
        assert((first + second).drop_last() =~= first + second.drop_last());
    }
}

/// Among distinct digests, a new one stays distinct behind the others.
pub proof fn lemma_distinct_push(groups: Seq<GroupView>, group: GroupView)
    requires
        distinct_keys(groups),
        !has_key(groups, group.item.digest),
    ensures
        distinct_keys(groups.push(group)),
        has_key(groups.push(group), group.item.digest),
        key_index(groups.push(group), group.item.digest) == groups.len(),
{
    let all = groups.push(group);
    assert forall|i: int, j: int| 0 <= i < j < all.len() implies (#[trigger] all[i]).item.digest != (
    #[trigger] all[j]).item.digest by {
        if j < groups.len() {
            assert(all[i] == groups[i] && all[j] == groups[j]);
        } else {
            assert(all[i] == groups[i]);
        }
    }
    assert(all[groups.len() as int].item.digest == group.item.digest);
    lemma_key_index(all, groups.len() as int);
}

/// A group without its duplicates.
pub open spec fn bare(group: GroupView) -> GroupView {
    GroupView { item: group.item, dupes: Seq::empty() }
}

/// What reading keeps of a group: all of it where duplicates are tracked,
/// and the primary record alone where they are not.
pub open spec fn kept(group: GroupView, with_dupes: bool) -> GroupView {
    if with_dupes {
        group
    } else {
        bare(group)
    }
}

/// What reading keeps of groups.
pub open spec fn all_kept(groups: Seq<GroupView>, with_dupes: bool) -> Seq<GroupView> {
    groups.map_values(|group: GroupView| kept(group, with_dupes))
}

/// What is kept has the digests of the groups, in their places.
pub proof fn lemma_kept_keys(groups: Seq<GroupView>, with_dupes: bool, digest: Seq<char>)
    ensures
        distinct_keys(groups) ==> distinct_keys(all_kept(groups, with_dupes)),
        has_key(all_kept(groups, with_dupes), digest) <==> has_key(groups, digest),
{
    let all = all_kept(groups, with_dupes);
    if distinct_keys(groups) {
        assert forall|i: int, j: int| 0 <= i < j < all.len() implies (#[trigger] all[i]).item.digest
            != (#[trigger] all[j]).item.digest by {
            assert(all[i].item == groups[i].item);
            assert(all[j].item == groups[j].item);
        }
    }
    if has_key(all, digest) {
        let k = key_index(all, digest);
        assert(groups[k].item.digest == digest);
    }
    if has_key(groups, digest) {
        let k = key_index(groups, digest);
        assert(all[k].item.digest == digest);
    }
}

/// The lines of a group whose digest is new add what is kept of the group
/// behind the others.
pub proof fn lemma_read_group(read: ReadView, done: nat, group: GroupView, with_dupes: bool)
    requires
        distinct_keys(read.groups),
        !has_key(read.groups, group.item.digest),
        writable_group(group),
    ensures
        read_from(Ok(read), done, group_lines(group), with_dupes) == Ok::<ReadView, Fault>(
            ReadView { groups: read.groups.push(kept(group, with_dupes)), last: group.item.digest },
        ),
    decreases group.dupes.len(),
{
    let lines = group_lines(group);
    if group.dupes.len() == 0 {
        assert(lines =~= seq![item_line(group.item)]);
        assert(lines.drop_last() =~= Seq::<Seq<char>>::empty());
        assert(read_from(Ok(read), done, lines.drop_last(), with_dupes) == Ok::<ReadView, Fault>(
            read,
        ));
        lemma_parse_item_line(group.item);
        assert(group.dupes =~= Seq::<Seq<char>>::empty());
        assert(group == bare(group));
    } else {
        let front = GroupView { item: group.item, dupes: group.dupes.drop_last() };
        let path = group.dupes.last();
        assert forall|i: int| 0 <= i < front.dupes.len() implies writable_path(
            #[trigger] front.dupes[i],
        ) by {
            assert(front.dupes[i] == group.dupes[i]);
        }
        lemma_read_group(read, done, front, with_dupes);
        assert(lines.drop_last() =~= group_lines(front));
        assert(lines.last() == dupe_line(path));
        lemma_parse_dupe_line(path);
        lemma_distinct_push(read.groups, kept(front, with_dupes));
        let before = read.groups.push(kept(front, with_dupes));
        let n = read.groups.len() as int;
        if with_dupes {
            assert(before[n].dupes.push(path) =~= group.dupes);
            assert(with_dupe(before, group.item.digest, path) =~= read.groups.push(group));
        }
    }
}

/// The lines of an index with distinct digests read as what is kept of
/// its groups.
pub proof fn lemma_read_index_lines(groups: Seq<GroupView>, with_dupes: bool)
    requires
        distinct_keys(groups),
        writable(groups),
    ensures
        read_from(Ok(read_start()), 0, index_lines(groups), with_dupes) matches Ok(read)
            && read.groups == all_kept(groups, with_dupes),
    decreases groups.len(),
{
    if groups.len() == 0 {
        assert(all_kept(groups, with_dupes) =~= Seq::<GroupView>::empty());
    } else {
        let front = groups.drop_last();
        let group = groups.last();
        assert forall|i: int| 0 <= i < front.len() implies writable_group(#[trigger] front[i]) by {
            assert(front[i] == groups[i]);
        }
        assert forall|i: int, j: int| 0 <= i < j < front.len() implies (#[trigger] front[i]).item.digest
            != (#[trigger] front[j]).item.digest by {
            assert(front[i] == groups[i] && front[j] == groups[j]);
        }
        lemma_read_index_lines(front, with_dupes);
        lemma_read_from_parts(
            Ok(read_start()),
            0,
            index_lines(front),
            group_lines(group),
            with_dupes,
        );
        let read = read_from(Ok(read_start()), 0, index_lines(front), with_dupes)->Ok_0;
        assert(!has_key(front, group.item.digest)) by {
            if has_key(front, group.item.digest) {
                let k = key_index(front, group.item.digest);
                assert(front[k] == groups[k]);
                assert(groups[k].item.digest != groups[groups.len() - 1].item.digest);
            }
        }
        lemma_kept_keys(front, with_dupes, group.item.digest);
        lemma_read_group(read, index_lines(front).len(), group, with_dupes);
        assert(all_kept(front, with_dupes).push(kept(group, with_dupes)) =~= all_kept(
            groups,
            with_dupes,
        ));
    }
}

/// The text of an index whose digests and paths lines can hold reads as
/// what is kept of its groups, in the same order.
pub proof fn lemma_read_back(groups: Seq<GroupView>, with_dupes: bool)
    requires
        distinct_keys(groups),
        writable(groups),
    ensures
        read_text(index_text(groups), with_dupes) matches Ok(read) && read.groups == all_kept(
            groups,
            with_dupes,
        ),
{
    lemma_lines_of_index(groups, Seq::empty());
    assert(index_text(groups) + Seq::<char>::empty() =~= index_text(groups));
    assert(index_lines(groups) + lines_of(Seq::<char>::empty()) =~= index_lines(groups));
    lemma_read_index_lines(groups, with_dupes);
}

/// Writing and reading back: the text of an index whose digests and paths
/// lines can hold reads, with duplicates tracked, as the same groups in the
/// same order.
pub proof fn lemma_round_trip(groups: Seq<GroupView>)
    requires
        distinct_keys(groups),
        writable(groups),
    ensures
        read_text(index_text(groups), true) matches Ok(read) && read.groups == groups,
{
    lemma_read_back(groups, true);
    assert(all_kept(groups, true) =~= groups);
}

/// Reading without the duplicates: the same text reads, with duplicates
/// not tracked, as the primary records alone.
pub proof fn lemma_read_primaries(groups: Seq<GroupView>)
    requires
        distinct_keys(groups),
        writable(groups),
    ensures
        read_text(index_text(groups), false) matches Ok(read) && read.groups == groups.map_values(
            |group: GroupView| bare(group),
        ),
{
    lemma_read_back(groups, false);
    assert(all_kept(groups, false) =~= groups.map_values(|group: GroupView| bare(group)));
}

/// A digest that the hasher made can be written: hexadecimal digits are
/// no white space, and 64 of them are no dash.
pub proof fn lemma_hex_digest_writable(digest: Seq<char>)
    requires
        is_hex_digest(digest),
    ensures
        writable_digest(digest),
{
    assert forall|i: int| 0 <= i < digest.len() implies !is_white(#[trigger] digest[i]) by {
        assert(is_hex_digit(digest[i]));
    }
}

} // verus!
