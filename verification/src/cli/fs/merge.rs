//! What merging a list of records by digest comes to.

use vstd::prelude::*;
use crate::cli::fs::treeindex::{absorb, distinct_keys, has_key, key_index, lemma_key_index, merge};
use crate::cli::fs::digester::{content_digest, content_record};
use crate::cli::fs::treeitem::{GroupView, ItemView};

verus! {

/// Whether a record of `list` has the digest.
pub open spec fn occurs(list: Seq<ItemView>, digest: Seq<char>) -> bool {
    exists|i: int| 0 <= i < list.len() && (#[trigger] list[i]).digest == digest
}

/// The place of the first record of `list` that has the digest, or
/// `list.len()` when none has it.
pub open spec fn first_with(list: Seq<ItemView>, digest: Seq<char>) -> int
    decreases list.len(),
{
    if list.len() == 0 {
        0
    } else if list[0].digest == digest {
        0
    } else {
        1 + first_with(list.drop_first(), digest)
    }
}

/// The paths of the records of `list` that have the digest, but for the
/// first of them, in order.
pub open spec fn later_paths(list: Seq<ItemView>, digest: Seq<char>) -> Seq<Seq<char>>
    decreases list.len(),
{
    if list.len() == 0 {
        Seq::empty()
    } else {
        let rest = later_paths(list.drop_last(), digest);
        if list.last().digest == digest && occurs(list.drop_last(), digest) {
            rest.push(list.last().path)
        } else {
            rest
        }
    }
}

/// The groups are what merging `list` comes to: one group for each digest
/// that occurs, with the first record of that digest as its primary record
/// and, where duplicates are tracked, the paths of the later ones as its
/// duplicates.
pub open spec fn merged(groups: Seq<GroupView>, list: Seq<ItemView>, with_dupes: bool) -> bool {
    &&& distinct_keys(groups)
    &&& forall|i: int| 0 <= i < list.len() ==> has_key(groups, (#[trigger] list[i]).digest)
    &&& forall|k: int|
        0 <= k < groups.len() ==> {
            let digest = (#[trigger] groups[k]).item.digest;
            &&& occurs(list, digest)
            &&& groups[k].item == list[first_with(list, digest)]
            &&& groups[k].dupes == if with_dupes {
                later_paths(list, digest)
            } else {
                Seq::empty()
            }
        }
}

/// A place `k` with the digest, before which no record has it, is
/// `first_with`.
pub proof fn lemma_first_with_is(list: Seq<ItemView>, digest: Seq<char>, k: int)
    requires
        0 <= k < list.len(),
        list[k].digest == digest,
        forall|i: int| 0 <= i < k ==> (#[trigger] list[i]).digest != digest,
    ensures
        first_with(list, digest) == k,
    decreases list.len(),
{
    if k > 0 {
        let rest = list.drop_first();
        assert(list[0].digest != digest);
        assert forall|i: int| 0 <= i < k - 1 implies (#[trigger] rest[i]).digest != digest by {
            assert(rest[i] == list[i + 1]);
        }
        lemma_first_with_is(rest, digest, k - 1);
    }
}

/// Where the digest occurs, `first_with` is the first place that has it.
pub proof fn lemma_first_with(list: Seq<ItemView>, digest: Seq<char>)
    requires
        occurs(list, digest),
    ensures
        0 <= first_with(list, digest) < list.len(),
        list[first_with(list, digest)].digest == digest,
        forall|i: int| 0 <= i < first_with(list, digest) ==> (#[trigger] list[i]).digest != digest,
    decreases list.len(),
{
    if list[0].digest != digest {
        let rest = list.drop_first();
        let at = choose|i: int| 0 <= i < list.len() && (#[trigger] list[i]).digest == digest;
        assert(rest[at - 1] == list[at]);
        lemma_first_with(rest, digest);
        let k = first_with(list, digest);
        assert(list[k] == rest[k - 1]);
        assert forall|i: int| 0 <= i < k implies (#[trigger] list[i]).digest != digest by {
            if i > 0 {
                assert(list[i] == rest[i - 1]);
            }
        }
    }
}

/// A record behind the list does not move the first place of a digest that
/// the list has.
pub proof fn lemma_first_with_stays(list: Seq<ItemView>, digest: Seq<char>)
    requires
        list.len() > 0,
        occurs(list.drop_last(), digest),
    ensures
        first_with(list, digest) == first_with(list.drop_last(), digest),
{
    let front = list.drop_last();
    lemma_first_with(front, digest);
    let k = first_with(front, digest);
    assert(list[k] == front[k]);
    assert forall|i: int| 0 <= i < k implies (#[trigger] list[i]).digest != digest by {
        assert(list[i] == front[i]);
    }
    lemma_first_with_is(list, digest, k);
}

/// A digest that does not occur has no later paths.
pub proof fn lemma_later_paths_none(list: Seq<ItemView>, digest: Seq<char>)
    requires
        !occurs(list, digest),
    ensures
        later_paths(list, digest) == Seq::<Seq<char>>::empty(),
    decreases list.len(),
{
    if list.len() > 0 {
        let front = list.drop_last();
        if occurs(front, digest) {
            let at = choose|i: int| 0 <= i < front.len() && (#[trigger] front[i]).digest == digest;
            assert(list[at] == front[at]);
        }
        lemma_later_paths_none(front, digest);
    }
}

/// Taking in one more record keeps the groups what merging comes to.
pub proof fn lemma_absorb_merged(groups: Seq<GroupView>, list: Seq<ItemView>, with_dupes: bool)
    requires
        list.len() > 0,
        merged(groups, list.drop_last(), with_dupes),
    ensures
        merged(absorb(groups, list.last(), with_dupes), list, with_dupes),
{
    let front = list.drop_last();
    let record = list.last();
    let all = absorb(groups, record, with_dupes);
    let n = groups.len() as int;
    assert(list[list.len() - 1] == record);
    if has_key(groups, record.digest) {
        let at = key_index(groups, record.digest);
        lemma_key_index(groups, at);
        assert(occurs(front, groups[at].item.digest));
    } else {
        if occurs(front, record.digest) {
            let i = choose|i: int| 0 <= i < front.len() && (#[trigger] front[i]).digest
                == record.digest;
            assert(has_key(groups, front[i].digest));
        }
        lemma_later_paths_none(front, record.digest);
    }
    assert forall|i: int, j: int| 0 <= i < j < all.len() implies (#[trigger] all[i]).item.digest != (
    #[trigger] all[j]).item.digest by {
        if j < n {
            assert(all[i].item.digest == groups[i].item.digest);
            assert(all[j].item.digest == groups[j].item.digest);
        } else {
            assert(all[i] == groups[i]);
        }
    }
    assert forall|i: int| 0 <= i < list.len() implies has_key(all, (#[trigger] list[i]).digest) by {
        if i < front.len() {
            assert(front[i] == list[i]);
            let k = key_index(groups, front[i].digest);
            assert(all[k].item.digest == list[i].digest);
        } else if has_key(groups, record.digest) {
            let k = key_index(groups, record.digest);
            assert(all[k].item.digest == record.digest);
        } else {
            assert(all[n].item.digest == record.digest);
        }
    }
    assert forall|k: int| 0 <= k < all.len() implies {
        let digest = (#[trigger] all[k]).item.digest;
        &&& occurs(list, digest)
        &&& all[k].item == list[first_with(list, digest)]
        &&& all[k].dupes == if with_dupes {
            later_paths(list, digest)
        } else {
            Seq::empty()
        }
    } by {
        let digest = all[k].item.digest;
        if k < n {
            assert(groups[k].item.digest == digest);
            assert(all[k].item == groups[k].item);
            let at = choose|i: int| 0 <= i < front.len() && (#[trigger] front[i]).digest == digest;
            assert(list[at] == front[at]);
            lemma_first_with_stays(list, digest);
            lemma_first_with(front, digest);
            assert(list[first_with(front, digest)] == front[first_with(front, digest)]);
            if has_key(groups, record.digest) && k == key_index(groups, record.digest) {
            } else {
                assert(all[k] == groups[k]);
                if record.digest == digest {
                    lemma_key_index(groups, k);
                }
            }
        } else {
            assert forall|i: int| 0 <= i < list.len() - 1 implies (#[trigger] list[i]).digest
                != digest by {
                assert(front[i] == list[i]);
            }
            lemma_first_with_is(list, digest, list.len() - 1);
        }
    }
}

/// What merging comes to: see `merged`.
pub proof fn lemma_merge(list: Seq<ItemView>, with_dupes: bool)
    ensures
        merged(merge(Seq::empty(), list, with_dupes), list, with_dupes),
    decreases list.len(),
{
    if list.len() > 0 {
        lemma_merge(list.drop_last(), with_dupes);
        lemma_absorb_merged(
            merge(Seq::empty(), list.drop_last(), with_dupes),
            list,
            with_dupes,
        );
    }
}

/// Two records with one digest and a third with another make two groups:
/// the first record with the path of the second as its one duplicate where
/// duplicates are tracked, and without any where they are not; and the
/// third record alone.
pub proof fn lemma_merge_pair_and_single(
    first: ItemView,
    second: ItemView,
    third: ItemView,
    with_dupes: bool,
)
    requires
        first.digest == second.digest,
        first.digest != third.digest,
    ensures
        merge(Seq::empty(), seq![first, second, third], with_dupes) == seq![
            GroupView {
                item: first,
                dupes: if with_dupes {
                    seq![second.path]
                } else {
                    Seq::empty()
                },
            },
            GroupView { item: third, dupes: Seq::empty() },
        ],
{
    let three = seq![first, second, third];
    let two = three.drop_last();
    let one = two.drop_last();
    assert(one.drop_last() =~= Seq::<ItemView>::empty());
    let none = merge(Seq::empty(), one.drop_last(), with_dupes);
    assert(none =~= Seq::<GroupView>::empty());
    let alone = merge(Seq::empty(), one, with_dupes);
    assert(alone =~= seq![GroupView { item: first, dupes: Seq::empty() }]);
    assert(alone[0].item.digest == second.digest);
    let pair = merge(Seq::empty(), two, with_dupes);
    assert(pair =~= seq![
        GroupView {
            item: first,
            dupes: if with_dupes {
                seq![second.path]
            } else {
                Seq::empty()
            },
        },
    ]);
    assert(!has_key(pair, third.digest));
    assert(merge(Seq::empty(), three, with_dupes) =~= seq![
        pair[0],
        GroupView { item: third, dupes: Seq::empty() },
    ]);
}

/// Two files with the same content and a third whose content digests to
/// something else, merged with duplicates tracked, make two groups: the
/// first file with the second as its one duplicate, and the third alone.
/// Each group has the size of its content.
pub proof fn lemma_two_alike_and_one_apart(
    first: Seq<char>,
    second: Seq<char>,
    third: Seq<char>,
    shared: Seq<u8>,
    other: Seq<u8>,
    fast: bool,
)
    requires
        content_digest(shared, fast) != content_digest(other, fast),
    ensures
        merge(
            Seq::empty(),
            seq![
                content_record(first, shared, fast),
                content_record(second, shared, fast),
                content_record(third, other, fast),
            ],
            true,
        ) == seq![
            GroupView { item: content_record(first, shared, fast), dupes: seq![second] },
            GroupView { item: content_record(third, other, fast), dupes: Seq::empty() },
        ],
{
    lemma_merge_pair_and_single(
        content_record(first, shared, fast),
        content_record(second, shared, fast),
        content_record(third, other, fast),
        true,
    );
}

} // verus!
