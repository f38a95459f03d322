//! Confirming an index: every file is digested again in full, and only the
//! duplicates that still match keep their place.

use vstd::prelude::*;
use vstd::seq_lib::lemma_multiset_commutative;
use crate::cli::fs::report::all_dupes;
use crate::cli::fs::treeindex::{distinct_keys, dupe_count, has_key, key_index, lemma_dupe_count_grows, lemma_key_index, with_dupe, with_item, TreeIndex};
use crate::cli::fs::treeitem::{GroupView, ItemView, TreeItem, TreeItemDupes};

verus! {

/// What a confirmation waits for.
#[derive(Clone, Copy, Debug, PartialEq, Eq, Structural)]
pub enum ConfirmPhase {
    /// The full digest of the primary record of the group.
    Primary,
    /// The size that the duplicate has now.
    DupeSize,
    /// The full digest of the duplicate.
    DupeDigest,
}

/// What a confirmation asks for next.
#[derive(Debug)]
pub enum ConfirmStep {
    /// Digest the file at this path in full, and hand in its record.
    Digest(String),
    /// Look up the size of the file at this path, and hand it in.
    Size(String),
    /// Nothing: every group is confirmed.
    Done,
}

/// What a step says.
pub enum StepView {
    Digest(Seq<char>),
    Size(Seq<char>),
    Done,
}

impl View for ConfirmStep {
    type V = StepView;

    open spec fn view(&self) -> StepView {
        match self {
            ConfirmStep::Digest(path) => StepView::Digest(path@),
            ConfirmStep::Size(path) => StepView::Size(path@),
            ConfirmStep::Done => StepView::Done,
        }
    }
}

/// What was found for a step.
pub enum ConfirmEvent {
    /// The full digest of the file and its size.
    Digested { digest: Seq<char>, size: u64 },
    /// The size of the file, or `None` where the lookup failed.
    Sized { found: Option<u64> },
}

/// Whether `path` is a duplicate in one of `groups`.
pub open spec fn is_dupe_of(groups: Seq<GroupView>, path: Seq<char>) -> bool {
    exists|i: int, j: int|
        0 <= i < groups.len() && 0 <= j < groups[i].dupes.len() && #[trigger] groups[i].dupes[j]
            == path
}

/// Every duplicate in `out` is a duplicate in `source`.
pub open spec fn dupes_within(out: Seq<GroupView>, source: Seq<GroupView>) -> bool {
    forall|i: int, j: int|
        0 <= i < out.len() && 0 <= j < out[i].dupes.len() ==> is_dupe_of(
            source,
            #[trigger] out[i].dupes[j],
        )
}

/// `groups` after the primary record of a group was digested again. `key`
/// is the digest under which the group was recorded, and `item` is the
/// record as it is now.
///
/// Where no group has the digest of `item`, a group of `item` alone comes
/// behind the others. Where a group has it already, two primary records
/// have the same content, and one group holds them both:
/// - if `item` has the digest it was recorded under, it is the primary
///   record of that group, which keeps the duplicates confirmed so far; the
///   record that stood there, recorded under another digest, is the primary
///   of no group from then on;
/// - otherwise the group stays as it is, and `item` is the primary of no
///   group.
/// A primary record that loses its place is not made a duplicate: it was
/// none.
pub open spec fn with_primary(groups: Seq<GroupView>, key: Seq<char>, item: ItemView) -> Seq<
    GroupView,
> {
    if !has_key(groups, item.digest) {
        groups.push(GroupView { item, dupes: Seq::empty() })
    } else if key == item.digest {
        with_item(groups, item)
    } else {
        groups
    }
}

/// `later` holds all that `earlier` holds: every group of `earlier` is in
/// its place in `later`, under its digest, and with its duplicates at the
/// head of the duplicates there.
pub open spec fn grown(earlier: Seq<GroupView>, later: Seq<GroupView>) -> bool {
    &&& earlier.len() <= later.len()
    &&& forall|i: int|
        0 <= i < earlier.len() ==> (#[trigger] later[i]).item.digest == earlier[i].item.digest
            && earlier[i].dupes.is_prefix_of(later[i].dupes)
}

/// The confirmation is past the primary record of the group at place
/// `group`.
pub open spec fn past(v: ConfirmView, group: int) -> bool {
    v.group > group || (v.group == group && v.phase != ConfirmPhase::Primary)
}

/// The state of a confirmation.
pub struct ConfirmView {
    /// The index that is confirmed.
    pub source: Seq<GroupView>,
    /// The confirmed index so far.
    pub out: Seq<GroupView>,
    /// The place in `source` of the group at work.
    pub group: nat,
    /// The place in that group of the duplicate at work.
    pub dupe: nat,
    pub phase: ConfirmPhase,
}

impl ConfirmView {
    /// Where a confirmation of `source` starts.
    pub open spec fn start(source: Seq<GroupView>) -> ConfirmView {
        ConfirmView { source, out: Seq::empty(), group: 0, dupe: 0, phase: ConfirmPhase::Primary }
    }

    /// Every group is confirmed.
    pub open spec fn done(self) -> bool {
        self.group >= self.source.len()
    }

    /// The state is in order: no digest has two confirmed groups, and the
    /// place at work exists.
    pub open spec fn wf(self) -> bool {
        &&& distinct_keys(self.out)
        &&& self.group <= self.source.len()
        &&& self.phase == ConfirmPhase::Primary ==> self.dupe == 0
        &&& self.phase != ConfirmPhase::Primary ==> !self.done() && self.dupe
            < self.source[self.group as int].dupes.len()
    }

    /// What is asked for in this state.
    pub open spec fn step(self) -> StepView {
        if self.done() {
            StepView::Done
        } else {
            let group = self.source[self.group as int];
            match self.phase {
                ConfirmPhase::Primary => StepView::Digest(group.item.path),
                ConfirmPhase::DupeSize => StepView::Size(group.dupes[self.dupe as int]),
                ConfirmPhase::DupeDigest => StepView::Digest(group.dupes[self.dupe as int]),
            }
        }
    }

    /// Whether the event answers what was asked for.
    pub open spec fn accepts(self, event: ConfirmEvent) -> bool {
        !self.done() && match event {
            ConfirmEvent::Digested { .. } => self.phase != ConfirmPhase::DupeSize,
            ConfirmEvent::Sized { .. } => self.phase == ConfirmPhase::DupeSize,
        }
    }

    /// The state that goes on with the duplicate at place `dupe`, or with
    /// the next group when the group at work has no such duplicate.
    pub open spec fn go_on(self, dupe: nat) -> ConfirmView {
        if dupe < self.source[self.group as int].dupes.len() {
            ConfirmView { dupe, phase: ConfirmPhase::DupeSize, ..self }
        } else {
            ConfirmView { group: self.group + 1, dupe: 0, phase: ConfirmPhase::Primary, ..self }
        }
    }

    /// The state after an event that answers what was asked for.
    ///
    /// The digested primary record starts a group of its own under its new
    /// digest. Where a group has that digest already, because another
    /// primary record has the same content, the one group serves both: its
    /// primary is the record that was recorded under this digest, if there
    /// is one, and the one that came first otherwise; the other record is
    /// the primary of no group, and the duplicates confirmed so far stay
    /// (see `with_primary`). A duplicate whose size is no longer the size
    /// recorded for the primary is dropped; one whose size is, is digested.
    /// A digested duplicate joins the group that has its digest, and is
    /// dropped when there is none.
    pub open spec fn after(self, event: ConfirmEvent) -> ConfirmView {
        let group = self.source[self.group as int];
        match event {
            ConfirmEvent::Digested { digest, size } => match self.phase {
                ConfirmPhase::Primary => (ConfirmView {
                    out: with_primary(
                        self.out,
                        group.item.digest,
                        ItemView { digest, path: group.item.path, size },
                    ),
                    ..self
                }).go_on(0),
                ConfirmPhase::DupeDigest => (ConfirmView {
                    out: with_dupe(self.out, digest, group.dupes[self.dupe as int]),
                    ..self
                }).go_on(self.dupe + 1),
                ConfirmPhase::DupeSize => self,
            },
            ConfirmEvent::Sized { found } => {
                let now: u64 = match found {
                    Some(n) => n,
                    None => 0,
                };
                if now == group.item.size {
                    ConfirmView { phase: ConfirmPhase::DupeDigest, ..self }
                } else {
                    self.go_on(self.dupe + 1)
                }
            },
        }
    }

    /// The state after an event: one that does not answer what was asked
    /// for changes nothing.
    pub open spec fn on(self, event: ConfirmEvent) -> ConfirmView {
        if self.accepts(event) {
            self.after(event)
        } else {
            self
        }
    }

    /// The state after the events, in order.
    pub open spec fn run(self, events: Seq<ConfirmEvent>) -> ConfirmView
        decreases events.len(),
    {
        if events.len() == 0 {
            self
        } else {
            self.run(events.drop_last()).on(events.last())
        }
    }
}

/// A primary record keeps the digests distinct.
pub proof fn lemma_with_primary_distinct(groups: Seq<GroupView>, key: Seq<char>, item: ItemView)
    requires
        distinct_keys(groups),
    ensures
        distinct_keys(with_primary(groups, key, item)),
{
    let all = with_primary(groups, key, item);
    if !has_key(groups, item.digest) {
        assert forall|i: int, j: int| 0 <= i < j < all.len() implies (#[trigger] all[i]).item.digest
            != (#[trigger] all[j]).item.digest by {
            assert(all[i] == groups[i]);
            if j < groups.len() {
                assert(all[j] == groups[j]);
            }
        }
    } else {
        assert forall|i: int, j: int| 0 <= i < j < all.len() implies (#[trigger] all[i]).item.digest
            != (#[trigger] all[j]).item.digest by {
            assert(all[i].item.digest == groups[i].item.digest);
            assert(all[j].item.digest == groups[j].item.digest);
        }
    }
}

/// Adding a duplicate keeps the digests distinct.
pub proof fn lemma_with_dupe_distinct(groups: Seq<GroupView>, digest: Seq<char>, path: Seq<char>)
    requires
        distinct_keys(groups),
    ensures
        distinct_keys(with_dupe(groups, digest, path)),
{
    let all = with_dupe(groups, digest, path);
    assert forall|i: int, j: int| 0 <= i < j < all.len() implies (#[trigger] all[i]).item.digest != (
    #[trigger] all[j]).item.digest by {
        assert(all[i].item.digest == groups[i].item.digest);
        assert(all[j].item.digest == groups[j].item.digest);
    }
}

/// A primary record brings no duplicate.
pub proof fn lemma_with_primary_within(
    out: Seq<GroupView>,
    key: Seq<char>,
    item: ItemView,
    source: Seq<GroupView>,
)
    requires
        dupes_within(out, source),
    ensures
        dupes_within(with_primary(out, key, item), source),
{
    let all = with_primary(out, key, item);
    assert forall|i: int, j: int| 0 <= i < all.len() && 0 <= j < all[i].dupes.len() implies is_dupe_of(
        source,
        #[trigger] all[i].dupes[j],
    ) by {
        assert(all[i].dupes[j] == out[i].dupes[j]);
    }
}

/// A duplicate of `source` brings no other duplicate.
pub proof fn lemma_with_dupe_within(
    out: Seq<GroupView>,
    digest: Seq<char>,
    path: Seq<char>,
    source: Seq<GroupView>,
)
    requires
        dupes_within(out, source),
        is_dupe_of(source, path),
    ensures
        dupes_within(with_dupe(out, digest, path), source),
{
    let all = with_dupe(out, digest, path);
    assert forall|i: int, j: int| 0 <= i < all.len() && 0 <= j < all[i].dupes.len() implies is_dupe_of(
        source,
        #[trigger] all[i].dupes[j],
    ) by {
        if j < out[i].dupes.len() {
            assert(all[i].dupes[j] == out[i].dupes[j]);
        } else {
            assert(all[i].dupes[j] == path);
        }
    }
}

/// Every event leaves a confirmation in order.
pub proof fn lemma_confirm_event_wf(v: ConfirmView, event: ConfirmEvent)
    requires
        v.wf(),
    ensures
        v.on(event).wf(),
        v.on(event).source == v.source,
{
    if v.accepts(event) {
        let group = v.source[v.group as int];
        match event {
            ConfirmEvent::Digested { digest, size } => {
                if v.phase == ConfirmPhase::Primary {
                    lemma_with_primary_distinct(
                        v.out,
                        group.item.digest,
                        ItemView { digest, path: group.item.path, size },
                    );
                } else {
                    lemma_with_dupe_distinct(v.out, digest, group.dupes[v.dupe as int]);
                }
            },
            ConfirmEvent::Sized { found } => {},
        }
    }
}

/// No event brings a duplicate that the confirmed index does not have.
pub proof fn lemma_confirm_event(v: ConfirmView, event: ConfirmEvent)
    requires
        v.wf(),
        dupes_within(v.out, v.source),
    ensures
        v.on(event).wf(),
        v.on(event).source == v.source,
        dupes_within(v.on(event).out, v.source),
{
    lemma_confirm_event_wf(v, event);
    if v.accepts(event) {
        let group = v.source[v.group as int];
        match event {
            ConfirmEvent::Digested { digest, size } => {
                if v.phase == ConfirmPhase::Primary {
                    lemma_with_primary_within(
                        v.out,
                        group.item.digest,
                        ItemView { digest, path: group.item.path, size },
                        v.source,
                    );
                } else {
                    let path = group.dupes[v.dupe as int];
                    assert(v.source[v.group as int].dupes[v.dupe as int] == path);
                    lemma_with_dupe_within(v.out, digest, path, v.source);
                }
            },
            ConfirmEvent::Sized { found } => {},
        }
    }
}

/// Every run of events leaves a confirmation in order.
pub proof fn lemma_confirm_run_wf(v: ConfirmView, events: Seq<ConfirmEvent>)
    requires
        v.wf(),
    ensures
        v.run(events).wf(),
        v.run(events).source == v.source,
    decreases events.len(),
{
    if events.len() > 0 {
        lemma_confirm_run_wf(v, events.drop_last());
        lemma_confirm_event_wf(v.run(events.drop_last()), events.last());
    }
}

/// Confirming adds nothing: whatever is found on the way, every duplicate
/// of the confirmed index is a duplicate of the index that was confirmed,
/// and no digest has two groups.
pub proof fn lemma_confirm_adds_nothing(source: Seq<GroupView>, events: Seq<ConfirmEvent>)
    ensures
        ConfirmView::start(source).run(events).wf(),
        ConfirmView::start(source).run(events).source == source,
        dupes_within(ConfirmView::start(source).run(events).out, source),
    decreases events.len(),
{
    if events.len() > 0 {
        lemma_confirm_adds_nothing(source, events.drop_last());
        lemma_confirm_event(ConfirmView::start(source).run(events.drop_last()), events.last());
    }
}

/// No event takes anything from the confirmed index: every group stays in
/// its place under its digest, and its duplicates stay at the head of its
/// duplicates.
pub proof fn lemma_confirm_event_grows(v: ConfirmView, event: ConfirmEvent)
    requires
        v.wf(),
    ensures
        grown(v.out, v.on(event).out),
{
    let later = v.on(event).out;
    assert forall|i: int| 0 <= i < v.out.len() implies (#[trigger] later[i]).item.digest
        == v.out[i].item.digest && v.out[i].dupes.is_prefix_of(later[i].dupes) by {
        assert(later[i].dupes.subrange(0, v.out[i].dupes.len() as int) =~= v.out[i].dupes);
    }
}

/// What is held is held on: `grown` goes from step to step.
pub proof fn lemma_grown_twice(a: Seq<GroupView>, b: Seq<GroupView>, c: Seq<GroupView>)
    requires
        grown(a, b),
        grown(b, c),
    ensures
        grown(a, c),
{
    assert forall|i: int| 0 <= i < a.len() implies (#[trigger] c[i]).item.digest
        == a[i].item.digest && a[i].dupes.is_prefix_of(c[i].dupes) by {
        assert(b[i].item.digest == a[i].item.digest);
        assert(a[i].dupes.is_prefix_of(b[i].dupes));
        assert(b[i].dupes.is_prefix_of(c[i].dupes));
        assert(c[i].dupes.subrange(0, a[i].dupes.len() as int) =~= a[i].dupes) by {
            assert(b[i].dupes.subrange(0, a[i].dupes.len() as int) =~= a[i].dupes);
            assert(c[i].dupes.subrange(0, b[i].dupes.len() as int) =~= b[i].dupes);
        }
    }
}

/// No run of events takes anything from the confirmed index.
pub proof fn lemma_confirm_run_grows(v: ConfirmView, events: Seq<ConfirmEvent>)
    requires
        v.wf(),
    ensures
        grown(v.out, v.run(events).out),
    decreases events.len(),
{
    if events.len() == 0 {
        assert forall|i: int| 0 <= i < v.out.len() implies v.out[i].dupes.is_prefix_of(
            (#[trigger] v.out[i]).dupes,
        ) by {
            assert(v.out[i].dupes.subrange(0, v.out[i].dupes.len() as int) =~= v.out[i].dupes);
        }
    } else {
        let before = v.run(events.drop_last());
        lemma_confirm_run_grows(v, events.drop_last());
        lemma_confirm_run_wf(v, events.drop_last());
        lemma_confirm_event_grows(before, events.last());
        lemma_grown_twice(v.out, before.out, before.on(events.last()).out);
    }
}

/// Confirming keeps what matches: a duplicate whose full digest is the
/// digest of a confirmed group is a duplicate of that group afterwards.
pub proof fn lemma_confirm_keeps_match(v: ConfirmView, digest: Seq<char>, size: u64)
    requires
        v.wf(),
        v.phase == ConfirmPhase::DupeDigest,
        has_key(v.out, digest),
    ensures
        ({
            let after = v.on(ConfirmEvent::Digested { digest, size }).out;
            let at = key_index(v.out, digest);
            after[at].item == v.out[at].item && after[at].dupes == v.out[at].dupes.push(
                v.source[v.group as int].dupes[v.dupe as int],
            )
        }),
{
}

/// Confirming keeps what matches to the end: a duplicate whose size was
/// the recorded one and whose full digest is the digest of a confirmed
/// group is, after whatever follows, a duplicate of the group that has
/// that digest.
pub proof fn lemma_confirm_keeps_match_to_the_end(
    v: ConfirmView,
    digest: Seq<char>,
    size: u64,
    events: Seq<ConfirmEvent>,
)
    requires
        v.wf(),
        v.phase == ConfirmPhase::DupeDigest,
        has_key(v.out, digest),
    ensures
        ({
            let end = v.on(ConfirmEvent::Digested { digest, size }).run(events).out;
            let path = v.source[v.group as int].dupes[v.dupe as int];
            &&& has_key(end, digest)
            &&& end[key_index(end, digest)].dupes.contains(path)
        }),
{
    let event = ConfirmEvent::Digested { digest, size };
    let next = v.on(event);
    let end = next.run(events).out;
    let at = key_index(v.out, digest);
    let path = v.source[v.group as int].dupes[v.dupe as int];
    lemma_confirm_keeps_match(v, digest, size);
    lemma_confirm_event_wf(v, event);
    lemma_confirm_run_wf(next, events);
    lemma_confirm_run_grows(next, events);
    assert(end[at].item.digest == next.out[at].item.digest);
    assert(end[at].item.digest == digest);
    lemma_key_index(end, at);
    let held = next.out[at].dupes;
    assert(held.is_prefix_of(end[at].dupes));
    assert(held[held.len() - 1] == path);
    assert(end[at].dupes[held.len() - 1] == path);
}

/// Once a confirmation is past the primary record of an input group, no
/// event changes the primary record of the confirmed group that has the
/// digest under which that input group was recorded.
pub proof fn lemma_confirm_event_keeps_owner(
    v: ConfirmView,
    at: int,
    group: int,
    event: ConfirmEvent,
)
    requires
        v.wf(),
        distinct_keys(v.source),
        0 <= at < v.out.len(),
        0 <= group < v.source.len(),
        v.out[at].item.digest == v.source[group].item.digest,
        past(v, group),
    ensures
        v.on(event).out[at].item == v.out[at].item,
        past(v.on(event), group),
{
    if v.accepts(event) {
        let now = v.source[v.group as int];
        match event {
            ConfirmEvent::Digested { digest, size } => {
                if v.phase == ConfirmPhase::Primary {
                    assert(now.item.digest != v.source[group].item.digest);
                    if has_key(v.out, digest) && now.item.digest == digest {
                        let k = key_index(v.out, digest);
                        assert(v.out[k].item.digest != v.out[at].item.digest);
                    }
                }
            },
            ConfirmEvent::Sized { found } => {},
        }
    }
}

/// Once a confirmation is past the primary record of an input group, no
/// run of events changes the primary record of the confirmed group that
/// has the digest under which that input group was recorded.
pub proof fn lemma_confirm_run_keeps_owner(
    v: ConfirmView,
    at: int,
    group: int,
    events: Seq<ConfirmEvent>,
)
    requires
        v.wf(),
        distinct_keys(v.source),
        0 <= at < v.out.len(),
        0 <= group < v.source.len(),
        v.out[at].item.digest == v.source[group].item.digest,
        past(v, group),
    ensures
        at < v.run(events).out.len(),
        v.run(events).out[at].item == v.out[at].item,
        past(v.run(events), group),
    decreases events.len(),
{
    if events.len() > 0 {
        let before = v.run(events.drop_last());
        lemma_confirm_run_keeps_owner(v, at, group, events.drop_last());
        lemma_confirm_run_wf(v, events.drop_last());
        lemma_confirm_event_grows(before, events.last());
        lemma_confirm_event_keeps_owner(before, at, group, events.last());
    }
}

/// Confirming keeps every primary record that has a right to its place:
/// once the primary record of an input group is digested, its digest has a
/// group, after whatever follows; and where the digest is the one under
/// which the group was recorded, that group has this record as its
/// primary: the path of the input group, with the digest and size found.
pub proof fn lemma_confirm_keeps_primary_to_the_end(
    v: ConfirmView,
    digest: Seq<char>,
    size: u64,
    events: Seq<ConfirmEvent>,
)
    requires
        v.wf(),
        distinct_keys(v.source),
        !v.done(),
        v.phase == ConfirmPhase::Primary,
    ensures
        ({
            let end = v.on(ConfirmEvent::Digested { digest, size }).run(events).out;
            let recorded = v.source[v.group as int].item;
            &&& has_key(end, digest)
            &&& recorded.digest == digest ==> end[key_index(end, digest)].item == (ItemView {
                digest,
                path: recorded.path,
                size,
            })
        }),
{
    let event = ConfirmEvent::Digested { digest, size };
    let recorded = v.source[v.group as int].item;
    let item = ItemView { digest, path: recorded.path, size };
    let next = v.on(event);
    let end = next.run(events).out;
    lemma_confirm_event_wf(v, event);
    lemma_confirm_run_wf(next, events);
    lemma_confirm_run_grows(next, events);
    let at = if has_key(v.out, digest) {
        key_index(v.out, digest)
    } else {
        v.out.len() as int
    };
    assert(next.out[at].item.digest == digest);
    assert(end[at].item.digest == next.out[at].item.digest);
    lemma_key_index(end, at);
    if recorded.digest == digest {
        assert(next.out[at].item == item);
        lemma_confirm_run_keeps_owner(next, at, v.group as int, events);
    }
}

/// Confirming keeps a group that still holds. Take an input group whose
/// primary record still has the digest it was recorded under, and a
/// duplicate of it that still has the recorded size and that digest. Once
/// both are digested, after whatever was found between them and whatever
/// follows, the confirmed group under that digest has the path of the
/// input group as its primary and holds the duplicate.
pub proof fn lemma_confirm_keeps_group(
    v: ConfirmView,
    digest: Seq<char>,
    size: u64,
    between: Seq<ConfirmEvent>,
    size_of_dupe: u64,
    after: Seq<ConfirmEvent>,
)
    requires
        v.wf(),
        distinct_keys(v.source),
        !v.done(),
        v.phase == ConfirmPhase::Primary,
        v.source[v.group as int].item.digest == digest,
        v.on(ConfirmEvent::Digested { digest, size }).run(between).phase
            == ConfirmPhase::DupeDigest,
        v.on(ConfirmEvent::Digested { digest, size }).run(between).group == v.group,
    ensures
        ({
            let at_dupe = v.on(ConfirmEvent::Digested { digest, size }).run(between);
            let end = at_dupe.on(ConfirmEvent::Digested { digest, size: size_of_dupe }).run(
                after,
            ).out;
            let recorded = v.source[v.group as int];
            &&& has_key(end, digest)
            &&& end[key_index(end, digest)].item == (ItemView {
                digest,
                path: recorded.item.path,
                size,
            })
            &&& end[key_index(end, digest)].dupes.contains(recorded.dupes[at_dupe.dupe as int])
        }),
{
    let first = ConfirmEvent::Digested { digest, size };
    let second = ConfirmEvent::Digested { digest, size: size_of_dupe };
    let group = v.group as int;
    let next = v.on(first);
    let at_dupe = next.run(between);
    let then = at_dupe.on(second);
    let end = then.run(after).out;
    let at = if has_key(v.out, digest) {
        key_index(v.out, digest)
    } else {
        v.out.len() as int
    };
    lemma_confirm_event_wf(v, first);
    assert(next.out[at].item.digest == digest);
    lemma_confirm_run_keeps_owner(next, at, group, between);
    lemma_confirm_run_wf(next, between);
    assert(at_dupe.out[at].item.digest == digest);
    lemma_confirm_event_wf(at_dupe, second);
    lemma_confirm_event_grows(at_dupe, second);
    lemma_confirm_event_keeps_owner(at_dupe, at, group, second);
    lemma_confirm_run_keeps_owner(then, at, group, after);
    lemma_confirm_run_wf(then, after);
    lemma_key_index(end, at);
    lemma_confirm_keeps_match_to_the_end(at_dupe, digest, size_of_dupe, after);
}

/// The number of duplicates that a confirmation has looked at.
pub open spec fn dupes_seen(v: ConfirmView) -> nat {
    dupe_count(v.source.subrange(0, v.group as int)) + v.dupe
}

/// The number of primary records that a confirmation has digested.
pub open spec fn primaries_seen(v: ConfirmView) -> nat {
    if v.phase == ConfirmPhase::Primary {
        v.group
    } else {
        v.group + 1
    }
}

/// One more duplicate in a group is one more in all.
pub proof fn lemma_with_dupe_count(groups: Seq<GroupView>, digest: Seq<char>, path: Seq<char>)
    ensures
        dupe_count(with_dupe(groups, digest, path)) <= dupe_count(groups) + 1,
{
    if has_key(groups, digest) {
        let at = key_index(groups, digest);
        lemma_update_dupe_count(
            groups,
            at,
            GroupView { dupes: groups[at].dupes.push(path), ..groups[at] },
        );
    }
}

/// A group in the place of another changes the number of duplicates by
/// the difference between the two.
pub proof fn lemma_update_dupe_count(groups: Seq<GroupView>, at: int, group: GroupView)
    requires
        0 <= at < groups.len(),
    ensures
        dupe_count(groups.update(at, group)) == dupe_count(groups) - groups[at].dupes.len()
            + group.dupes.len(),
    decreases groups.len(),
{
    let all = groups.update(at, group);
    if at == groups.len() - 1 {
        assert(all.drop_last() =~= groups.drop_last());
    } else {
        lemma_update_dupe_count(groups.drop_last(), at, group);
        assert(all.drop_last() =~= groups.drop_last().update(at, group));
    }
}

/// The confirmed index has no more groups than primary records were
/// digested, and no more duplicates than were looked at.
pub open spec fn within_counts(v: ConfirmView) -> bool {
    &&& v.out.len() <= primaries_seen(v)
    &&& dupe_count(v.out) <= dupes_seen(v)
}

/// No event brings more than it looked at.
pub proof fn lemma_confirm_event_counts(v: ConfirmView, event: ConfirmEvent)
    requires
        v.wf(),
        within_counts(v),
    ensures
        within_counts(v.on(event)),
{
    if v.accepts(event) {
        let w = v.on(event);
        let group = v.source[v.group as int];
        let seen = v.source.subrange(0, v.group as int);
        let more = v.source.subrange(0, v.group as int + 1);
        assert(more.drop_last() =~= seen);
        assert(more.last() == group);
        assert(dupe_count(more) == dupe_count(seen) + group.dupes.len());
        match event {
            ConfirmEvent::Digested { digest, size } => {
                if v.phase == ConfirmPhase::Primary {
                    let item = ItemView { digest, path: group.item.path, size };
                    let out = with_primary(v.out, group.item.digest, item);
                    if !has_key(v.out, digest) {
                        assert(out.drop_last() =~= v.out);
                    } else if group.item.digest == digest {
                        let at = key_index(v.out, digest);
                        lemma_update_dupe_count(
                            v.out,
                            at,
                            GroupView { item, dupes: v.out[at].dupes },
                        );
                    }
                    assert(dupe_count(out) == dupe_count(v.out));
                } else {
                    lemma_with_dupe_count(v.out, digest, group.dupes[v.dupe as int]);
                }
            },
            ConfirmEvent::Sized { found } => {},
        }
    }
}

/// Confirming brings no more than there was: whatever is found on the way,
/// the confirmed index has no more groups and no more duplicates than the
/// index that was confirmed.
pub proof fn lemma_confirm_counts(source: Seq<GroupView>, events: Seq<ConfirmEvent>)
    ensures
        within_counts(ConfirmView::start(source).run(events)),
        ConfirmView::start(source).run(events).out.len() <= source.len(),
        dupe_count(ConfirmView::start(source).run(events).out) <= dupe_count(source),
    decreases events.len(),
{
    let start = ConfirmView::start(source);
    if events.len() == 0 {
        assert(source.subrange(0, 0) =~= Seq::<GroupView>::empty());
    } else {
        lemma_confirm_counts(source, events.drop_last());
        lemma_confirm_run_wf(start, events.drop_last());
        lemma_confirm_event_counts(start.run(events.drop_last()), events.last());
    }
    let end = start.run(events);
    lemma_confirm_run_wf(start, events);
    lemma_dupe_count_grows(source, end.group as int);
    if end.phase != ConfirmPhase::Primary {
        let seen = source.subrange(0, end.group as int);
        let more = source.subrange(0, end.group as int + 1);
        assert(more.drop_last() =~= seen);
        assert(more.last() == source[end.group as int]);
        lemma_dupe_count_grows(source, end.group as int + 1);
    }
}

/// The duplicates that a confirmation has looked at, in order: those of
/// the groups that are done, and those before the place at work.
pub open spec fn seen_dupes(v: ConfirmView) -> Seq<Seq<char>> {
    all_dupes(v.source.subrange(0, v.group as int)) + if v.done() {
        Seq::empty()
    } else {
        v.source[v.group as int].dupes.subrange(0, v.dupe as int)
    }
}

/// The duplicates of the first groups, then those of the others, are the
/// duplicates of all.
pub proof fn lemma_all_dupes_split(groups: Seq<GroupView>, k: int)
    requires
        0 <= k <= groups.len(),
    ensures
        all_dupes(groups) == all_dupes(groups.subrange(0, k)) + all_dupes(
            groups.subrange(k, groups.len() as int),
        ),
    decreases groups.len() - k,
{
    let first = groups.subrange(0, k);
    let rest = groups.subrange(k, groups.len() as int);
    if k == groups.len() {
        assert(first =~= groups);
        assert(rest =~= Seq::<GroupView>::empty());
        assert(all_dupes(first) + all_dupes(rest) =~= all_dupes(groups));
    } else {
        let front = groups.drop_last();
        lemma_all_dupes_split(front, k);
        assert(front.subrange(0, k) =~= first);
        assert(front.subrange(k, front.len() as int) =~= rest.drop_last());
        assert(rest.last() == groups.last());
        assert(all_dupes(first) + all_dupes(rest) =~= all_dupes(groups));
    }
}

/// Groups that agree on their duplicates, place by place, have the same
/// duplicates in all.
pub proof fn lemma_all_dupes_alike(a: Seq<GroupView>, b: Seq<GroupView>)
    requires
        a.len() == b.len(),
        forall|i: int| 0 <= i < a.len() ==> (#[trigger] a[i]).dupes == b[i].dupes,
    ensures
        all_dupes(a) == all_dupes(b),
    decreases a.len(),
{
    if a.len() > 0 {
        assert forall|i: int| 0 <= i < a.len() - 1 implies (#[trigger] a.drop_last()[i]).dupes
            == b.drop_last()[i].dupes by {
            assert(a[i].dupes == b[i].dupes);
        }
        lemma_all_dupes_alike(a.drop_last(), b.drop_last());
        assert(a[a.len() - 1].dupes == b[a.len() - 1].dupes);
    }
}

/// One more duplicate in a group is that one more among all, counted as
/// often as it occurs.
pub proof fn lemma_update_all_dupes(groups: Seq<GroupView>, at: int, path: Seq<char>)
    requires
        0 <= at < groups.len(),
    ensures
        all_dupes(
            groups.update(at, GroupView { dupes: groups[at].dupes.push(path), ..groups[at] }),
        ).to_multiset() == all_dupes(groups).to_multiset().insert(path),
    decreases groups.len(),
{
    broadcast use vstd::seq_lib::group_to_multiset_ensures;

    let more = GroupView { dupes: groups[at].dupes.push(path), ..groups[at] };
    let all = groups.update(at, more);
    let front = groups.drop_last();
    if at == groups.len() - 1 {
        assert(all.drop_last() =~= front);
        assert(all_dupes(all) =~= all_dupes(groups).push(path));
    } else {
        lemma_update_all_dupes(front, at, path);
        assert(all.drop_last() =~= front.update(at, more));
        assert(all.last() == groups.last());
        let changed = all_dupes(front.update(at, more));
        let last = groups.last().dupes;
        lemma_multiset_commutative(changed, last);
        lemma_multiset_commutative(all_dupes(front), last);
        assert(all_dupes(all).to_multiset() =~= all_dupes(groups).to_multiset().insert(path));
    }
}

/// The duplicates of the confirmed index are among those looked at,
/// counted as often as they occur.
pub open spec fn within_seen(v: ConfirmView) -> bool {
    all_dupes(v.out).to_multiset().subset_of(seen_dupes(v).to_multiset())
}

/// Going on behind a duplicate adds it to those looked at.
pub proof fn lemma_seen_go_on(v: ConfirmView)
    requires
        v.wf(),
        v.phase != ConfirmPhase::Primary,
    ensures
        seen_dupes(v.go_on(v.dupe + 1)) == seen_dupes(v).push(
            v.source[v.group as int].dupes[v.dupe as int],
        ),
{
    let group = v.source[v.group as int];
    let w = v.go_on(v.dupe + 1);
    let done = all_dupes(v.source.subrange(0, v.group as int));
    if v.dupe + 1 < group.dupes.len() {
        assert(group.dupes.subrange(0, v.dupe as int + 1) =~= group.dupes.subrange(
            0,
            v.dupe as int,
        ).push(group.dupes[v.dupe as int]));
        assert(seen_dupes(w) =~= seen_dupes(v).push(group.dupes[v.dupe as int]));
    } else {
        let more = v.source.subrange(0, v.group as int + 1);
        assert(more.drop_last() =~= v.source.subrange(0, v.group as int));
        assert(more.last() == group);
        assert(group.dupes =~= group.dupes.subrange(0, v.dupe as int).push(
            group.dupes[v.dupe as int],
        ));
        assert(w.dupe == 0);
        if !w.done() {
            assert(w.source[w.group as int].dupes.subrange(0, 0) =~= Seq::<Seq<char>>::empty());
        }
        assert(seen_dupes(w) =~= seen_dupes(v).push(group.dupes[v.dupe as int]));
    }
}

/// No event brings a duplicate more often than it was looked at.
pub proof fn lemma_confirm_event_seen(v: ConfirmView, event: ConfirmEvent)
    requires
        v.wf(),
        within_seen(v),
    ensures
        within_seen(v.on(event)),
{
    broadcast use vstd::seq_lib::group_to_multiset_ensures;

    if v.accepts(event) {
        let w = v.on(event);
        let group = v.source[v.group as int];
        match event {
            ConfirmEvent::Digested { digest, size } => {
                if v.phase == ConfirmPhase::Primary {
                    let item = ItemView { digest, path: group.item.path, size };
                    let out = with_primary(v.out, group.item.digest, item);
                    if !has_key(v.out, digest) {
                        assert(out.drop_last() =~= v.out);
                        assert(all_dupes(out) =~= all_dupes(v.out));
                    } else {
                        lemma_all_dupes_alike(v.out, out);
                    }
                    let more = v.source.subrange(0, v.group as int + 1);
                    assert(more.drop_last() =~= v.source.subrange(0, v.group as int));
                    assert(more.last() == group);
                    if group.dupes.len() > 0 {
                        assert(group.dupes.subrange(0, 0) =~= Seq::<Seq<char>>::empty());
                    } else if !w.done() {
                        assert(w.source[w.group as int].dupes.subrange(0, 0) =~= Seq::<
                            Seq<char>,
                        >::empty());
                    }
                    assert(seen_dupes(w) =~= seen_dupes(v));
                } else {
                    let path = group.dupes[v.dupe as int];
                    lemma_seen_go_on(v);
                    if has_key(v.out, digest) {
                        lemma_update_all_dupes(v.out, key_index(v.out, digest), path);
                    }
                    assert(seen_dupes(w).to_multiset() =~= seen_dupes(v).to_multiset().insert(path));
                }
            },
            ConfirmEvent::Sized { found } => {
                if w.phase != ConfirmPhase::DupeDigest {
                    lemma_seen_go_on(v);
                    assert(seen_dupes(w).to_multiset() =~= seen_dupes(v).to_multiset().insert(
                        group.dupes[v.dupe as int],
                    ));
                }
            },
        }
    }
}

/// The duplicates looked at are among those of the index that is
/// confirmed, counted as often as they occur.
pub proof fn lemma_seen_within_source(v: ConfirmView)
    requires
        v.wf(),
    ensures
        seen_dupes(v).to_multiset().subset_of(all_dupes(v.source).to_multiset()),
{
    let n = v.source.len() as int;
    let g = v.group as int;
    let done = all_dupes(v.source.subrange(0, g));
    lemma_all_dupes_split(v.source, g);
    let rest = v.source.subrange(g, n);
    if v.done() {
        assert(seen_dupes(v) =~= done);
        lemma_multiset_commutative(done, all_dupes(rest));
    } else {
        let group = v.source[g];
        lemma_all_dupes_split(rest, 1);
        let one = rest.subrange(0, 1);
        assert(one.drop_last() =~= Seq::<GroupView>::empty());
        assert(one.last() == group);
        assert(all_dupes(one.drop_last()) =~= Seq::<Seq<char>>::empty());
        assert(all_dupes(one) =~= group.dupes);
        let head = group.dupes.subrange(0, v.dupe as int);
        let tail = group.dupes.subrange(v.dupe as int, group.dupes.len() as int);
        assert(group.dupes =~= head + tail);
        let after = tail + all_dupes(rest.subrange(1, rest.len() as int));
        assert(all_dupes(v.source) =~= seen_dupes(v) + after);
        lemma_multiset_commutative(seen_dupes(v), after);
    }
}

/// Confirming brings no duplicate more often than it was there: whatever
/// is found on the way, the duplicates of the confirmed index, each
/// counted as often as it occurs, are among the duplicates of the index
/// that was confirmed.
pub proof fn lemma_confirm_adds_no_copy(source: Seq<GroupView>, events: Seq<ConfirmEvent>)
    ensures
        within_seen(ConfirmView::start(source).run(events)),
        all_dupes(ConfirmView::start(source).run(events).out).to_multiset().subset_of(
            all_dupes(source).to_multiset(),
        ),
    decreases events.len(),
{
    let start = ConfirmView::start(source);
    if events.len() == 0 {
        assert(all_dupes(start.out) =~= Seq::<Seq<char>>::empty());
        assert(all_dupes(start.out).to_multiset().len() == 0) by {
            broadcast use vstd::seq_lib::group_to_multiset_ensures;

        }
    } else {
        lemma_confirm_adds_no_copy(source, events.drop_last());
        lemma_confirm_run_wf(start, events.drop_last());
        lemma_confirm_event_seen(start.run(events.drop_last()), events.last());
    }
    lemma_confirm_run_wf(start, events);
    lemma_seen_within_source(start.run(events));
}

/// A confirmation in progress.
pub struct Confirm<'a> {
    source: &'a TreeIndex,
    out: TreeIndex,
    group: usize,
    dupe: usize,
    phase: ConfirmPhase,
}

impl<'a> View for Confirm<'a> {
    type V = ConfirmView;

    closed spec fn view(&self) -> ConfirmView {
        ConfirmView {
            source: self.source@,
            out: self.out@,
            group: self.group as nat,
            dupe: self.dupe as nat,
            phase: self.phase,
        }
    }
}

impl<'a> Confirm<'a> {
    /// The state is in order, and so are both indexes.
    pub closed spec fn wf(&self) -> bool {
        self.source.wf() && self.out.wf() && self@.wf()
    }

    /// A confirmation that is in order has a state that is in order, of an
    /// index in which no digest has two groups: the laws of confirming
    /// speak of it.
    pub proof fn lemma_wf(&self)
        requires
            self.wf(),
        ensures
            self@.wf(),
            distinct_keys(self@.source),
    {
        self.source.lemma_distinct();
    }

    /// A confirmation of `source`, with nothing confirmed yet.
    pub fn new(source: &'a TreeIndex) -> (c: Self)
        requires
            source.wf(),
        ensures
            c.wf(),
            c@.wf(),
            c@ == ConfirmView::start(source@),
    {
        Confirm { source, out: TreeIndex::new(), group: 0, dupe: 0, phase: ConfirmPhase::Primary }
    }

    /// What to do next.
    pub fn step(&self) -> (step: ConfirmStep)
        requires
            self.wf(),
        ensures
            step@ == self@.step(),
    {
        let groups = self.source.groups();
        if self.group >= groups.len() {
            return ConfirmStep::Done;
        }
        let group = &groups[self.group];
        assert(group@ == self@.source[self.group as int]);
        match self.phase {
            ConfirmPhase::Primary => ConfirmStep::Digest(group.item.path.clone()),
            ConfirmPhase::DupeSize => ConfirmStep::Size(group.dupes[self.dupe].clone()),
            ConfirmPhase::DupeDigest => ConfirmStep::Digest(group.dupes[self.dupe].clone()),
        }
    }

    /// Goes on with the duplicate at place `dupe`, or with the next group.
    fn go_on(&mut self, dupe: usize)
        requires
            old(self).out.wf(),
            old(self).group < old(self).source@.len(),
            dupe <= old(self).source@[old(self).group as int].dupes.len(),
        ensures
            final(self)@ == old(self)@.go_on(dupe as nat),
            final(self).out.wf(),
            final(self).source == old(self).source,
    {
        let groups = self.source.groups();
        assert(groups@[self.group as int]@ == self.source@[self.group as int]);
        if dupe < groups[self.group].dupes.len() {
            self.dupe = dupe;
            self.phase = ConfirmPhase::DupeSize;
        } else {
            self.group = self.group + 1;
            self.dupe = 0;
            self.phase = ConfirmPhase::Primary;
        }
    }

    /// Takes in the record of the file that was to be digested. Of the
    /// record, the digest and the size count; the path is the one that was
    /// asked for. A record that was not asked for is refused, and nothing
    /// changes.
    pub fn digested(&mut self, item: &TreeItem) -> (taken: bool)
        requires
            old(self).wf(),
        ensures
            final(self).wf(),
            final(self)@.wf(),
            taken == old(self)@.accepts(
                ConfirmEvent::Digested { digest: item@.digest, size: item@.size },
            ),
            final(self)@ == old(self)@.on(
                ConfirmEvent::Digested { digest: item@.digest, size: item@.size },
            ),
    {
        let ghost event = ConfirmEvent::Digested { digest: item@.digest, size: item@.size };
        let groups = self.source.groups();
        if self.group >= groups.len() {
            return false;
        }
        let group = &groups[self.group];
        assert(group@ == self@.source[self.group as int]);
        proof {
            self.out.lemma_distinct();
            lemma_confirm_event_wf(self@, event);
        }
        match self.phase {
            ConfirmPhase::Primary => {
                let found = TreeItem::new(
                    item.digest.as_str(),
                    group.item.path.as_str(),
                    item.size,
                );
                if !self.out.contains_key(item.digest.as_str()) {
                    self.out.insert(TreeItemDupes::from(&found));
                } else if group.item.digest == item.digest {
                    self.out.replace_item(found);
                }
                self.go_on(0);
                true
            },
            ConfirmPhase::DupeDigest => {
                let dupe = self.dupe;
                let count: usize = group.dupes.len();
                assert(dupe < count) by {
                    assert(group@.dupes.len() == group.dupes@.len());
                }
                self.out.push_dupe(item.digest.as_str(), group.dupes[dupe].clone());
                self.go_on(dupe + 1);
                true
            },
            ConfirmPhase::DupeSize => false,
        }
    }

    /// Takes in the size of the file that was to be looked up, `None`
    /// where the lookup failed, which counts as a size of 0. A size that
    /// was not asked for is refused, and nothing changes.
    pub fn sized(&mut self, size: Option<u64>) -> (taken: bool)
        requires
            old(self).wf(),
        ensures
            final(self).wf(),
            final(self)@.wf(),
            taken == old(self)@.accepts(ConfirmEvent::Sized { found: size }),
            final(self)@ == old(self)@.on(ConfirmEvent::Sized { found: size }),
    {
        let groups = self.source.groups();
        if self.group >= groups.len() {
            return false;
        }
        let group = &groups[self.group];
        assert(group@ == self@.source[self.group as int]);
        proof {
            self.out.lemma_distinct();
            lemma_confirm_event_wf(self@, ConfirmEvent::Sized { found: size });
        }
        match self.phase {
            ConfirmPhase::DupeSize => {
                let now: u64 = match size {
                    Some(n) => n,
                    None => 0,
                };
                if now == group.item.size {
                    self.phase = ConfirmPhase::DupeDigest;
                } else {
                    let dupe = self.dupe;
                    let count: usize = group.dupes.len();
                    assert(dupe < count) by {
                        assert(group@.dupes.len() == group.dupes@.len());
                    }
                    self.go_on(dupe + 1);
                }
                true
            },
            _ => false,
        }
    }

    /// The confirmed index, once every group is confirmed.
    pub fn finish(self) -> (index: TreeIndex)
        requires
            self.wf(),
            self@.done(),
        ensures
            index.wf(),
            index@ == self@.out,
    {
        self.out
    }
}

} // verus!
