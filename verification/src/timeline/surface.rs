//! What the timeline editing surface has selected, and the bounded local
//! undo history it keeps over document snapshots.

use vstd::prelude::*;
use crate::timeline::model::{MarkerId, MediaId, TrackId};
use vstd::std_specs::cmp::PartialEqSpec;

verus! {

/// The selected track, channel, media clip and marker, each optional.
#[derive(Clone, Copy, Debug, PartialEq, Eq)]
pub struct TimelineSelection {
    pub track: Option<TrackId>,
    pub channel: Option<usize>,
    pub media: Option<MediaId>,
    pub marker: Option<MarkerId>,
}

impl Default for TimelineSelection {
    fn default() -> (s: Self)
        ensures
            s.track is None,
            s.channel is None,
            s.media is None,
            s.marker is None,
    {
        TimelineSelection { track: None, channel: None, media: None, marker: None }
    }
}

} // verus!

verus! {

/// One recorded edit: its label and the document before and after it.
pub struct HistoryEntry<D> {
    pub label: &'static str,
    pub before: D,
    pub after: D,
}

/// The history as a value: its entries, how many of them are done (the
/// rest can be redone), and how many it keeps.
pub struct HistoryView<D> {
    pub entries: Seq<HistoryEntry<D>>,
    pub cursor: nat,
    pub capacity: nat,
}

impl<D> HistoryView<D> {
    /// The cursor lies within the entries, which never outgrow the capacity.
    pub open spec fn wf(self) -> bool {
        &&& 1 <= self.capacity
        &&& self.cursor <= self.entries.len() <= self.capacity
    }
}

/// The history after recording `entry`: the undone entries are dropped, the
/// entry is appended, the oldest entry falls off past the capacity, and
/// everything is done.
pub open spec fn recorded<D>(h: HistoryView<D>, entry: HistoryEntry<D>) -> HistoryView<D> {
    let kept = h.entries.subrange(0, h.cursor as int).push(entry);
    let entries = if kept.len() > h.capacity {
        kept.drop_first()
    } else {
        kept
    };
    HistoryView { entries, cursor: entries.len(), capacity: h.capacity }
}

/// The history after one undo: the cursor steps back where it can.
pub open spec fn undone<D>(h: HistoryView<D>) -> HistoryView<D> {
    if h.cursor == 0 {
        h
    } else {
        HistoryView { cursor: (h.cursor - 1) as nat, ..h }
    }
}

/// The history after one redo: the cursor steps forward where it can.
pub open spec fn redone<D>(h: HistoryView<D>) -> HistoryView<D> {
    if h.cursor < h.entries.len() {
        HistoryView { cursor: h.cursor + 1, ..h }
    } else {
        h
    }
}

/// A bounded local undo history over snapshots of a document.
pub struct TimelineHistory<D> {
    entries: Vec<HistoryEntry<D>>,
    cursor: usize,
    capacity: usize,
}

impl<D> View for TimelineHistory<D> {
    type V = HistoryView<D>;

    closed spec fn view(&self) -> HistoryView<D> {
        HistoryView { entries: self.entries@, cursor: self.cursor as nat, capacity: self.capacity as nat }
    }
}

impl<D> TimelineHistory<D> {
    /// An empty history that keeps `capacity` entries, and at least one.
    pub fn new(capacity: usize) -> (h: Self)
        ensures
            h@.wf(),
            h@.entries.len() == 0,
            h@.cursor == 0,
            h@.capacity == if capacity == 0 { 1 } else { capacity },
    {
        TimelineHistory { entries: Vec::new(), cursor: 0, capacity: if capacity == 0 { 1 } else { capacity } }
    }

    /// Record the edit from `before` to `document` under `label`. An edit
    /// that changed nothing is not recorded, and `false` says so.
    pub fn record(&mut self, before: D, document: &D, label: &'static str) -> (changed: bool)
        where
            D: PartialEq + Clone,
        requires
            old(self)@.wf(),
        ensures
            final(self)@.wf(),
            D::obeys_eq_spec() ==> changed == !before.eq_spec(document),
            !changed ==> final(self)@ == old(self)@,
            changed ==> {
                let e = final(self)@.entries.last();
                &&& final(self)@ == recorded(old(self)@, e)
                &&& e.label == label
                &&& e.before == before
                &&& cloned(*document, e.after)
            },
    {
        if before == *document {
            return false;
        }
        let after = document.clone();
        let mut entries = Vec::new();
        std::mem::swap(&mut entries, &mut self.entries);
        entries.truncate(self.cursor);
        entries.push(HistoryEntry { label, before, after });
        if entries.len() > self.capacity {
            entries.remove(0);
        }
        self.cursor = entries.len();
        self.entries = entries;
        true
    }

    /// Run `edit` on `document` and record it under `label`. An edit that
    /// declines (returns `false`) or changes nothing is rolled back to a
    /// copy of the document as it was, is not recorded, and `false` says so.
    pub fn apply<F: FnOnce(&mut D) -> bool>(&mut self, document: &mut D, label: &'static str, edit: F) -> (changed: bool)
        where
            D: PartialEq + Clone,
        requires
            old(self)@.wf(),
            forall|d: &mut D| #[trigger] edit.requires((d,)),
        ensures
            final(self)@.wf(),
            !changed ==> final(self)@ == old(self)@ && cloned(*old(document), *final(document)),
            changed ==> {
                let e = final(self)@.entries.last();
                &&& final(self)@ == recorded(old(self)@, e)
                &&& e.label == label
                &&& cloned(*old(document), e.before)
                &&& cloned(*final(document), e.after)
            },
    {
        let before = document.clone();
        let restore = document.clone();
        let accepted = edit(document);
        if !accepted || *document == before {
            *document = restore;
            return false;
        }
        let changed = self.record(before, document, label);
        if !changed {
            *document = restore;
        }
        changed
    }

    /// Step back one edit, putting its `before` snapshot into `document`.
    /// With nothing to undo, `false` and nothing changes.
    pub fn undo(&mut self, document: &mut D) -> (moved: bool)
        where
            D: Clone,
        requires
            old(self)@.wf(),
        ensures
            final(self)@.wf(),
            moved == (old(self)@.cursor > 0),
            final(self)@ == undone(old(self)@),
            moved ==> cloned(old(self)@.entries[final(self)@.cursor as int].before, *final(document)),
            !moved ==> *final(document) == *old(document),
    {
        if self.cursor == 0 {
            return false;
        }
        self.cursor = self.cursor - 1;
        *document = self.entries[self.cursor].before.clone();
        true
    }

    /// Step forward one edit, putting its `after` snapshot into `document`.
    /// With nothing to redo, `false` and nothing changes.
    pub fn redo(&mut self, document: &mut D) -> (moved: bool)
        where
            D: Clone,
        requires
            old(self)@.wf(),
        ensures
            final(self)@.wf(),
            moved == (old(self)@.cursor < old(self)@.entries.len()),
            final(self)@ == redone(old(self)@),
            moved ==> cloned(old(self)@.entries[old(self)@.cursor as int].after, *final(document)),
            !moved ==> *final(document) == *old(document),
    {
        if self.cursor >= self.entries.len() {
            return false;
        }
        *document = self.entries[self.cursor].after.clone();
        self.cursor = self.cursor + 1;
        true
    }

    /// The labels of the recorded edits, oldest first, done or not.
    pub fn labels(&self) -> (labels: Vec<&'static str>)
        ensures
            labels@.len() == self@.entries.len(),
            forall|i: int| 0 <= i < labels@.len() ==> labels@[i] == self@.entries[i].label,
    {
        let mut labels = Vec::new();
        let mut i: usize = 0;
        while i < self.entries.len()
            invariant
                i <= self.entries@.len(),
                labels@.len() == i,
                forall|k: int| 0 <= k < i ==> labels@[k] == self@.entries[k].label,
            decreases self.entries@.len() - i,
        {
            labels.push(self.entries[i].label);
            i = i + 1;
        }
        labels
    }
}

impl<D> Default for TimelineHistory<D> {
    fn default() -> (h: Self)
        ensures
            h@.wf(),
            h@.entries.len() == 0,
            h@.cursor == 0,
            h@.capacity == 128,
    {
        TimelineHistory::new(128)
    }
}

/// Undo right after recording steps back over exactly that edit, so the
/// document returns to the snapshot taken before it; redo then brings the
/// edit's result back.
pub proof fn lemma_undo_returns_the_recorded_edit<D>(h: HistoryView<D>, entry: HistoryEntry<D>)
    requires
        h.wf(),
    ensures
        recorded(h, entry).cursor > 0,
        undone(recorded(h, entry)).entries[undone(recorded(h, entry)).cursor as int] == entry,
        redone(undone(recorded(h, entry))) == recorded(h, entry),
{
}

/// Redo undoes an undo, and undo undoes a redo, wherever they can move.
pub proof fn lemma_undo_and_redo_are_inverse<D>(h: HistoryView<D>)
    requires
        h.wf(),
    ensures
        h.cursor > 0 ==> redone(undone(h)) == h,
        h.cursor < h.entries.len() ==> undone(redone(h)) == h,
        undone(h).wf(),
        redone(h).wf(),
{
}

/// Recording forgets what could be redone, keeps the done edits in order
/// (dropping the oldest only at capacity), and never outgrows the capacity.
pub proof fn lemma_record_drops_the_redo_branch<D>(h: HistoryView<D>, entry: HistoryEntry<D>)
    requires
        h.wf(),
    ensures
        recorded(h, entry).wf(),
        recorded(h, entry).cursor == recorded(h, entry).entries.len(),
        recorded(h, entry).entries.last() == entry,
        h.cursor < h.capacity ==> recorded(h, entry).entries == h.entries.subrange(0, h.cursor as int).push(entry),
        h.cursor == h.capacity ==> recorded(h, entry).entries == h.entries.subrange(1, h.cursor as int).push(entry),
{
    if h.cursor == h.capacity {
        assert(h.entries.subrange(0, h.cursor as int).push(entry).drop_first()
            =~= h.entries.subrange(1, h.cursor as int).push(entry));
    }
}

} // verus!
