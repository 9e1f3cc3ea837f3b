//! The UI-side thumbnail atlas and its visible-first request queue.
//!
//! File IO, image decoding and preview rendering live outside this crate.
//! The frame loop only enqueues paths and applies already prepared 64x64
//! RGBA cells, within a measured wall-clock budget. Paths are keyed by
//! their text.

use std::collections::VecDeque;
use std::time::{Duration, Instant};
use vstd::prelude::*;
use crate::keyed::{KeyedTable, count_where, count_values};
use crate::text::encoding::str_equals;

verus! {

/// Side of one thumbnail cell, in atlas pixels.
pub const CELL: u32 = 64;
/// Atlas width in pixels.
pub const ATLAS_WIDTH: u32 = CELL * 16;
/// Atlas height in pixels.
pub const ATLAS_HEIGHT: u32 = CELL * 16;
/// Slots retained before least-recently-used eviction starts.
pub const CAPACITY: usize = 16 * 16;
/// Texture id reserved for the thumbnail atlas.
pub const THUMBNAIL_ATLAS_TEXTURE_ID: u32 = 2;
/// Bytes in one RGBA cell.
pub const CELL_BYTES: usize = 64 * 64 * 4;
/// Bytes in one row of a cell.
pub const CELL_ROW_BYTES: usize = 64 * 4;
/// Bytes in the whole atlas.
pub const ATLAS_BYTES: usize = 1024 * 1024 * 4;

/// What a requested thumbnail currently holds.
#[derive(Clone, Copy, Debug, PartialEq, Eq, Structural)]
pub enum ThumbState {
    /// Waiting for an off-thread producer.
    Pending,
    /// Packed into this atlas slot.
    Ready(u32),
    /// No real preview was available; callers should use a kind icon.
    Failed,
}

/// Work transferred to the host job registry.
#[derive(Clone, Debug, PartialEq, Eq)]
pub struct ThumbnailRequest {
    /// Asset path.
    pub path: String,
    /// Requested square side in pixels.
    pub size: u32,
    /// Whether the tile intersected the current viewport.
    pub visible: bool,
}

#[verifier::external_type_specification]
#[verifier::external_body]
pub struct ExInstant(Instant);

/// The current instant, from `std::time::Instant::now`. Nothing is claimed
/// of it: it depends on the clock.
#[verifier::external_body]
fn now() -> Instant {
    Instant::now()
}

/// The time since `started`, from `std::time::Instant::elapsed`. Nothing is
/// claimed of it: it depends on the clock.
#[verifier::external_body]
fn elapsed_since(started: &Instant) -> Duration {
    started.elapsed()
}

/// Whether `elapsed` is at least `budget`, by `Duration`'s `>=`. Nothing
/// is claimed of it beyond that it returns: the durations are opaque here.
#[verifier::external_body]
fn reached(elapsed: &Duration, budget: &Duration) -> bool {
    *elapsed >= *budget
}

/// The plain state of a thumbnail cache.
#[verifier::ext_equal]
pub struct ThumbModel {
    pub pixels: Seq<u8>,
    pub width: u32,
    pub height: u32,
    pub dirty: bool,
    /// What each known path currently holds.
    pub states: Map<Seq<char>, ThumbState>,
    /// Paths handed out or queued and not yet delivered.
    pub requested: Set<Seq<char>>,
    /// Queued requests for tiles in view, oldest first.
    pub visible: Seq<Seq<char>>,
    /// Queued requests for tiles out of view, oldest first.
    pub background: Seq<Seq<char>>,
    /// The path owning each atlas slot.
    pub slots: Seq<Option<Seq<char>>>,
    /// The tick each path was last used at.
    pub last_used: Map<Seq<char>, u64>,
    /// The use counter, wrapping.
    pub clock: u64,
}

/// When the owner of a slot was last used; never-used counts as 0.
pub open spec fn last_use(slots: Seq<Option<Seq<char>>>, last_used: Map<Seq<char>, u64>, i: int) -> u64 {
    match slots[i] {
        Some(p) => if last_used.contains_key(p) {
            last_used[p]
        } else {
            0
        },
        None => 0,
    }
}

/// The earliest slot among the first `n` whose owner was used least
/// recently.
pub open spec fn lru_slot(slots: Seq<Option<Seq<char>>>, last_used: Map<Seq<char>, u64>, n: int) -> int
    decreases n,
{
    if n <= 1 {
        0
    } else {
        let best = lru_slot(slots, last_used, n - 1);
        if last_use(slots, last_used, n - 1) < last_use(slots, last_used, best) {
            n - 1
        } else {
            best
        }
    }
}

/// Where a slot's cell starts in the atlas, in pixels.
pub open spec fn spec_slot_origin(slot: u32) -> (u32, u32) {
    (((slot % 16) * 64) as u32, ((slot / 16) * 64) as u32)
}

/// Where row `row` of slot `slot`'s cell starts in the pixel bytes.
pub open spec fn cell_row_start(width: u32, slot: u32, row: int) -> int {
    let (ox, oy) = spec_slot_origin(slot);
    (oy + row) * (width * 4) + ox * 4
}

/// Whether every row of slot `slot`'s cell lies inside `len` pixel bytes.
pub open spec fn cell_fits(width: u32, len: nat, slot: u32) -> bool {
    &&& slot < CAPACITY
    &&& width * 4 <= usize::MAX
    &&& cell_row_start(width, slot, 63) + CELL_ROW_BYTES <= len
}

/// `p` with `src` written over it from `at`.
pub open spec fn splice(p: Seq<u8>, at: int, src: Seq<u8>) -> Seq<u8> {
    p.subrange(0, at) + src + p.subrange(at + src.len(), p.len() as int)
}

/// The pixels after copying the first `rows` rows of `rgba` into a slot's
/// cell, row by row.
pub open spec fn copy_rows(p: Seq<u8>, width: u32, slot: u32, rgba: Seq<u8>, rows: int) -> Seq<u8>
    decreases rows,
{
    if rows <= 0 {
        p
    } else {
        let before = copy_rows(p, width, slot, rgba, rows - 1);
        let r = rows - 1;
        splice(
            before,
            cell_row_start(width, slot, r),
            rgba.subrange(r * CELL_ROW_BYTES, (r + 1) * CELL_ROW_BYTES),
        )
    }
}

impl ThumbModel {
    /// A cache as made: a zeroed atlas of the standard size, every slot
    /// free, nothing requested, known or used.
    pub open spec fn fresh() -> ThumbModel {
        ThumbModel {
            pixels: Seq::new(ATLAS_BYTES as nat, |i: int| 0u8),
            width: ATLAS_WIDTH,
            height: ATLAS_HEIGHT,
            dirty: false,
            states: Map::empty(),
            requested: Set::empty(),
            visible: Seq::empty(),
            background: Seq::empty(),
            slots: Seq::new(CAPACITY as nat, |i: int| None),
            last_used: Map::empty(),
            clock: 0,
        }
    }

    /// After clearing: zeroed pixels and free slots, nothing requested,
    /// known or used, and the atlas marked changed.
    pub open spec fn cleared(self) -> ThumbModel {
        ThumbModel {
            pixels: Seq::new(self.pixels.len(), |i: int| 0u8),
            dirty: true,
            states: Map::empty(),
            requested: Set::empty(),
            visible: Seq::empty(),
            background: Seq::empty(),
            slots: Seq::new(self.slots.len(), |i: int| None),
            last_used: Map::empty(),
            clock: 0,
            ..self
        }
    }

    /// Mark `p` as just used.
    pub open spec fn touched(self, p: Seq<char>) -> ThumbModel {
        let c = (if self.clock == u64::MAX {
            0
        } else {
            self.clock + 1
        }) as u64;
        ThumbModel { clock: c, last_used: self.last_used.insert(p, c), ..self }
    }

    /// After asking for `p`'s preview. A path is queued once; asking again
    /// for a visible tile promotes queued background work to the visible
    /// queue.
    pub open spec fn after_request(self, p: Seq<char>, visible: bool) -> ThumbModel {
        let t = self.touched(p);
        if self.states.contains_key(p) || self.requested.contains(p) {
            if visible {
                match t.background.index_of_first(p) {
                    Some(i) => ThumbModel {
                        background: t.background.remove(i),
                        visible: t.visible.push(p),
                        ..t
                    },
                    None => t,
                }
            } else {
                t
            }
        } else {
            let r = ThumbModel {
                requested: t.requested.insert(p),
                states: t.states.insert(p, ThumbState::Pending),
                ..t
            };
            if visible {
                ThumbModel { visible: r.visible.push(p), ..r }
            } else {
                ThumbModel { background: r.background.push(p), ..r }
            }
        }
    }

    /// How many visible requests a take of `limit` drains.
    pub open spec fn visible_taken(self, limit: usize) -> int {
        if limit < self.visible.len() {
            limit as int
        } else {
            self.visible.len() as int
        }
    }

    /// How many background requests a take of `limit` drains.
    pub open spec fn background_taken(self, limit: usize) -> int {
        let rest = limit - self.visible_taken(limit);
        if rest < self.background.len() {
            rest
        } else {
            self.background.len() as int
        }
    }

    /// The requests a take of `limit` hands out: visible ones first, each
    /// with whether it was visible.
    pub open spec fn taken(self, limit: usize) -> Seq<(Seq<char>, bool)> {
        self.visible.take(self.visible_taken(limit)).map_values(|p: Seq<char>| (p, true))
            + self.background.take(self.background_taken(limit)).map_values(
            |p: Seq<char>| (p, false),
        )
    }

    /// After a take of `limit`.
    pub open spec fn after_take(self, limit: usize) -> ThumbModel {
        ThumbModel {
            visible: self.visible.skip(self.visible_taken(limit)),
            background: self.background.skip(self.background_taken(limit)),
            ..self
        }
    }

    /// The slot `p`'s cell goes to: the first free slot, else the slot of
    /// the least recently used path.
    pub open spec fn slot_for(self) -> int {
        match self.slots.index_of_first(None) {
            Some(i) => i,
            None => lru_slot(self.slots, self.last_used, self.slots.len() as int),
        }
    }

    /// After giving `p` a slot: a free one, or the least recently used
    /// one, whose owner is forgotten.
    pub open spec fn after_allocate(self, p: Seq<char>) -> ThumbModel {
        match self.slots.index_of_first(None) {
            Some(i) => ThumbModel { slots: self.slots.update(i, Some(p)), ..self },
            None => {
                let v = self.slot_for();
                let owner = self.slots[v]->0;
                ThumbModel {
                    states: self.states.remove(owner),
                    last_used: self.last_used.remove(owner),
                    slots: self.slots.update(v, Some(p)),
                    ..self
                }
            },
        }
    }

    /// After delivering `rgba` for `p`; also whether it was applied. A cell
    /// of the wrong size marks the path failed and leaves the atlas alone.
    pub open spec fn after_deliver(self, p: Seq<char>, rgba: Seq<u8>) -> (ThumbModel, bool) {
        let r = ThumbModel { requested: self.requested.remove(p), ..self };
        if rgba.len() != CELL_BYTES {
            (ThumbModel { states: r.states.insert(p, ThumbState::Failed), ..r }, false)
        } else {
            let slot = r.slot_for() as u32;
            let a = r.after_allocate(p);
            let c = ThumbModel {
                pixels: copy_rows(a.pixels, a.width, slot, rgba, 64),
                dirty: true,
                ..a
            };
            (ThumbModel { states: c.states.insert(p, ThumbState::Ready(slot)), ..c }.touched(p), true)
        }
    }

    /// Whether delivering `rgba` for `p` stays inside the pixel bytes.
    pub open spec fn can_deliver(self, p: Seq<char>, rgba: Seq<u8>) -> bool {
        rgba.len() == CELL_BYTES ==> cell_fits(self.width, self.pixels.len(), self.slot_for() as u32)
    }

    /// After delivering every item of `items`, in order.
    pub open spec fn after_deliver_all(self, items: Seq<(String, Vec<u8>)>) -> ThumbModel
        decreases items.len(),
    {
        if items.len() == 0 {
            self
        } else {
            let before = self.after_deliver_all(items.drop_last());
            before.after_deliver(items.last().0@, items.last().1@).0
        }
    }

    /// Whether delivering every item of `items`, in order, stays inside the
    /// pixel bytes.
    pub open spec fn can_deliver_all(self, items: Seq<(String, Vec<u8>)>) -> bool
        decreases items.len(),
    {
        items.len() == 0 || (self.can_deliver_all(items.drop_last()) && self.after_deliver_all(
            items.drop_last(),
        ).can_deliver(items.last().0@, items.last().1@))
    }
}

/// Whether the request queues hold each path at most once and never in
/// both, and every queued path is one the cache knows.
pub open spec fn queues_sound(m: ThumbModel) -> bool {
    &&& m.visible.no_duplicates()
    &&& m.background.no_duplicates()
    &&& forall|i: int, j: int|
        0 <= i < m.visible.len() && 0 <= j < m.background.len() ==> #[trigger] m.visible[i] != #[trigger] m.background[j]
    &&& forall|i: int| 0 <= i < m.visible.len() ==> m.states.contains_key(#[trigger] m.visible[i])
    &&& forall|j: int| 0 <= j < m.background.len() ==> m.states.contains_key(#[trigger] m.background[j])
}

/// What marking `p` failed does to a cache.
pub open spec fn marked_failed(m: ThumbModel, p: Seq<char>) -> ThumbModel {
    ThumbModel { requested: m.requested.remove(p), states: m.states.insert(p, ThumbState::Failed), ..m }
}

/// The atlas plus the UI-only scheduling state.
pub struct ThumbnailCache {
    /// RGBA8 atlas bytes.
    pub pixels: Vec<u8>,
    /// Atlas width.
    pub width: u32,
    /// Atlas height.
    pub height: u32,
    /// Set whenever pixels changed.
    pub dirty: bool,
    states: KeyedTable<ThumbState>,
    requested: KeyedTable<()>,
    visible_queue: VecDeque<String>,
    background_queue: VecDeque<String>,
    slot_owner: Vec<Option<String>>,
    last_used: KeyedTable<u64>,
    clock: u64,
}

/// The paths of a queue, as text.
pub open spec fn path_texts(q: Seq<String>) -> Seq<Seq<char>> {
    q.map_values(|s: String| s@)
}

/// The owners of the slots, as text.
pub open spec fn owner_texts(slots: Seq<Option<String>>) -> Seq<Option<Seq<char>>> {
    slots.map_values(
        |o: Option<String>|
            match o {
                Some(s) => Some(s@),
                None => None,
            },
    )
}

impl View for ThumbnailCache {
    type V = ThumbModel;

    closed spec fn view(&self) -> ThumbModel {
        ThumbModel {
            pixels: self.pixels@,
            width: self.width,
            height: self.height,
            dirty: self.dirty,
            states: self.states@,
            requested: self.requested@.dom(),
            visible: path_texts(self.visible_queue@),
            background: path_texts(self.background_queue@),
            slots: owner_texts(self.slot_owner@),
            last_used: self.last_used@,
            clock: self.clock,
        }
    }
}

/// Delivering a prefix of `items` is in bounds when delivering all of them
/// is.
proof fn lemma_can_deliver_prefix(m: ThumbModel, items: Seq<(String, Vec<u8>)>, k: int)
    requires
        m.can_deliver_all(items),
        0 <= k <= items.len(),
    ensures
        m.can_deliver_all(items.take(k)),
    decreases items.len() - k,
{
    if k < items.len() {
        assert(items.drop_last().take(k) =~= items.take(k));
        lemma_can_deliver_prefix(m, items.drop_last(), k);
    } else {
        assert(items.take(k) =~= items);
    }
}

/// Whether `s` is what a count asks for: a ready cell when `ready`, else
/// a pending request.
pub open spec fn counted(s: ThumbState, ready: bool) -> bool {
    if ready {
        s is Ready
    } else {
        s is Pending
    }
}

/// How many of `states` are ready cells (`ready`) or pending requests.
fn count_matching(states: &Vec<ThumbState>, ready: bool) -> (n: usize)
    ensures
        n == count_values(states@, |s: ThumbState| counted(s, ready)),
{
    let ghost pred = |s: ThumbState| counted(s, ready);
    let mut n: usize = 0;
    let mut i: usize = 0;
    while i < states.len()
        invariant
            i <= states@.len(),
            n <= i,
            pred == (|s: ThumbState| counted(s, ready)),
            n == count_values(states@.take(i as int), pred),
        decreases states@.len() - i,
    {
        proof {
            assert(states@.take(i as int + 1).drop_last() =~= states@.take(i as int));
        }
        let hit = match states[i] {
            ThumbState::Ready(_) => ready,
            ThumbState::Pending => !ready,
            ThumbState::Failed => false,
        };
        proof {
            assert(states@.take(i as int + 1).last() == states@[i as int]);
            assert(pred(states@[i as int]) == hit);
        }
        if hit {
            n = n + 1;
        }
        i = i + 1;
    }
    proof {
        assert(states@.take(i as int) =~= states@);
    }
    n
}

impl ThumbnailCache {
    /// One slot per atlas cell.
    pub closed spec fn wf(&self) -> bool {
        self.slot_owner@.len() == CAPACITY
    }

    /// Where a slot's cell starts in the atlas, in pixels.
    pub fn slot_origin(slot: u32) -> (origin: (u32, u32))
        requires
            (slot / 16) * 64 <= u32::MAX,
        ensures
            origin == spec_slot_origin(slot),
    {
        let per_row = ATLAS_WIDTH / CELL;
        ((slot % per_row) * CELL, (slot / per_row) * CELL)
    }

    /// Marks `path` as just used.
    fn touch(&mut self, path: &str)
        ensures
            final(self)@ == old(self)@.touched(path@),
            final(self).slot_owner == old(self).slot_owner,
    {
        self.clock = if self.clock == u64::MAX {
            0
        } else {
            self.clock + 1
        };
        self.last_used.insert(path, self.clock);
    }

    /// Where `path` waits in the background queue, if it does.
    fn background_position(&self, path: &str) -> (r: Option<usize>)
        ensures
            r matches Some(i) ==> self@.background.index_of_first(path@) == Some(i as int),
            r is None ==> self@.background.index_of_first(path@) is None,
    {
        let ghost q = self@.background;
        let mut i: usize = 0;
        while i < self.background_queue.len()
            invariant
                q == path_texts(self.background_queue@),
                i <= q.len(),
                forall|k: int| 0 <= k < i ==> #[trigger] q[k] != path@,
            decreases q.len() - i,
        {
            if str_equals(self.background_queue[i].as_str(), path) {
                proof {
                    assert(q[i as int] == path@);
                    q.index_of_first_ensures(path@);
                    if let Some(j) = q.index_of_first(path@) {
                        assert(j == i);
                    }
                }
                return Some(i);
            }
            i = i + 1;
        }
        proof {
            q.index_of_first_ensures(path@);
            assert(!q.contains(path@)) by {
                if q.contains(path@) {
                    let j = choose|j: int| 0 <= j < q.len() && q[j] == path@;
                    assert(q[j] != path@);
                }
            }
        }
        None
    }

    /// Enqueues a preview once. Visible requests always drain before
    /// background requests; a later visible request promotes queued
    /// background work.
    pub fn request(&mut self, path: &str, visible: bool)
        ensures
            final(self)@ == old(self)@.after_request(path@, visible),
            final(self).wf() == old(self).wf(),
    {
        self.touch(path);
        if self.states.contains_key(path) || self.requested.contains_key(path) {
            if visible {
                match self.background_position(path) {
                    Some(index) => {
                        let ghost before = self.background_queue@;
                        proof {
                            path_texts(before).index_of_first_ensures(path@);
                        }
                        let promoted = self.background_queue.remove(index);
                        match promoted {
                            Some(p) => {
                                proof {
                                    assert(path_texts(self.background_queue@) =~= path_texts(before).remove(index as int));
                                }
                                let ghost vis = self.visible_queue@;
                                self.visible_queue.push_back(p);
                                proof {
                                    assert(path_texts(self.visible_queue@) =~= path_texts(vis).push(path@));
                                }
                            },
                            None => {},
                        }
                    },
                    None => {},
                }
            }
            return;
        }
        self.requested.insert(path, ());
        self.states.insert(path, ThumbState::Pending);
        let owned = path.to_owned();
        if visible {
            let ghost vis = self.visible_queue@;
            self.visible_queue.push_back(owned);
            proof {
                assert(path_texts(self.visible_queue@) =~= path_texts(vis).push(path@));
            }
        } else {
            let ghost bg = self.background_queue@;
            self.background_queue.push_back(owned);
            proof {
                assert(path_texts(self.background_queue@) =~= path_texts(bg).push(path@));
            }
        }
    }

    /// Drains at most `limit` requests in visible-first order.
    pub fn take_requests(&mut self, limit: usize) -> (out: Vec<ThumbnailRequest>)
        ensures
            out@.map_values(|r: ThumbnailRequest| (r.path@, r.visible)) == old(self)@.taken(limit),
            forall|i: int| 0 <= i < out@.len() ==> #[trigger] out@[i].size == CELL,
            final(self)@ == old(self)@.after_take(limit),
            final(self).wf() == old(self).wf(),
    {
        let ghost m = self@;
        let mut out: Vec<ThumbnailRequest> = Vec::new();
        while out.len() < limit
            invariant_except_break
                out.len() <= limit,
            invariant
                out@.len() <= m.visible.len(),
                path_texts(self.visible_queue@) == m.visible.skip(out@.len() as int),
                out@.map_values(|r: ThumbnailRequest| (r.path@, r.visible)) =~= m.visible.take(out@.len() as int).map_values(|p: Seq<char>| (p, true)),
                forall|i: int| 0 <= i < out@.len() ==> #[trigger] out@[i].size == CELL,
                self@ == (ThumbModel { visible: m.visible.skip(out@.len() as int), ..m }),
                self.slot_owner == old(self).slot_owner,
            ensures
                out@.len() == m.visible_taken(limit),
            decreases m.visible.len() - out@.len(),
        {
            let ghost q = self.visible_queue@;
            match self.visible_queue.pop_front() {
                Some(path) => {
                    proof {
                        assert(path_texts(q).len() == q.len());
                        assert(q.len() > 0);
                        assert(path_texts(self.visible_queue@) =~= path_texts(q).subrange(1, q.len() as int));
                        assert(m.visible.skip(out@.len() as int).subrange(1, q.len() as int) =~= m.visible.skip(out@.len() as int + 1));
                        assert(m.visible.skip(out@.len() as int)[0] == m.visible[out@.len() as int]);
                    }
                    let ghost before = out@;
                    out.push(ThumbnailRequest { path, size: CELL, visible: true });
                    proof {
                        assert(m.visible.take(out@.len() as int) =~= m.visible.take(before.len() as int).push(m.visible[before.len() as int]));
                        assert(out@.map_values(|r: ThumbnailRequest| (r.path@, r.visible)) =~= before.map_values(|r: ThumbnailRequest| (r.path@, r.visible)).push((m.visible[before.len() as int], true)));
                    }
                },
                None => {
                    break;
                },
            }
        }
        let ghost v: int = out@.len() as int;
        while out.len() < limit
            invariant_except_break
                out.len() <= limit,
            invariant
                v == m.visible_taken(limit),
                v <= out@.len() <= v + m.background.len(),
                path_texts(self.background_queue@) == m.background.skip(out@.len() - v),
                out@.map_values(|r: ThumbnailRequest| (r.path@, r.visible)) =~= m.visible.take(v).map_values(|p: Seq<char>| (p, true)) + m.background.take(out@.len() - v).map_values(|p: Seq<char>| (p, false)),
                forall|i: int| 0 <= i < out@.len() ==> #[trigger] out@[i].size == CELL,
                self@ == (ThumbModel { visible: m.visible.skip(v), background: m.background.skip(out@.len() - v), ..m }),
                self.slot_owner == old(self).slot_owner,
            ensures
                out@.len() - v == m.background_taken(limit),
            decreases m.background.len() - (out@.len() - v),
        {
            let ghost q = self.background_queue@;
            match self.background_queue.pop_front() {
                Some(path) => {
                    let ghost k = out@.len() - v;
                    proof {
                        assert(path_texts(q).len() == q.len());
                        assert(q.len() > 0);
                        assert(path_texts(self.background_queue@) =~= path_texts(q).subrange(1, q.len() as int));
                        assert(m.background.skip(k).subrange(1, q.len() as int) =~= m.background.skip(k + 1));
                        assert(m.background.skip(k)[0] == m.background[k]);
                    }
                    let ghost before = out@;
                    out.push(ThumbnailRequest { path, size: CELL, visible: false });
                    proof {
                        assert(m.background.take(k + 1) =~= m.background.take(k).push(m.background[k]));
                        assert(out@.map_values(|r: ThumbnailRequest| (r.path@, r.visible)) =~= before.map_values(|r: ThumbnailRequest| (r.path@, r.visible)).push((m.background[k], false)));
                    }
                },
                None => {
                    break;
                },
            }
        }
        out
    }

    /// What `path` currently holds, if it is known.
    pub fn state(&self, path: &str) -> (r: Option<ThumbState>)
        ensures
            r == (if self@.states.contains_key(path@) {
                Some(self@.states[path@])
            } else {
                None
            }),
    {
        self.states.get(path)
    }

    /// Marks `path` as having no real preview.
    pub fn mark_failed(&mut self, path: &str)
        ensures
            final(self)@ == marked_failed(old(self)@, path@),
            final(self).wf() == old(self).wf(),
    {
        self.requested.remove(path);
        self.states.insert(path, ThumbState::Failed);
    }

    /// The atlas slot of a ready path, which counts as a use of it; `None`
    /// for any other path, which is left as it was.
    pub fn uv_slot(&mut self, path: &str) -> (r: Option<u32>)
        ensures
            match old(self)@.states.get(path@) {
                Some(ThumbState::Ready(slot)) => r == Some(slot) && final(self)@ == old(self)@.touched(path@),
                _ => r is None && final(self)@ == old(self)@,
            },
            final(self).wf() == old(self).wf(),
    {
        match self.states.get(path) {
            Some(ThumbState::Ready(slot)) => {
                self.touch(path);
                Some(slot)
            },
            _ => None,
        }
    }

    /// Number of ready cells.
    pub fn ready_count(&self) -> (n: usize)
        ensures
            n == count_where(self@.states, |s: ThumbState| s is Ready),
    {
        let values = self.states.values();
        proof {
            let ready = |s: ThumbState| counted(s, true);
            assert(count_values(values@, ready) == count_where(self@.states, ready));
            assert(ready =~= (|s: ThumbState| s is Ready));
        }
        count_matching(&values, true)
    }

    /// Number of outstanding requests.
    pub fn pending_count(&self) -> (n: usize)
        ensures
            n == count_where(self@.states, |s: ThumbState| s is Pending),
    {
        let values = self.states.values();
        proof {
            let pending = |s: ThumbState| counted(s, false);
            assert(count_values(values@, pending) == count_where(self@.states, pending));
            assert(pending =~= (|s: ThumbState| s is Pending));
        }
        count_matching(&values, false)
    }

    /// When the owner of slot `i` was last used; 0 for a free slot or an
    /// owner never used.
    fn use_of(&self, i: usize) -> (t: u64)
        requires
            i < self@.slots.len(),
        ensures
            t == last_use(self@.slots, self@.last_used, i as int),
    {
        match &self.slot_owner[i] {
            Some(owner) => match self.last_used.get(owner.as_str()) {
                Some(t) => t,
                None => 0,
            },
            None => 0,
        }
    }

    /// The slot the next delivery goes to, and whether it is free: the
    /// first free slot, else the one whose owner was used least recently.
    fn choose_slot(&self) -> (r: (usize, bool))
        requires
            self.wf(),
        ensures
            r.0 as int == self@.slot_for(),
            r.0 < CAPACITY,
            r.1 == (self@.slots.index_of_first(None) is Some),
    {
        let ghost m = self@;
        proof {
            m.slots.index_of_first_ensures(None);
        }
        let mut i: usize = 0;
        while i < self.slot_owner.len()
            invariant
                m == self@,
                self.wf(),
                i <= CAPACITY,
                forall|k: int| 0 <= k < i ==> #[trigger] m.slots[k] is Some,
            decreases CAPACITY - i,
        {
            if self.slot_owner[i].is_none() {
                proof {
                    assert(m.slots[i as int] is None);
                    m.slots.index_of_first_ensures(None);
                    if let Some(j) = m.slots.index_of_first(None) {
                        assert(j == i);
                    }
                    assert(m.slots.contains(None));
                    assert(m.slots.index_of_first(None) == Some(i as int));
                }
                return (i, true);
            }
            i = i + 1;
        }
        proof {
            m.slots.index_of_first_ensures(None);
            assert(!m.slots.contains(None)) by {
                if m.slots.contains(None) {
                    let j = choose|j: int| 0 <= j < m.slots.len() && m.slots[j] == None::<Seq<char>>;
                    assert(m.slots[j] is Some);
                }
            }
        }
        let mut best: usize = 0;
        let mut best_use: u64 = self.use_of(0);
        let mut j: usize = 1;
        while j < self.slot_owner.len()
            invariant
                m == self@,
                self.wf(),
                1 <= j <= CAPACITY,
                best == lru_slot(m.slots, m.last_used, j as int),
                best < j,
                best_use == last_use(m.slots, m.last_used, best as int),
            decreases CAPACITY - j,
        {
            let u = self.use_of(j);
            if u < best_use {
                best = j;
                best_use = u;
            }
            j = j + 1;
        }
        (best, false)
    }

    /// Gives `path` a slot: the first free one, else the least recently
    /// used one, whose owner is forgotten.
    fn allocate_slot(&mut self, path: &str) -> (slot: u32)
        requires
            old(self).wf(),
        ensures
            final(self).wf(),
            slot as int == old(self)@.slot_for(),
            slot < CAPACITY,
            final(self)@ == old(self)@.after_allocate(path@),
    {
        let ghost m = self@;
        let (best, free) = self.choose_slot();
        if !free {
            let victim = match &self.slot_owner[best] {
                Some(owner) => owner.clone(),
                None => path.to_owned(),
            };
            proof {
                m.slots.index_of_first_ensures(None);
                assert(m.slots[best as int] is Some) by {
                    if m.slots[best as int] is None {
                        assert(m.slots.contains(None));
                    }
                }
                assert(victim@ == m.slots[best as int]->0);
            }
            self.states.remove(victim.as_str());
            self.last_used.remove(victim.as_str());
        }
        let ghost before = self.slot_owner@;
        self.slot_owner.set(best, Some(path.to_owned()));
        proof {
            assert(owner_texts(self.slot_owner@) =~= owner_texts(before).update(best as int, Some(path@)));
        }
        best as u32
    }

    /// Whether delivering a cell of `rgba_len` bytes now stays inside the
    /// atlas's pixel bytes, which copying it row by row relies on. Always
    /// so for an atlas of the standard size.
    pub fn delivery_fits(&self, rgba_len: usize) -> (b: bool)
        requires
            self.wf(),
        ensures
            b == (rgba_len == CELL_BYTES ==> cell_fits(self@.width, self@.pixels.len(), self@.slot_for() as u32)),
    {
        if rgba_len != CELL_BYTES {
            return true;
        }
        let (slot, _) = self.choose_slot();
        let slot = slot as u32;
        proof {
            assert((slot / 16) * 64 <= 960 && (slot % 16) * 64 <= 960) by (nonlinear_arith)
                requires
                    slot < 256,
            ;
        }
        let per_row: u32 = 16;
        let ox = (slot % per_row) * CELL;
        let oy = (slot / per_row) * CELL;
        let stride = self.width as u128 * 4;
        let fits_stride = stride <= usize::MAX as u128;
        proof {
            assert((oy as int + 63) * stride <= (960 + 63) * 0x4_0000_0000) by (nonlinear_arith)
                requires
                    oy <= 960,
                    stride <= 0x4_0000_0000,
            ;
        }
        let last_row = (oy as u128 + 63) * stride + ox as u128 * 4;
        fits_stride && last_row + 256 <= self.pixels.len() as u128
    }

    /// Copies a prepared cell into a slot's place in the atlas, row by row.
    fn copy_into(&mut self, slot: u32, rgba: &[u8])
        requires
            cell_fits(old(self).width, old(self).pixels@.len(), slot),
            rgba@.len() == CELL_BYTES,
        ensures
            final(self)@ == (ThumbModel {
                pixels: copy_rows(old(self)@.pixels, old(self).width, slot, rgba@, 64),
                dirty: true,
                ..old(self)@
            }),
            final(self).slot_owner == old(self).slot_owner,
    {
        let ghost m = self@;
        let (ox, oy) = Self::slot_origin(slot);
        let stride: usize = self.width as usize * 4;
        let mut row: usize = 0;
        while row < 64
            invariant
                row <= 64,
                (ox, oy) == spec_slot_origin(slot),
                stride == self.width * 4,
                cell_fits(self.width, m.pixels.len(), slot),
                rgba@.len() == CELL_BYTES,
                self.pixels@.len() == m.pixels.len(),
                self.pixels@ == copy_rows(m.pixels, self.width, slot, rgba@, row as int),
                self@ == (ThumbModel { pixels: self.pixels@, ..m }),
                self.slot_owner == old(self).slot_owner,
            decreases 64 - row,
        {
            let src: usize = row * 256;
            proof {
                assert((oy + row) * stride <= (oy + 63) * stride) by (nonlinear_arith)
                    requires
                        row <= 63,
            }
            assert(cell_row_start(self.width, slot, 63) == (oy + 63) * stride + ox * 4);
            assert(self.pixels@.len() == self.pixels.len());
            let dst: usize = (oy as usize + row) * stride + ox as usize * 4;
            assert(dst == cell_row_start(self.width, slot, row as int));
            let ghost start = self.pixels@;
            let mut k: usize = 0;
            while k < 256
                invariant
                    k <= 256,
                    src == row * 256,
                    row < 64,
                    rgba@.len() == CELL_BYTES,
                    dst + 256 <= start.len(),
                    self.pixels@.len() == start.len(),
                    self.pixels@ == splice(start, dst as int, rgba@.subrange(src as int, src + k)),
                    self@ == (ThumbModel { pixels: self.pixels@, ..m }),
                    self.slot_owner == old(self).slot_owner,
                decreases 256 - k,
            {
                assert(self.pixels@.len() == self.pixels.len());
                self.pixels.set(dst + k, rgba[src + k]);
                proof {
                    assert(self.pixels@ =~= splice(start, dst as int, rgba@.subrange(src as int, src + k + 1)));
                }
                k = k + 1;
            }
            row = row + 1;
        }
        self.dirty = true;
    }

    /// Applies one prepared cell; whether it was applied. A cell of the
    /// wrong size marks the path failed and leaves the atlas alone.
    pub fn deliver(&mut self, path: &str, rgba: &[u8]) -> (applied: bool)
        requires
            old(self).wf(),
            old(self)@.can_deliver(path@, rgba@),
        ensures
            final(self).wf(),
            (final(self)@, applied) == old(self)@.after_deliver(path@, rgba@),
    {
        self.requested.remove(path);
        if rgba.len() != CELL_BYTES {
            self.states.insert(path, ThumbState::Failed);
            return false;
        }
        let slot = self.allocate_slot(path);
        self.copy_into(slot, rgba);
        self.states.insert(path, ThumbState::Ready(slot));
        self.touch(path);
        true
    }

    /// Applies prepared cells from the front of `ready`, in order, and after
    /// each one asks `spent` whether the budget is used up, passing how many
    /// have been applied; stops when it says so or `ready` runs out. At
    /// least one cell is applied when any is ready; the rest stay in
    /// `ready`, in order. Returns how many were applied.
    pub fn deliver_until<F: Fn(usize) -> bool>(&mut self, ready: &mut VecDeque<(String, Vec<u8>)>, spent: F) -> (applied: usize)
        requires
            old(self).wf(),
            old(self)@.can_deliver_all(old(ready)@),
            forall|k: usize| #[trigger] spent.requires((k,)),
        ensures
            final(self).wf(),
            applied <= old(ready)@.len(),
            old(ready)@.len() > 0 ==> applied >= 1,
            final(ready)@ == old(ready)@.skip(applied as int),
            final(self)@ == old(self)@.after_deliver_all(old(ready)@.take(applied as int)),
            forall|k: usize| 1 <= k < applied ==> #[trigger] spent.ensures((k,), false),
            applied < old(ready)@.len() ==> spent.ensures((applied,), true),
    {
        let ghost m = self@;
        let ghost items = ready@;
        assert(items.len() == ready.len());
        let mut applied: usize = 0;
        loop
            invariant_except_break
                forall|k: usize| 1 <= k <= applied ==> #[trigger] spent.ensures((k,), false),
            invariant
                self.wf(),
                applied <= items.len() <= usize::MAX,
                ready@ == items.skip(applied as int),
                self@ == m.after_deliver_all(items.take(applied as int)),
                m.can_deliver_all(items),
                forall|k: usize| #[trigger] spent.requires((k,)),
                forall|k: usize| 1 <= k < applied ==> #[trigger] spent.ensures((k,), false),
            ensures
                self.wf(),
                applied <= items.len(),
                items.len() > 0 ==> applied >= 1,
                ready@ == items.skip(applied as int),
                self@ == m.after_deliver_all(items.take(applied as int)),
                forall|k: usize| 1 <= k < applied ==> #[trigger] spent.ensures((k,), false),
                applied < items.len() ==> spent.ensures((applied,), true),
            decreases items.len() - applied,
        {
            match ready.pop_front() {
                None => {
                    break;
                },
                Some(item) => {
                    proof {
                        assert(items.skip(applied as int)[0] == items[applied as int]);
                        assert(ready@ =~= items.skip(applied as int + 1));
                        assert(items.take(applied as int + 1).drop_last() =~= items.take(applied as int));
                        lemma_can_deliver_prefix(m, items, applied as int + 1);
                    }
                    let (path, rgba) = item;
                    let _ = self.deliver(path.as_str(), rgba.as_slice());
                    applied = applied + 1;
                    if spent(applied) {
                        break;
                    }
                },
            }
        }
        applied
    }

    /// Applies prepared cells until the time since the call reaches
    /// `budget`, checking after each cell, as `deliver_until` with the
    /// clock as its judge. What the clock says is not known here, so
    /// nothing is stated of where it stops beyond what `deliver_until`
    /// states for every answer.
    pub fn deliver_budgeted(&mut self, ready: &mut VecDeque<(String, Vec<u8>)>, budget: Duration) -> (applied: usize)
        requires
            old(self).wf(),
            old(self)@.can_deliver_all(old(ready)@),
        ensures
            final(self).wf(),
            applied <= old(ready)@.len(),
            old(ready)@.len() > 0 ==> applied >= 1,
            final(ready)@ == old(ready)@.skip(applied as int),
            final(self)@ == old(self)@.after_deliver_all(old(ready)@.take(applied as int)),
    {
        let started = now();
        let spent = |_count: usize| -> (b: bool) { reached(&elapsed_since(&started), &budget) };
        self.deliver_until(ready, spent)
    }

    /// An empty cache, without touching the filesystem.
    pub fn new() -> (c: Self)
        ensures
            c.wf(),
            c@ == ThumbModel::fresh(),
    {
        let pixels: Vec<u8> = vec![0u8; ATLAS_BYTES];
        let slot_owner: Vec<Option<String>> = vec![None; CAPACITY];
        let c = ThumbnailCache {
            pixels,
            width: ATLAS_WIDTH,
            height: ATLAS_HEIGHT,
            dirty: false,
            states: KeyedTable::new(),
            requested: KeyedTable::new(),
            visible_queue: VecDeque::new(),
            background_queue: VecDeque::new(),
            slot_owner,
            last_used: KeyedTable::new(),
            clock: 0,
        };
        proof {
            assert(c@.pixels =~= ThumbModel::fresh().pixels);
            assert(c@.slots =~= ThumbModel::fresh().slots);
            assert(c@.visible =~= Seq::<Seq<char>>::empty());
            assert(c@.background =~= Seq::<Seq<char>>::empty());
            assert(c@.requested =~= Set::<Seq<char>>::empty());
        }
        c
    }

    /// Clears all paths and pixels.
    pub fn clear(&mut self)
        ensures
            final(self).wf() == old(self).wf(),
            final(self)@ == old(self)@.cleared(),
    {
        let mut i: usize = 0;
        while i < self.slot_owner.len()
            invariant
                i <= self.slot_owner@.len() == old(self).slot_owner@.len(),
                forall|k: int| 0 <= k < i ==> #[trigger] self.slot_owner@[k] is None,
                self.pixels == old(self).pixels,
                self.width == old(self).width,
                self.height == old(self).height,
            decreases self.slot_owner@.len() - i,
        {
            self.slot_owner.set(i, None);
            i = i + 1;
        }
        let mut j: usize = 0;
        while j < self.pixels.len()
            invariant
                j <= self.pixels@.len() == old(self).pixels@.len(),
                forall|k: int| 0 <= k < j ==> #[trigger] self.pixels@[k] == 0u8,
                self.slot_owner@.len() == old(self).slot_owner@.len(),
                forall|k: int| 0 <= k < self.slot_owner@.len() ==> #[trigger] self.slot_owner@[k] is None,
                self.width == old(self).width,
                self.height == old(self).height,
            decreases self.pixels@.len() - j,
        {
            self.pixels.set(j, 0);
            j = j + 1;
        }
        self.states.clear();
        self.requested.clear();
        self.visible_queue.clear();
        self.background_queue.clear();
        self.last_used.clear();
        self.clock = 0;
        self.dirty = true;
        proof {
            assert(self@.pixels =~= old(self)@.cleared().pixels);
            assert(self@.slots =~= old(self)@.cleared().slots);
            assert(self@.visible =~= Seq::<Seq<char>>::empty());
            assert(self@.background =~= Seq::<Seq<char>>::empty());
            assert(self@.requested =~= Set::<Seq<char>>::empty());
        }
    }

    /// Compatibility hook for the frame loop. It performs no decoding or IO.
    pub fn pump(&mut self) -> (n: usize)
        ensures
            n == 0,
            final(self)@ == old(self)@,
    {
        0
    }
}

impl Default for ThumbnailCache {
    fn default() -> (c: Self)
        ensures
            c.wf(),
            c@ == ThumbModel::fresh(),
    {
        Self::new()
    }
}

/// `lru_slot` names one of the first `n` slots, and its owner was used no
/// later than the owner of any of them.
proof fn lemma_lru_slot_is_least(slots: Seq<Option<Seq<char>>>, last_used: Map<Seq<char>, u64>, n: int)
    requires
        1 <= n,
    ensures
        0 <= lru_slot(slots, last_used, n) < n,
        forall|i: int|
            0 <= i < n ==> last_use(slots, last_used, lru_slot(slots, last_used, n)) <= #[trigger] last_use(
                slots,
                last_used,
                i,
            ),
        forall|i: int|
            0 <= i < lru_slot(slots, last_used, n) ==> last_use(slots, last_used, lru_slot(slots, last_used, n))
                < #[trigger] last_use(slots, last_used, i),
    decreases n,
{
    if n > 1 {
        lemma_lru_slot_is_least(slots, last_used, n - 1);
    }
}

/// The slot a delivery goes to is one of the atlas's slots.
proof fn lemma_slot_for_in_range(m: ThumbModel)
    requires
        m.slots.len() >= 1,
    ensures
        0 <= m.slot_for() < m.slots.len(),
{
    m.slots.index_of_first_ensures(None);
    lemma_lru_slot_is_least(m.slots, m.last_used, m.slots.len() as int);
}

/// When every slot is taken, a delivery recycles the slot whose owner was
/// used least recently, and of several such the first.
pub proof fn lemma_eviction_takes_least_recent(m: ThumbModel)
    requires
        m.slots.len() >= 1,
        forall|i: int| 0 <= i < m.slots.len() ==> #[trigger] m.slots[i] is Some,
    ensures
        0 <= m.slot_for() < m.slots.len(),
        forall|i: int|
            0 <= i < m.slots.len() ==> last_use(m.slots, m.last_used, m.slot_for()) <= #[trigger] last_use(
                m.slots,
                m.last_used,
                i,
            ),
        forall|i: int|
            0 <= i < m.slot_for() ==> last_use(m.slots, m.last_used, m.slot_for()) < #[trigger] last_use(
                m.slots,
                m.last_used,
                i,
            ),
{
    m.slots.index_of_first_ensures(None);
    assert(!m.slots.contains(None)) by {
        if m.slots.contains(None) {
            let j = choose|j: int| 0 <= j < m.slots.len() && m.slots[j] == None::<Seq<char>>;
            assert(m.slots[j] is Some);
        }
    }
    lemma_lru_slot_is_least(m.slots, m.last_used, m.slots.len() as int);
}

/// A cell of the wrong size is refused: the path is marked failed, is no
/// longer requested, and the atlas and its slots are left as they were.
pub proof fn lemma_wrong_size_leaves_the_atlas(m: ThumbModel, p: Seq<char>, rgba: Seq<u8>)
    requires
        rgba.len() != CELL_BYTES,
    ensures
        !m.after_deliver(p, rgba).1,
        m.after_deliver(p, rgba).0.pixels == m.pixels,
        m.after_deliver(p, rgba).0.slots == m.slots,
        m.after_deliver(p, rgba).0.states[p] == ThumbState::Failed,
        !m.after_deliver(p, rgba).0.requested.contains(p),
{
}

/// A cell of the right size lands: the path is ready in a slot of the
/// atlas, which it now owns, and it is the most recently used path.
pub proof fn lemma_delivered_cell_is_ready(m: ThumbModel, p: Seq<char>, rgba: Seq<u8>)
    requires
        rgba.len() == CELL_BYTES,
        m.slots.len() == CAPACITY,
    ensures
        m.after_deliver(p, rgba).1,
        m.after_deliver(p, rgba).0.states[p] == ThumbState::Ready(m.slot_for() as u32),
        m.slot_for() < CAPACITY,
        m.after_deliver(p, rgba).0.slots[m.slot_for()] == Some(p),
        m.after_deliver(p, rgba).0.last_used[p] == m.after_deliver(p, rgba).0.clock,
        m.after_deliver(p, rgba).0.dirty,
{
    lemma_slot_for_in_range(m);
}

/// A path is queued once: asking again for a known path never lengthens
/// the queues, and asking for a new one queues it once, as pending.
pub proof fn lemma_request_queues_once(m: ThumbModel, p: Seq<char>, visible: bool)
    ensures
        m.states.contains_key(p) || m.requested.contains(p) ==> m.after_request(p, visible).visible.len()
            + m.after_request(p, visible).background.len() == m.visible.len() + m.background.len(),
        !(m.states.contains_key(p) || m.requested.contains(p)) ==> {
            &&& m.after_request(p, visible).visible.len() + m.after_request(p, visible).background.len()
                == m.visible.len() + m.background.len() + 1
            &&& m.after_request(p, visible).states[p] == ThumbState::Pending
            &&& m.after_request(p, visible).requested.contains(p)
        },
{
    m.touched(p).background.index_of_first_ensures(p);
}

/// Visible work drains first: a take hands out background requests only
/// once every visible one has been handed out, and never more than asked.
pub proof fn lemma_visible_requests_drain_first(m: ThumbModel, limit: usize)
    ensures
        m.background_taken(limit) > 0 ==> m.visible_taken(limit) == m.visible.len(),
        m.taken(limit).len() <= limit,
        forall|i: int| 0 <= i < m.visible_taken(limit) ==> #[trigger] m.taken(limit)[i] == (m.visible[i], true),
        forall|i: int|
            m.visible_taken(limit) <= i < m.taken(limit).len() ==> #[trigger] m.taken(limit)[i] == (
                m.background[i - m.visible_taken(limit)],
                false,
            ),
{
}

/// Copying rows into a cell that fits keeps the atlas's size.
proof fn lemma_copy_rows_len(p: Seq<u8>, width: u32, slot: u32, rgba: Seq<u8>, rows: int)
    requires
        cell_fits(width, p.len(), slot),
        rgba.len() == CELL_BYTES,
        0 <= rows <= 64,
    ensures
        copy_rows(p, width, slot, rgba, rows).len() == p.len(),
    decreases rows,
{
    if rows > 0 {
        lemma_copy_rows_len(p, width, slot, rgba, rows - 1);
        let r = rows - 1;
        let (ox, oy) = spec_slot_origin(slot);
        let stride = width * 4;
        assert((oy + r) * stride <= (oy + 63) * stride) by (nonlinear_arith)
            requires
                r <= 63,
                stride >= 0,
        ;
        assert(0 <= (oy + r) * stride) by (nonlinear_arith)
            requires
                r >= 0,
                stride >= 0,
        ;
        let before = copy_rows(p, width, slot, rgba, r);
        let at = cell_row_start(width, slot, r);
        assert(at == (oy + r) * stride + ox * 4);
        assert(cell_row_start(width, slot, 63) == (oy + 63) * stride + ox * 4);
        assert(0 <= at && at + CELL_ROW_BYTES <= before.len());
        assert((r + 1) * 256 <= 16384 && 0 <= r * 256) by (nonlinear_arith)
            requires
                0 <= r <= 63,
        ;
        let piece = rgba.subrange(r * CELL_ROW_BYTES, (r + 1) * CELL_ROW_BYTES);
        assert(piece.len() == CELL_ROW_BYTES);
        assert(splice(before, at, piece).len() == before.len());
    }
}

/// Every slot's cell fits in an atlas of the standard size.
proof fn lemma_standard_cell_fits(slot: u32)
    requires
        slot < CAPACITY,
    ensures
        cell_fits(ATLAS_WIDTH, ATLAS_BYTES as nat, slot),
{
    assert(slot / 16 <= 15 && slot % 16 <= 15);
    let (ox, oy) = spec_slot_origin(slot);
    assert(oy <= 960) by (nonlinear_arith)
        requires
            oy == (slot / 16) * 64,
            slot / 16 <= 15,
    ;
    assert(ox <= 960) by (nonlinear_arith)
        requires
            ox == (slot % 16) * 64,
            slot % 16 <= 15,
    ;
    assert((oy + 63) * 4096 <= 1023 * 4096) by (nonlinear_arith)
        requires
            oy <= 960,
    ;
}

/// An atlas of the standard size, with one slot per cell, has room for
/// any sequence of deliveries.
pub proof fn lemma_standard_atlas_fits(m: ThumbModel, items: Seq<(String, Vec<u8>)>)
    requires
        m.width == ATLAS_WIDTH,
        m.pixels.len() == ATLAS_BYTES,
        m.slots.len() == CAPACITY,
    ensures
        m.can_deliver_all(items),
        m.after_deliver_all(items).width == ATLAS_WIDTH,
        m.after_deliver_all(items).pixels.len() == ATLAS_BYTES,
        m.after_deliver_all(items).slots.len() == CAPACITY,
    decreases items.len(),
{
    if items.len() > 0 {
        lemma_standard_atlas_fits(m, items.drop_last());
        let before = m.after_deliver_all(items.drop_last());
        let r = ThumbModel { requested: before.requested.remove(items.last().0@), ..before };
        lemma_slot_for_in_range(before);
        lemma_slot_for_in_range(r);
        lemma_standard_cell_fits(before.slot_for() as u32);
        if items.last().1@.len() == CELL_BYTES {
            let a = r.after_allocate(items.last().0@);
            lemma_copy_rows_len(a.pixels, a.width, r.slot_for() as u32, items.last().1@, 64);
        }
    }
}

/// A sequence with an element removed keeps no duplicates, and holds
/// what it held but that element.
proof fn lemma_remove_keeps_distinct(q: Seq<Seq<char>>, i: int)
    requires
        q.no_duplicates(),
        0 <= i < q.len(),
    ensures
        q.remove(i).no_duplicates(),
        !q.remove(i).contains(q[i]),
        forall|k: int| 0 <= k < q.remove(i).len() ==> #[trigger] q.remove(i)[k] == (if k < i { q[k] } else { q[k + 1] }),
{
    let r = q.remove(i);
    assert forall|k: int| 0 <= k < r.len() implies #[trigger] r[k] == (if k < i { q[k] } else { q[k + 1] }) by {}
    assert forall|a: int, b: int| 0 <= a < r.len() && 0 <= b < r.len() && a != b implies r[a] != r[b] by {
        let qa = if a < i { a } else { a + 1 };
        let qb = if b < i { b } else { b + 1 };
        assert(r[a] == q[qa] && r[b] == q[qb]);
    }
    if r.contains(q[i]) {
        let k = choose|k: int| 0 <= k < r.len() && r[k] == q[i];
        let qk = if k < i { k } else { k + 1 };
        assert(r[k] == q[qk]);
    }
}

/// The queues are sound when a cache is made and after it is cleared.
pub proof fn lemma_fresh_queues_are_sound(m: ThumbModel)
    ensures
        queues_sound(ThumbModel::fresh()),
        queues_sound(m.cleared()),
{
}

/// Asking for a preview keeps the queues sound: a known path is never
/// queued again, a promoted one moves rather than copies, and a new one is
/// queued once.
pub proof fn lemma_request_keeps_queues_sound(m: ThumbModel, p: Seq<char>, visible: bool)
    requires
        queues_sound(m),
    ensures
        queues_sound(m.after_request(p, visible)),
{
    let t = m.touched(p);
    let a = m.after_request(p, visible);
    if m.states.contains_key(p) || m.requested.contains(p) {
        if visible {
            t.background.index_of_first_ensures(p);
            match t.background.index_of_first(p) {
                Some(i) => {
                    lemma_remove_keeps_distinct(t.background, i);
                    assert(!t.visible.contains(p)) by {
                        if t.visible.contains(p) {
                            let k = choose|k: int| 0 <= k < t.visible.len() && t.visible[k] == p;
                            assert(t.visible[k] != t.background[i]);
                        }
                    }
                    assert forall|x: int, y: int| 0 <= x < a.visible.len() && 0 <= y < a.visible.len() && x != y implies a.visible[x]
                        != a.visible[y] by {
                        if x < t.visible.len() && y < t.visible.len() {
                        } else if x < t.visible.len() {
                            assert(a.visible[y] == p);
                        } else {
                            assert(a.visible[x] == p);
                        }
                    }
                    assert forall|x: int, y: int| 0 <= x < a.visible.len() && 0 <= y < a.background.len() implies #[trigger] a.visible[x]
                        != #[trigger] a.background[y] by {
                        let yy = if y < i { y } else { y + 1 };
                        assert(a.background[y] == t.background[yy]);
                        if x == t.visible.len() {
                            assert(a.visible[x] == p);
                            assert(!a.background.contains(p));
                        }
                    }
                    assert forall|y: int| 0 <= y < a.background.len() implies a.states.contains_key(#[trigger] a.background[y]) by {
                        let yy = if y < i { y } else { y + 1 };
                        assert(a.background[y] == t.background[yy]);
                    }
                    assert forall|x: int| 0 <= x < a.visible.len() implies a.states.contains_key(#[trigger] a.visible[x]) by {
                        if x == t.visible.len() {
                            assert(a.visible[x] == t.background[i]);
                        }
                    }
                },
                None => {},
            }
        }
    } else {
        assert(!t.visible.contains(p)) by {
            if t.visible.contains(p) {
                let k = choose|k: int| 0 <= k < t.visible.len() && t.visible[k] == p;
                assert(m.states.contains_key(m.visible[k]));
            }
        }
        assert(!t.background.contains(p)) by {
            if t.background.contains(p) {
                let k = choose|k: int| 0 <= k < t.background.len() && t.background[k] == p;
                assert(m.states.contains_key(m.background[k]));
            }
        }
        if visible {
            assert forall|x: int, y: int| 0 <= x < a.visible.len() && 0 <= y < a.visible.len() && x != y implies a.visible[x]
                != a.visible[y] by {
                if x == t.visible.len() {
                    assert(t.visible[y] != p);
                } else if y == t.visible.len() {
                    assert(t.visible[x] != p);
                }
            }
            assert forall|x: int, y: int| 0 <= x < a.visible.len() && 0 <= y < a.background.len() implies #[trigger] a.visible[x]
                != #[trigger] a.background[y] by {
                if x == t.visible.len() {
                    assert(t.background[y] != p);
                }
            }
        } else {
            assert forall|x: int, y: int| 0 <= x < a.background.len() && 0 <= y < a.background.len() && x != y implies a.background[x]
                != a.background[y] by {
                if x == t.background.len() {
                    assert(t.background[y] != p);
                } else if y == t.background.len() {
                    assert(t.background[x] != p);
                }
            }
            assert forall|x: int, y: int| 0 <= x < a.visible.len() && 0 <= y < a.background.len() implies #[trigger] a.visible[x]
                != #[trigger] a.background[y] by {
                if y == t.background.len() {
                    assert(t.visible[x] != p);
                }
            }
        }
    }
}

/// Taking requests keeps the queues sound, and hands out no path twice.
pub proof fn lemma_take_keeps_queues_sound(m: ThumbModel, limit: usize)
    requires
        queues_sound(m),
    ensures
        queues_sound(m.after_take(limit)),
        m.taken(limit).map_values(|r: (Seq<char>, bool)| r.0).no_duplicates(),
{
    let a = m.after_take(limit);
    let v = m.visible_taken(limit);
    let b = m.background_taken(limit);
    assert forall|x: int, y: int| 0 <= x < a.visible.len() && 0 <= y < a.visible.len() && x != y implies a.visible[x]
        != a.visible[y] by {
        assert(a.visible[x] == m.visible[x + v] && a.visible[y] == m.visible[y + v]);
    }
    assert forall|x: int, y: int| 0 <= x < a.background.len() && 0 <= y < a.background.len() && x != y implies a.background[x]
        != a.background[y] by {
        assert(a.background[x] == m.background[x + b] && a.background[y] == m.background[y + b]);
    }
    assert forall|x: int, y: int| 0 <= x < a.visible.len() && 0 <= y < a.background.len() implies #[trigger] a.visible[x]
        != #[trigger] a.background[y] by {
        assert(a.visible[x] == m.visible[x + v] && a.background[y] == m.background[y + b]);
    }
    assert forall|x: int| 0 <= x < a.visible.len() implies a.states.contains_key(#[trigger] a.visible[x]) by {
        assert(a.visible[x] == m.visible[x + v]);
    }
    assert forall|y: int| 0 <= y < a.background.len() implies a.states.contains_key(#[trigger] a.background[y]) by {
        assert(a.background[y] == m.background[y + b]);
    }
    let names = m.taken(limit).map_values(|r: (Seq<char>, bool)| r.0);
    assert forall|x: int| 0 <= x < names.len() implies #[trigger] names[x] == (if x < v { m.visible[x] } else { m.background[x - v] }) by {
        if x < v {
            assert(m.taken(limit)[x] == (m.visible.take(v).map_values(|p: Seq<char>| (p, true)))[x]);
        } else {
            assert(m.taken(limit)[x] == (m.background.take(b).map_values(|p: Seq<char>| (p, false)))[x - v]);
        }
    }
    assert forall|x: int, y: int| 0 <= x < names.len() && 0 <= y < names.len() && x != y implies names[x] != names[y] by {
        if x < v && y >= v {
            assert(m.visible[x] != m.background[y - v]);
        } else if x >= v && y < v {
            assert(m.visible[y] != m.background[x - v]);
        }
    }
}

/// Marking a path failed keeps the queues sound.
pub proof fn lemma_mark_failed_keeps_queues_sound(m: ThumbModel, p: Seq<char>)
    requires
        queues_sound(m),
    ensures
        queues_sound(marked_failed(m, p)),
{
}

/// Delivering keeps the queues sound, unless the slot it takes is the
/// least recently used one and that slot's owner still waits in a queue:
/// the owner is then forgotten while queued, and asking for it again
/// queues it a second time.
pub proof fn lemma_deliver_keeps_queues_sound(m: ThumbModel, p: Seq<char>, rgba: Seq<u8>)
    requires
        queues_sound(m),
        rgba.len() == CELL_BYTES && m.slots.index_of_first(None) is None ==> {
            let owner = m.slots[m.slot_for()]->0;
            !m.visible.contains(owner) && !m.background.contains(owner)
        },
    ensures
        queues_sound(m.after_deliver(p, rgba).0),
{
    let a = m.after_deliver(p, rgba).0;
    if rgba.len() == CELL_BYTES && m.slots.index_of_first(None) is None {
        let r = ThumbModel { requested: m.requested.remove(p), ..m };
        assert(r.slot_for() == m.slot_for());
        let owner = m.slots[m.slot_for()]->0;
        assert forall|x: int| 0 <= x < a.visible.len() implies a.states.contains_key(#[trigger] a.visible[x]) by {
            assert(a.visible[x] == m.visible[x]);
            if m.visible[x] == owner {
                assert(m.visible.contains(owner));
            }
        }
        assert forall|y: int| 0 <= y < a.background.len() implies a.states.contains_key(#[trigger] a.background[y]) by {
            assert(a.background[y] == m.background[y]);
            if m.background[y] == owner {
                assert(m.background.contains(owner));
            }
        }
    }
}

} // verus!
