//! A generational arena.
//!
//! Every slot carries a generation. A handle names a slot *and* the
//! generation it was issued at, so a handle kept past `free` does not reach
//! whatever was spawned into the slot afterwards: reuse bumps the generation
//! and the stale handle stops matching.

use core::marker::PhantomData;
use vstd::prelude::*;
use crate::text::compose::{decimal, Composer};

verus! {

/// The generation no live record ever has; a handle carrying it is "none".
pub const INVALID_GENERATION: u32 = 0;

/// A typed reference to a slot of a [`Pool`].
#[derive(Debug)]
pub struct Handle<T> {
    pub(crate) index: u32,
    pub(crate) generation: u32,
    _marker: PhantomData<T>,
}

impl<T> View for Handle<T> {
    /// `(index, generation)`.
    type V = (u32, u32);

    closed spec fn view(&self) -> (u32, u32) {
        (self.index, self.generation)
    }
}

impl<T> Handle<T> {
    /// The handle that names nothing.
    pub fn none() -> (h: Self)
        ensures
            h@ == (0u32, INVALID_GENERATION),
    {
        Handle { index: 0, generation: INVALID_GENERATION, _marker: PhantomData }
    }

    /// A handle for slot `index` at `generation`.
    pub fn new(index: u32, generation: u32) -> (h: Self)
        ensures
            h@ == (index, generation),
    {
        Handle { index, generation, _marker: PhantomData }
    }

    /// Whether this handle names nothing.
    pub fn is_none(&self) -> (b: bool)
        ensures
            b == (self@.1 == INVALID_GENERATION),
    {
        self.generation == INVALID_GENERATION
    }

    /// Whether this handle names something.
    pub fn is_some(&self) -> (b: bool)
        ensures
            b == (self@.1 != INVALID_GENERATION),
    {
        !self.is_none()
    }

    /// The slot index.
    pub fn index(&self) -> (i: u32)
        ensures
            i == self@.0,
    {
        self.index
    }

    /// The same slot and generation, as a handle to another type.
    pub fn transmute<U>(&self) -> (h: Handle<U>)
        ensures
            h@ == self@,
    {
        Handle { index: self.index, generation: self.generation, _marker: PhantomData }
    }
}

impl<T> Clone for Handle<T> {
    fn clone(&self) -> (h: Self)
        ensures
            h@ == self@,
    {
        Handle { index: self.index, generation: self.generation, _marker: PhantomData }
    }
}

impl<T> Copy for Handle<T> {

}

impl<T> Handle<T> {
    /// The handle as text: its index and generation.
    pub fn describe(&self) -> (s: String)
        ensures
            s@ == "[idx="@ + decimal(self@.0 as nat) + " gen="@ + decimal(self@.1 as nat) + "]"@,
    {
        let c = Composer::new().push_str("[idx=").push_number(self.index as u64).push_str(" gen=").push_number(
            self.generation as u64,
        ).push_str("]");
        assert(Seq::<char>::empty() + "[idx="@ =~= "[idx="@);
        c.finish()
    }
}

impl<T> PartialEq for Handle<T> {
    fn eq(&self, other: &Self) -> (b: bool) {
        self.index == other.index && self.generation == other.generation
    }
}

impl<T> vstd::std_specs::cmp::PartialEqSpecImpl for Handle<T> {
    open spec fn obeys_eq_spec() -> bool {
        true
    }

    open spec fn eq_spec(&self, other: &Self) -> bool {
        self@ == other@
    }
}

impl<T> Eq for Handle<T> {

}

impl<T> Default for Handle<T> {
    fn default() -> (h: Self)
        ensures
            h@ == (0u32, INVALID_GENERATION),
    {
        Handle { index: 0, generation: INVALID_GENERATION, _marker: PhantomData }
    }
}

/// Why a handle did not resolve.
#[derive(Debug, PartialEq, Eq, Structural, Clone, Copy)]
pub enum PoolError {
    /// The index is past the end of the pool.
    InvalidIndex(u32),
    /// The slot has been reused since the handle was issued.
    InvalidGeneration(u32),
    /// The slot is free.
    Empty(u32),
}

/// What a pool error says.
pub open spec fn pool_error_text(e: PoolError) -> Seq<char> {
    match e {
        PoolError::InvalidIndex(i) => "pool: invalid index "@ + decimal(i as nat),
        PoolError::InvalidGeneration(g) => "pool: stale generation "@ + decimal(g as nat),
        PoolError::Empty(i) => "pool: empty record at "@ + decimal(i as nat),
    }
}

impl PoolError {
    /// What went wrong, for people.
    pub fn message(&self) -> (s: String)
        ensures
            s@ == pool_error_text(*self),
    {
        let c = match self {
            PoolError::InvalidIndex(i) => {
                assert(Seq::<char>::empty() + "pool: invalid index "@ =~= "pool: invalid index "@);
                Composer::new().push_str("pool: invalid index ").push_number(*i as u64)
            },
            PoolError::InvalidGeneration(g) => {
                assert(Seq::<char>::empty() + "pool: stale generation "@ =~= "pool: stale generation "@);
                Composer::new().push_str("pool: stale generation ").push_number(*g as u64)
            },
            PoolError::Empty(i) => {
                assert(Seq::<char>::empty() + "pool: empty record at "@ =~= "pool: empty record at "@);
                Composer::new().push_str("pool: empty record at ").push_number(*i as u64)
            },
        };
        c.finish()
    }
}

struct PoolRecord<T> {
    generation: u32,
    payload: Option<T>,
}

/// The abstract state of a pool: each slot's generation and payload, and the
/// stack of free slots (top last).
pub struct PoolModel<T> {
    pub records: Seq<(u32, Option<T>)>,
    pub free: Seq<u32>,
}

/// How many payloads of `records` are present.
pub open spec fn count_alive<T>(records: Seq<(u32, Option<T>)>) -> nat
    decreases records.len(),
{
    if records.len() == 0 {
        0
    } else {
        count_alive(records.drop_last()) + if records.last().1 is Some {
            1nat
        } else {
            0nat
        }
    }
}

/// The live payloads of `records`, in slot order.
pub open spec fn live_payloads<T>(records: Seq<(u32, Option<T>)>) -> Seq<T>
    decreases records.len(),
{
    if records.len() == 0 {
        Seq::empty()
    } else {
        let rest = live_payloads(records.drop_last());
        match records.last().1 {
            Some(p) => rest.push(p),
            None => rest,
        }
    }
}

/// The live slots of `records` as `(handle, payload)` pairs, in slot order.
pub open spec fn live_pairs<T>(records: Seq<(u32, Option<T>)>) -> Seq<((u32, u32), T)>
    decreases records.len(),
{
    if records.len() == 0 {
        Seq::empty()
    } else {
        let i = records.len() - 1;
        let rest = live_pairs(records.drop_last());
        match records.last().1 {
            Some(p) => rest.push(((i as u32, records.last().0), p)),
            None => rest,
        }
    }
}

/// The slot indices, ascending, that hold a payload in `before` and none in
/// `after`.
pub open spec fn dropped_indices<T>(
    before: Seq<(u32, Option<T>)>,
    after: Seq<(u32, Option<T>)>,
) -> Seq<u32>
    decreases before.len(),
{
    if before.len() == 0 {
        Seq::empty()
    } else {
        let i = before.len() - 1;
        let rest = dropped_indices(before.drop_last(), after);
        if before[i].1 is Some && after[i].1 is None {
            rest.push(i as u32)
        } else {
            rest
        }
    }
}

impl<T> PoolModel<T> {
    /// The pool's internal consistency: the free stack holds exactly the
    /// empty slots, each once, and every index fits a `u32`.
    pub open spec fn wf(self) -> bool {
        &&& self.records.len() <= u32::MAX
        &&& forall|i: int|
            0 <= i < self.free.len() ==> {
                &&& (#[trigger] self.free[i]) < self.records.len()
                &&& self.records[self.free[i] as int].1 is None
            }
        &&& forall|i: int, j: int|
            0 <= i < j < self.free.len() ==> #[trigger] self.free[i] != #[trigger] self.free[j]
        &&& forall|k: int|
            0 <= k < self.records.len() && (#[trigger] self.records[k]).1 is None
                ==> self.free.contains(k as u32)
    }

    /// Whether `h` names a live payload.
    pub open spec fn valid(self, h: (u32, u32)) -> bool {
        &&& h.0 < self.records.len()
        &&& self.records[h.0 as int].0 == h.1
        &&& self.records[h.0 as int].1 is Some
    }

    /// What resolving `h` gives: the payload, or why there is none.
    pub open spec fn lookup(self, h: (u32, u32)) -> Result<T, PoolError> {
        if h.0 >= self.records.len() {
            Err(PoolError::InvalidIndex(h.0))
        } else if self.records[h.0 as int].0 != h.1 {
            Err(PoolError::InvalidGeneration(h.1))
        } else {
            match self.records[h.0 as int].1 {
                Some(p) => Ok(p),
                None => Err(PoolError::Empty(h.0)),
            }
        }
    }

    /// The handle the next `spawn` returns: the top free slot at its next
    /// generation, or a fresh slot at generation 1.
    pub open spec fn next_handle(self) -> (u32, u32) {
        if self.free.len() > 0 {
            let i = self.free.last();
            (i, (self.records[i as int].0 + 1) as u32)
        } else {
            (self.records.len() as u32, 1u32)
        }
    }

    /// Whether a `spawn` stays within `u32`: the reused slot's generation can
    /// still be bumped, or a new slot's index still fits.
    pub open spec fn can_spawn(self) -> bool {
        if self.free.len() > 0 {
            self.records[self.free.last() as int].0 < u32::MAX
        } else {
            self.records.len() < u32::MAX
        }
    }

    /// The state after spawning `value`.
    pub open spec fn spawned(self, value: T) -> PoolModel<T> {
        let h = self.next_handle();
        if self.free.len() > 0 {
            PoolModel {
                records: self.records.update(h.0 as int, (h.1, Some(value))),
                free: self.free.drop_last(),
            }
        } else {
            PoolModel { records: self.records.push((1u32, Some(value))), free: self.free }
        }
    }

    /// The state after freeing `h`; unchanged when `h` does not resolve.
    pub open spec fn freed(self, h: (u32, u32)) -> PoolModel<T> {
        if self.lookup(h) is Ok {
            PoolModel {
                records: self.records.update(h.0 as int, (h.1, None)),
                free: self.free.push(h.0),
            }
        } else {
            self
        }
    }

    /// How many payloads are alive.
    pub open spec fn alive(self) -> nat {
        count_alive(self.records)
    }

}

/// A generational arena of `T`.
pub struct Pool<T> {
    records: Vec<PoolRecord<T>>,
    free_stack: Vec<u32>,
    history: Ghost<Seq<PoolEvent<T>>>,
}

/// Two slot sequences with the same generations and the same slots alive.
pub open spec fn same_slots<T>(a: Seq<(u32, Option<T>)>, b: Seq<(u32, Option<T>)>) -> bool {
    &&& a.len() == b.len()
    &&& forall|j: int|
        #![trigger a[j]]
        #![trigger b[j]]
        0 <= j < a.len() ==> a[j].0 == b[j].0 && (a[j].1 is Some <==> b[j].1 is Some)
}

spec fn slots_of<T>(records: Seq<PoolRecord<T>>) -> Seq<(u32, Option<T>)> {
    records.map_values(|r: PoolRecord<T>| (r.generation, r.payload))
}

/// Writing payloads in place keeps a pool well formed.
proof fn lemma_same_slots_keep_wf<T>(a: PoolModel<T>, b: PoolModel<T>)
    ensures
        a.wf() && same_slots(a.records, b.records) && a.free == b.free ==> b.wf(),
{
    if a.wf() && same_slots(a.records, b.records) && a.free == b.free {
        assert forall|k: int| 0 <= k < b.records.len() && (#[trigger] b.records[k]).1 is None implies b.free.contains(
            k as u32,
        ) by {
            assert(a.records[k].1 is None);
        }
    }
}

fn collect_payloads_mut<'a, T>(records: &'a mut [PoolRecord<T>]) -> (items: Vec<&'a mut T>)
    ensures
        same_slots(slots_of(old(records)@), slots_of(final(records)@)),
        items@.len() == live_payloads(slots_of(old(records)@)).len(),
        forall|i: int|
            0 <= i < items@.len() ==> *items@[i] == #[trigger] live_payloads(slots_of(old(records)@))[i],
        live_payloads(slots_of(final(records)@)).len() == items@.len(),
        forall|i: int|
            0 <= i < items@.len() ==> #[trigger] live_payloads(slots_of(final(records)@))[i] == *final(items@[i]),
    decreases old(records)@.len(),
{
    if records.len() == 0 {
        proof {
            assert(slots_of(old(records)@) =~= Seq::empty());
            assert(slots_of(final(records)@) =~= Seq::empty());
        }
        return Vec::new();
    }
    let ghost old_all = records@;
    let ghost all_fin = final(records)@;
    let n = records.len();
    let (head, tail) = records.split_at_mut(n - 1);
    let ghost head_old = head@;
    let ghost tail_old = tail@;
    let ghost head_fin = final(head)@;
    let ghost tail_fin = final(tail)@;
    let mut items = collect_payloads_mut(head);
    let ghost items_head = items@;
    let last = tail.first_mut().unwrap();
    let ghost last_old = *last;
    let ghost last_fin = *final(last);
    match &mut last.payload {
        Some(p) => {
            items.push(p);
        },
        None => {},
    }
    proof {
        assert(slots_of(old_all).drop_last() =~= slots_of(head_old));
        assert(old_all.last() == last_old);
        assert(slots_of(all_fin).drop_last() =~= slots_of(head_fin));
        assert(all_fin.last() == last_fin);
        assert(last_fin.generation == last_old.generation);
        assert(last_fin.payload is Some <==> last_old.payload is Some);
        assert forall|j: int| 0 <= j < old_all.len() implies #[trigger] slots_of(old_all)[j].0 == slots_of(
            all_fin,
        )[j].0 && (slots_of(old_all)[j].1 is Some <==> slots_of(all_fin)[j].1 is Some) by {
            assert(slots_of(old_all)[j] == (old_all[j].generation, old_all[j].payload));
            assert(slots_of(all_fin)[j] == (all_fin[j].generation, all_fin[j].payload));
            if j < old_all.len() - 1 {
                assert(slots_of(old_all)[j] == slots_of(head_old)[j]);
                assert(slots_of(all_fin)[j] == slots_of(head_fin)[j]);
            }
        }
    }
    items
}

fn collect_pairs_mut<'a, T>(records: &'a mut [PoolRecord<T>]) -> (items: Vec<(Handle<T>, &'a mut T)>)
    requires
        old(records)@.len() <= u32::MAX,
    ensures
        same_slots(slots_of(old(records)@), slots_of(final(records)@)),
        items@.len() == live_pairs(slots_of(old(records)@)).len(),
        forall|i: int|
            0 <= i < items@.len() ==> (items@[i].0@, *items@[i].1) == #[trigger] live_pairs(
                slots_of(old(records)@),
            )[i],
        live_pairs(slots_of(final(records)@)).len() == items@.len(),
        forall|i: int|
            0 <= i < items@.len() ==> #[trigger] live_pairs(slots_of(final(records)@))[i] == (
                items@[i].0@,
                *final(items@[i].1),
            ),
    decreases old(records)@.len(),
{
    if records.len() == 0 {
        proof {
            assert(slots_of(old(records)@) =~= Seq::empty());
            assert(slots_of(final(records)@) =~= Seq::empty());
        }
        return Vec::new();
    }
    let ghost old_all = records@;
    let ghost all_fin = final(records)@;
    let n = records.len();
    let (head, tail) = records.split_at_mut(n - 1);
    let ghost head_old = head@;
    let ghost head_fin = final(head)@;
    let mut items = collect_pairs_mut(head);
    let last = tail.first_mut().unwrap();
    let ghost last_old = *last;
    let ghost last_fin = *final(last);
    let generation = last.generation;
    match &mut last.payload {
        Some(p) => {
            items.push((Handle::new((n - 1) as u32, generation), p));
        },
        None => {},
    }
    proof {
        assert(slots_of(old_all).drop_last() =~= slots_of(head_old));
        assert(old_all.last() == last_old);
        assert(slots_of(all_fin).drop_last() =~= slots_of(head_fin));
        assert(all_fin.last() == last_fin);
        assert(last_fin.generation == last_old.generation);
        assert(last_fin.payload is Some <==> last_old.payload is Some);
        assert forall|j: int| 0 <= j < old_all.len() implies #[trigger] slots_of(old_all)[j].0 == slots_of(
            all_fin,
        )[j].0 && (slots_of(old_all)[j].1 is Some <==> slots_of(all_fin)[j].1 is Some) by {
            assert(slots_of(old_all)[j] == (old_all[j].generation, old_all[j].payload));
            assert(slots_of(all_fin)[j] == (all_fin[j].generation, all_fin[j].payload));
            if j < old_all.len() - 1 {
                assert(slots_of(old_all)[j] == slots_of(head_old)[j]);
                assert(slots_of(all_fin)[j] == slots_of(head_fin)[j]);
            }
        }
    }
    items
}

impl<T> View for Pool<T> {
    type V = PoolModel<T>;

    closed spec fn view(&self) -> PoolModel<T> {
        PoolModel {
            records: self.records@.map_values(|r: PoolRecord<T>| (r.generation, r.payload)),
            free: self.free_stack@,
        }
    }
}

impl<T> Pool<T> {
    /// The spawns, frees and clears this pool has gone through since it was
    /// made, in order; a retain counts as a free of each slot it emptied.
    pub closed spec fn history(&self) -> Seq<PoolEvent<T>> {
        self.history@
    }

    /// Whether the pool is what its history made it, the payloads aside.
    pub open spec fn tracks(&self) -> bool {
        follows_history(self@, self.history())
    }

    /// An empty pool.
    pub fn new() -> (p: Self)
        ensures
            p@.records == Seq::<(u32, Option<T>)>::empty(),
            p@.free == Seq::<u32>::empty(),
            p@.wf(),
            p.history() == Seq::<PoolEvent<T>>::empty(),
            p.tracks(),
    {
        let p = Pool { records: Vec::new(), free_stack: Vec::new(), history: Ghost(Seq::empty()) };
        assert(p@.records =~= Seq::<(u32, Option<T>)>::empty());
        p
    }

    /// An empty pool with room reserved for `capacity` slots.
    pub fn with_capacity(capacity: usize) -> (p: Self)
        ensures
            p@.records == Seq::<(u32, Option<T>)>::empty(),
            p@.free == Seq::<u32>::empty(),
            p@.wf(),
            p.history() == Seq::<PoolEvent<T>>::empty(),
            p.tracks(),
    {
        let p = Pool { records: Vec::with_capacity(capacity), free_stack: Vec::new(), history: Ghost(Seq::empty()) };
        assert(p@.records =~= Seq::<(u32, Option<T>)>::empty());
        p
    }

    /// Store `value`, reusing the most recently freed slot if there is one.
    pub fn spawn(&mut self, value: T) -> (h: Handle<T>)
        requires
            old(self)@.wf(),
            old(self)@.can_spawn(),
        ensures
            h@ == old(self)@.next_handle(),
            final(self)@ == old(self)@.spawned(value),
            final(self)@.wf(),
            final(self).history() == old(self).history().push(PoolEvent::Spawn(value)),
            old(self).tracks() ==> final(self).tracks(),
            old(self).tracks() ==> h@ == issued(final(self).history(), old(self).history().len() as int),
    {
        let ghost before = self@;
        proof {
            let hist = self.history@;
            let e = PoolEvent::Spawn(value);
            if follows_history(before, hist) {
                lemma_follows_history_step(before, hist, e);
                lemma_follows_history_agrees(before, hist, (0, 0));
                assert(hist.push(e).take(hist.len() as int) =~= hist);
            }
            self.history@ = hist.push(e);
        }
        match self.free_stack.pop() {
            Some(free_index) => {
                let generation = self.records[free_index as usize].generation + 1;
                self.records.set(
                    free_index as usize,
                    PoolRecord { generation, payload: Some(value) },
                );
                proof {
                    assert(self@.records =~= before.records.update(
                        free_index as int,
                        (generation, Some(value)),
                    ));
                    assert(self@.free =~= before.free.drop_last());
                    assert forall|k: int|
                        0 <= k < self@.records.len() && (#[trigger] self@.records[k]).1 is None
                        implies self@.free.contains(k as u32) by {
                        assert(before.records[k].1 is None);
                        assert(before.free.contains(k as u32));
                        let j = choose|j: int|
                            0 <= j < before.free.len() && before.free[j] == k as u32;
                        assert(j != before.free.len() - 1);
                        assert(self@.free[j] == k as u32);
                    }
                }
                Handle::new(free_index, generation)
            },
            None => {
                let index = self.records.len() as u32;
                self.records.push(PoolRecord { generation: 1, payload: Some(value) });
                proof {
                    assert(self@.records =~= before.records.push((1u32, Some(value))));
                }
                Handle::new(index, 1)
            },
        }
    }

    /// Take the payload `handle` names out of the pool.
    ///
    /// The handle must name a live payload.
    pub fn free(&mut self, handle: Handle<T>) -> (value: T)
        requires
            old(self)@.wf(),
            old(self)@.valid(handle@),
        ensures
            old(self)@.lookup(handle@) == Ok::<T, PoolError>(value),
            final(self)@ == old(self)@.freed(handle@),
            final(self)@.wf(),
            final(self).history() == old(self).history().push(PoolEvent::Free(handle@)),
            old(self).tracks() ==> final(self).tracks(),
    {
        match self.try_free(handle) {
            Ok(value) => value,
            Err(_) => vstd::pervasive::unreached(),
        }
    }

    /// Take the payload `handle` names out of the pool, or say why it cannot.
    ///
    /// The slot keeps its generation until it is reused, so freeing it again
    /// reports `Empty`.
    pub fn try_free(&mut self, handle: Handle<T>) -> (r: Result<T, PoolError>)
        requires
            old(self)@.wf(),
        ensures
            r == old(self)@.lookup(handle@),
            final(self)@ == old(self)@.freed(handle@),
            final(self)@.wf(),
            final(self).history() == old(self).history().push(PoolEvent::Free(handle@)),
            old(self).tracks() ==> final(self).tracks(),
    {
        let ghost before = self@;
        proof {
            let hist = self.history@;
            let e = PoolEvent::Free(handle@);
            if follows_history(before, hist) {
                lemma_follows_history_step(before, hist, e);
            }
            self.history@ = hist.push(e);
        }
        let index = handle.index as usize;
        if index >= self.records.len() {
            return Err(PoolError::InvalidIndex(handle.index));
        }
        if self.records[index].generation != handle.generation {
            return Err(PoolError::InvalidGeneration(handle.generation));
        }
        let payload = self.records[index].payload.take();
        match payload {
            None => {
                proof {
                    assert(self@.records =~= before.records);
                }
                Err(PoolError::Empty(handle.index))
            },
            Some(p) => {
                self.free_stack.push(handle.index);
                proof {
                    assert(self@.records =~= before.records.update(
                        index as int,
                        (handle.generation, None),
                    ));
                    assert(self@.free =~= before.free.push(handle.index));
                    assert forall|i: int, j: int|
                        0 <= i < j < self@.free.len() implies #[trigger] self@.free[i]
                        != #[trigger] self@.free[j] by {
                        if j == self@.free.len() - 1 {
                            assert(before.records[before.free[i] as int].1 is None);
                        }
                    }
                    assert forall|k: int|
                        0 <= k < self@.records.len() && (#[trigger] self@.records[k]).1 is None
                        implies self@.free.contains(k as u32) by {
                        if k == index {
                            assert(self@.free[self@.free.len() - 1] == k as u32);
                        } else {
                            assert(before.free.contains(k as u32));
                            let j = choose|j: int|
                                0 <= j < before.free.len() && before.free[j] == k as u32;
                            assert(self@.free[j] == k as u32);
                        }
                    }
                }
                Ok(p)
            },
        }
    }

    /// The payload `handle` names. The handle must name a live payload.
    pub fn borrow(&self, handle: Handle<T>) -> (v: &T)
        requires
            self@.valid(handle@),
        ensures
            self@.lookup(handle@) == Ok::<T, PoolError>(*v),
    {
        match self.try_borrow(handle) {
            Ok(v) => v,
            Err(_) => vstd::pervasive::unreached(),
        }
    }

    /// The payload `handle` names, or why there is none.
    pub fn try_borrow(&self, handle: Handle<T>) -> (r: Result<&T, PoolError>)
        ensures
            r is Ok <==> self@.lookup(handle@) is Ok,
            r matches Ok(v) ==> self@.lookup(handle@) == Ok::<T, PoolError>(*v),
            r matches Err(e) ==> self@.lookup(handle@) == Err::<T, PoolError>(e),
    {
        let index = handle.index as usize;
        if index >= self.records.len() {
            return Err(PoolError::InvalidIndex(handle.index));
        }
        let record = &self.records[index];
        if record.generation != handle.generation {
            return Err(PoolError::InvalidGeneration(handle.generation));
        }
        match &record.payload {
            Some(p) => Ok(p),
            None => Err(PoolError::Empty(handle.index)),
        }
    }

    /// Whether `handle` names a live payload.
    pub fn is_valid_handle(&self, handle: Handle<T>) -> (b: bool)
        ensures
            b == self@.valid(handle@),
            self.tracks() ==> (b <==> spawned_and_kept(self.history(), handle@)),
    {
        proof {
            if self.tracks() {
                lemma_follows_history_agrees(self@, self.history(), handle@);
                lemma_valid_exactly_when_spawned_and_kept(self.history(), handle@);
            }
        }
        let index = handle.index as usize;
        if index < self.records.len() {
            let record = &self.records[index];
            record.payload.is_some() && record.generation == handle.generation
        } else {
            false
        }
    }

    /// How many slots hold a payload.
    pub fn alive_count(&self) -> (n: u32)
        requires
            self@.wf(),
        ensures
            n == self@.alive(),
    {
        let mut n: u32 = 0;
        let mut i: usize = 0;
        while i < self.records.len()
            invariant
                i <= self.records.len(),
                self.records.len() <= u32::MAX,
                n == count_alive(self@.records.take(i as int)),
                n <= i,
            decreases self.records.len() - i,
        {
            proof {
                assert(self@.records.take(i as int + 1).drop_last() =~= self@.records.take(
                    i as int,
                ));
            }
            if self.records[i].payload.is_some() {
                n = n + 1;
            }
            i = i + 1;
        }
        proof {
            assert(self@.records.take(i as int) =~= self@.records);
        }
        n
    }

    /// How many slots the pool has, live or free.
    pub fn capacity(&self) -> (n: u32)
        requires
            self@.wf(),
        ensures
            n == self@.records.len(),
    {
        self.records.len() as u32
    }

    /// The handle the next `spawn` will return.
    pub fn next_free_handle(&self) -> (h: Handle<T>)
        requires
            self@.wf(),
            self@.free.len() > 0 ==> self@.records[self@.free.last() as int].0 < u32::MAX,
        ensures
            h@ == self@.next_handle(),
    {
        if self.free_stack.len() > 0 {
            let idx = self.free_stack[self.free_stack.len() - 1];
            Handle::new(idx, self.records[idx as usize].generation + 1)
        } else {
            Handle::new(self.records.len() as u32, 1)
        }
    }

    /// Drop every slot, live or free.
    ///
    /// Generations restart: a handle from before the clear can name a payload
    /// spawned after it.
    pub fn clear(&mut self)
        ensures
            final(self)@.records == Seq::<(u32, Option<T>)>::empty(),
            final(self)@.free == Seq::<u32>::empty(),
            final(self)@.wf(),
            final(self).history() == old(self).history().push(PoolEvent::Clear),
            old(self).tracks() ==> final(self).tracks(),
    {
        let ghost before = self@;
        self.records.clear();
        self.free_stack.clear();
        proof {
            assert(self@.records =~= Seq::<(u32, Option<T>)>::empty());
            let hist = self.history@;
            if follows_history(before, hist) {
                lemma_follows_history_step(before, hist, PoolEvent::Clear);
            }
            assert(self@ == before.after(PoolEvent::Clear));
            self.history@ = hist.push(PoolEvent::Clear);
        }
    }
}

impl<T> Pool<T> {
    /// Mutable access to the payload `handle` names, or why there is none.
    ///
    /// Only that payload can change; every other slot, every generation and
    /// the free stack stay as they were.
    pub fn try_borrow_mut(&mut self, handle: Handle<T>) -> (r: Result<&mut T, PoolError>)
        ensures
            r is Ok <==> old(self)@.lookup(handle@) is Ok,
            r matches Err(e) ==> old(self)@.lookup(handle@) == Err::<T, PoolError>(e)
                && final(self)@ == old(self)@,
            r matches Ok(v) ==> {
                &&& old(self)@.lookup(handle@) == Ok::<T, PoolError>(*v)
                &&& final(self)@.free == old(self)@.free
                &&& final(self)@.records == old(self)@.records.update(
                    handle@.0 as int,
                    (handle@.1, Some(*final(v))),
                )
            },
            final(self).history() == old(self).history(),
            old(self).tracks() ==> final(self).tracks(),
    {
        let index = handle.index;
        if index as usize >= self.records.len() {
            return Err(PoolError::InvalidIndex(index));
        }
        if self.records[index as usize].generation != handle.generation {
            return Err(PoolError::InvalidGeneration(handle.generation));
        }
        if self.records[index as usize].payload.is_none() {
            return Err(PoolError::Empty(index));
        }
        let record = &mut self.records[index as usize];
        match record.payload.as_mut() {
            Some(p) => Ok(p),
            None => vstd::pervasive::unreached(),
        }
    }
}

impl<T> Pool<T> {
    /// Mutable access to the payload `handle` names. The handle must name a
    /// live payload.
    pub fn borrow_mut(&mut self, handle: Handle<T>) -> (v: &mut T)
        requires
            old(self)@.valid(handle@),
        ensures
            old(self)@.lookup(handle@) == Ok::<T, PoolError>(*v),
            final(self)@.free == old(self)@.free,
            final(self)@.records == old(self)@.records.update(
                handle@.0 as int,
                (handle@.1, Some(*final(v))),
            ),
            final(self).history() == old(self).history(),
            old(self).tracks() ==> final(self).tracks(),
    {
        match self.try_borrow_mut(handle) {
            Ok(v) => v,
            Err(_) => vstd::pervasive::unreached(),
        }
    }

    /// The live payloads, in slot order.
    pub fn iter(&self) -> (items: Vec<&T>)
        ensures
            items@.len() == live_payloads(self@.records).len(),
            forall|i: int|
                0 <= i < items@.len() ==> *items@[i] == #[trigger] live_payloads(
                    self@.records,
                )[i],
    {
        let mut items: Vec<&T> = Vec::new();
        let mut i: usize = 0;
        while i < self.records.len()
            invariant
                i <= self.records.len(),
                items@.len() == live_payloads(self@.records.take(i as int)).len(),
                forall|k: int|
                    0 <= k < items@.len() ==> *items@[k] == live_payloads(
                        self@.records.take(i as int),
                    )[k],
            decreases self.records.len() - i,
        {
            proof {
                assert(self@.records.take(i as int + 1).drop_last() =~= self@.records.take(
                    i as int,
                ));
            }
            match &self.records[i].payload {
                Some(p) => items.push(p),
                None => {},
            }
            i = i + 1;
        }
        proof {
            assert(self@.records.take(i as int) =~= self@.records);
        }
        items
    }

    /// The live payloads, in slot order, each for writing in place.
    pub fn iter_mut(&mut self) -> (items: Vec<&mut T>)
        ensures
            old(self)@.wf() ==> final(self)@.wf(),
            final(self)@.free == old(self)@.free,
            same_slots(old(self)@.records, final(self)@.records),
            items@.len() == live_payloads(old(self)@.records).len(),
            forall|i: int|
                0 <= i < items@.len() ==> *items@[i] == #[trigger] live_payloads(old(self)@.records)[i],
            live_payloads(final(self)@.records).len() == items@.len(),
            forall|i: int|
                0 <= i < items@.len() ==> #[trigger] live_payloads(final(self)@.records)[i] == *final(items@[i]),
            final(self).history() == old(self).history(),
            old(self).tracks() ==> final(self).tracks(),
    {
        let ghost before = self@;
        let ghost after = final(self)@;
        let items = collect_payloads_mut(self.records.as_mut_slice());
        proof {
            lemma_same_slots_keep_wf(before, after);
        }
        items
    }

    /// The live slots as `(handle, payload)` pairs, in slot order.
    pub fn pair_iter(&self) -> (items: Vec<(Handle<T>, &T)>)
        requires
            self@.wf(),
        ensures
            items@.len() == live_pairs(self@.records).len(),
            forall|i: int|
                0 <= i < items@.len() ==> (items@[i].0@, *items@[i].1) == #[trigger] live_pairs(
                    self@.records,
                )[i],
    {
        let mut items: Vec<(Handle<T>, &T)> = Vec::new();
        let mut i: usize = 0;
        while i < self.records.len()
            invariant
                i <= self.records.len(),
                self.records.len() <= u32::MAX,
                items@.len() == live_pairs(self@.records.take(i as int)).len(),
                forall|k: int|
                    0 <= k < items@.len() ==> (items@[k].0@, *items@[k].1) == live_pairs(
                        self@.records.take(i as int),
                    )[k],
            decreases self.records.len() - i,
        {
            proof {
                assert(self@.records.take(i as int + 1).drop_last() =~= self@.records.take(
                    i as int,
                ));
            }
            let record = &self.records[i];
            match &record.payload {
                Some(p) => items.push((Handle::new(i as u32, record.generation), p)),
                None => {},
            }
            i = i + 1;
        }
        proof {
            assert(self@.records.take(i as int) =~= self@.records);
        }
        items
    }

    /// The live slots as `(handle, payload)` pairs, in slot order, each
    /// payload for writing in place.
    pub fn pair_iter_mut(&mut self) -> (items: Vec<(Handle<T>, &mut T)>)
        requires
            old(self)@.wf(),
        ensures
            final(self)@.wf(),
            final(self)@.free == old(self)@.free,
            same_slots(old(self)@.records, final(self)@.records),
            items@.len() == live_pairs(old(self)@.records).len(),
            forall|i: int|
                0 <= i < items@.len() ==> (items@[i].0@, *items@[i].1) == #[trigger] live_pairs(
                    old(self)@.records,
                )[i],
            live_pairs(final(self)@.records).len() == items@.len(),
            forall|i: int|
                0 <= i < items@.len() ==> #[trigger] live_pairs(final(self)@.records)[i] == (
                    items@[i].0@,
                    *final(items@[i].1),
                ),
            final(self).history() == old(self).history(),
            old(self).tracks() ==> final(self).tracks(),
    {
        let ghost before = self@;
        let ghost after = final(self)@;
        let items = collect_pairs_mut(self.records.as_mut_slice());
        proof {
            lemma_same_slots_keep_wf(before, after);
        }
        items
    }

    /// Free every payload `keep` rejects, visiting slots in order.
    ///
    /// Freed slots go on the free stack in ascending order, so the highest
    /// index is reused first.
    pub fn retain<F: Fn(&T) -> bool>(&mut self, keep: F)
        requires
            old(self)@.wf(),
            forall|t: &T| #[trigger] keep.requires((t,)),
        ensures
            final(self)@.wf(),
            final(self)@.records.len() == old(self)@.records.len(),
            forall|i: int|
                0 <= i < old(self)@.records.len() ==> {
                    let (g, before) = #[trigger] old(self)@.records[i];
                    let after = final(self)@.records[i];
                    &&& after.0 == g
                    &&& before is None ==> after.1 is None
                    &&& before matches Some(p) ==> {
                        ||| after.1 == Some(p) && keep.ensures((&p,), true)
                        ||| after.1 is None && keep.ensures((&p,), false)
                    }
                },
            final(self)@.free == old(self)@.free + dropped_indices(
                old(self)@.records,
                final(self)@.records,
            ),
            final(self).history() == old(self).history() + frees_of(
                dropped_handles(old(self)@.records, final(self)@.records),
            ),
            old(self).tracks() ==> final(self).tracks(),
    {
        let ghost before = self@;
        let ghost hist = self.history@;
        let n = self.records.len();
        let mut i: usize = 0;
        while i < n
            invariant
                n == self.records.len(),
                n == before.records.len(),
                i <= n,
                before.wf(),
                forall|t: &T| #[trigger] keep.requires((t,)),
                forall|k: int|
                    i <= k < n ==> #[trigger] self@.records[k] == before.records[k],
                forall|k: int|
                    0 <= k < i ==> {
                        let (g, b) = #[trigger] before.records[k];
                        let a = self@.records[k];
                        &&& a.0 == g
                        &&& b is None ==> a.1 is None
                        &&& b matches Some(p) ==> {
                            ||| a.1 == Some(p) && keep.ensures((&p,), true)
                            ||| a.1 is None && keep.ensures((&p,), false)
                        }
                    },
                self@.free == before.free + dropped_indices(
                    before.records.take(i as int),
                    self@.records,
                ),
                self@.wf(),
                self.history@ == hist,
            decreases n - i,
        {
            let ghost mid = self@;
            proof {
                assert(before.records.take(i as int + 1).drop_last() =~= before.records.take(
                    i as int,
                ));
                lemma_dropped_prefix_stable(before.records.take(i as int), mid.records, i as int);
            }
            let rejected = match &self.records[i].payload {
                Some(payload) => !keep(payload),
                None => false,
            };
            if rejected {
                self.records[i].payload = None;
                self.free_stack.push(i as u32);
                proof {
                    assert(self@.records =~= mid.records.update(
                        i as int,
                        (mid.records[i as int].0, None),
                    ));
                    lemma_dropped_prefix_stable(
                        before.records.take(i as int),
                        self@.records,
                        i as int,
                    );
                    lemma_dropped_prefix_agree(
                        before.records.take(i as int),
                        mid.records,
                        self@.records,
                        i as int,
                    );
                    assert forall|a: int, b: int|
                        0 <= a < b < self@.free.len() implies #[trigger] self@.free[a]
                        != #[trigger] self@.free[b] by {
                        if b == self@.free.len() - 1 {
                            assert(mid.records[mid.free[a] as int].1 is None);
                        }
                    }
                    assert forall|k: int|
                        0 <= k < self@.records.len() && (#[trigger] self@.records[k]).1 is None
                        implies self@.free.contains(k as u32) by {
                        if k == i {
                            assert(self@.free[self@.free.len() - 1] == k as u32);
                        } else {
                            assert(mid.free.contains(k as u32));
                            let j = choose|j: int|
                                0 <= j < mid.free.len() && mid.free[j] == k as u32;
                            assert(self@.free[j] == k as u32);
                        }
                    }
                }
            } else {
                proof {
                    lemma_dropped_prefix_agree(
                        before.records.take(i as int),
                        mid.records,
                        self@.records,
                        i as int,
                    );
                }
            }
            proof {
                assert(self@.free =~= before.free + dropped_indices(
                    before.records.take(i as int + 1),
                    self@.records,
                ));
            }
            i = i + 1;
        }
        proof {
            assert(before.records.take(n as int) =~= before.records);
            if follows_history(before, hist) {
                lemma_follows_history_retain(before, hist, self@);
            }
            self.history@ = hist + frees_of(dropped_handles(before.records, self@.records));
        }
    }
}

/// `dropped_indices` of a prefix only reads `after` below the prefix length.
proof fn lemma_dropped_prefix_agree<T>(
    before: Seq<(u32, Option<T>)>,
    after1: Seq<(u32, Option<T>)>,
    after2: Seq<(u32, Option<T>)>,
    n: int,
)
    requires
        before.len() == n,
        forall|k: int| 0 <= k < n ==> after1[k] == after2[k],
    ensures
        dropped_indices(before, after1) == dropped_indices(before, after2),
    decreases before.len(),
{
    if before.len() > 0 {
        lemma_dropped_prefix_agree(before.drop_last(), after1, after2, n - 1);
    }
}

/// Every index `dropped_indices` lists is below the prefix length.
proof fn lemma_dropped_prefix_stable<T>(
    before: Seq<(u32, Option<T>)>,
    after: Seq<(u32, Option<T>)>,
    n: int,
)
    requires
        before.len() == n,
        n <= u32::MAX,
    ensures
        forall|k: int|
            0 <= k < dropped_indices(before, after).len() ==> #[trigger] dropped_indices(
                before,
                after,
            )[k] < n,
    decreases before.len(),
{
    if before.len() > 0 {
        lemma_dropped_prefix_stable(before.drop_last(), after, n - 1);
        let rest = dropped_indices(before.drop_last(), after);
        let i = before.len() - 1;
        if before[i].1 is Some && after[i].1 is None {
            assert(dropped_indices(before, after) == rest.push(i as u32));
            assert forall|k: int|
                0 <= k < rest.push(i as u32).len() implies #[trigger] rest.push(i as u32)[k] < n by {
                if k < rest.len() {
                    assert(rest.push(i as u32)[k] == rest[k]);
                }
            }
        } else {
            assert(dropped_indices(before, after) == rest);
        }
    }
}

/// Replacing one record changes the live count by what that record held.
proof fn lemma_count_alive_update<T>(s: Seq<(u32, Option<T>)>, i: int, r: (u32, Option<T>))
    requires
        0 <= i < s.len(),
    ensures
        count_alive(s.update(i, r)) + (if s[i].1 is Some {
            1int
        } else {
            0int
        }) == count_alive(s) + (if r.1 is Some {
            1int
        } else {
            0int
        }),
    decreases s.len(),
{
    if i < s.len() - 1 {
        assert(s.update(i, r).drop_last() =~= s.drop_last().update(i, r));
        lemma_count_alive_update(s.drop_last(), i, r);
    } else {
        assert(s.update(i, r).drop_last() =~= s.drop_last());
    }
}

/// Spawning keeps the pool consistent, stores the value under exactly the
/// handle `next_handle` predicted (which did not resolve before), and adds
/// one live payload.
pub proof fn lemma_spawn_then_lookup<T>(m: PoolModel<T>, value: T)
    requires
        m.wf(),
        m.can_spawn(),
    ensures
        m.spawned(value).wf(),
        !m.valid(m.next_handle()),
        m.spawned(value).valid(m.next_handle()),
        m.spawned(value).lookup(m.next_handle()) == Ok::<T, PoolError>(value),
        m.spawned(value).alive() == m.alive() + 1,
{
    let h = m.next_handle();
    let m2 = m.spawned(value);
    if m.free.len() > 0 {
        let top = m.free.len() - 1;
        assert(m.free[top] == h.0);
        lemma_count_alive_update(m.records, h.0 as int, (h.1, Some(value)));
        assert forall|k: int|
            0 <= k < m2.records.len() && (#[trigger] m2.records[k]).1 is None implies m2.free.contains(
            k as u32) by {
            assert(m.free.contains(k as u32));
            let j = choose|j: int| 0 <= j < m.free.len() && m.free[j] == k as u32;
            assert(j != top);
            assert(m2.free[j] == k as u32);
        }
    } else {
        assert(m2.records.drop_last() =~= m.records);
    }
}

/// Freeing keeps the pool consistent. It succeeds exactly when the handle
/// resolves; then the payload is handed back, the handle stops resolving and
/// one live payload is gone.
pub proof fn lemma_free_then_lookup<T>(m: PoolModel<T>, h: (u32, u32))
    requires
        m.wf(),
    ensures
        m.freed(h).wf(),
        m.lookup(h) is Ok <==> m.valid(h),
        !m.freed(h).valid(h),
        m.valid(h) ==> m.freed(h).lookup(h) == Err::<T, PoolError>(PoolError::Empty(h.0)),
        m.valid(h) ==> m.freed(h).alive() + 1 == m.alive(),
        !m.valid(h) ==> m.freed(h) == m,
{
    if m.valid(h) {
        let m2 = m.freed(h);
        lemma_count_alive_update(m.records, h.0 as int, (h.1, None));
        assert forall|i: int, j: int|
            0 <= i < j < m2.free.len() implies #[trigger] m2.free[i] != #[trigger] m2.free[j] by {
            if j == m2.free.len() - 1 {
                assert(m.records[m.free[i] as int].1 is None);
            }
        }
        assert forall|k: int|
            0 <= k < m2.records.len() && (#[trigger] m2.records[k]).1 is None implies m2.free.contains(
            k as u32) by {
            if k == h.0 {
                assert(m2.free[m2.free.len() - 1] == k as u32);
            } else {
                assert(m.free.contains(k as u32));
                let j = choose|j: int| 0 <= j < m.free.len() && m.free[j] == k as u32;
                assert(m2.free[j] == k as u32);
            }
        }
    }
}

/// A handle that does not resolve never comes back to life: spawning
/// resolves only the handle it returns, and freeing resolves nothing new.
/// This is what makes a kept-too-long handle safe rather than aliasing the
/// slot's next occupant.
pub proof fn lemma_stale_handle_stays_stale<T>(
    m: PoolModel<T>,
    value: T,
    stale: (u32, u32),
    freed: (u32, u32),
)
    requires
        m.wf(),
        m.can_spawn(),
        !m.valid(stale),
    ensures
        stale != m.next_handle() ==> !m.spawned(value).valid(stale),
        !m.freed(freed).valid(stale),
{
}

/// Spawning and freeing leave every other handle's payload where it was.
pub proof fn lemma_other_handles_unaffected<T>(
    m: PoolModel<T>,
    value: T,
    h: (u32, u32),
    other: (u32, u32),
)
    requires
        m.wf(),
        m.can_spawn(),
        m.valid(h),
        other.0 != h.0,
    ensures
        m.spawned(value).lookup(h) == m.lookup(h),
        m.freed(other).lookup(h) == m.lookup(h),
{
    if m.free.len() > 0 {
        assert(m.records[m.free.last() as int].1 is None);
    }
}

/// Freeing a handle a second time changes nothing and reports the slot empty.
pub proof fn lemma_double_free_is_refused<T>(m: PoolModel<T>, h: (u32, u32))
    requires
        m.wf(),
        m.valid(h),
    ensures
        m.freed(h).freed(h) == m.freed(h),
        m.freed(h).lookup(h) == Err::<T, PoolError>(PoolError::Empty(h.0)),
{
}

/// Generations never go backwards: spawning raises the reused slot's
/// generation by one, and freeing keeps every generation.
pub proof fn lemma_generations_only_grow<T>(m: PoolModel<T>, value: T, h: (u32, u32))
    requires
        m.wf(),
        m.can_spawn(),
    ensures
        forall|i: int|
            0 <= i < m.records.len() ==> #[trigger] m.spawned(value).records[i].0 >= m.records[i].0,
        m.free.len() > 0 ==> m.spawned(value).records[m.free.last() as int].0 == m.records[m.free.last() as int].0 + 1,
        forall|i: int|
            0 <= i < m.records.len() ==> #[trigger] m.freed(h).records[i].0 == m.records[i].0,
{
}

/// The live pairs of `records` list exactly the live slots, each once, by
/// ascending index, with the slot's generation and payload.
proof fn lemma_live_pairs_exact<T>(records: Seq<(u32, Option<T>)>)
    requires
        records.len() <= u32::MAX,
    ensures
        live_pairs(records).len() == count_alive(records),
        live_payloads(records) == live_pairs(records).map_values(|e: ((u32, u32), T)| e.1),
        forall|k: int|
            0 <= k < live_pairs(records).len() ==> {
                let e = #[trigger] live_pairs(records)[k];
                &&& e.0.0 < records.len()
                &&& records[e.0.0 as int] == (e.0.1, Some(e.1))
            },
        forall|k1: int, k2: int|
            0 <= k1 < k2 < live_pairs(records).len() ==> (#[trigger] live_pairs(records)[k1]).0.0
                < (#[trigger] live_pairs(records)[k2]).0.0,
        forall|i: int|
            0 <= i < records.len() && (#[trigger] records[i]).1 is Some ==> exists|k: int|
                0 <= k < live_pairs(records).len() && live_pairs(records)[k].0 == (i as u32, records[i].0),
    decreases records.len(),
{
    if records.len() > 0 {
        let init = records.drop_last();
        lemma_live_pairs_exact(init);
        let lp = live_pairs(records);
        let lpi = live_pairs(init);
        let last = records.len() - 1;
        assert forall|k: int| 0 <= k < lpi.len() implies lp[k] == lpi[k] by {}
        assert forall|i: int| 0 <= i < last implies records[i] == init[i] by {}
        assert forall|i: int|
            0 <= i < records.len() && (#[trigger] records[i]).1 is Some implies exists|k: int|
                0 <= k < lp.len() && lp[k].0 == (i as u32, records[i].0) by {
            if i < last {
                assert(init[i] == records[i]);
                let k = choose|k: int| 0 <= k < lpi.len() && lpi[k].0 == (i as u32, init[i].0);
                assert(lp[k] == lpi[k]);
            } else {
                assert(lp[lp.len() - 1].0 == (i as u32, records[i].0));
            }
        }
        assert(live_payloads(records) =~= lp.map_values(|e: ((u32, u32), T)| e.1));
    }
}

/// Spawning touches only the handle it returns: every other handle is
/// valid afterwards exactly when it was before, with the same payload.
pub proof fn lemma_spawn_touches_only_its_handle<T>(m: PoolModel<T>, value: T, other: (u32, u32))
    requires
        m.wf(),
        m.can_spawn(),
        other != m.next_handle(),
    ensures
        m.spawned(value).valid(other) == m.valid(other),
        m.valid(other) ==> m.spawned(value).lookup(other) == m.lookup(other),
{
    if m.free.len() > 0 {
        assert(m.records[m.free.last() as int].1 is None);
    }
}

/// Handles become valid only by `spawn` and stop being valid only by
/// `free`, `retain` or `clear`: spawning makes exactly its returned handle
/// valid, freeing makes exactly the freed handle invalid, clearing leaves
/// none valid, and a retain (as its contract relates the slots) revives
/// none.
pub proof fn lemma_validity_follows_the_history<T>(
    m: PoolModel<T>,
    value: T,
    freed: (u32, u32),
    after_retain: PoolModel<T>,
    h: (u32, u32),
)
    requires
        m.wf(),
        m.can_spawn(),
        after_retain.records.len() == m.records.len(),
        forall|i: int|
            0 <= i < m.records.len() ==> {
                &&& (#[trigger] after_retain.records[i]).0 == m.records[i].0
                &&& m.records[i].1 is None ==> after_retain.records[i].1 is None
                &&& after_retain.records[i].1 is Some ==> after_retain.records[i].1 == m.records[i].1
            },
    ensures
        m.spawned(value).valid(h) <==> (m.valid(h) || h == m.next_handle()),
        m.freed(freed).valid(h) <==> (m.valid(h) && h != freed),
        !(PoolModel::<T> { records: Seq::empty(), free: Seq::empty() }).valid(h),
        after_retain.valid(h) ==> m.valid(h) && after_retain.lookup(h) == m.lookup(h),
{
    if m.free.len() > 0 {
        assert(m.records[m.free.last() as int].1 is None);
    }
    lemma_spawn_then_lookup(m, value);
    if h != m.next_handle() {
        lemma_spawn_touches_only_its_handle(m, value, h);
    }
}

/// The next handle is the slot freed most recently, one generation on;
/// with nothing freed, a new slot at generation 1. It names nothing yet,
/// and the next `spawn` returns it.
pub proof fn lemma_freed_slot_is_reused_first<T>(m: PoolModel<T>, h: (u32, u32))
    requires
        m.wf(),
        m.valid(h),
        h.1 < u32::MAX,
    ensures
        m.freed(h).next_handle() == (h.0, (h.1 + 1) as u32),
        !m.freed(h).valid(m.freed(h).next_handle()),
        m.free.len() == 0 ==> m.next_handle() == (m.records.len() as u32, 1u32),
{
    lemma_free_then_lookup(m, h);
}

/// The live pairs, which `pair_iter` yields, are exactly the valid handles
/// with their payloads: each once, by ascending index; as many as
/// `alive`; and their payloads are what `iter` yields, in the same order.
pub proof fn lemma_iteration_lists_the_valid_handles<T>(m: PoolModel<T>)
    requires
        m.wf(),
    ensures
        live_pairs(m.records).len() == m.alive(),
        live_payloads(m.records).len() == m.alive(),
        live_payloads(m.records) == live_pairs(m.records).map_values(|e: ((u32, u32), T)| e.1),
        forall|k: int|
            0 <= k < live_pairs(m.records).len() ==> {
                let e = #[trigger] live_pairs(m.records)[k];
                &&& m.valid(e.0)
                &&& m.lookup(e.0) == Ok::<T, PoolError>(e.1)
            },
        forall|k1: int, k2: int|
            0 <= k1 < k2 < live_pairs(m.records).len() ==> (#[trigger] live_pairs(m.records)[k1]).0.0
                < (#[trigger] live_pairs(m.records)[k2]).0.0,
        forall|h: (u32, u32)|
            #[trigger] m.valid(h) ==> exists|k: int| 0 <= k < live_pairs(m.records).len() && live_pairs(m.records)[k].0 == h,
{
    lemma_live_pairs_exact(m.records);
    assert forall|h: (u32, u32)| #[trigger] m.valid(h) implies exists|k: int|
        0 <= k < live_pairs(m.records).len() && live_pairs(m.records)[k].0 == h by {
        assert(m.records[h.0 as int].1 is Some);
    }
}

/// The valid handles of a pool are exactly as many as its live payloads.
pub proof fn lemma_alive_counts_the_valid_handles<T>(m: PoolModel<T>)
    requires
        m.wf(),
    ensures
        Set::new(|h: (u32, u32)| m.valid(h)).finite(),
        Set::new(|h: (u32, u32)| m.valid(h)).len() == m.alive(),
{
    lemma_iteration_lists_the_valid_handles(m);
    let lp = live_pairs(m.records);
    let hs = lp.map_values(|e: ((u32, u32), T)| e.0);
    assert(hs.no_duplicates()) by {
        assert forall|a: int, b: int| 0 <= a < hs.len() && 0 <= b < hs.len() && a != b implies hs[a] != hs[b] by {
            if a < b {
                assert(lp[a].0.0 < lp[b].0.0);
            } else {
                assert(lp[b].0.0 < lp[a].0.0);
            }
        }
    }
    assert(Set::new(|h: (u32, u32)| m.valid(h)) =~= hs.to_set()) by {
        assert forall|h: (u32, u32)| #[trigger] m.valid(h) implies hs.to_set().contains(h) by {
            let k = choose|k: int| 0 <= k < lp.len() && lp[k].0 == h;
            assert(hs[k] == h);
        }
        assert forall|h: (u32, u32)| hs.to_set().contains(h) implies m.valid(h) by {
            let k = choose|k: int| 0 <= k < hs.len() && hs[k] == h;
            assert(lp[k].0 == h);
        }
    }
    hs.unique_seq_to_set();
}

/// One operation on a pool, for stating what a sequence of them does.
pub enum PoolEvent<T> {
    Spawn(T),
    Free((u32, u32)),
    Clear,
}

/// The model of an empty pool.
pub open spec fn empty_pool<T>() -> PoolModel<T> {
    PoolModel { records: Seq::empty(), free: Seq::empty() }
}

impl<T> PoolModel<T> {
    /// The state after one event: a spawn, a free (`try_free`: nothing
    /// changes when the handle does not resolve), or a clear.
    pub open spec fn after(self, e: PoolEvent<T>) -> PoolModel<T> {
        match e {
            PoolEvent::Spawn(v) => self.spawned(v),
            PoolEvent::Free(h) => self.freed(h),
            PoolEvent::Clear => empty_pool(),
        }
    }
}

/// The pool after `events`, applied in order to an empty one.
pub open spec fn replay<T>(events: Seq<PoolEvent<T>>) -> PoolModel<T>
    decreases events.len(),
{
    if events.len() == 0 {
        empty_pool()
    } else {
        replay(events.drop_last()).after(events.last())
    }
}

/// The handle the event at position `k` would return as a spawn.
pub open spec fn issued<T>(events: Seq<PoolEvent<T>>, k: int) -> (u32, u32) {
    replay(events.take(k)).next_handle()
}

/// Every spawn of `events` stays within `u32`, as `spawn` requires.
pub open spec fn spawns_fit<T>(events: Seq<PoolEvent<T>>) -> bool {
    forall|k: int|
        0 <= k < events.len() && events[k] is Spawn ==> #[trigger] replay(events.take(k)).can_spawn()
}

/// Whether `e` ends the life of handle `h`: a clear, or a free of `h`.
pub open spec fn ends<T>(e: PoolEvent<T>, h: (u32, u32)) -> bool {
    match e {
        PoolEvent::Spawn(_) => false,
        PoolEvent::Free(f) => f == h,
        PoolEvent::Clear => true,
    }
}

/// Whether a spawn of `events` returned `h` and nothing after it, no clear
/// and no free of `h`, ended it.
pub open spec fn spawned_and_kept<T>(events: Seq<PoolEvent<T>>, h: (u32, u32)) -> bool {
    exists|k: int|
        0 <= k < events.len() && events[k] is Spawn && #[trigger] issued(events, k) == h && forall|j: int|
            k < j < events.len() ==> !ends(#[trigger] events[j], h)
}

proof fn lemma_replay_prefix<T>(events: Seq<PoolEvent<T>>, k: int)
    requires
        0 <= k < events.len(),
    ensures
        events.drop_last().take(k) == events.take(k),
        events.take(events.len() - 1) == events.drop_last(),
{
    assert(events.drop_last().take(k) =~= events.take(k));
    assert(events.take(events.len() - 1) =~= events.drop_last());
}

/// A handle is valid exactly when a spawn since the last clear returned it
/// and it has not been freed since; and a pool stays well formed whatever
/// it went through.
pub proof fn lemma_valid_exactly_when_spawned_and_kept<T>(events: Seq<PoolEvent<T>>, h: (u32, u32))
    requires
        spawns_fit(events),
    ensures
        replay(events).wf(),
        replay(events).valid(h) <==> spawned_and_kept(events, h),
    decreases events.len(),
{
    if events.len() == 0 {
        return;
    }
    let n = events.len() - 1;
    let init = events.drop_last();
    let e = events.last();
    assert forall|k: int| 0 <= k < init.len() && init[k] is Spawn implies #[trigger] replay(
        init.take(k),
    ).can_spawn() by {
        lemma_replay_prefix(events, k);
        assert(events[k] is Spawn);
        assert(replay(events.take(k)).can_spawn());
    }
    lemma_valid_exactly_when_spawned_and_kept(init, h);
    let m = replay(init);
    assert(replay(events) == m.after(e));
    lemma_replay_prefix(events, n);
    assert(issued(events, n) == m.next_handle());
    // Witnesses before the last event carry over, with the same handle.
    assert forall|k: int| 0 <= k < n implies #[trigger] issued(events, k) == issued(init, k) by {
        lemma_replay_prefix(events, k);
    }
    match e {
        PoolEvent::Spawn(v) => {
            assert(m.can_spawn()) by {
                assert(events[n] is Spawn);
                assert(replay(events.take(n)).can_spawn());
            }
            lemma_spawn_then_lookup(m, v);
            if h != m.next_handle() {
                lemma_spawn_touches_only_its_handle(m, v, h);
            }
            if spawned_and_kept(init, h) {
                let k = choose|k: int|
                    0 <= k < init.len() && init[k] is Spawn && #[trigger] issued(init, k) == h && forall|j: int|
                        k < j < init.len() ==> !ends(#[trigger] init[j], h);
                assert(issued(events, k) == h);
                assert forall|j: int| k < j < events.len() implies !ends(#[trigger] events[j], h) by {
                    if j < n {
                        assert(init[j] == events[j]);
                    }
                }
                assert(spawned_and_kept(events, h));
            }
            if h == m.next_handle() {
                assert(issued(events, n) == h);
                assert(spawned_and_kept(events, h));
            }
            if spawned_and_kept(events, h) && h != m.next_handle() {
                let k = choose|k: int|
                    0 <= k < events.len() && events[k] is Spawn && #[trigger] issued(events, k) == h && forall|j: int|
                        k < j < events.len() ==> !ends(#[trigger] events[j], h);
                assert(k < n);
                assert(issued(init, k) == h);
                assert forall|j: int| k < j < init.len() implies !ends(#[trigger] init[j], h) by {
                    assert(init[j] == events[j]);
                }
                assert(spawned_and_kept(init, h));
            }
        },
        PoolEvent::Free(f) => {
            lemma_free_then_lookup(m, f);
            assert(m.freed(f).valid(h) <==> m.valid(h) && h != f);
            if spawned_and_kept(init, h) && h != f {
                let k = choose|k: int|
                    0 <= k < init.len() && init[k] is Spawn && #[trigger] issued(init, k) == h && forall|j: int|
                        k < j < init.len() ==> !ends(#[trigger] init[j], h);
                assert(issued(events, k) == h);
                assert forall|j: int| k < j < events.len() implies !ends(#[trigger] events[j], h) by {
                    if j < n {
                        assert(init[j] == events[j]);
                    }
                }
                assert(spawned_and_kept(events, h));
            }
            if spawned_and_kept(events, h) {
                let k = choose|k: int|
                    0 <= k < events.len() && events[k] is Spawn && #[trigger] issued(events, k) == h && forall|j: int|
                        k < j < events.len() ==> !ends(#[trigger] events[j], h);
                assert(k < n);
                assert(!ends(events[n], h));
                assert(issued(init, k) == h);
                assert forall|j: int| k < j < init.len() implies !ends(#[trigger] init[j], h) by {
                    assert(init[j] == events[j]);
                }
                assert(spawned_and_kept(init, h));
            }
        },
        PoolEvent::Clear => {
            if spawned_and_kept(events, h) {
                let k = choose|k: int|
                    0 <= k < events.len() && events[k] is Spawn && #[trigger] issued(events, k) == h && forall|j: int|
                        k < j < events.len() ==> !ends(#[trigger] events[j], h);
                assert(!ends(events[n], h));
            }
        },
    }
}

/// Slot `h.0` has moved past `h`: a later generation, or `h`'s own with
/// nothing in it.
pub open spec fn outlived<T>(m: PoolModel<T>, h: (u32, u32)) -> bool {
    &&& h.0 < m.records.len()
    &&& (m.records[h.0 as int].0 > h.1 || (m.records[h.0 as int].0 == h.1
        && m.records[h.0 as int].1 is None))
}

proof fn lemma_outlived_after_free<T>(events: Seq<PoolEvent<T>>, j: int, h: (u32, u32))
    requires
        spawns_fit(events),
        0 <= j < events.len(),
        events[j] == PoolEvent::<T>::Free(h),
        replay(events.take(j)).valid(h),
        forall|i: int| j < i < events.len() ==> !(#[trigger] events[i] is Clear),
    ensures
        outlived(replay(events), h),
    decreases events.len(),
{
    let n = events.len() - 1;
    let init = events.drop_last();
    lemma_replay_prefix(events, n);
    let m = replay(init);
    assert(replay(events) == m.after(events[n]));
    if n == j {
        assert(init == events.take(j));
        assert(m.valid(h));
        assert(replay(events) == m.freed(h));
        assert(m.lookup(h) is Ok);
        assert(outlived(replay(events), h));
    } else {
        assert forall|k: int| 0 <= k < init.len() && init[k] is Spawn implies #[trigger] replay(
            init.take(k),
        ).can_spawn() by {
            lemma_replay_prefix(events, k);
            assert(events[k] is Spawn);
            assert(replay(events.take(k)).can_spawn());
        }
        lemma_replay_prefix(events, j);
        assert(init[j] == events[j]);
        assert forall|i: int| j < i < init.len() implies !(#[trigger] init[i] is Clear) by {
            assert(init[i] == events[i]);
        }
        lemma_outlived_after_free(init, j, h);
        match events[n] {
            PoolEvent::Spawn(v) => {
                assert(events[n] is Spawn);
                assert(replay(events.take(n)).can_spawn());
                assert(m.can_spawn());
                lemma_valid_exactly_when_spawned_and_kept(init, h);
                let m2 = m.spawned(v);
                if m.free.len() > 0 {
                    let top = m.free.last();
                    assert(m.records[top as int].0 < u32::MAX);
                    if top == h.0 {
                        assert(m2.records[h.0 as int].0 == m.records[h.0 as int].0 + 1);
                    } else {
                        assert(m2.records[h.0 as int] == m.records[h.0 as int]);
                    }
                } else {
                    assert(m2.records[h.0 as int] == m.records[h.0 as int]);
                }
                assert(outlived(m2, h));
            },
            PoolEvent::Free(f) => {
                assert(outlived(m.freed(f), h));
            },
            PoolEvent::Clear => {
                assert(events[n] is Clear);
            },
        }
    }
}

/// Once freed, a handle never resolves again until the pool is cleared:
/// reusing its slot moves the slot to a later generation.
pub proof fn lemma_freed_handle_stays_invalid<T>(events: Seq<PoolEvent<T>>, j: int, h: (u32, u32))
    requires
        spawns_fit(events),
        0 <= j < events.len(),
        events[j] == PoolEvent::<T>::Free(h),
        replay(events.take(j)).valid(h),
        forall|i: int| j < i < events.len() ==> !(#[trigger] events[i] is Clear),
    ensures
        !replay(events).valid(h),
{
    lemma_outlived_after_free(events, j, h);
}

/// The next handle names a fresh slot at generation 1 exactly when no slot
/// is empty; otherwise it names an empty slot, one generation past the
/// slot's last, and does not resolve.
pub proof fn lemma_next_handle_names_an_empty_slot<T>(m: PoolModel<T>)
    requires
        m.wf(),
        m.free.len() > 0 ==> m.records[m.free.last() as int].0 < u32::MAX,
    ensures
        (forall|i: int| 0 <= i < m.records.len() ==> (#[trigger] m.records[i]).1 is Some) <==> m.next_handle()
            == (m.records.len() as u32, 1u32),
        m.next_handle().0 < m.records.len() ==> {
            &&& m.records[m.next_handle().0 as int].1 is None
            &&& m.next_handle().1 == m.records[m.next_handle().0 as int].0 + 1
        },
        !m.valid(m.next_handle()),
{
    if m.free.len() > 0 {
        let top = m.free.last();
        assert(m.free[m.free.len() - 1] == top);
        assert(m.records[top as int].1 is None);
    } else {
        assert forall|i: int| 0 <= i < m.records.len() implies (#[trigger] m.records[i]).1 is Some by {
            if m.records[i].1 is None {
                assert(m.free.contains(i as u32));
            }
        }
    }
}

/// With nothing ever freed or cleared, spawns fill the slots in order: the
/// `k`-th spawn returns slot `k` at generation 1, and the next handle is the
/// next slot.
pub proof fn lemma_spawns_alone_fill_slots_in_order<T>(events: Seq<PoolEvent<T>>)
    requires
        spawns_fit(events),
        forall|k: int| 0 <= k < events.len() ==> #[trigger] events[k] is Spawn,
    ensures
        replay(events).records.len() == events.len(),
        replay(events).free.len() == 0,
        replay(events).next_handle() == (events.len() as u32, 1u32),
        forall|k: int| 0 <= k < events.len() ==> #[trigger] issued(events, k) == (k as u32, 1u32),
    decreases events.len(),
{
    if events.len() == 0 {
        return;
    }
    let n = events.len() - 1;
    let init = events.drop_last();
    lemma_replay_prefix(events, n);
    assert forall|k: int| 0 <= k < init.len() && init[k] is Spawn implies #[trigger] replay(
        init.take(k),
    ).can_spawn() by {
        lemma_replay_prefix(events, k);
        assert(events[k] is Spawn);
        assert(replay(events.take(k)).can_spawn());
    }
    assert forall|k: int| 0 <= k < init.len() implies #[trigger] init[k] is Spawn by {
        assert(events[k] is Spawn);
    }
    lemma_spawns_alone_fill_slots_in_order(init);
    let m = replay(init);
    assert(events[n] is Spawn);
    assert(replay(events.take(n)).can_spawn());
    assert(replay(events) == m.after(events[n]));
    assert forall|k: int| 0 <= k < events.len() implies #[trigger] issued(events, k) == (k as u32, 1u32) by {
        lemma_replay_prefix(events, k);
        if k < n {
            assert(issued(init, k) == (k as u32, 1u32));
        }
    }
}

proof fn lemma_step_keeps_valid_or_outlived<T>(m: PoolModel<T>, e: PoolEvent<T>, h: (u32, u32))
    requires
        m.wf(),
        !(e is Clear),
        e is Spawn ==> m.can_spawn(),
        m.valid(h) || outlived(m, h),
    ensures
        m.after(e).valid(h) || outlived(m.after(e), h),
{
    match e {
        PoolEvent::Spawn(v) => {
            lemma_spawn_then_lookup(m, v);
            if h != m.next_handle() {
                lemma_spawn_touches_only_its_handle(m, v, h);
            }
            if !m.valid(h) {
                let m2 = m.spawned(v);
                if m.free.len() > 0 {
                    let top = m.free.last();
                    assert(m.free[m.free.len() - 1] == top);
                    if top == h.0 {
                        assert(m2.records[h.0 as int].0 == m.records[h.0 as int].0 + 1);
                    } else {
                        assert(m2.records[h.0 as int] == m.records[h.0 as int]);
                    }
                } else {
                    assert(m2.records[h.0 as int] == m.records[h.0 as int]);
                }
            }
        },
        PoolEvent::Free(f) => {
            lemma_free_then_lookup(m, f);
        },
        PoolEvent::Clear => {},
    }
}

proof fn lemma_issued_stays_valid_or_outlived<T>(events: Seq<PoolEvent<T>>, k: int, l: int)
    requires
        spawns_fit(events),
        0 <= k < l <= events.len(),
        events[k] is Spawn,
        forall|i: int| k < i < l ==> !(#[trigger] events[i] is Clear),
    ensures
        replay(events.take(l)).valid(issued(events, k)) || outlived(replay(events.take(l)), issued(events, k)),
    decreases l - k,
{
    let h = issued(events, k);
    let prev = events.take(l - 1);
    assert(events.take(l).drop_last() =~= prev);
    assert(events.take(l).last() == events[l - 1]);
    assert(replay(events.take(l)) == replay(prev).after(events[l - 1]));
    assert forall|j: int| 0 <= j < prev.len() && prev[j] is Spawn implies #[trigger] replay(prev.take(j)).can_spawn() by {
        assert(prev.take(j) =~= events.take(j));
        assert(events[j] is Spawn);
        assert(replay(events.take(j)).can_spawn());
    }
    lemma_valid_exactly_when_spawned_and_kept(prev, h);
    if l - 1 == k {
        assert(prev =~= events.take(k));
        assert(replay(events.take(k)).can_spawn());
        if let PoolEvent::Spawn(v) = events[k] {
            lemma_spawn_then_lookup(replay(prev), v);
        }
    } else {
        lemma_issued_stays_valid_or_outlived(events, k, l - 1);
        if events[l - 1] is Spawn {
            assert(replay(events.take(l - 1)).can_spawn());
        }
        lemma_step_keeps_valid_or_outlived(replay(prev), events[l - 1], h);
    }
}

/// Between two clears every spawn returns a handle no earlier spawn
/// returned: a reused slot comes back at a later generation, so a handle
/// kept from before never names the new payload.
pub proof fn lemma_spawns_since_a_clear_return_fresh_handles<T>(events: Seq<PoolEvent<T>>, k1: int, k2: int)
    requires
        spawns_fit(events),
        0 <= k1 < k2 < events.len(),
        events[k1] is Spawn,
        events[k2] is Spawn,
        forall|i: int| k1 < i < k2 ==> !(#[trigger] events[i] is Clear),
    ensures
        issued(events, k1) != issued(events, k2),
{
    let h = issued(events, k1);
    let m = replay(events.take(k2));
    lemma_issued_stays_valid_or_outlived(events, k1, k2);
    assert forall|j: int| 0 <= j < events.take(k2).len() && events.take(k2)[j] is Spawn implies #[trigger] replay(
        events.take(k2).take(j),
    ).can_spawn() by {
        assert(events.take(k2).take(j) =~= events.take(j));
        assert(events[j] is Spawn);
        assert(replay(events.take(j)).can_spawn());
    }
    lemma_valid_exactly_when_spawned_and_kept(events.take(k2), h);
    assert(m.can_spawn());
    lemma_next_handle_names_an_empty_slot(m);
    if m.free.len() > 0 {
        assert(m.records[m.free.last() as int].0 < u32::MAX);
    }
}

/// Whether `m` is what `events` made of an empty pool, the payloads
/// aside: every spawn fitted, each slot has the generation and the
/// liveness the replay gives it, and the free stack is the replay's.
pub open spec fn follows_history<T>(m: PoolModel<T>, events: Seq<PoolEvent<T>>) -> bool {
    &&& spawns_fit(events)
    &&& same_slots(replay(events).records, m.records)
    &&& replay(events).free == m.free
}

/// The handles of the slots a retain emptied, ascending, each at its
/// generation.
pub open spec fn dropped_handles<T>(before: Seq<(u32, Option<T>)>, after: Seq<(u32, Option<T>)>) -> Seq<(u32, u32)> {
    dropped_indices(before, after).map_values(|i: u32| (i, before[i as int].0))
}

/// A free of each handle of `hs`, in order.
pub open spec fn frees_of<T>(hs: Seq<(u32, u32)>) -> Seq<PoolEvent<T>> {
    hs.map_values(|h: (u32, u32)| PoolEvent::<T>::Free(h))
}

/// A pool that follows its history resolves, refuses and hands out
/// handles exactly as the replay of that history does.
pub proof fn lemma_follows_history_agrees<T>(m: PoolModel<T>, events: Seq<PoolEvent<T>>, h: (u32, u32))
    requires
        follows_history(m, events),
    ensures
        replay(events).wf(),
        m.valid(h) == replay(events).valid(h),
        m.lookup(h) is Ok <==> replay(events).lookup(h) is Ok,
        m.next_handle() == replay(events).next_handle(),
        m.can_spawn() == replay(events).can_spawn(),
{
    let r = replay(events);
    lemma_valid_exactly_when_spawned_and_kept(events, h);
    if h.0 < m.records.len() {
        assert(r.records[h.0 as int].0 == m.records[h.0 as int].0);
    }
    if m.free.len() > 0 {
        assert(r.free[r.free.len() - 1] == r.free.last());
        assert(r.records[m.free.last() as int].0 == m.records[m.free.last() as int].0);
    }
}

proof fn lemma_spawns_fit_push<T>(events: Seq<PoolEvent<T>>, e: PoolEvent<T>)
    requires
        spawns_fit(events),
        e is Spawn ==> replay(events).can_spawn(),
    ensures
        spawns_fit(events.push(e)),
        replay(events.push(e)) == replay(events).after(e),
{
    let ev = events.push(e);
    assert(ev.drop_last() =~= events);
    assert forall|k: int| 0 <= k < ev.len() && ev[k] is Spawn implies #[trigger] replay(ev.take(k)).can_spawn() by {
        if k < events.len() {
            assert(ev.take(k) =~= events.take(k));
            assert(ev[k] == events[k]);
        } else {
            assert(ev.take(k) =~= events);
        }
    }
}

/// A step the pool takes, taken by the replay too, keeps the pool on its
/// history.
pub proof fn lemma_follows_history_step<T>(m: PoolModel<T>, events: Seq<PoolEvent<T>>, e: PoolEvent<T>)
    requires
        follows_history(m, events),
        e is Spawn ==> m.can_spawn(),
    ensures
        follows_history(m.after(e), events.push(e)),
{
    let r = replay(events);
    lemma_follows_history_agrees(m, events, (0, 0));
    lemma_spawns_fit_push(events, e);
    match e {
        PoolEvent::Spawn(v) => {
            let n = m.next_handle();
            assert(r.next_handle() == n);
            let a = r.spawned(v);
            let b = m.spawned(v);
            if m.free.len() > 0 {
                assert(r.free[r.free.len() - 1] == r.free.last());
            }
            assert forall|j: int| 0 <= j < a.records.len() implies a.records[j].0 == b.records[j].0 && (a.records[j].1 is Some
                <==> b.records[j].1 is Some) by {
                if j < r.records.len() {
                    assert(r.records[j].0 == m.records[j].0);
                }
            }
        },
        PoolEvent::Free(f) => {
            lemma_follows_history_agrees(m, events, f);
            assert forall|j: int| 0 <= j < r.freed(f).records.len() implies r.freed(f).records[j].0 == m.freed(f).records[j].0
                && (r.freed(f).records[j].1 is Some <==> m.freed(f).records[j].1 is Some) by {
                assert(r.records[j].0 == m.records[j].0);
            }
        },
        PoolEvent::Clear => {},
    }
}

proof fn lemma_frees_of_push<T>(hs: Seq<(u32, u32)>, h: (u32, u32))
    ensures
        frees_of::<T>(hs.push(h)) == frees_of::<T>(hs).push(PoolEvent::Free(h)),
{
    assert(frees_of::<T>(hs.push(h)) =~= frees_of::<T>(hs).push(PoolEvent::Free(h)));
}

proof fn lemma_retain_prefix<T>(
    events: Seq<PoolEvent<T>>,
    before: Seq<(u32, Option<T>)>,
    after: Seq<(u32, Option<T>)>,
    n: int,
)
    requires
        spawns_fit(events),
        same_slots(replay(events).records, before),
        before.len() == after.len(),
        before.len() <= u32::MAX,
        0 <= n <= before.len(),
        forall|i: int| 0 <= i < before.len() ==> (#[trigger] after[i]).0 == before[i].0 && (before[i].1 is None ==> after[i].1 is None),
    ensures
        ({
            let hs = dropped_indices(before.take(n), after).map_values(|i: u32| (i, before[i as int].0));
            let ev = events + frees_of::<T>(hs);
            let r = replay(ev);
            &&& spawns_fit(ev)
            &&& r.free == replay(events).free + dropped_indices(before.take(n), after)
            &&& r.records.len() == before.len()
            &&& forall|i: int| 0 <= i < before.len() ==> (#[trigger] r.records[i]).0 == before[i].0 && (r.records[i].1 is Some
                <==> (if i < n { after[i].1 is Some } else { before[i].1 is Some }))
        }),
    decreases n,
{
    let hs = dropped_indices(before.take(n), after).map_values(|i: u32| (i, before[i as int].0));
    if n == 0 {
        assert(dropped_indices(before.take(0), after) =~= Seq::<u32>::empty());
        assert(events + frees_of::<T>(hs) =~= events);
        assert(replay(events).free + Seq::<u32>::empty() =~= replay(events).free);
        return;
    }
    lemma_retain_prefix(events, before, after, n - 1);
    let d0 = dropped_indices(before.take(n - 1), after);
    let hs0 = d0.map_values(|i: u32| (i, before[i as int].0));
    let ev0 = events + frees_of::<T>(hs0);
    let r0 = replay(ev0);
    let k = n - 1;
    assert(before.take(n).drop_last() =~= before.take(n - 1));
    assert(before.take(n)[k] == before[k]);
    if before[k].1 is Some && after[k].1 is None {
        let h = (k as u32, before[k].0);
        assert(dropped_indices(before.take(n), after) == d0.push(k as u32));
        assert(hs =~= hs0.push(h));
        lemma_frees_of_push::<T>(hs0, h);
        assert(events + frees_of::<T>(hs) =~= ev0.push(PoolEvent::Free(h)));
        lemma_spawns_fit_push(ev0, PoolEvent::Free(h));
        assert(r0.lookup(h) is Ok);
        let r = r0.freed(h);
        assert(r.free =~= replay(events).free + d0.push(k as u32));
        assert forall|i: int| 0 <= i < before.len() implies (#[trigger] r.records[i]).0 == before[i].0 && (r.records[i].1 is Some
            <==> (if i < n { after[i].1 is Some } else { before[i].1 is Some })) by {
            assert(r0.records[i].0 == before[i].0);
        }
    } else {
        assert(dropped_indices(before.take(n), after) == d0);
        assert(hs =~= hs0);
        assert forall|i: int| 0 <= i < before.len() implies (#[trigger] r0.records[i]).0 == before[i].0 && (r0.records[i].1 is Some
            <==> (if i < n { after[i].1 is Some } else { before[i].1 is Some })) by {
            assert(r0.records[i].0 == before[i].0);
        }
    }
}

/// A retain is, for the history, a free of each slot it emptied, in
/// ascending order.
pub proof fn lemma_follows_history_retain<T>(m: PoolModel<T>, events: Seq<PoolEvent<T>>, after: PoolModel<T>)
    requires
        follows_history(m, events),
        after.records.len() == m.records.len(),
        forall|i: int| 0 <= i < m.records.len() ==> (#[trigger] after.records[i]).0 == m.records[i].0 && (m.records[i].1 is None
            ==> after.records[i].1 is None),
        after.free == m.free + dropped_indices(m.records, after.records),
    ensures
        follows_history(after, events + frees_of::<T>(dropped_handles(m.records, after.records))),
{
    lemma_follows_history_agrees(m, events, (0, 0));
    lemma_retain_prefix(events, m.records, after.records, m.records.len() as int);
    assert(m.records.take(m.records.len() as int) =~= m.records);
    let ev = events + frees_of::<T>(dropped_handles(m.records, after.records));
    assert forall|j: int| 0 <= j < replay(ev).records.len() implies replay(ev).records[j].0 == after.records[j].0 && (
    replay(ev).records[j].1 is Some <==> after.records[j].1 is Some) by {}
}

} // verus!
