//! Directional navigation and the input-source model.
//!
//! An authored neighbour link wins where there is one; geometry decides
//! where there is not. This module holds the directions, the input sources
//! and the authored links; the geometric search works on floating-point
//! rectangles and lives with the rest of the layout code.

use crate::message::NodeHandle;
use vstd::prelude::*;

verus! {

/// A navigation direction.
#[derive(Clone, Copy, Debug, PartialEq, Eq, Structural, Hash)]
pub enum Direction {
    Left,
    Right,
    Up,
    Down,
}

impl Direction {
    /// The opposite direction, as a plain value.
    pub open spec fn spec_opposite(self) -> Direction {
        match self {
            Direction::Left => Direction::Right,
            Direction::Right => Direction::Left,
            Direction::Up => Direction::Down,
            Direction::Down => Direction::Up,
        }
    }

    /// Whether this direction runs along x.
    pub fn is_horizontal(self) -> (b: bool)
        ensures
            b == (self is Left || self is Right),
    {
        matches!(self, Direction::Left | Direction::Right)
    }

    /// The opposite direction.
    #[verifier::when_used_as_spec(spec_opposite)]
    pub fn opposite(self) -> (d: Direction)
        ensures
            d == self.spec_opposite(),
    {
        match self {
            Direction::Left => Direction::Right,
            Direction::Right => Direction::Left,
            Direction::Up => Direction::Down,
            Direction::Down => Direction::Up,
        }
    }
}

/// Every direction is its own opposite twice over, never its own opposite
/// once, and keeps its axis when reversed.
pub proof fn lemma_opposite_is_an_involution(d: Direction)
    ensures
        d.spec_opposite().spec_opposite() == d,
        d.spec_opposite() != d,
        (d.spec_opposite() is Left || d.spec_opposite() is Right) == (d is Left || d is Right),
{
}

/// Where input came from.
///
/// Hover has no meaning on a gamepad, and the API says so: a UI that treats
/// the focused widget as hovered shows two cues meaning one thing.
#[derive(Clone, Copy, Debug, PartialEq, Eq, Structural)]
pub enum InputSource {
    /// A mouse or trackpad: has a position between clicks, and so hover.
    Pointer,
    /// A touchscreen: has a position only while touching.
    Touch,
    /// A gamepad or keyboard: no position at all; focus is the only cue.
    Gamepad,
}

impl Default for InputSource {
    fn default() -> (s: Self)
        ensures
            s == InputSource::Pointer,
    {
        InputSource::Pointer
    }
}

impl InputSource {
    /// Whether a hover state is meaningful for this source.
    pub fn has_hover(self) -> (b: bool)
        ensures
            b == (self is Pointer),
    {
        matches!(self, InputSource::Pointer)
    }

    /// Whether this source drives focus by navigation rather than pointing.
    pub fn navigates(self) -> (b: bool)
        ensures
            b == (self is Gamepad),
    {
        matches!(self, InputSource::Gamepad)
    }
}

/// A navigation verb, independent of what pressed it.
#[derive(Clone, Copy, Debug, PartialEq, Eq, Structural)]
pub enum NavAction {
    /// Move focus.
    Move(Direction),
    /// Activate the focused widget.
    Confirm,
    /// Dismiss, or step out of the current focus scope.
    Cancel,
    /// Next focus stop in linear order. Tab is not Down.
    Next,
    /// Previous focus stop in linear order.
    Previous,
}

/// The key of an authored link: the source widget and the direction.
pub type LinkKey = ((u32, u32), Direction);

/// The links of an entry list, later entries overriding earlier ones.
pub open spec fn links_map(entries: Seq<(NodeHandle, Direction, NodeHandle)>) -> Map<
    LinkKey,
    (u32, u32),
>
    decreases entries.len(),
{
    if entries.len() == 0 {
        Map::empty()
    } else {
        let e = entries.last();
        links_map(entries.drop_last()).insert((e.0@, e.1), e.2@)
    }
}

/// Whether no two entries share a key.
pub open spec fn keys_unique(entries: Seq<(NodeHandle, Direction, NodeHandle)>) -> bool {
    forall|i: int, j: int|
        0 <= i < j < entries.len() ==> (#[trigger] entries[i].0@, entries[i].1) != (
            #[trigger] entries[j].0@,
            entries[j].1,
        )
}

/// Explicit neighbour links, authored where geometry gets it wrong.
#[derive(Debug)]
pub struct NavLinks {
    links: Vec<(NodeHandle, Direction, NodeHandle)>,
}

impl View for NavLinks {
    type V = Map<LinkKey, (u32, u32)>;

    closed spec fn view(&self) -> Map<LinkKey, (u32, u32)> {
        links_map(self.links@)
    }
}

impl Clone for NavLinks {
    fn clone(&self) -> (c: Self)
        ensures
            c@ == self@,
    {
        proof {
            use_type_invariant(self);
        }
        let mut links: Vec<(NodeHandle, Direction, NodeHandle)> = Vec::new();
        let mut i: usize = 0;
        while i < self.links.len()
            invariant
                i <= self.links@.len(),
                links@ == self.links@.take(i as int),
            decreases self.links@.len() - i,
        {
            let entry = self.links[i];
            links.push(entry);
            assert(links@ =~= self.links@.take(i + 1));
            i = i + 1;
        }
        assert(links@ =~= self.links@);
        NavLinks { links }
    }
}

impl Default for NavLinks {
    fn default() -> (links: Self)
        ensures
            links@ == Map::<LinkKey, (u32, u32)>::empty(),
    {
        NavLinks { links: Vec::new() }
    }
}

/// The entries of `entries` that neither start nor end at `h`.
pub open spec fn entries_without(entries: Seq<(NodeHandle, Direction, NodeHandle)>, h: (u32, u32)) -> Seq<
    (NodeHandle, Direction, NodeHandle),
>
    decreases entries.len(),
{
    if entries.len() == 0 {
        Seq::empty()
    } else {
        let rest = entries_without(entries.drop_last(), h);
        let e = entries.last();
        if e.0@ != h && e.2@ != h {
            rest.push(e)
        } else {
            rest
        }
    }
}

/// The links of `m` that neither start nor end at `h`.
pub open spec fn links_without(m: Map<LinkKey, (u32, u32)>, h: (u32, u32)) -> Map<
    LinkKey,
    (u32, u32),
> {
    Map::new(|k: LinkKey| m.contains_key(k) && k.0 != h && m[k] != h, |k: LinkKey| m[k])
}

proof fn lemma_links_map_lookup(entries: Seq<(NodeHandle, Direction, NodeHandle)>)
    requires
        keys_unique(entries),
    ensures
        forall|k: LinkKey|
            #[trigger] links_map(entries).contains_key(k) <==> exists|i: int|
                0 <= i < entries.len() && (entries[i].0@, entries[i].1) == k,
        forall|i: int|
            0 <= i < entries.len() ==> #[trigger] links_map(entries)[(entries[i].0@, entries[i].1)]
                == entries[i].2@,
        links_map(entries).dom().finite(),
        links_map(entries).dom().len() == entries.len(),
    decreases entries.len(),
{
    if entries.len() > 0 {
        let rest = entries.drop_last();
        lemma_links_map_lookup(rest);
        let last = entries.last();
        let key = (last.0@, last.1);
        assert(!links_map(rest).contains_key(key)) by {
            if links_map(rest).contains_key(key) {
                let i = choose|i: int| 0 <= i < rest.len() && (rest[i].0@, rest[i].1) == key;
                assert((entries[i].0@, entries[i].1) != (
                    entries[entries.len() - 1].0@,
                    entries[entries.len() - 1].1,
                ));
            }
        }
        assert forall|k: LinkKey| #[trigger]
            links_map(entries).contains_key(k) implies exists|i: int|
                0 <= i < entries.len() && (entries[i].0@, entries[i].1) == k by {
            if k != key {
                let i = choose|i: int| 0 <= i < rest.len() && (rest[i].0@, rest[i].1) == k;
                assert(entries[i] == rest[i]);
            } else {
                assert(entries[entries.len() - 1] == last);
            }
        }
        assert forall|i: int|
            0 <= i < entries.len() implies #[trigger] links_map(entries)[(
                entries[i].0@,
                entries[i].1,
            )] == entries[i].2@ by {
            if i < entries.len() - 1 {
                assert(entries[i] == rest[i]);
                assert((entries[i].0@, entries[i].1) != key);
                assert(links_map(rest)[(rest[i].0@, rest[i].1)] == rest[i].2@);
            } else {
                assert(entries[i] == last);
            }
        }
        assert(links_map(entries) == links_map(rest).insert(key, last.2@));
        assert forall|i: int| 0 <= i < entries.len() implies #[trigger] links_map(entries).contains_key(
            (entries[i].0@, entries[i].1),
        ) by {
            if i < entries.len() - 1 {
                assert(entries[i] == rest[i]);
                assert(links_map(rest).contains_key((rest[i].0@, rest[i].1)));
            }
        }
        assert forall|k: LinkKey| (exists|i: int|
            0 <= i < entries.len() && (entries[i].0@, entries[i].1) == k) implies #[trigger] links_map(
            entries,
        ).contains_key(k) by {
            let i = choose|i: int| 0 <= i < entries.len() && (entries[i].0@, entries[i].1) == k;
            assert(links_map(entries).contains_key((entries[i].0@, entries[i].1)));
        }
    }
}

proof fn lemma_links_map_set_value(
    entries: Seq<(NodeHandle, Direction, NodeHandle)>,
    i: int,
    to: NodeHandle,
)
    requires
        0 <= i < entries.len(),
    ensures
        links_map(entries.update(i, (entries[i].0, entries[i].1, to))) =~= links_map(entries).insert(
            (entries[i].0@, entries[i].1),
            to@,
        ) || !keys_unique(entries),
    decreases entries.len(),
{
    if keys_unique(entries) {
        let e2 = entries.update(i, (entries[i].0, entries[i].1, to));
        let key = (entries[i].0@, entries[i].1);
        if i == entries.len() - 1 {
            assert(e2.drop_last() =~= entries.drop_last());
            lemma_links_map_lookup(entries.drop_last());
        } else {
            assert(e2.drop_last() =~= entries.drop_last().update(
                i,
                (entries[i].0, entries[i].1, to),
            ));
            assert(keys_unique(entries.drop_last()));
            lemma_links_map_set_value(entries.drop_last(), i, to);
            let last = entries.last();
            assert((last.0@, last.1) != key);
        }
    }
}

proof fn lemma_links_map_without(entries: Seq<(NodeHandle, Direction, NodeHandle)>, h: (u32, u32))
    requires
        keys_unique(entries),
    ensures
        links_map(entries_without(entries, h)) =~= links_without(links_map(entries), h),
        keys_unique(entries_without(entries, h)),
        forall|j: int|
            0 <= j < entries_without(entries, h).len() ==> exists|i: int|
                0 <= i < entries.len() && entries[i] == #[trigger] entries_without(entries, h)[j],
    decreases entries.len(),
{
    if entries.len() > 0 {
        let rest = entries.drop_last();
        lemma_links_map_without(rest, h);
        lemma_links_map_lookup(rest);
        let last = entries.last();
        let key = (last.0@, last.1);
        let kept = entries_without(rest, h);
        assert(!links_map(rest).contains_key(key)) by {
            if links_map(rest).contains_key(key) {
                let i = choose|i: int| 0 <= i < rest.len() && (rest[i].0@, rest[i].1) == key;
                assert(entries[i] == rest[i]);
                assert((entries[i].0@, entries[i].1) != (
                    entries[entries.len() - 1].0@,
                    entries[entries.len() - 1].1,
                ));
            }
        }
        assert(links_map(entries) == links_map(rest).insert(key, last.2@));
        if last.0@ != h && last.2@ != h {
            assert(kept.push(last).drop_last() =~= kept);
            assert(links_map(entries_without(entries, h)) == links_map(kept).insert(key, last.2@));
            assert(links_without(links_map(rest), h).insert(key, last.2@) =~= links_without(
                links_map(rest).insert(key, last.2@),
                h,
            ));
        } else {
            assert(links_map(entries_without(entries, h)) == links_map(kept));
            assert(links_without(links_map(rest), h) =~= links_without(
                links_map(rest).insert(key, last.2@),
                h,
            ));
        }
        assert forall|j: int|
            0 <= j < kept.len() implies (#[trigger] kept[j].0@, kept[j].1) != key by {
            let i = choose|i: int| 0 <= i < rest.len() && rest[i] == kept[j];
            assert(entries[i] == rest[i]);
        }
        if last.0@ != h && last.2@ != h {
            assert forall|a: int, b: int|
                0 <= a < b < kept.push(last).len() implies (#[trigger] kept.push(last)[a].0@, kept.push(
                last,
            )[a].1) != (#[trigger] kept.push(last)[b].0@, kept.push(last)[b].1) by {
                if b == kept.len() {
                    assert(kept.push(last)[a] == kept[a]);
                }
            }
            assert forall|j: int|
                0 <= j < kept.push(last).len() implies exists|i: int|
                    0 <= i < entries.len() && entries[i] == #[trigger] kept.push(last)[j] by {
                if j < kept.len() {
                    let i = choose|i: int| 0 <= i < rest.len() && rest[i] == kept[j];
                    assert(entries[i] == rest[i]);
                } else {
                    assert(entries[entries.len() - 1] == last);
                }
            }
        } else {
            assert forall|j: int|
                0 <= j < kept.len() implies exists|i: int|
                    0 <= i < entries.len() && entries[i] == #[trigger] kept[j] by {
                let i = choose|i: int| 0 <= i < rest.len() && rest[i] == kept[j];
                assert(entries[i] == rest[i]);
            }
        }
    }
}

impl NavLinks {
    /// Internal consistency: no two entries share a key.
    #[verifier::type_invariant]
    spec fn wf(&self) -> bool {
        keys_unique(self.links@)
    }

    /// Author `from -> to` in `direction`, replacing any earlier link from
    /// `from` that way.
    ///
    /// One-way on purpose: the reverse is a separate authoring decision.
    pub fn link(&mut self, from: NodeHandle, direction: Direction, to: NodeHandle)
        ensures
            final(self)@ == old(self)@.insert((from@, direction), to@),
            final(self)@.dom().finite(),
            final(self)@.len() == old(self)@.len() + if old(self)@.contains_key((from@, direction)) {
                0int
            } else {
                1int
            },
    {
        proof {
            use_type_invariant(&*self);
            lemma_links_map_lookup(self.links@);
        }
        let mut links: Vec<(NodeHandle, Direction, NodeHandle)> = Vec::new();
        std::mem::swap(&mut links, &mut self.links);
        let ghost before = links@;
        let mut i: usize = 0;
        while i < links.len()
            invariant
                i <= links.len(),
                links@ == before,
                before == old(self).links@,
                keys_unique(before),
                links_map(before).dom().finite(),
                forall|k: int| 0 <= k < i ==> (#[trigger] before[k].0@, before[k].1) != (from@, direction),
            decreases links.len() - i,
        {
            if links[i].0 == from && links[i].1 == direction {
                let entry = (links[i].0, links[i].1, to);
                links.set(i, entry);
                proof {
                    assert(links@ =~= before.update(i as int, (before[i as int].0, before[i as int].1, to)));
                    lemma_links_map_set_value(before, i as int, to);
                    assert(before[i as int].0@ == from@);
                    assert(before[i as int].1 == direction);
                    assert(links_map(links@) =~= links_map(before).insert((from@, direction), to@));
                    lemma_links_map_lookup(before);
                    assert((before[i as int].0@, before[i as int].1) == (from@, direction));
                    assert(links_map(before).contains_key((from@, direction)));
                    assert forall|a: int, b: int|
                        0 <= a < b < links@.len() implies (#[trigger] links@[a].0@, links@[a].1)
                        != (#[trigger] links@[b].0@, links@[b].1) by {
                        assert((before[a].0@, before[a].1) != (before[b].0@, before[b].1));
                    }
                    lemma_links_map_lookup(links@);
                }
                self.links = links;
                return;
            }
            i = i + 1;
        }
        links.push((from, direction, to));
        proof {
            assert(links@.drop_last() =~= before);
            assert forall|a: int, b: int|
                0 <= a < b < links@.len() implies (#[trigger] links@[a].0@, links@[a].1)
                != (#[trigger] links@[b].0@, links@[b].1) by {
                if b < before.len() {
                    assert((before[a].0@, before[a].1) != (before[b].0@, before[b].1));
                } else {
                    assert(links@[a] == before[a]);
                }
            }
            lemma_links_map_lookup(links@);
            assert(!links_map(before).contains_key((from@, direction))) by {
                if links_map(before).contains_key((from@, direction)) {
                    let k = choose|k: int| 0 <= k < before.len() && (before[k].0@, before[k].1) == (from@, direction);
                    assert((before[k].0@, before[k].1) != (from@, direction));
                }
            }
        }
        self.links = links;
    }

    /// Author `from <-> to`: `from -> to` in `direction` and `to -> from`
    /// the opposite way.
    pub fn link_both(&mut self, from: NodeHandle, direction: Direction, to: NodeHandle)
        ensures
            final(self)@ == old(self)@.insert((from@, direction), to@).insert(
                (to@, direction.spec_opposite()),
                from@,
            ),
    {
        self.link(from, direction, to);
        self.link(to, direction.opposite(), from);
    }

    /// The authored neighbour of `from` in `direction`, if any.
    pub fn get(&self, from: NodeHandle, direction: Direction) -> (r: Option<NodeHandle>)
        ensures
            r is Some <==> self@.contains_key((from@, direction)),
            r matches Some(to) ==> to@ == self@[(from@, direction)],
    {
        proof {
            use_type_invariant(self);
            lemma_links_map_lookup(self.links@);
        }
        let mut i: usize = 0;
        while i < self.links.len()
            invariant
                i <= self.links.len(),
                keys_unique(self.links@),
                forall|k: int|
                    0 <= k < i ==> (#[trigger] self.links@[k].0@, self.links@[k].1) != (from@, direction),
            decreases self.links.len() - i,
        {
            if self.links[i].0 == from && self.links[i].1 == direction {
                proof {
                    lemma_links_map_lookup(self.links@);
                    let e = self.links@[i as int];
                    assert(links_map(self.links@)[(e.0@, e.1)] == e.2@);
                    assert(links_map(self.links@).contains_key((e.0@, e.1)));
                }
                return Some(self.links[i].2);
            }
            i = i + 1;
        }
        None
    }

    /// Forget every link from or to `handle`.
    ///
    /// Called when a widget is removed: a link left pointing at a freed
    /// handle would send focus to whatever the pool allocates there next.
    pub fn forget(&mut self, handle: NodeHandle)
        ensures
            final(self)@ == links_without(old(self)@, handle@),
    {
        proof {
            use_type_invariant(&*self);
        }
        let ghost before = self.links@;
        let mut kept: Vec<(NodeHandle, Direction, NodeHandle)> = Vec::new();
        let mut i: usize = 0;
        while i < self.links.len()
            invariant
                i <= self.links.len(),
                self.links@ == before,
                kept@ == entries_without(before.take(i as int), handle@),
            decreases self.links.len() - i,
        {
            proof {
                assert(before.take(i as int + 1).drop_last() =~= before.take(i as int));
            }
            let entry = self.links[i];
            if !(entry.0 == handle) && !(entry.2 == handle) {
                kept.push(entry);
            }
            i = i + 1;
        }
        proof {
            assert(before.take(i as int) =~= before);
            lemma_links_map_without(before, handle@);
        }
        self.links = kept;
    }

    /// How many links are authored.
    pub fn len(&self) -> (n: usize)
        ensures
            n == self@.len(),
    {
        proof {
            use_type_invariant(self);
            lemma_links_map_lookup(self.links@);
        }
        self.links.len()
    }

    /// Whether nothing is authored.
    pub fn is_empty(&self) -> (b: bool)
        ensures
            b == (self@.len() == 0),
    {
        proof {
            use_type_invariant(self);
            lemma_links_map_lookup(self.links@);
        }
        self.links.len() == 0
    }
}

/// A link, once authored, is what `get` answers for its key, and every other
/// key keeps its answer: in particular a one-way link does not invent its
/// reverse.
pub proof fn lemma_link_then_get(
    m: Map<LinkKey, (u32, u32)>,
    from: (u32, u32),
    direction: Direction,
    to: (u32, u32),
    other: LinkKey,
)
    requires
        other != (from, direction),
    ensures
        m.insert((from, direction), to)[(from, direction)] == to,
        m.insert((from, direction), to).contains_key(other) == m.contains_key(other),
        m.contains_key(other) ==> m.insert((from, direction), to)[other] == m[other],
{
}

/// Linking both ways answers in both directions: `to` from `from` in
/// `direction`, and `from` from `to` in the opposite one.
pub proof fn lemma_link_both_creates_the_return_edge(
    m: Map<LinkKey, (u32, u32)>,
    from: (u32, u32),
    direction: Direction,
    to: (u32, u32),
)
    ensures
        ({
            let linked = m.insert((from, direction), to).insert(
                (to, direction.spec_opposite()),
                from,
            );
            &&& linked[(to, direction.spec_opposite())] == from
            &&& (to, direction.spec_opposite()) != (from, direction) ==> linked[(from, direction)] == to
        }),
{
}

/// After forgetting a widget no link starts or ends at it, and every link
/// that did neither survives unchanged.
pub proof fn lemma_forget_removes_both_roles(m: Map<LinkKey, (u32, u32)>, h: (u32, u32))
    ensures
        forall|k: LinkKey|
            #[trigger] links_without(m, h).contains_key(k) ==> k.0 != h && links_without(m, h)[k]
                != h,
        forall|k: LinkKey|
            m.contains_key(k) && k.0 != h && m[k] != h ==> #[trigger] links_without(m, h).contains_key(
                k,
            ) && links_without(m, h)[k] == m[k],
{
}

/// A navigable widget's score for one direction, as an integer ordered as
/// `f32::total_cmp` orders the score; `None` when the widget does not lie
/// in that direction.
pub type ScoreKey = Option<i32>;

/// The best-scored candidate other than `from`: the lowest key, the
/// earliest of equal keys; `None` when no other candidate lies that way.
pub open spec fn lowest_scored(from: (u32, u32), candidates: Seq<(NodeHandle, ScoreKey)>) -> Option<(i32, (u32, u32))>
    decreases candidates.len(),
{
    if candidates.len() == 0 {
        None
    } else {
        let rest = lowest_scored(from, candidates.drop_last());
        let (h, key) = candidates.last();
        if h@ == from {
            rest
        } else {
            match key {
                None => rest,
                Some(k) => match rest {
                    Some(best) => if k < best.0 {
                        Some((k, h@))
                    } else {
                        rest
                    },
                    None => Some((k, h@)),
                },
            }
        }
    }
}

/// The neighbour of `from` in `direction`: an authored link wins, even to
/// a widget that is not a candidate; otherwise the best-scored other
/// candidate, or none.
pub open spec fn neighbour(
    links: Map<LinkKey, (u32, u32)>,
    from: (u32, u32),
    direction: Direction,
    candidates: Seq<(NodeHandle, ScoreKey)>,
) -> Option<(u32, u32)> {
    if links.contains_key((from, direction)) {
        Some(links[(from, direction)])
    } else {
        match lowest_scored(from, candidates) {
            Some(best) => Some(best.1),
            None => None,
        }
    }
}

/// The best-scored candidate other than `from`, with its key.
fn best_scored(from: NodeHandle, candidates: &Vec<(NodeHandle, ScoreKey)>) -> (r: Option<(i32, NodeHandle)>)
    ensures
        match r {
            Some((k, h)) => lowest_scored(from@, candidates@) == Some((k, h@)),
            None => lowest_scored(from@, candidates@) is None,
        },
{
    let mut best: Option<(i32, NodeHandle)> = None;
    let mut i: usize = 0;
    while i < candidates.len()
        invariant
            i <= candidates@.len(),
            match best {
                Some((k, h)) => lowest_scored(from@, candidates@.take(i as int)) == Some((k, h@)),
                None => lowest_scored(from@, candidates@.take(i as int)) is None,
            },
        decreases candidates@.len() - i,
    {
        proof {
            assert(candidates@.take(i as int + 1).drop_last() =~= candidates@.take(i as int));
        }
        let (h, key) = candidates[i];
        if !(h == from) {
            match key {
                Some(k) => {
                    let better = match best {
                        Some((b, _)) => k < b,
                        None => true,
                    };
                    if better {
                        best = Some((k, h));
                    }
                },
                None => {},
            }
        }
        i = i + 1;
    }
    proof {
        assert(candidates@.take(i as int) =~= candidates@);
    }
    best
}

/// Pick the neighbour of `from` in `direction`, given each candidate's
/// score key. Authored links win; otherwise the lowest score wins, the
/// earliest of equals, or `None` when nothing lies that way.
pub fn navigate_scored(
    from: NodeHandle,
    candidates: &Vec<(NodeHandle, ScoreKey)>,
    direction: Direction,
    links: &NavLinks,
) -> (r: Option<NodeHandle>)
    ensures
        match r {
            Some(h) => neighbour(links@, from@, direction, candidates@) == Some(h@),
            None => neighbour(links@, from@, direction, candidates@) is None,
        },
{
    match links.get(from, direction) {
        Some(explicit) => Some(explicit),
        None => match best_scored(from, candidates) {
            Some((_, h)) => Some(h),
            None => None,
        },
    }
}

/// Where a widget sits, for reading order: its top, then its left, each as
/// an integer ordered as the coordinate is; `None` for a coordinate that is
/// not a number, which compares as equal to anything.
pub type ReadingKey = (Option<i32>, Option<i32>);

/// Whether `a` reads strictly after `b`: lower, or as high and further
/// right. A coordinate that is not a number decides nothing.
pub open spec fn reads_after(a: ReadingKey, b: ReadingKey) -> bool {
    match (a.0, b.0) {
        (Some(ay), Some(by)) => ay > by || (ay == by && match (a.1, b.1) {
            (Some(ax), Some(bx)) => ax > bx,
            _ => false,
        }),
        _ => false,
    }
}

/// The candidate that reads first, earliest of equals: each later one
/// replaces the current choice only when the choice reads after it.
pub open spec fn first_reading(candidates: Seq<(NodeHandle, ReadingKey)>) -> Option<((u32, u32), ReadingKey)>
    decreases candidates.len(),
{
    if candidates.len() == 0 {
        None
    } else {
        let (h, key) = candidates.last();
        match first_reading(candidates.drop_last()) {
            None => Some((h@, key)),
            Some(cur) => if reads_after(cur.1, key) {
                Some((h@, key))
            } else {
                Some(cur)
            },
        }
    }
}

fn reads_after_exec(a: ReadingKey, b: ReadingKey) -> (r: bool)
    ensures
        r == reads_after(a, b),
{
    match (a.0, b.0) {
        (Some(ay), Some(by)) => ay > by || (ay == by && match (a.1, b.1) {
            (Some(ax), Some(bx)) => ax > bx,
            _ => false,
        }),
        _ => false,
    }
}

/// Whether a widget at `key` reads no later than any candidate whose top is
/// known: no such candidate lies higher, and none as high lies further
/// left where both lefts are known. Nothing is claimed of a key whose top
/// is not a number.
pub open spec fn reads_first(key: ReadingKey, candidates: Seq<(NodeHandle, ReadingKey)>) -> bool {
    key.0 is Some ==> forall|k: int|
        0 <= k < candidates.len() && (#[trigger] candidates[k]).1.0 is Some ==> {
            &&& key.0->0 <= candidates[k].1.0->0
            &&& (key.0->0 == candidates[k].1.0->0 && key.1 is Some && candidates[k].1.1 is Some) ==> key.1->0
                <= candidates[k].1.1->0
        }
}

/// The first focus is one of the candidates, the earliest with its
/// position, and it reads first in row-major order: top before left, so a
/// widget higher up wins over one further left. With every position known,
/// the one chosen has a known position, so it is the top-left-most.
pub proof fn lemma_first_focus_reads_first(candidates: Seq<(NodeHandle, ReadingKey)>)
    ensures
        first_reading(candidates) is None <==> candidates.len() == 0,
        first_reading(candidates) matches Some(x) ==> {
            &&& exists|i: int|
                0 <= i < candidates.len() && candidates[i].0@ == x.0 && candidates[i].1 == x.1 && forall|k: int|
                    0 <= k < i ==> (#[trigger] candidates[k]).1 != x.1
            &&& reads_first(x.1, candidates)
            &&& (forall|k: int| 0 <= k < candidates.len() ==> (#[trigger] candidates[k]).1.0 is Some && candidates[k].1.1 is Some)
                ==> x.1.0 is Some && x.1.1 is Some
        },
    decreases candidates.len(),
{
    if candidates.len() == 0 {
        return;
    }
    let n = candidates.len() - 1;
    let init = candidates.drop_last();
    lemma_first_focus_reads_first(init);
    let last = candidates[n];
    assert(candidates.last() == last);
    assert forall|k: int| 0 <= k < init.len() implies #[trigger] init[k] == candidates[k] by {}
    match first_reading(init) {
        None => {
            assert(init.len() == 0);
            let x = first_reading(candidates)->0;
            assert(x == (last.0@, last.1));
        },
        Some(cur) => {
            let i0 = choose|i: int|
                0 <= i < init.len() && init[i].0@ == cur.0 && init[i].1 == cur.1 && forall|k: int|
                    0 <= k < i ==> (#[trigger] init[k]).1 != cur.1;
            if reads_after(cur.1, last.1) {
                let key = last.1;
                assert(first_reading(candidates) == Some((last.0@, key)));
                assert forall|k: int|
                    0 <= k < candidates.len() && (#[trigger] candidates[k]).1.0 is Some && key.0 is Some implies key.0->0
                        <= candidates[k].1.0->0 && ((key.0->0 == candidates[k].1.0->0 && key.1 is Some
                        && candidates[k].1.1 is Some) ==> key.1->0 <= candidates[k].1.1->0) by {
                    if k < n {
                        assert(init[k] == candidates[k]);
                        assert(cur.1.0 is Some);
                    }
                }
                assert forall|k: int| 0 <= k < n implies (#[trigger] candidates[k]).1 != key by {
                    assert(init[k] == candidates[k]);
                    if candidates[k].1 == key {
                        assert(cur.1.0 is Some);
                    }
                }
            } else {
                assert(first_reading(candidates) == Some(cur));
                assert(candidates[i0] == init[i0]);
                assert forall|k: int| 0 <= k < i0 implies (#[trigger] candidates[k]).1 != cur.1 by {
                    assert(init[k] == candidates[k]);
                }
                assert forall|k: int|
                    0 <= k < candidates.len() && (#[trigger] candidates[k]).1.0 is Some && cur.1.0 is Some implies cur.1.0->0
                        <= candidates[k].1.0->0 && ((cur.1.0->0 == candidates[k].1.0->0 && cur.1.1 is Some
                        && candidates[k].1.1 is Some) ==> cur.1.1->0 <= candidates[k].1.1->0) by {
                    if k < n {
                        assert(init[k] == candidates[k]);
                    }
                }
                if forall|k: int| 0 <= k < candidates.len() ==> (#[trigger] candidates[k]).1.0 is Some && candidates[k].1.1 is Some {
                    assert(candidates[i0].1.0 is Some);
                }
            }
        },
    }
}

/// The widget to focus when navigation starts with nothing focused: the
/// top-left-most, which is reading order in a left-to-right layout.
pub fn first_focus_keyed(candidates: &Vec<(NodeHandle, ReadingKey)>) -> (r: Option<NodeHandle>)
    ensures
        match r {
            Some(h) => first_reading(candidates@) matches Some(c) && c.0 == h@,
            None => candidates@.len() == 0,
        },
        r matches Some(h) ==> exists|i: int|
            0 <= i < candidates@.len() && candidates@[i].0@ == h@ && reads_first(candidates@[i].1, candidates@)
                && forall|k: int| 0 <= k < i ==> (#[trigger] candidates@[k]).1 != candidates@[i].1,
{
    proof {
        lemma_first_focus_reads_first(candidates@);
    }
    let mut best: Option<(NodeHandle, ReadingKey)> = None;
    let mut i: usize = 0;
    while i < candidates.len()
        invariant
            i <= candidates@.len(),
            match best {
                Some((h, k)) => first_reading(candidates@.take(i as int)) == Some((h@, k)),
                None => i == 0,
            },
        decreases candidates@.len() - i,
    {
        proof {
            assert(candidates@.take(i as int + 1).drop_last() =~= candidates@.take(i as int));
        }
        let (h, key) = candidates[i];
        best = match best {
            None => Some((h, key)),
            Some((bh, bk)) => if reads_after_exec(bk, key) {
                Some((h, key))
            } else {
                Some((bh, bk))
            },
        };
        i = i + 1;
    }
    proof {
        assert(candidates@.take(i as int) =~= candidates@);
    }
    match best {
        Some((h, _)) => Some(h),
        None => None,
    }
}

/// An authored link is always followed, whatever the candidates; with no
/// link, the chosen neighbour is another candidate whose key no other
/// candidate beats.
pub proof fn lemma_links_win_then_lowest_score(
    links: Map<LinkKey, (u32, u32)>,
    from: (u32, u32),
    direction: Direction,
    candidates: Seq<(NodeHandle, ScoreKey)>,
)
    ensures
        links.contains_key((from, direction)) ==> neighbour(links, from, direction, candidates) == Some(
            links[(from, direction)],
        ),
        !links.contains_key((from, direction)) ==> match lowest_scored(from, candidates) {
            Some(best) => {
                &&& neighbour(links, from, direction, candidates) == Some(best.1)
                &&& best.1 != from
                &&& exists|i: int|
                    0 <= i < candidates.len() && candidates[i].0@ == best.1 && candidates[i].1 == Some(best.0)
                &&& forall|i: int|
                    0 <= i < candidates.len() && candidates[i].0@ != from && candidates[i].1 is Some
                        ==> best.0 <= #[trigger] candidates[i].1->0
            },
            None => neighbour(links, from, direction, candidates) is None,
        },
{
    lemma_lowest_scored_is_lowest(from, candidates);
}

proof fn lemma_lowest_scored_is_lowest(from: (u32, u32), candidates: Seq<(NodeHandle, ScoreKey)>)
    ensures
        match lowest_scored(from, candidates) {
            Some(best) => {
                &&& best.1 != from
                &&& exists|i: int|
                    0 <= i < candidates.len() && candidates[i].0@ == best.1 && candidates[i].1 == Some(best.0)
                &&& forall|i: int|
                    0 <= i < candidates.len() && candidates[i].0@ != from && candidates[i].1 is Some
                        ==> best.0 <= #[trigger] candidates[i].1->0
            },
            None => forall|i: int|
                0 <= i < candidates.len() ==> candidates[i].0@ == from || #[trigger] candidates[i].1 is None,
        },
    decreases candidates.len(),
{
    if candidates.len() > 0 {
        let prefix = candidates.drop_last();
        lemma_lowest_scored_is_lowest(from, prefix);
        let n = candidates.len() - 1;
        assert forall|i: int| 0 <= i < n implies candidates[i] == #[trigger] prefix[i] by {}
        match lowest_scored(from, candidates) {
            Some(best) => {
                if lowest_scored(from, candidates) == lowest_scored(from, prefix) {
                    let j = choose|j: int|
                        0 <= j < prefix.len() && prefix[j].0@ == best.1 && prefix[j].1 == Some(best.0);
                    assert(candidates[j] == prefix[j]);
                } else {
                    assert(candidates[n].0@ == best.1 && candidates[n].1 == Some(best.0));
                }
                assert forall|i: int|
                    0 <= i < candidates.len() && candidates[i].0@ != from && candidates[i].1 is Some implies best.0
                    <= #[trigger] candidates[i].1->0 by {
                    if i < n {
                        assert(candidates[i] == prefix[i]);
                    }
                }
            },
            None => {
                assert forall|i: int| 0 <= i < candidates.len() implies candidates[i].0@ == from
                    || #[trigger] candidates[i].1 is None by {
                    if i < n {
                        assert(candidates[i] == prefix[i]);
                    }
                }
            },
        }
    }
}

} // verus!
