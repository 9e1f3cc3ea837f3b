//! Checking a timeline asset before it becomes a document.
//!
//! An asset arrives as JSON and is checked in a fixed order: its version,
//! its catalogue, its duration, that every id is non-zero and used once,
//! that groups name known parents and never contain themselves, that each
//! track's archetype, group and lanes are known to the catalogue, that each
//! clip sits on a known track in a kind that track accepts, that times lie
//! within the document, and that the next id to hand out is fresh. The
//! first failure is the answer.
//!
//! Reading the JSON and the floating-point tests on times and key values
//! happen where the asset is parsed; what they found reaches the checks
//! here as facts about each item.

use vstd::prelude::*;
use crate::text::compose::{decimal, Composer};
use crate::text::encoding::str_equals;

verus! {

/// The asset format version this library writes.
pub const TIMELINE_ASSET_VERSION: u32 = 1;

/// `serde_json::Error`, which a refused asset carries when its JSON did not
/// read. Nothing inside it is looked at.
#[verifier::external_type_specification]
#[verifier::external_body]
pub struct ExJsonError(serde_json::Error);

/// Why a timeline asset was refused.
#[derive(Debug)]
pub enum TimelineAssetError {
    Json(serde_json::Error),
    FutureVersion(u32),
    CatalogueMismatch { expected: String, found: String },
    DuplicateId(u32),
    UnknownGroup(u32),
    GroupCycle(u32),
    UnknownTrack(u32),
    UnknownArchetype(String),
    UnknownLane { track: u32, lane: String },
    UnsupportedMedia { track: u32, kind: String },
    InvalidDuration,
    InvalidTime,
    InvalidValue,
    InvalidNextId,
}

impl From<serde_json::Error> for TimelineAssetError {
    fn from(error: serde_json::Error) -> (e: Self) {
        TimelineAssetError::Json(error)
    }
}

impl vstd::std_specs::convert::FromSpecImpl<serde_json::Error> for TimelineAssetError {
    open spec fn obeys_from_spec() -> bool {
        true
    }

    open spec fn from_spec(error: serde_json::Error) -> Self {
        TimelineAssetError::Json(error)
    }
}

/// What `str`'s `Debug` makes of a text: the text in double quotes, with
/// quotes, backslashes and unprintable characters escaped.
pub uninterp spec fn debug_quoted(text: Seq<char>) -> Seq<char>;

/// `str`'s `Debug` formatting, through `format!`. The contract names its
/// result and says nothing of the escapes.
#[verifier::external_body]
fn debug_text(text: &str) -> (s: String)
    ensures
        s@ == debug_quoted(text@),
{
    format!("{:?}", text)
}

/// `serde_json::Error`'s `Display`, through `format!`. Nothing is stated of
/// the text, which describes where and why the JSON failed.
#[verifier::external_body]
fn json_error_text(error: &serde_json::Error) -> (s: String) {
    format!("{error}")
}

/// An asset error as a value; a JSON error is known only as one.
pub enum AssetErrorView {
    Json,
    FutureVersion(u32),
    CatalogueMismatch { expected: Seq<char>, found: Seq<char> },
    DuplicateId(u32),
    UnknownGroup(u32),
    GroupCycle(u32),
    UnknownTrack(u32),
    UnknownArchetype(Seq<char>),
    UnknownLane { track: u32, lane: Seq<char> },
    UnsupportedMedia { track: u32, kind: Seq<char> },
    InvalidDuration,
    InvalidTime,
    InvalidValue,
    InvalidNextId,
}

impl View for TimelineAssetError {
    type V = AssetErrorView;

    open spec fn view(&self) -> AssetErrorView {
        match self {
            TimelineAssetError::Json(_) => AssetErrorView::Json,
            TimelineAssetError::FutureVersion(v) => AssetErrorView::FutureVersion(*v),
            TimelineAssetError::CatalogueMismatch { expected, found } => AssetErrorView::CatalogueMismatch {
                expected: expected@,
                found: found@,
            },
            TimelineAssetError::DuplicateId(id) => AssetErrorView::DuplicateId(*id),
            TimelineAssetError::UnknownGroup(id) => AssetErrorView::UnknownGroup(*id),
            TimelineAssetError::GroupCycle(id) => AssetErrorView::GroupCycle(*id),
            TimelineAssetError::UnknownTrack(id) => AssetErrorView::UnknownTrack(*id),
            TimelineAssetError::UnknownArchetype(a) => AssetErrorView::UnknownArchetype(a@),
            TimelineAssetError::UnknownLane { track, lane } => AssetErrorView::UnknownLane {
                track: *track,
                lane: lane@,
            },
            TimelineAssetError::UnsupportedMedia { track, kind } => AssetErrorView::UnsupportedMedia {
                track: *track,
                kind: kind@,
            },
            TimelineAssetError::InvalidDuration => AssetErrorView::InvalidDuration,
            TimelineAssetError::InvalidTime => AssetErrorView::InvalidTime,
            TimelineAssetError::InvalidValue => AssetErrorView::InvalidValue,
            TimelineAssetError::InvalidNextId => AssetErrorView::InvalidNextId,
        }
    }
}

/// What an asset error says, but for a JSON error, whose text comes from
/// the JSON reader.
pub open spec fn asset_error_text(e: AssetErrorView) -> Seq<char> {
    let refused = "invalid timeline asset: "@;
    match e {
        AssetErrorView::Json => "invalid timeline JSON: "@,
        AssetErrorView::FutureVersion(v) => "timeline version "@ + decimal(v as nat) + " is newer than supported "@
            + decimal(TIMELINE_ASSET_VERSION as nat),
        AssetErrorView::CatalogueMismatch { expected, found } => "timeline catalogue is "@ + found + ", expected "@
            + expected,
        AssetErrorView::DuplicateId(id) => refused + "DuplicateId("@ + decimal(id as nat) + ")"@,
        AssetErrorView::UnknownGroup(id) => refused + "UnknownGroup("@ + decimal(id as nat) + ")"@,
        AssetErrorView::GroupCycle(id) => refused + "GroupCycle("@ + decimal(id as nat) + ")"@,
        AssetErrorView::UnknownTrack(id) => refused + "UnknownTrack("@ + decimal(id as nat) + ")"@,
        AssetErrorView::UnknownArchetype(a) => refused + "UnknownArchetype("@ + debug_quoted(a) + ")"@,
        AssetErrorView::UnknownLane { track, lane } => refused + "UnknownLane { track: "@ + decimal(track as nat)
            + ", lane: "@ + debug_quoted(lane) + " }"@,
        AssetErrorView::UnsupportedMedia { track, kind } => refused + "UnsupportedMedia { track: "@ + decimal(
            track as nat,
        ) + ", kind: "@ + debug_quoted(kind) + " }"@,
        AssetErrorView::InvalidDuration => refused + "InvalidDuration"@,
        AssetErrorView::InvalidTime => refused + "InvalidTime"@,
        AssetErrorView::InvalidValue => refused + "InvalidValue"@,
        AssetErrorView::InvalidNextId => refused + "InvalidNextId"@,
    }
}

impl TimelineAssetError {
    /// What is wrong with the asset, for people. A JSON error's text
    /// follows the common opening from the JSON reader.
    pub fn message(&self) -> (s: String)
        ensures
            !(self is Json) ==> s@ == asset_error_text(self@),
            self is Json ==> s@.len() >= asset_error_text(self@).len() && s@.take(
                asset_error_text(self@).len() as int,
            ) == asset_error_text(self@),
    {
        let refused = "invalid timeline asset: ";
        let start = Composer::new();
        assert(Seq::<char>::empty() + refused@ =~= refused@);
        let c = match self {
            TimelineAssetError::Json(error) => {
                let detail = json_error_text(error);
                assert(Seq::<char>::empty() + "invalid timeline JSON: "@ =~= "invalid timeline JSON: "@);
                let c = start.push_str("invalid timeline JSON: ").push_str(detail.as_str());
                assert(c@.take("invalid timeline JSON: "@.len() as int) =~= "invalid timeline JSON: "@);
                c
            },
            TimelineAssetError::FutureVersion(v) => {
                assert(Seq::<char>::empty() + "timeline version "@ =~= "timeline version "@);
                start.push_str("timeline version ").push_number(*v as u64).push_str(" is newer than supported ").push_number(
                    TIMELINE_ASSET_VERSION as u64,
                )
            },
            TimelineAssetError::CatalogueMismatch { expected, found } => {
                assert(Seq::<char>::empty() + "timeline catalogue is "@ =~= "timeline catalogue is "@);
                start.push_str("timeline catalogue is ").push_str(found.as_str()).push_str(", expected ").push_str(
                    expected.as_str(),
                )
            },
            TimelineAssetError::DuplicateId(id) => start.push_str(refused).push_str("DuplicateId(").push_number(
                *id as u64,
            ).push_str(")"),
            TimelineAssetError::UnknownGroup(id) => start.push_str(refused).push_str("UnknownGroup(").push_number(
                *id as u64,
            ).push_str(")"),
            TimelineAssetError::GroupCycle(id) => start.push_str(refused).push_str("GroupCycle(").push_number(
                *id as u64,
            ).push_str(")"),
            TimelineAssetError::UnknownTrack(id) => start.push_str(refused).push_str("UnknownTrack(").push_number(
                *id as u64,
            ).push_str(")"),
            TimelineAssetError::UnknownArchetype(a) => {
                let quoted = debug_text(a.as_str());
                start.push_str(refused).push_str("UnknownArchetype(").push_str(quoted.as_str()).push_str(")")
            },
            TimelineAssetError::UnknownLane { track, lane } => {
                let quoted = debug_text(lane.as_str());
                start.push_str(refused).push_str("UnknownLane { track: ").push_number(*track as u64).push_str(
                    ", lane: ",
                ).push_str(quoted.as_str()).push_str(" }")
            },
            TimelineAssetError::UnsupportedMedia { track, kind } => {
                let quoted = debug_text(kind.as_str());
                start.push_str(refused).push_str("UnsupportedMedia { track: ").push_number(*track as u64).push_str(
                    ", kind: ",
                ).push_str(quoted.as_str()).push_str(" }")
            },
            TimelineAssetError::InvalidDuration => start.push_str(refused).push_str("InvalidDuration"),
            TimelineAssetError::InvalidTime => start.push_str(refused).push_str("InvalidTime"),
            TimelineAssetError::InvalidValue => start.push_str(refused).push_str("InvalidValue"),
            TimelineAssetError::InvalidNextId => start.push_str(refused).push_str("InvalidNextId"),
        };
        c.finish()
    }
}

// ---------------------------------------------------------------------------
// What the checks read
// ---------------------------------------------------------------------------

/// A group of the asset: its id and the id of its parent, if any.
#[derive(Clone, Copy, Debug, PartialEq, Eq, Structural)]
pub struct GroupFacts {
    pub id: u32,
    pub parent: Option<u32>,
}

/// A channel of a track: the lane it animates, and whether every key's
/// time and values are finite and its time lies within the document.
#[derive(Clone, Debug)]
pub struct ChannelFacts {
    pub lane: String,
    pub keys_valid: bool,
}

/// A track of the asset.
#[derive(Clone, Debug)]
pub struct TrackFacts {
    pub id: u32,
    pub archetype: String,
    pub group: Option<u32>,
    pub channels: Vec<ChannelFacts>,
}

/// A media clip of the asset, and whether its start and length are finite
/// and it lies within the document.
#[derive(Clone, Debug)]
pub struct MediaFacts {
    pub id: u32,
    pub track: u32,
    pub kind: String,
    pub time_valid: bool,
}

/// A marker of the asset, and whether its time is finite and within the
/// document.
#[derive(Clone, Copy, Debug, PartialEq, Eq, Structural)]
pub struct MarkerFacts {
    pub id: u32,
    pub time_valid: bool,
}

/// What the checks read of an asset.
#[derive(Clone, Debug)]
pub struct AssetFacts {
    pub version: u32,
    pub catalogue: String,
    /// Whether the duration is finite and positive.
    pub duration_valid: bool,
    pub next_id: Option<u32>,
    pub groups: Vec<GroupFacts>,
    pub tracks: Vec<TrackFacts>,
    pub media: Vec<MediaFacts>,
    pub markers: Vec<MarkerFacts>,
}

/// A track archetype of the catalogue: its id, the ids of its lanes, and
/// the media kinds it accepts.
#[derive(Clone, Debug)]
pub struct ArchetypeFacts {
    pub id: String,
    pub lanes: Vec<String>,
    pub media: Vec<String>,
}

/// What the checks read of the catalogue the asset is loaded against.
#[derive(Clone, Debug)]
pub struct CatalogueFacts {
    pub id: String,
    pub archetypes: Vec<ArchetypeFacts>,
}

/// A channel, with its lane as text.
pub struct ChannelView {
    pub lane: Seq<char>,
    pub keys_valid: bool,
}

/// A track, with its texts as character sequences.
pub struct TrackView {
    pub id: u32,
    pub archetype: Seq<char>,
    pub group: Option<u32>,
    pub channels: Seq<ChannelView>,
}

/// A clip, with its kind as text.
pub struct MediaView {
    pub id: u32,
    pub track: u32,
    pub kind: Seq<char>,
    pub time_valid: bool,
}

/// An asset as the checks read it.
pub struct AssetView {
    pub version: u32,
    pub catalogue: Seq<char>,
    pub duration_valid: bool,
    pub next_id: Option<u32>,
    pub groups: Seq<GroupFacts>,
    pub tracks: Seq<TrackView>,
    pub media: Seq<MediaView>,
    pub markers: Seq<MarkerFacts>,
}

/// An archetype, with its ids as texts.
pub struct ArchetypeView {
    pub id: Seq<char>,
    pub lanes: Seq<Seq<char>>,
    pub media: Seq<Seq<char>>,
}

/// A catalogue as the checks read it.
pub struct CatalogueView {
    pub id: Seq<char>,
    pub archetypes: Seq<ArchetypeView>,
}

impl View for ChannelFacts {
    type V = ChannelView;

    open spec fn view(&self) -> ChannelView {
        ChannelView { lane: self.lane@, keys_valid: self.keys_valid }
    }
}

impl View for TrackFacts {
    type V = TrackView;

    open spec fn view(&self) -> TrackView {
        TrackView {
            id: self.id,
            archetype: self.archetype@,
            group: self.group,
            channels: self.channels@.map_values(|c: ChannelFacts| c@),
        }
    }
}

impl View for MediaFacts {
    type V = MediaView;

    open spec fn view(&self) -> MediaView {
        MediaView { id: self.id, track: self.track, kind: self.kind@, time_valid: self.time_valid }
    }
}

impl View for AssetFacts {
    type V = AssetView;

    open spec fn view(&self) -> AssetView {
        AssetView {
            version: self.version,
            catalogue: self.catalogue@,
            duration_valid: self.duration_valid,
            next_id: self.next_id,
            groups: self.groups@,
            tracks: self.tracks@.map_values(|t: TrackFacts| t@),
            media: self.media@.map_values(|m: MediaFacts| m@),
            markers: self.markers@,
        }
    }
}

impl View for ArchetypeFacts {
    type V = ArchetypeView;

    open spec fn view(&self) -> ArchetypeView {
        ArchetypeView {
            id: self.id@,
            lanes: self.lanes@.map_values(|l: String| l@),
            media: self.media@.map_values(|m: String| m@),
        }
    }
}

impl View for CatalogueFacts {
    type V = CatalogueView;

    open spec fn view(&self) -> CatalogueView {
        CatalogueView { id: self.id@, archetypes: self.archetypes@.map_values(|a: ArchetypeFacts| a@) }
    }
}

// ---------------------------------------------------------------------------
// The checks, as values
// ---------------------------------------------------------------------------

/// `first` if there is one, else `then`.
pub open spec fn or_else(first: Option<AssetErrorView>, then: Option<AssetErrorView>) -> Option<AssetErrorView> {
    if first is Some {
        first
    } else {
        then
    }
}

/// Every id of the asset: groups first, then tracks, clips and markers.
pub open spec fn asset_ids(a: AssetView) -> Seq<u32> {
    a.groups.map_values(|g: GroupFacts| g.id) + a.tracks.map_values(|t: TrackView| t.id) + a.media.map_values(
        |m: MediaView| m.id,
    ) + a.markers.map_values(|m: MarkerFacts| m.id)
}

/// The id at `k` is zero or was used earlier.
pub open spec fn id_error(ids: Seq<u32>, k: int) -> Option<AssetErrorView> {
    if ids[k] == 0 || ids.take(k).contains(ids[k]) {
        Some(AssetErrorView::DuplicateId(ids[k]))
    } else {
        None
    }
}

/// The first refused id among the first `n`.
pub open spec fn id_errors(ids: Seq<u32>, n: int) -> Option<AssetErrorView>
    decreases n,
{
    if n <= 0 {
        None
    } else {
        or_else(id_errors(ids, n - 1), id_error(ids, n - 1))
    }
}

/// Whether some group has `id`.
pub open spec fn has_group(groups: Seq<GroupFacts>, id: u32) -> bool {
    exists|j: int| 0 <= j < groups.len() && groups[j].id == id
}

/// The parent of the first group with `id`; `None` when there is no such
/// group or it has no parent.
pub open spec fn parent_of(groups: Seq<GroupFacts>, id: u32) -> Option<u32>
    decreases groups.len(),
{
    if groups.len() == 0 {
        None
    } else if groups[0].id == id {
        groups[0].parent
    } else {
        parent_of(groups.drop_first(), id)
    }
}

/// Walking up the parents from `cursor`, with `visited` seen already:
/// whether the walk meets the group `id` or a group it passed, within
/// `fuel` more steps. The walk meets only parents, so as many steps as
/// there are groups decide it.
pub open spec fn climbs_into_cycle(groups: Seq<GroupFacts>, id: u32, cursor: Option<u32>, visited: Seq<u32>, fuel: nat) -> bool
    decreases fuel,
{
    match cursor {
        None => false,
        Some(x) => if visited.contains(x) || x == id {
            true
        } else if fuel == 0 {
            false
        } else {
            climbs_into_cycle(groups, id, parent_of(groups, x), visited.push(x), (fuel - 1) as nat)
        },
    }
}

/// The group at `i` names an unknown parent, or sits inside itself.
pub open spec fn group_error(groups: Seq<GroupFacts>, i: int) -> Option<AssetErrorView> {
    let g = groups[i];
    if g.parent is Some && !has_group(groups, g.parent->0) {
        Some(AssetErrorView::UnknownGroup(g.parent->0))
    } else if climbs_into_cycle(groups, g.id, g.parent, Seq::empty(), groups.len()) {
        Some(AssetErrorView::GroupCycle(g.id))
    } else {
        None
    }
}

/// The first group error among the first `n` groups.
pub open spec fn group_errors(groups: Seq<GroupFacts>, n: int) -> Option<AssetErrorView>
    decreases n,
{
    if n <= 0 {
        None
    } else {
        or_else(group_errors(groups, n - 1), group_error(groups, n - 1))
    }
}

/// The first archetype of the catalogue with `id`.
pub open spec fn find_archetype(archetypes: Seq<ArchetypeView>, id: Seq<char>) -> Option<ArchetypeView>
    decreases archetypes.len(),
{
    if archetypes.len() == 0 {
        None
    } else if archetypes[0].id == id {
        Some(archetypes[0])
    } else {
        find_archetype(archetypes.drop_first(), id)
    }
}

/// The channel at `m` repeats an earlier lane or animates one the schema
/// lacks, or holds a bad key.
pub open spec fn channel_error(t: TrackView, schema: ArchetypeView, m: int) -> Option<AssetErrorView> {
    let ch = t.channels[m];
    if (exists|j: int| 0 <= j < m && t.channels[j].lane == ch.lane) || !schema.lanes.contains(ch.lane) {
        Some(AssetErrorView::UnknownLane { track: t.id, lane: ch.lane })
    } else if !ch.keys_valid {
        Some(AssetErrorView::InvalidValue)
    } else {
        None
    }
}

/// The first channel error among the first `n` channels of `t`.
pub open spec fn channel_errors(t: TrackView, schema: ArchetypeView, n: int) -> Option<AssetErrorView>
    decreases n,
{
    if n <= 0 {
        None
    } else {
        or_else(channel_errors(t, schema, n - 1), channel_error(t, schema, n - 1))
    }
}

/// The track at `i` has an archetype the catalogue lacks, an unknown group,
/// or a bad channel.
pub open spec fn track_error(a: AssetView, c: CatalogueView, i: int) -> Option<AssetErrorView> {
    let t = a.tracks[i];
    match find_archetype(c.archetypes, t.archetype) {
        None => Some(AssetErrorView::UnknownArchetype(t.archetype)),
        Some(schema) => if t.group is Some && !has_group(a.groups, t.group->0) {
            Some(AssetErrorView::UnknownGroup(t.group->0))
        } else {
            channel_errors(t, schema, t.channels.len() as int)
        },
    }
}

/// The first track error among the first `n` tracks.
pub open spec fn track_errors(a: AssetView, c: CatalogueView, n: int) -> Option<AssetErrorView>
    decreases n,
{
    if n <= 0 {
        None
    } else {
        or_else(track_errors(a, c, n - 1), track_error(a, c, n - 1))
    }
}

/// The first track with `id`.
pub open spec fn find_track(tracks: Seq<TrackView>, id: u32) -> Option<TrackView>
    decreases tracks.len(),
{
    if tracks.len() == 0 {
        None
    } else if tracks[0].id == id {
        Some(tracks[0])
    } else {
        find_track(tracks.drop_first(), id)
    }
}

/// The clip at `i` sits on an unknown track, is of a kind its track does
/// not accept, or lies outside the document.
pub open spec fn media_error(a: AssetView, c: CatalogueView, i: int) -> Option<AssetErrorView> {
    let m = a.media[i];
    match find_track(a.tracks, m.track) {
        None => Some(AssetErrorView::UnknownTrack(m.track)),
        Some(t) => match find_archetype(c.archetypes, t.archetype) {
            None => Some(AssetErrorView::UnknownArchetype(t.archetype)),
            Some(schema) => if !schema.media.contains(m.kind) {
                Some(AssetErrorView::UnsupportedMedia { track: m.track, kind: m.kind })
            } else if !m.time_valid {
                Some(AssetErrorView::InvalidTime)
            } else {
                None
            },
        },
    }
}

/// The first clip error among the first `n` clips.
pub open spec fn media_errors(a: AssetView, c: CatalogueView, n: int) -> Option<AssetErrorView>
    decreases n,
{
    if n <= 0 {
        None
    } else {
        or_else(media_errors(a, c, n - 1), media_error(a, c, n - 1))
    }
}

/// The first marker outside the document among the first `n`.
pub open spec fn marker_errors(markers: Seq<MarkerFacts>, n: int) -> Option<AssetErrorView>
    decreases n,
{
    if n <= 0 {
        None
    } else {
        or_else(
            marker_errors(markers, n - 1),
            if markers[n - 1].time_valid {
                None
            } else {
                Some(AssetErrorView::InvalidTime)
            },
        )
    }
}

/// The largest id, or 0 with none.
pub open spec fn max_id(ids: Seq<u32>) -> u32
    decreases ids.len(),
{
    if ids.len() == 0 {
        0
    } else if ids.last() > max_id(ids.drop_last()) {
        ids.last()
    } else {
        max_id(ids.drop_last())
    }
}

/// The next id the document will hand out: the asset's own, or one past
/// the largest id (saturating).
pub open spec fn next_id_for(a: AssetView) -> u32 {
    let m = max_id(asset_ids(a));
    match a.next_id {
        Some(n) => n,
        None => if m == u32::MAX {
            m
        } else {
            (m + 1) as u32
        },
    }
}

/// Why the asset is refused, by the first check it fails; `None` when it
/// passes them all.
pub open spec fn asset_error(a: AssetView, c: CatalogueView) -> Option<AssetErrorView> {
    let ids = asset_ids(a);
    if a.version != 0 && a.version != TIMELINE_ASSET_VERSION {
        Some(AssetErrorView::FutureVersion(a.version))
    } else if a.catalogue != c.id {
        Some(AssetErrorView::CatalogueMismatch { expected: c.id, found: a.catalogue })
    } else if !a.duration_valid {
        Some(AssetErrorView::InvalidDuration)
    } else {
        or_else(
            id_errors(ids, ids.len() as int),
            or_else(
                group_errors(a.groups, a.groups.len() as int),
                or_else(
                    track_errors(a, c, a.tracks.len() as int),
                    or_else(
                        media_errors(a, c, a.media.len() as int),
                        or_else(
                            marker_errors(a.markers, a.markers.len() as int),
                            if next_id_for(a) <= max_id(ids) || next_id_for(a) == 0 {
                                Some(AssetErrorView::InvalidNextId)
                            } else {
                                None
                            },
                        ),
                    ),
                ),
            ),
        )
    }
}

/// The first id error, once found, stays the first.
proof fn lemma_id_errors_settle(ids: Seq<u32>, n: int, m: int)
    requires
        0 <= n <= m,
        id_errors(ids, n) is Some,
    ensures
        id_errors(ids, m) == id_errors(ids, n),
    decreases m - n,
{
    if m > n {
        lemma_id_errors_settle(ids, n, m - 1);
    }
}

/// The first group error, once found, stays the first.
proof fn lemma_group_errors_settle(groups: Seq<GroupFacts>, n: int, m: int)
    requires
        0 <= n <= m,
        group_errors(groups, n) is Some,
    ensures
        group_errors(groups, m) == group_errors(groups, n),
    decreases m - n,
{
    if m > n {
        lemma_group_errors_settle(groups, n, m - 1);
    }
}

/// The first channel error, once found, stays the first.
proof fn lemma_channel_errors_settle(t: TrackView, schema: ArchetypeView, n: int, m: int)
    requires
        0 <= n <= m,
        channel_errors(t, schema, n) is Some,
    ensures
        channel_errors(t, schema, m) == channel_errors(t, schema, n),
    decreases m - n,
{
    if m > n {
        lemma_channel_errors_settle(t, schema, n, m - 1);
    }
}

/// The first track error, once found, stays the first.
proof fn lemma_track_errors_settle(a: AssetView, c: CatalogueView, n: int, m: int)
    requires
        0 <= n <= m,
        track_errors(a, c, n) is Some,
    ensures
        track_errors(a, c, m) == track_errors(a, c, n),
    decreases m - n,
{
    if m > n {
        lemma_track_errors_settle(a, c, n, m - 1);
    }
}

/// The first clip error, once found, stays the first.
proof fn lemma_media_errors_settle(a: AssetView, c: CatalogueView, n: int, m: int)
    requires
        0 <= n <= m,
        media_errors(a, c, n) is Some,
    ensures
        media_errors(a, c, m) == media_errors(a, c, n),
    decreases m - n,
{
    if m > n {
        lemma_media_errors_settle(a, c, n, m - 1);
    }
}

/// The first marker error, once found, stays the first.
proof fn lemma_marker_errors_settle(markers: Seq<MarkerFacts>, n: int, m: int)
    requires
        0 <= n <= m,
        marker_errors(markers, n) is Some,
    ensures
        marker_errors(markers, m) == marker_errors(markers, n),
    decreases m - n,
{
    if m > n {
        lemma_marker_errors_settle(markers, n, m - 1);
    }
}

/// Each group's parent id, with 0 standing in for none.
pub open spec fn parent_values(groups: Seq<GroupFacts>) -> Seq<u32> {
    groups.map_values(|g: GroupFacts| if g.parent is Some { g.parent->0 } else { 0 })
}

/// A parent found by id is the parent of some group.
proof fn lemma_parent_of_is_a_parent(groups: Seq<GroupFacts>, id: u32)
    ensures
        parent_of(groups, id) is Some ==> parent_values(groups).contains(parent_of(groups, id)->0),
    decreases groups.len(),
{
    if groups.len() > 0 {
        if groups[0].id == id {
            if groups[0].parent is Some {
                assert(parent_values(groups)[0] == groups[0].parent->0);
            }
        } else {
            lemma_parent_of_is_a_parent(groups.drop_first(), id);
            if parent_of(groups, id) is Some {
                let x = parent_of(groups, id)->0;
                let w = choose|w: int| 0 <= w < parent_values(groups.drop_first()).len() && parent_values(groups.drop_first())[w] == x;
                assert(parent_values(groups)[w + 1] == x);
            }
        }
    }
}

/// While the walk has met only parents, each once, it cannot outlast its
/// steps: any further steps give the same answer.
proof fn lemma_walk_has_steps_enough(
    groups: Seq<GroupFacts>,
    id: u32,
    cursor: Option<u32>,
    visited: Seq<u32>,
    fuel: nat,
    extra: nat,
)
    requires
        visited.no_duplicates(),
        forall|k: int| 0 <= k < visited.len() ==> parent_values(groups).contains(#[trigger] visited[k]),
        cursor is Some ==> parent_values(groups).contains(cursor->0),
        visited.len() + fuel >= groups.len(),
    ensures
        climbs_into_cycle(groups, id, cursor, visited, fuel) == climbs_into_cycle(groups, id, cursor, visited, fuel + extra),
    decreases fuel,
{
    match cursor {
        None => {},
        Some(x) => {
            if visited.contains(x) || x == id {
            } else if fuel == 0 {
                let w = visited.push(x);
                assert(w.no_duplicates());
                w.unique_seq_to_set();
                parent_values(groups).lemma_cardinality_of_set();
                assert(w.to_set().subset_of(parent_values(groups).to_set()));
                vstd::set_lib::lemma_len_subset(w.to_set(), parent_values(groups).to_set());
                assert(false);
            } else {
                lemma_parent_of_is_a_parent(groups, x);
                let w = visited.push(x);
                assert forall|k: int| 0 <= k < w.len() implies parent_values(groups).contains(#[trigger] w[k]) by {
                    if k < visited.len() {
                        assert(w[k] == visited[k]);
                    }
                }
                lemma_walk_has_steps_enough(groups, id, parent_of(groups, x), w, (fuel - 1) as nat, extra);
                assert((fuel + extra - 1) as nat == (fuel - 1) as nat + extra);
            }
        },
    }
}

/// The walk up from a group's parent is decided within as many steps as
/// there are groups: more steps never change whether it finds a cycle.
pub proof fn lemma_cycle_walk_is_decided(groups: Seq<GroupFacts>, i: int, extra: nat)
    requires
        0 <= i < groups.len(),
    ensures
        climbs_into_cycle(groups, groups[i].id, groups[i].parent, Seq::empty(), groups.len())
            == climbs_into_cycle(groups, groups[i].id, groups[i].parent, Seq::empty(), groups.len() + extra),
{
    if groups[i].parent is Some {
        assert(parent_values(groups)[i] == groups[i].parent->0);
    }
    lemma_walk_has_steps_enough(groups, groups[i].id, groups[i].parent, Seq::empty(), groups.len(), extra);
}

/// No id error among the first `n` means none at any of them.
proof fn lemma_no_id_errors(ids: Seq<u32>, n: int, k: int)
    requires
        0 <= k < n,
        id_errors(ids, n) is None,
    ensures
        id_error(ids, k) is None,
    decreases n,
{
    if k < n - 1 {
        lemma_no_id_errors(ids, n - 1, k);
    }
}

/// No group error among the first `n` means none at any of them.
proof fn lemma_no_group_errors(groups: Seq<GroupFacts>, n: int, k: int)
    requires
        0 <= k < n,
        group_errors(groups, n) is None,
    ensures
        group_error(groups, k) is None,
    decreases n,
{
    if k < n - 1 {
        lemma_no_group_errors(groups, n - 1, k);
    }
}

/// The largest id is at least every id.
proof fn lemma_max_id_bounds(ids: Seq<u32>, k: int)
    requires
        0 <= k < ids.len(),
    ensures
        ids[k] <= max_id(ids),
    decreases ids.len(),
{
    if k < ids.len() - 1 {
        lemma_max_id_bounds(ids.drop_last(), k);
    }
}

/// What an accepted asset is: every id non-zero and used once, every
/// group's parent a known group and no group its own ancestor, and the
/// next id to hand out above every id in use.
pub proof fn lemma_accepted_assets_are_sound(a: AssetView, c: CatalogueView)
    requires
        asset_error(a, c) is None,
    ensures
        forall|k: int| 0 <= k < asset_ids(a).len() ==> #[trigger] asset_ids(a)[k] != 0,
        forall|j: int, k: int|
            0 <= j < k < asset_ids(a).len() ==> #[trigger] asset_ids(a)[j] != #[trigger] asset_ids(a)[k],
        forall|i: int|
            0 <= i < a.groups.len() && (#[trigger] a.groups[i]).parent is Some ==> has_group(
                a.groups,
                a.groups[i].parent->0,
            ),
        forall|i: int|
            0 <= i < a.groups.len() ==> !climbs_into_cycle(
                a.groups,
                (#[trigger] a.groups[i]).id,
                a.groups[i].parent,
                Seq::empty(),
                a.groups.len(),
            ),
        forall|k: int| 0 <= k < asset_ids(a).len() ==> #[trigger] asset_ids(a)[k] < next_id_for(a),
{
    let ids = asset_ids(a);
    assert forall|k: int| 0 <= k < ids.len() implies #[trigger] ids[k] != 0 && ids[k] < next_id_for(a) by {
        lemma_no_id_errors(ids, ids.len() as int, k);
        lemma_max_id_bounds(ids, k);
    }
    assert forall|j: int, k: int| 0 <= j < k < ids.len() implies #[trigger] ids[j] != #[trigger] ids[k] by {
        lemma_no_id_errors(ids, ids.len() as int, k);
        assert(ids.take(k)[j] == ids[j]);
    }
    assert forall|i: int| 0 <= i < a.groups.len() implies ((#[trigger] a.groups[i]).parent is Some ==> has_group(
        a.groups,
        a.groups[i].parent->0,
    )) && !climbs_into_cycle(a.groups, a.groups[i].id, a.groups[i].parent, Seq::empty(), a.groups.len()) by {
        lemma_no_group_errors(a.groups, a.groups.len() as int, i);
    }
}

// ---------------------------------------------------------------------------
// The checks, executed
// ---------------------------------------------------------------------------

/// Every id of the asset, in check order.
fn collect_ids(a: &AssetFacts) -> (ids: Vec<u32>)
    ensures
        ids@ == asset_ids(a@),
{
    let mut ids: Vec<u32> = Vec::new();
    let mut i: usize = 0;
    while i < a.groups.len()
        invariant
            i <= a.groups@.len(),
            ids@ == a@.groups.map_values(|g: GroupFacts| g.id).take(i as int),
        decreases a.groups@.len() - i,
    {
        ids.push(a.groups[i].id);
        assert(a@.groups.map_values(|g: GroupFacts| g.id).take(i + 1) =~= ids@);
        i = i + 1;
    }
    assert(a@.groups.map_values(|g: GroupFacts| g.id).take(i as int) =~= a@.groups.map_values(|g: GroupFacts| g.id));
    let ghost base = ids@;
    let mut i: usize = 0;
    while i < a.tracks.len()
        invariant
            i <= a.tracks@.len(),
            ids@ == base + a@.tracks.map_values(|t: TrackView| t.id).take(i as int),
        decreases a.tracks@.len() - i,
    {
        ids.push(a.tracks[i].id);
        assert(base + a@.tracks.map_values(|t: TrackView| t.id).take(i + 1) =~= ids@);
        i = i + 1;
    }
    assert(a@.tracks.map_values(|t: TrackView| t.id).take(i as int) =~= a@.tracks.map_values(|t: TrackView| t.id));
    let ghost base = ids@;
    let mut i: usize = 0;
    while i < a.media.len()
        invariant
            i <= a.media@.len(),
            ids@ == base + a@.media.map_values(|m: MediaView| m.id).take(i as int),
        decreases a.media@.len() - i,
    {
        ids.push(a.media[i].id);
        assert(base + a@.media.map_values(|m: MediaView| m.id).take(i + 1) =~= ids@);
        i = i + 1;
    }
    assert(a@.media.map_values(|m: MediaView| m.id).take(i as int) =~= a@.media.map_values(|m: MediaView| m.id));
    let ghost base = ids@;
    let mut i: usize = 0;
    while i < a.markers.len()
        invariant
            i <= a.markers@.len(),
            ids@ == base + a@.markers.map_values(|m: MarkerFacts| m.id).take(i as int),
        decreases a.markers@.len() - i,
    {
        ids.push(a.markers[i].id);
        assert(base + a@.markers.map_values(|m: MarkerFacts| m.id).take(i + 1) =~= ids@);
        i = i + 1;
    }
    assert(a@.markers.map_values(|m: MarkerFacts| m.id).take(i as int) =~= a@.markers.map_values(
        |m: MarkerFacts| m.id,
    ));
    ids
}

/// The first id that is zero or used twice.
fn check_ids(ids: &Vec<u32>) -> (r: Option<u32>)
    ensures
        id_errors(ids@, ids@.len() as int) == match r {
            Some(id) => Some(AssetErrorView::DuplicateId(id)),
            None => None,
        },
{
    let mut k: usize = 0;
    while k < ids.len()
        invariant
            k <= ids@.len(),
            id_errors(ids@, k as int) is None,
        decreases ids@.len() - k,
    {
        let id = ids[k];
        let mut seen = id == 0;
        let mut j: usize = 0;
        while j < k && !seen
            invariant
                j <= k < ids@.len(),
                !seen ==> id != 0 && forall|w: int| 0 <= w < j ==> ids@[w] != id,
                seen ==> id == 0 || exists|w: int| 0 <= w < k && ids@[w] == id,
            decreases k - j,
        {
            if ids[j] == id {
                seen = true;
            }
            j = j + 1;
        }
        proof {
            if seen && id != 0 {
                let w = choose|w: int| 0 <= w < k && ids@[w] == id;
                assert(ids@.take(k as int)[w] == id);
            }
            if !seen {
                assert(j == k);
                assert forall|w: int| 0 <= w < k implies ids@.take(k as int)[w] != id by {
                    assert(ids@.take(k as int)[w] == ids@[w]);
                }
            }
            assert(ids@.take(k + 1).drop_last() =~= ids@.take(k as int));
        }
        if seen {
            proof {
                lemma_id_errors_settle(ids@, k + 1, ids@.len() as int);
            }
            return Some(id);
        }
        k = k + 1;
    }
    None
}

/// Whether `values` holds `x`.
fn holds(values: &Vec<u32>, x: u32) -> (b: bool)
    ensures
        b == values@.contains(x),
{
    let mut j: usize = 0;
    while j < values.len()
        invariant
            j <= values@.len(),
            forall|w: int| 0 <= w < j ==> values@[w] != x,
        decreases values@.len() - j,
    {
        if values[j] == x {
            assert(values@[j as int] == x);
            return true;
        }
        j = j + 1;
    }
    false
}

/// Whether some group has `id`.
fn has_group_exec(groups: &Vec<GroupFacts>, id: u32) -> (b: bool)
    ensures
        b == has_group(groups@, id),
{
    let mut j: usize = 0;
    while j < groups.len()
        invariant
            j <= groups@.len(),
            forall|w: int| 0 <= w < j ==> groups@[w].id != id,
        decreases groups@.len() - j,
    {
        if groups[j].id == id {
            return true;
        }
        j = j + 1;
    }
    false
}

/// Looking for `id` from `j` on is looking for it in the rest.
proof fn lemma_parent_of_skip(groups: Seq<GroupFacts>, id: u32, j: int)
    requires
        0 <= j < groups.len(),
    ensures
        parent_of(groups.skip(j), id) == if groups[j].id == id {
            groups[j].parent
        } else {
            parent_of(groups.skip(j + 1), id)
        },
{
    assert(groups.skip(j).drop_first() =~= groups.skip(j + 1));
}

/// The parent of the first group with `id`.
fn parent_of_exec(groups: &Vec<GroupFacts>, id: u32) -> (r: Option<u32>)
    ensures
        r == parent_of(groups@, id),
{
    let mut j: usize = 0;
    assert(groups@.skip(0) =~= groups@);
    while j < groups.len()
        invariant
            j <= groups@.len(),
            parent_of(groups@, id) == parent_of(groups@.skip(j as int), id),
        decreases groups@.len() - j,
    {
        proof {
            lemma_parent_of_skip(groups@, id, j as int);
        }
        if groups[j].id == id {
            return groups[j].parent;
        }
        j = j + 1;
    }
    assert(groups@.skip(j as int).len() == 0);
    None
}

/// Whether walking up the parents from `start` meets the group `id` or
/// repeats itself.
fn climbs_into_cycle_exec(groups: &Vec<GroupFacts>, id: u32, start: Option<u32>) -> (b: bool)
    ensures
        b == climbs_into_cycle(groups@, id, start, Seq::empty(), groups@.len()),
{
    let mut cursor = start;
    let mut visited: Vec<u32> = Vec::new();
    let mut fuel: usize = groups.len();
    loop
        invariant
            climbs_into_cycle(groups@, id, start, Seq::empty(), groups@.len()) == climbs_into_cycle(
                groups@,
                id,
                cursor,
                visited@,
                fuel as nat,
            ),
        decreases fuel,
    {
        match cursor {
            None => {
                return false;
            },
            Some(x) => {
                if holds(&visited, x) || x == id {
                    return true;
                }
                if fuel == 0 {
                    return false;
                }
                visited.push(x);
                cursor = parent_of_exec(groups, x);
                fuel = fuel - 1;
            },
        }
    }
}

/// The first group that names an unknown parent or sits inside itself.
fn check_groups(groups: &Vec<GroupFacts>) -> (r: Option<TimelineAssetError>)
    ensures
        match r {
            Some(e) => group_errors(groups@, groups@.len() as int) == Some(e@),
            None => group_errors(groups@, groups@.len() as int) is None,
        },
{
    let mut i: usize = 0;
    while i < groups.len()
        invariant
            i <= groups@.len(),
            group_errors(groups@, i as int) is None,
        decreases groups@.len() - i,
    {
        let g = groups[i];
        let found = match g.parent {
            Some(p) => if !has_group_exec(groups, p) {
                Some(TimelineAssetError::UnknownGroup(p))
            } else {
                None
            },
            None => None,
        };
        let found = match found {
            Some(e) => Some(e),
            None => if climbs_into_cycle_exec(groups, g.id, g.parent) {
                Some(TimelineAssetError::GroupCycle(g.id))
            } else {
                None
            },
        };
        match found {
            Some(e) => {
                proof {
                    lemma_group_errors_settle(groups@, i + 1, groups@.len() as int);
                }
                return Some(e);
            },
            None => {},
        }
        i = i + 1;
    }
    None
}

/// Looking for `id` from `j` on is looking for it in the rest.
proof fn lemma_find_archetype_skip(archetypes: Seq<ArchetypeView>, id: Seq<char>, j: int)
    requires
        0 <= j < archetypes.len(),
    ensures
        find_archetype(archetypes.skip(j), id) == if archetypes[j].id == id {
            Some(archetypes[j])
        } else {
            find_archetype(archetypes.skip(j + 1), id)
        },
{
    assert(archetypes.skip(j).drop_first() =~= archetypes.skip(j + 1));
}

/// Where the first archetype with `id` stands in the catalogue.
fn find_archetype_exec(c: &CatalogueFacts, id: &str) -> (r: Option<usize>)
    ensures
        match r {
            Some(k) => k < c.archetypes@.len() && find_archetype(c@.archetypes, id@) == Some(c@.archetypes[k as int]),
            None => find_archetype(c@.archetypes, id@) is None,
        },
{
    let ghost all = c@.archetypes;
    let mut j: usize = 0;
    assert(all.skip(0) =~= all);
    while j < c.archetypes.len()
        invariant
            j <= c.archetypes@.len(),
            all == c@.archetypes,
            all.len() == c.archetypes@.len(),
            find_archetype(all, id@) == find_archetype(all.skip(j as int), id@),
        decreases c.archetypes@.len() - j,
    {
        proof {
            lemma_find_archetype_skip(all, id@, j as int);
        }
        if str_equals(c.archetypes[j].id.as_str(), id) {
            return Some(j);
        }
        j = j + 1;
    }
    assert(all.skip(j as int).len() == 0);
    None
}

/// Whether `list` holds the text `s`.
fn holds_text(list: &Vec<String>, s: &str) -> (b: bool)
    ensures
        b == list@.map_values(|l: String| l@).contains(s@),
{
    let ghost texts = list@.map_values(|l: String| l@);
    let mut j: usize = 0;
    while j < list.len()
        invariant
            j <= list@.len(),
            texts == list@.map_values(|l: String| l@),
            forall|w: int| 0 <= w < j ==> texts[w] != s@,
        decreases list@.len() - j,
    {
        if str_equals(list[j].as_str(), s) {
            assert(texts[j as int] == s@);
            return true;
        }
        j = j + 1;
    }
    false
}

/// The first bad channel of `t`, given its archetype.
fn check_channels(t: &TrackFacts, schema: &ArchetypeFacts) -> (r: Option<TimelineAssetError>)
    ensures
        match r {
            Some(e) => channel_errors(t@, schema@, t@.channels.len() as int) == Some(e@),
            None => channel_errors(t@, schema@, t@.channels.len() as int) is None,
        },
{
    let ghost tv = t@;
    let mut m: usize = 0;
    while m < t.channels.len()
        invariant
            m <= t.channels@.len(),
            tv == t@,
            tv.channels.len() == t.channels@.len(),
            channel_errors(tv, schema@, m as int) is None,
        decreases t.channels@.len() - m,
    {
        let lane = t.channels[m].lane.as_str();
        let mut repeated = false;
        let mut j: usize = 0;
        while j < m && !repeated
            invariant
                j <= m < t.channels@.len(),
                tv == t@,
                lane@ == tv.channels[m as int].lane,
                !repeated ==> forall|w: int| 0 <= w < j ==> tv.channels[w].lane != lane@,
                repeated ==> exists|w: int| 0 <= w < m && tv.channels[w].lane == lane@,
            decreases m - j,
        {
            if str_equals(t.channels[j].lane.as_str(), lane) {
                assert(tv.channels[j as int].lane == lane@);
                repeated = true;
            }
            j = j + 1;
        }
        let error = if repeated || !holds_text(&schema.lanes, lane) {
            Some(TimelineAssetError::UnknownLane { track: t.id, lane: t.channels[m].lane.clone() })
        } else if !t.channels[m].keys_valid {
            Some(TimelineAssetError::InvalidValue)
        } else {
            None
        };
        match error {
            Some(e) => {
                proof {
                    lemma_channel_errors_settle(tv, schema@, m + 1, tv.channels.len() as int);
                }
                return Some(e);
            },
            None => {},
        }
        m = m + 1;
    }
    None
}

/// The first track with an unknown archetype or group or a bad channel.
fn check_tracks(a: &AssetFacts, c: &CatalogueFacts) -> (r: Option<TimelineAssetError>)
    ensures
        match r {
            Some(e) => track_errors(a@, c@, a@.tracks.len() as int) == Some(e@),
            None => track_errors(a@, c@, a@.tracks.len() as int) is None,
        },
{
    let mut i: usize = 0;
    while i < a.tracks.len()
        invariant
            i <= a.tracks@.len(),
            a@.tracks.len() == a.tracks@.len(),
            track_errors(a@, c@, i as int) is None,
        decreases a.tracks@.len() - i,
    {
        let t = &a.tracks[i];
        assert(a@.tracks[i as int] == t@);
        let error = match find_archetype_exec(c, t.archetype.as_str()) {
            None => Some(TimelineAssetError::UnknownArchetype(t.archetype.clone())),
            Some(k) => {
                let unknown_group = match t.group {
                    Some(g) => !has_group_exec(&a.groups, g),
                    None => false,
                };
                if unknown_group {
                    Some(TimelineAssetError::UnknownGroup(t.group.unwrap()))
                } else {
                    check_channels(t, &c.archetypes[k])
                }
            },
        };
        match error {
            Some(e) => {
                proof {
                    lemma_track_errors_settle(a@, c@, i + 1, a@.tracks.len() as int);
                }
                return Some(e);
            },
            None => {},
        }
        i = i + 1;
    }
    None
}

/// Looking for `id` from `j` on is looking for it in the rest.
proof fn lemma_find_track_skip(tracks: Seq<TrackView>, id: u32, j: int)
    requires
        0 <= j < tracks.len(),
    ensures
        find_track(tracks.skip(j), id) == if tracks[j].id == id {
            Some(tracks[j])
        } else {
            find_track(tracks.skip(j + 1), id)
        },
{
    assert(tracks.skip(j).drop_first() =~= tracks.skip(j + 1));
}

/// Where the first track with `id` stands.
fn find_track_exec(a: &AssetFacts, id: u32) -> (r: Option<usize>)
    ensures
        match r {
            Some(k) => k < a.tracks@.len() && find_track(a@.tracks, id) == Some(a@.tracks[k as int]),
            None => find_track(a@.tracks, id) is None,
        },
{
    let ghost all = a@.tracks;
    let mut j: usize = 0;
    assert(all.skip(0) =~= all);
    while j < a.tracks.len()
        invariant
            j <= a.tracks@.len(),
            all == a@.tracks,
            all.len() == a.tracks@.len(),
            find_track(all, id) == find_track(all.skip(j as int), id),
        decreases a.tracks@.len() - j,
    {
        proof {
            lemma_find_track_skip(all, id, j as int);
        }
        if a.tracks[j].id == id {
            return Some(j);
        }
        j = j + 1;
    }
    assert(all.skip(j as int).len() == 0);
    None
}

/// The first clip on an unknown track, of a kind its track refuses, or
/// outside the document.
fn check_media(a: &AssetFacts, c: &CatalogueFacts) -> (r: Option<TimelineAssetError>)
    ensures
        match r {
            Some(e) => media_errors(a@, c@, a@.media.len() as int) == Some(e@),
            None => media_errors(a@, c@, a@.media.len() as int) is None,
        },
{
    let mut i: usize = 0;
    while i < a.media.len()
        invariant
            i <= a.media@.len(),
            a@.media.len() == a.media@.len(),
            media_errors(a@, c@, i as int) is None,
        decreases a.media@.len() - i,
    {
        let m = &a.media[i];
        assert(a@.media[i as int] == m@);
        let error = match find_track_exec(a, m.track) {
            None => Some(TimelineAssetError::UnknownTrack(m.track)),
            Some(t) => {
                let track = &a.tracks[t];
                assert(a@.tracks[t as int] == track@);
                match find_archetype_exec(c, track.archetype.as_str()) {
                    None => Some(TimelineAssetError::UnknownArchetype(track.archetype.clone())),
                    Some(k) => {
                        if !holds_text(&c.archetypes[k].media, m.kind.as_str()) {
                            Some(TimelineAssetError::UnsupportedMedia { track: m.track, kind: m.kind.clone() })
                        } else if !m.time_valid {
                            Some(TimelineAssetError::InvalidTime)
                        } else {
                            None
                        }
                    },
                }
            },
        };
        match error {
            Some(e) => {
                proof {
                    lemma_media_errors_settle(a@, c@, i + 1, a@.media.len() as int);
                }
                return Some(e);
            },
            None => {},
        }
        i = i + 1;
    }
    None
}

/// Whether some marker lies outside the document.
fn check_markers(markers: &Vec<MarkerFacts>) -> (r: bool)
    ensures
        r == (marker_errors(markers@, markers@.len() as int) is Some),
        r ==> marker_errors(markers@, markers@.len() as int) == Some(AssetErrorView::InvalidTime),
{
    let mut i: usize = 0;
    while i < markers.len()
        invariant
            i <= markers@.len(),
            marker_errors(markers@, i as int) is None,
        decreases markers@.len() - i,
    {
        if !markers[i].time_valid {
            proof {
                lemma_marker_errors_settle(markers@, i + 1, markers@.len() as int);
            }
            return true;
        }
        i = i + 1;
    }
    false
}

/// The largest id, or 0 with none.
fn largest_id(ids: &Vec<u32>) -> (m: u32)
    ensures
        m == max_id(ids@),
{
    let mut m: u32 = 0;
    let mut i: usize = 0;
    while i < ids.len()
        invariant
            i <= ids@.len(),
            m == max_id(ids@.take(i as int)),
        decreases ids@.len() - i,
    {
        assert(ids@.take(i + 1).drop_last() =~= ids@.take(i as int));
        if ids[i] > m {
            m = ids[i];
        }
        i = i + 1;
    }
    assert(ids@.take(i as int) =~= ids@);
    m
}

/// Check a timeline asset against the catalogue it is loaded with, by the
/// checks in their fixed order, and give the next id the document will
/// hand out; or refuse it with the first failure.
pub fn check_asset(asset: &AssetFacts, catalogue: &CatalogueFacts) -> (r: Result<u32, TimelineAssetError>)
    ensures
        match r {
            Ok(next) => asset_error(asset@, catalogue@) is None && next == next_id_for(asset@),
            Err(e) => asset_error(asset@, catalogue@) == Some(e@),
        },
{
    if asset.version != 0 && asset.version != TIMELINE_ASSET_VERSION {
        return Err(TimelineAssetError::FutureVersion(asset.version));
    }
    if !str_equals(asset.catalogue.as_str(), catalogue.id.as_str()) {
        return Err(
            TimelineAssetError::CatalogueMismatch { expected: catalogue.id.clone(), found: asset.catalogue.clone() },
        );
    }
    if !asset.duration_valid {
        return Err(TimelineAssetError::InvalidDuration);
    }
    let ids = collect_ids(asset);
    match check_ids(&ids) {
        Some(id) => {
            return Err(TimelineAssetError::DuplicateId(id));
        },
        None => {},
    }
    match check_groups(&asset.groups) {
        Some(e) => {
            return Err(e);
        },
        None => {},
    }
    match check_tracks(asset, catalogue) {
        Some(e) => {
            return Err(e);
        },
        None => {},
    }
    match check_media(asset, catalogue) {
        Some(e) => {
            return Err(e);
        },
        None => {},
    }
    if check_markers(&asset.markers) {
        return Err(TimelineAssetError::InvalidTime);
    }
    let max = largest_id(&ids);
    let next = match asset.next_id {
        Some(n) => n,
        None => max.saturating_add(1),
    };
    if next <= max || next == 0 {
        return Err(TimelineAssetError::InvalidNextId);
    }
    Ok(next)
}

} // verus!
