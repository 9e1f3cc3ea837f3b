use somnium_ui::semantic_authoring::{check_view, view_token};
use somnium_ui::timeline::archetype::MediaKind;
use somnium_ui::timeline::model::{GroupId, TimelineError, TrackGroup, TrackId};
use somnium_ui::timeline::serial::{
    check_asset, ArchetypeFacts, AssetFacts, CatalogueFacts, ChannelFacts, GroupFacts, MarkerFacts, MediaFacts,
    TimelineAssetError, TrackFacts, TIMELINE_ASSET_VERSION,
};
use somnium_ui::timeline::surface::{TimelineHistory, TimelineSelection};

#[test]
fn media_kinds_have_their_document_names() {
    assert_eq!(MediaKind::AnimationClip.as_str(), "animation-clip");
    assert_eq!(MediaKind::AudioClip.as_str(), "audio-clip");
    assert_eq!(MediaKind::UiMotion.as_str(), "ui-motion");
    assert_eq!(MediaKind::VfxEvent.as_str(), "vfx-event");
    assert_eq!(MediaKind::Event.as_str(), "event");
    assert_eq!(MediaKind::Custom("dialogue-line").as_str(), "dialogue-line");
}

#[test]
fn timeline_errors_name_themselves() {
    assert_eq!(TimelineError::IdExhausted.message(), "IdExhausted");
    assert_eq!(TimelineError::InvalidClipRange.message(), "InvalidClipRange");
    assert_eq!(TimelineError::UnknownArchetype.message(), format!("{:?}", TimelineError::UnknownArchetype));
}

#[test]
fn a_fresh_selection_selects_nothing() {
    let selection = TimelineSelection::default();
    assert_eq!(selection, TimelineSelection { track: None, channel: None, media: None, marker: None });
    assert!(TrackId(1) < TrackId(2));
    let group = TrackGroup { id: GroupId(3), title: "Camera".into(), parent: None };
    assert_eq!(group.clone(), group);
}

#[test]
fn view_tokens_are_fnv1a_in_sixteen_hex_digits() {
    assert_eq!(view_token(""), "view:cbf29ce484222325");
    assert_eq!(view_token("a"), "view:af63dc4c8601ec8c");
    assert_eq!(view_token("foobar"), "view:85944171f73967e8");
    assert_eq!(view_token("abc"), view_token("abc"));
    assert_ne!(view_token("abc"), view_token("abd"));
    let token = view_token("\u{4F60}\u{597D}");
    assert_eq!(token.len(), 21);
    assert!(token[5..].chars().all(|c| c.is_ascii_hexdigit() && !c.is_ascii_uppercase()));
}

#[test]
fn an_edit_is_one_undo_step_and_redo_brings_it_back() {
    let mut history: TimelineHistory<Vec<u32>> = TimelineHistory::new(8);
    let mut document = vec![1, 2];
    let before = document.clone();
    document.push(3);
    assert!(history.record(before, &document, "Add key"));
    assert_eq!(history.labels(), vec!["Add key"]);
    assert!(history.undo(&mut document));
    assert_eq!(document, vec![1, 2]);
    assert!(!history.undo(&mut document));
    assert!(history.redo(&mut document));
    assert_eq!(document, vec![1, 2, 3]);
    assert!(!history.redo(&mut document));
    assert_eq!(document, vec![1, 2, 3]);
}

#[test]
fn an_unchanged_document_is_not_recorded() {
    let mut history: TimelineHistory<String> = TimelineHistory::default();
    let document = String::from("same");
    assert!(!history.record(document.clone(), &document, "Nothing"));
    assert!(history.labels().is_empty());
}

#[test]
fn recording_after_undo_drops_the_redo_branch() {
    let mut history: TimelineHistory<u32> = TimelineHistory::new(8);
    let mut document = 1;
    assert!(history.record(0, &document, "One"));
    document = 2;
    assert!(history.record(1, &document, "Two"));
    assert!(history.undo(&mut document));
    assert_eq!(document, 1);
    document = 5;
    assert!(history.record(1, &document, "Five"));
    assert_eq!(history.labels(), vec!["One", "Five"]);
    assert!(!history.redo(&mut document));
    assert!(history.undo(&mut document));
    assert_eq!(document, 1);
    assert!(history.undo(&mut document));
    assert_eq!(document, 0);
}

#[test]
fn the_history_forgets_its_oldest_edit_at_capacity() {
    let mut history: TimelineHistory<u32> = TimelineHistory::new(2);
    for (before, after, label) in [(0, 1, "a"), (1, 2, "b"), (2, 3, "c")] {
        assert!(history.record(before, &after, label));
    }
    assert_eq!(history.labels(), vec!["b", "c"]);
    let mut document = 3;
    assert!(history.undo(&mut document));
    assert!(history.undo(&mut document));
    assert_eq!(document, 1);
    assert!(!history.undo(&mut document));
}

#[test]
fn a_zero_capacity_history_still_keeps_one_edit() {
    let mut history: TimelineHistory<u32> = TimelineHistory::new(0);
    assert!(history.record(0, &1, "a"));
    assert!(history.record(1, &2, "b"));
    assert_eq!(history.labels(), vec!["b"]);
}

fn animation_catalogue() -> CatalogueFacts {
    CatalogueFacts {
        id: "animation".to_string(),
        archetypes: vec![
            ArchetypeFacts {
                id: "transform".to_string(),
                lanes: vec!["x".to_string(), "y".to_string()],
                media: vec!["animation-clip".to_string()],
            },
            ArchetypeFacts { id: "audio".to_string(), lanes: vec![], media: vec!["audio-clip".to_string()] },
        ],
    }
}

fn sound_asset() -> AssetFacts {
    AssetFacts {
        version: TIMELINE_ASSET_VERSION,
        catalogue: "animation".to_string(),
        duration_valid: true,
        next_id: None,
        groups: vec![GroupFacts { id: 1, parent: None }, GroupFacts { id: 2, parent: Some(1) }],
        tracks: vec![TrackFacts {
            id: 3,
            archetype: "transform".to_string(),
            group: Some(2),
            channels: vec![
                ChannelFacts { lane: "x".to_string(), keys_valid: true },
                ChannelFacts { lane: "y".to_string(), keys_valid: true },
            ],
        }],
        media: vec![MediaFacts { id: 4, track: 3, kind: "animation-clip".to_string(), time_valid: true }],
        markers: vec![MarkerFacts { id: 7, time_valid: true }],
    }
}

fn refusal(asset: &AssetFacts) -> String {
    match check_asset(asset, &animation_catalogue()) {
        Ok(next) => panic!("accepted with next id {next}"),
        Err(e) => e.message(),
    }
}

#[test]
fn a_sound_asset_is_accepted_with_the_next_free_id() {
    assert_eq!(check_asset(&sound_asset(), &animation_catalogue()).ok(), Some(8));
    let mut asset = sound_asset();
    asset.version = 0;
    asset.next_id = Some(40);
    assert_eq!(check_asset(&asset, &animation_catalogue()).ok(), Some(40));
}

#[test]
fn versions_and_catalogues_are_checked_first() {
    let mut asset = sound_asset();
    asset.version = 2;
    asset.catalogue = "ui".to_string();
    assert!(matches!(check_asset(&asset, &animation_catalogue()), Err(TimelineAssetError::FutureVersion(2))));
    assert_eq!(refusal(&asset), "timeline version 2 is newer than supported 1");
    asset.version = 1;
    assert_eq!(refusal(&asset), "timeline catalogue is ui, expected animation");
    asset.catalogue = "animation".to_string();
    asset.duration_valid = false;
    assert_eq!(refusal(&asset), "invalid timeline asset: InvalidDuration");
}

#[test]
fn ids_are_non_zero_and_used_once_across_every_kind() {
    let mut asset = sound_asset();
    asset.markers[0].id = 3;
    assert_eq!(refusal(&asset), "invalid timeline asset: DuplicateId(3)");
    asset.markers[0].id = 0;
    assert_eq!(refusal(&asset), "invalid timeline asset: DuplicateId(0)");
}

#[test]
fn groups_need_known_parents_and_no_cycles() {
    let mut asset = sound_asset();
    asset.groups[0].parent = Some(9);
    assert_eq!(refusal(&asset), "invalid timeline asset: UnknownGroup(9)");
    asset.groups[0].parent = Some(2);
    assert_eq!(refusal(&asset), "invalid timeline asset: GroupCycle(1)");
    asset.groups[0].parent = Some(1);
    assert_eq!(refusal(&asset), "invalid timeline asset: GroupCycle(1)");
}

#[test]
fn tracks_need_a_known_archetype_group_and_lanes() {
    let mut asset = sound_asset();
    asset.tracks[0].archetype = "light".to_string();
    assert_eq!(refusal(&asset), "invalid timeline asset: UnknownArchetype(\"light\")");
    asset.tracks[0].archetype = "transform".to_string();
    asset.tracks[0].group = Some(5);
    assert_eq!(refusal(&asset), "invalid timeline asset: UnknownGroup(5)");
    asset.tracks[0].group = None;
    asset.tracks[0].channels[1].lane = "x".to_string();
    assert_eq!(refusal(&asset), "invalid timeline asset: UnknownLane { track: 3, lane: \"x\" }");
    asset.tracks[0].channels[1].lane = "z".to_string();
    assert_eq!(refusal(&asset), "invalid timeline asset: UnknownLane { track: 3, lane: \"z\" }");
    asset.tracks[0].channels[1].lane = "y".to_string();
    asset.tracks[0].channels[0].keys_valid = false;
    assert_eq!(refusal(&asset), "invalid timeline asset: InvalidValue");
}

#[test]
fn clips_need_a_known_track_of_their_kind_and_a_time_inside() {
    let mut asset = sound_asset();
    asset.media[0].track = 9;
    assert_eq!(refusal(&asset), "invalid timeline asset: UnknownTrack(9)");
    asset.media[0].track = 3;
    asset.media[0].kind = "audio-clip".to_string();
    assert_eq!(refusal(&asset), "invalid timeline asset: UnsupportedMedia { track: 3, kind: \"audio-clip\" }");
    asset.media[0].kind = "animation-clip".to_string();
    asset.media[0].time_valid = false;
    assert_eq!(refusal(&asset), "invalid timeline asset: InvalidTime");
    asset.media[0].time_valid = true;
    asset.markers[0].time_valid = false;
    assert_eq!(refusal(&asset), "invalid timeline asset: InvalidTime");
}

#[test]
fn the_next_id_must_be_fresh() {
    let mut asset = sound_asset();
    asset.next_id = Some(7);
    assert_eq!(refusal(&asset), "invalid timeline asset: InvalidNextId");
    asset.next_id = None;
    asset.markers[0].id = u32::MAX;
    assert_eq!(refusal(&asset), "invalid timeline asset: InvalidNextId");
    let empty = AssetFacts { groups: vec![], tracks: vec![], media: vec![], markers: vec![], ..sound_asset() };
    assert_eq!(check_asset(&empty, &animation_catalogue()).ok(), Some(1));
}

#[test]
fn a_json_error_keeps_the_readers_words() {
    let error = serde_json::from_str::<u32>("{").unwrap_err();
    let expected = format!("invalid timeline JSON: {error}");
    let wrapped: TimelineAssetError = error.into();
    assert_eq!(wrapped.message(), expected);
}

#[test]
fn an_edit_against_a_stale_view_is_refused() {
    let document = "{\"tracks\":[]}";
    let token = view_token(document);
    assert_eq!(check_view(&token, document), Ok(()));
    assert_eq!(
        check_view(&token, "{\"tracks\":[1]}"),
        Err("document_conflict: refresh the editor query; a designer changed this document".to_string())
    );
    assert!(check_view("view:0000000000000000", document).is_err());
}

#[test]
fn apply_records_an_edit_and_rolls_back_a_declined_or_empty_one() {
    let mut history: TimelineHistory<u32> = TimelineHistory::new(4);
    let mut doc = 1u32;
    assert!(history.apply(&mut doc, "double", |d| {
        *d *= 2;
        true
    }));
    assert_eq!(doc, 2);
    assert!(!history.apply(&mut doc, "decline", |d| {
        *d = 7;
        false
    }));
    assert_eq!(doc, 2, "a declined edit is rolled back");
    assert!(!history.apply(&mut doc, "same", |d| {
        *d = 2;
        true
    }));
    assert_eq!(history.labels(), vec!["double"]);
    assert!(history.undo(&mut doc));
    assert_eq!(doc, 1);
}
