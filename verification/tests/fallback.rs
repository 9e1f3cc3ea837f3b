use somnium_ui::text::fallback::{CoverageSet, FaceCoverage, FallbackChain, SCRIPT_PRIORITY};

fn latin() -> CoverageSet {
    CoverageSet::latin()
}

fn cjk() -> CoverageSet {
    CoverageSet::new(vec![0x3000..0x3100, 0x4E00..0xA000])
}

fn everything() -> CoverageSet {
    CoverageSet::new(vec![0..0x110000])
}

#[test]
fn coverage_answers_for_its_own_ranges() {
    let set = latin();
    assert!(set.covers('A'));
    assert!(set.covers('\u{00E9}'));
    assert!(!set.covers('\u{4F60}'));
    assert!(!set.covers('\u{1F600}'));
}

#[test]
fn an_empty_chain_covers_nothing() {
    let chain: FallbackChain<CoverageSet> = FallbackChain::new();
    assert!(chain.is_empty());
    assert_eq!(chain.face_for('A'), None);
    assert_eq!(chain.split("hi"), vec![(0..2, None)]);
}

#[test]
fn the_first_covering_face_wins() {
    let mut chain = FallbackChain::new();
    chain.push(0, latin());
    chain.push(1, cjk());
    chain.push(2, everything());
    assert_eq!(chain.face_for('A'), Some(0));
    assert_eq!(chain.face_for('\u{4F60}'), Some(1));
    assert_eq!(chain.face_for('\u{1F600}'), Some(2), "the catch-all catches");
}

#[test]
fn a_cjk_name_in_a_latin_ui_is_not_tofu() {
    let mut chain = FallbackChain::new();
    chain.push(0, latin());
    chain.push(1, cjk());
    for ch in "\u{5C71}\u{7530}".chars() {
        assert_eq!(chain.face_for(ch), Some(1), "{ch} fell through to tofu");
    }
}

#[test]
fn split_produces_the_longest_spans_it_can() {
    let mut chain = FallbackChain::new();
    chain.push(0, latin());
    chain.push(1, cjk());

    let text = "Hello \u{4F60}\u{597D} world";
    let spans = chain.split(text);
    assert_eq!(spans.len(), 3, "{spans:?}");
    assert_eq!(spans[0].1, Some(0));
    assert_eq!(&text[spans[0].0.clone()], "Hello ");
    assert_eq!(spans[1].1, Some(1));
    assert_eq!(&text[spans[1].0.clone()], "\u{4F60}\u{597D}");
    assert_eq!(spans[2].1, Some(0));
    assert_eq!(&text[spans[2].0.clone()], " world");
}

#[test]
fn tofu_is_its_own_span_rather_than_hidden() {
    let mut chain = FallbackChain::new();
    chain.push(0, latin());
    let text = "a\u{4F60}b";
    let spans = chain.split(text);
    assert_eq!(spans.len(), 3);
    assert_eq!(spans[1].1, None);
    assert_eq!(&text[spans[1].0.clone()], "\u{4F60}");
}

#[test]
fn split_ranges_are_char_boundaries() {
    let mut chain = FallbackChain::new();
    chain.push(0, everything());
    let text = "a\u{00E9}\u{4F60}\u{1F600}z";
    for (range, _) in chain.split(text) {
        let _ = &text[range];
    }
}

#[test]
fn splitting_empty_text_produces_no_spans() {
    let mut chain = FallbackChain::new();
    chain.push(0, latin());
    assert!(chain.split("").is_empty());
}

#[test]
fn a_cjk_face_that_covers_latin_is_allowed_to_serve_it() {
    let cjk_with_latin = CoverageSet::new(vec![0x0020..0x0250, 0x4E00..0xA000]);
    let mut chain = FallbackChain::new();
    chain.push(7, cjk_with_latin);
    assert_eq!(chain.face_for('A'), Some(7));
    assert_eq!(chain.face_for('\u{4F60}'), Some(7));
    assert_eq!(
        chain.split("A\u{4F60}").len(),
        1,
        "one face covers both, so it is one span and one shaping run"
    );
}

#[test]
fn the_priority_table_is_ordered_and_disjoint() {
    for pair in SCRIPT_PRIORITY.windows(2) {
        assert!(
            pair[0].1.end <= pair[1].1.start,
            "{} overlaps or follows {}",
            pair[0].0,
            pair[1].0
        );
    }
}

#[test]
fn coverage_ranges_given_out_of_order_still_answer() {
    let set = CoverageSet::new(vec![0x4E00..0xA000, 0x0020..0x0080, 0x3000..0x3100]);
    assert!(set.covers('A'));
    assert!(set.covers('\u{3042}'));
    assert!(set.covers('\u{4F60}'));
    assert!(!set.covers('\u{00E9}'));
    assert!(!set.covers('\u{1F600}'));
    assert!(!set.covers('\u{1F}'));
    assert!(!CoverageSet::new(vec![0x41..0x41]).covers('A'));
    assert!(CoverageSet::new(Vec::new()).is_empty());
    assert!(!latin().is_empty());
}

#[test]
fn range_ends_are_exclusive() {
    let set = CoverageSet::new(vec![0x41..0x43]);
    assert!(set.covers('A'));
    assert!(set.covers('B'));
    assert!(!set.covers('C'));
    assert!(!set.covers('@'));
}

#[test]
fn spans_carry_utf8_byte_offsets() {
    let mut chain = FallbackChain::new();
    chain.push(3, latin());
    let spans = chain.split("\u{00E9}\u{4F60}\u{1F600}");
    assert_eq!(spans, vec![(0..2, Some(3)), (2..9, None)]);
    assert_eq!(chain.len(), 1);
}

#[test]
fn overlapping_ranges_cover_their_union() {
    let set = CoverageSet::new(vec![0..10, 2..3, 5..6]);
    assert!(set.covers('\u{8}'));
    assert!(set.covers('\u{0}'));
    assert!(!set.covers('\u{a}'));
    let touching = CoverageSet::new(vec![0x50..0x60, 0x41..0x50, 0x45..0x46]);
    assert!(touching.covers('A'));
    assert!(touching.covers('P'));
    assert!(touching.covers('_'));
    assert!(!touching.covers('`'));
    let inverted = CoverageSet::new(vec![0x43..0x41]);
    assert!(!inverted.covers('B'));
    assert!(!inverted.is_empty());
    assert!(set.clone().covers('\u{8}'));
}
