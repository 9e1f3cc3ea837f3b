use somnium_ui::thumbnail::{ThumbState, ThumbnailCache, ATLAS_HEIGHT, ATLAS_WIDTH, CAPACITY, CELL};
use std::collections::VecDeque;
use std::time::Duration;

fn cell(value: u8) -> Vec<u8> {
    vec![value; (CELL * CELL * 4) as usize]
}

#[test]
fn visible_work_is_deduplicated_and_drained_first() {
    let mut cache = ThumbnailCache::new();
    cache.request("far.png", false);
    cache.request("visible.png", false);
    // Scrolling the second tile into view promotes the existing request; it
    // must not enqueue a duplicate behind the old background copy.
    cache.request("visible.png", true);
    let requests = cache.take_requests(8);
    assert_eq!(requests.len(), 2);
    assert_eq!(requests[0].path, "visible.png");
    assert!(requests[0].visible);
    assert_eq!(requests[1].path, "far.png");
}

#[test]
fn sixty_png_frame_contract_performs_zero_ui_thread_decodes() {
    let mut cache = ThumbnailCache::new();
    for index in 0..60 {
        cache.request(&format!("terrain/tile_{index}.png"), index < 8);
    }
    assert_eq!(cache.pump(), 0, "frame pump must never decode files");
    let visible = cache.take_requests(8);
    assert_eq!(visible.len(), 8);
    assert!(visible.iter().all(|request| request.visible));
    assert_eq!(cache.pending_count(), 60);
}

#[test]
fn least_recently_used_cell_is_recycled() {
    let mut cache = ThumbnailCache::new();
    for index in 0..CAPACITY {
        let path = format!("{index}.png");
        cache.request(&path, true);
        assert!(cache.deliver(&path, &cell(index as u8)));
    }
    let keep = "1.png";
    let _ = cache.uv_slot(keep);
    let overflow = "overflow.png";
    cache.request(overflow, true);
    assert!(cache.deliver(overflow, &cell(255)));
    assert_eq!(cache.state("0.png"), None);
    assert!(matches!(cache.state(overflow), Some(ThumbState::Ready(_))));
}

#[test]
fn malformed_result_falls_back_without_corrupting_atlas() {
    let mut cache = ThumbnailCache::new();
    let path = "bad.png";
    cache.request(path, true);
    assert!(!cache.deliver(path, &[0; 4]));
    assert_eq!(cache.state(path), Some(ThumbState::Failed));
    assert_eq!(cache.ready_count(), 0);
}

#[test]
fn a_new_cache_is_an_empty_standard_atlas() {
    let cache = ThumbnailCache::default();
    assert_eq!(cache.width, ATLAS_WIDTH);
    assert_eq!(cache.height, ATLAS_HEIGHT);
    assert_eq!(cache.pixels.len(), (ATLAS_WIDTH * ATLAS_HEIGHT * 4) as usize);
    assert!(cache.pixels.iter().all(|b| *b == 0));
    assert!(!cache.dirty);
    assert_eq!(cache.ready_count(), 0);
    assert_eq!(cache.pending_count(), 0);
}

#[test]
fn a_delivered_cell_lands_in_its_slot_rows() {
    let mut cache = ThumbnailCache::new();
    cache.request("a.png", true);
    cache.request("b.png", true);
    assert!(cache.deliver("a.png", &cell(7)));
    let mut second = cell(0);
    for (i, byte) in second.iter_mut().enumerate() {
        *byte = (i % 251) as u8;
    }
    assert!(cache.deliver("b.png", &second));
    assert_eq!(cache.state("a.png"), Some(ThumbState::Ready(0)));
    assert_eq!(cache.state("b.png"), Some(ThumbState::Ready(1)));
    assert!(cache.dirty);
    let stride = ATLAS_WIDTH as usize * 4;
    let row = CELL as usize * 4;
    for r in 0..CELL as usize {
        assert!(cache.pixels[r * stride..r * stride + row].iter().all(|b| *b == 7));
        assert_eq!(&cache.pixels[r * stride + row..r * stride + 2 * row], &second[r * row..(r + 1) * row]);
    }
    assert_eq!(cache.pixels[CELL as usize * stride], 0);
    assert_eq!(ThumbnailCache::slot_origin(17), (64, 64));
    assert_eq!(ThumbnailCache::slot_origin(255), (960, 960));
    assert_eq!(cache.uv_slot("b.png"), Some(1));
    assert_eq!(cache.uv_slot("missing.png"), None);
    assert_eq!(cache.ready_count(), 2);
}

#[test]
fn take_requests_respects_its_limit_and_hands_out_background_last() {
    let mut cache = ThumbnailCache::new();
    cache.request("b1", false);
    cache.request("v1", true);
    cache.request("b2", false);
    cache.request("v2", true);
    cache.request("v1", true);
    let first = cache.take_requests(3);
    let paths: Vec<(&str, bool)> = first.iter().map(|r| (r.path.as_str(), r.visible)).collect();
    assert_eq!(paths, vec![("v1", true), ("v2", true), ("b1", false)]);
    assert!(first.iter().all(|r| r.size == CELL));
    let rest = cache.take_requests(8);
    assert_eq!(rest.len(), 1);
    assert_eq!(rest[0].path, "b2");
    assert!(cache.take_requests(8).is_empty());
    assert!(cache.take_requests(0).is_empty());
}

#[test]
fn a_budget_applies_at_least_one_and_keeps_the_rest() {
    let mut cache = ThumbnailCache::new();
    let mut ready: VecDeque<(String, Vec<u8>)> = VecDeque::new();
    for i in 0..5u8 {
        let path = format!("{i}.png");
        cache.request(&path, true);
        ready.push_back((path, cell(i)));
    }
    let applied = cache.deliver_budgeted(&mut ready, Duration::ZERO);
    assert_eq!(applied, 1);
    assert_eq!(ready.len(), 4);
    assert_eq!(cache.state("0.png"), Some(ThumbState::Ready(0)));
    let applied = cache.deliver_budgeted(&mut ready, Duration::from_secs(60));
    assert_eq!(applied, 4);
    assert!(ready.is_empty());
    assert_eq!(cache.ready_count(), 5);
    assert_eq!(cache.deliver_budgeted(&mut ready, Duration::from_secs(60)), 0);
}

#[test]
fn marking_failed_and_clearing() {
    let mut cache = ThumbnailCache::new();
    cache.request("x.png", false);
    cache.mark_failed("x.png");
    assert_eq!(cache.state("x.png"), Some(ThumbState::Failed));
    assert_eq!(cache.pending_count(), 0);
    cache.request("y.png", true);
    assert!(cache.deliver("y.png", &cell(9)));
    cache.clear();
    assert_eq!(cache.state("y.png"), None);
    assert_eq!(cache.state("x.png"), None);
    assert!(cache.pixels.iter().all(|b| *b == 0));
    assert!(cache.dirty);
    assert!(cache.take_requests(8).is_empty());
    cache.request("z.png", true);
    assert!(cache.deliver("z.png", &cell(1)));
    assert_eq!(cache.state("z.png"), Some(ThumbState::Ready(0)));
}

#[test]
fn a_delivery_fits_a_standard_atlas_and_not_a_shrunken_one() {
    let mut cache = ThumbnailCache::new();
    assert!(cache.delivery_fits(CELL as usize * CELL as usize * 4));
    assert!(cache.delivery_fits(4), "a malformed cell is refused before any copy");
    cache.pixels.truncate(100);
    assert!(!cache.delivery_fits(CELL as usize * CELL as usize * 4));
    assert!(cache.delivery_fits(3));
}

#[test]
fn delivery_stops_when_the_judge_says_the_budget_is_spent() {
    let mut cache = ThumbnailCache::new();
    let mut ready: VecDeque<(String, Vec<u8>)> = VecDeque::new();
    for i in 0..5u8 {
        ready.push_back((format!("{i}.png"), cell(i)));
    }
    let asked = std::cell::RefCell::new(Vec::new());
    let applied = cache.deliver_until(&mut ready, |n| {
        asked.borrow_mut().push(n);
        n >= 3
    });
    assert_eq!(applied, 3);
    assert_eq!(*asked.borrow(), vec![1, 2, 3]);
    assert_eq!(ready.front().map(|(p, _)| p.as_str()), Some("3.png"));
    assert_eq!(cache.deliver_until(&mut ready, |_| false), 2);
    assert!(ready.is_empty());
    assert_eq!(cache.deliver_until(&mut ready, |_| true), 0);
    assert_eq!(cache.ready_count(), 5);
}

#[test]
fn a_path_delivered_before_it_was_taken_and_then_evicted_is_queued_again() {
    let mut cache = ThumbnailCache::new();
    cache.request("0.png", true);
    assert!(cache.deliver("0.png", &cell(1)));
    for index in 1..=CAPACITY {
        let path = format!("{index}.png");
        cache.request(&path, false);
        assert!(cache.deliver(&path, &cell(2)));
    }
    assert_eq!(cache.state("0.png"), None, "the least recently used cell was recycled");
    cache.request("0.png", true);
    let taken = cache.take_requests(CAPACITY + 8);
    assert_eq!(taken.iter().filter(|r| r.path == "0.png").count(), 2);
}
