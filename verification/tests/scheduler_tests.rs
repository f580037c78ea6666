use tick_core::chunk_comm::{
    chunk_before, generate_chunk_changes, send_full_loaded_chunks, window_contains,
    ChunkCacheView, ChunkPos, ChunkSendQueue, MAX_CHUNKS_PER_TICK,
};

fn pos(x: i16, z: i16) -> ChunkPos {
    ChunkPos { x, z }
}

fn all_loaded(coords: &[ChunkPos]) -> ChunkCacheView {
    let mut cache = ChunkCacheView::default();
    for c in coords {
        cache.mark_loaded(*c);
    }
    cache
}

#[test]
fn send_order_is_nearest_first() {
    // the pending set {(5,5), (1,1), (3,3)} around center (0,0), kept
    // farthest-first by the change-detection pass
    let mut queue = ChunkSendQueue::default();
    let coords = [pos(5, 5), pos(3, 3), pos(1, 1)];
    for c in coords {
        queue.push(c);
    }
    let cache = all_loaded(&coords);
    let sent = send_full_loaded_chunks(&mut queue, &cache, MAX_CHUNKS_PER_TICK);
    assert_eq!(sent, vec![pos(1, 1), pos(3, 3), pos(5, 5)]);
    assert_eq!(queue.len(), 0);
}

#[test]
fn send_respects_budget_and_resumes() {
    // 30 unique pending coordinates, farthest first around (0, 0)
    let mut queue = ChunkSendQueue::default();
    let mut coords = Vec::new();
    for x in (1..=30i16).rev() {
        coords.push(pos(x, 0));
        queue.push(pos(x, 0));
    }
    let cache = all_loaded(&coords);
    let sent = send_full_loaded_chunks(&mut queue, &cache, 16);
    assert_eq!(sent.len(), 16);
    let expect_first: Vec<ChunkPos> = (1..=16i16).map(|x| pos(x, 0)).collect();
    assert_eq!(sent, expect_first);
    assert_eq!(queue.len(), 14);
    let sent_later = send_full_loaded_chunks(&mut queue, &cache, 16);
    let expect_rest: Vec<ChunkPos> = (17..=30i16).map(|x| pos(x, 0)).collect();
    assert_eq!(sent_later, expect_rest);
    assert_eq!(queue.len(), 0);
}

#[test]
fn send_skips_loading_chunks_and_keeps_them_pending() {
    let mut queue = ChunkSendQueue::default();
    queue.push(pos(3, 0));
    queue.push(pos(2, 0));
    queue.push(pos(1, 0));
    let mut cache = ChunkCacheView::default();
    cache.mark_loaded(pos(1, 0));
    cache.mark_loaded(pos(3, 0));
    let sent = send_full_loaded_chunks(&mut queue, &cache, 16);
    assert_eq!(sent, vec![pos(1, 0), pos(3, 0)]);
    // (2, 0) stays pending and is retried once loaded
    assert_eq!(queue.len(), 1);
    cache.mark_loaded(pos(2, 0));
    let retried = send_full_loaded_chunks(&mut queue, &cache, 16);
    assert_eq!(retried, vec![pos(2, 0)]);
    assert_eq!(queue.len(), 0);
}

#[test]
fn send_with_zero_budget_sends_nothing() {
    let mut queue = ChunkSendQueue::default();
    queue.push(pos(1, 1));
    let cache = all_loaded(&[pos(1, 1)]);
    let sent = send_full_loaded_chunks(&mut queue, &cache, 0);
    assert!(sent.is_empty());
    assert_eq!(queue.len(), 1);
}

#[test]
fn change_detection_noop_when_center_unchanged() {
    let mut queue = ChunkSendQueue::default();
    queue.push(pos(2, 2));
    let mut last = pos(4, 4);
    let moved = generate_chunk_changes(&mut queue, &mut last, pos(4, 4), 8);
    assert!(!moved);
    assert_eq!(last, pos(4, 4));
    assert_eq!(queue.len(), 1);
}

#[test]
fn change_detection_adds_new_window_column() {
    let mut queue = ChunkSendQueue::default();
    let mut last = pos(0, 0);
    let moved = generate_chunk_changes(&mut queue, &mut last, pos(1, 0), 2);
    assert!(moved);
    assert_eq!(last, pos(1, 0));
    // the new window adds exactly the x == 2 column, sorted farthest first
    let mut got = Vec::new();
    for i in 0..queue.len() {
        got.push(queue.at(i));
    }
    assert_eq!(got, vec![pos(2, -2), pos(2, -1), pos(2, 1), pos(2, 0)]);
}

#[test]
fn change_detection_prunes_outside_liberal_radius() {
    let mut queue = ChunkSendQueue::default();
    queue.push(pos(100, 100));
    queue.push(pos(1, 1));
    let mut last = pos(99, 99);
    let moved = generate_chunk_changes(&mut queue, &mut last, pos(0, 0), 2);
    assert!(moved);
    let mut pending = Vec::new();
    for i in 0..queue.len() {
        pending.push(queue.at(i));
    }
    // the far coordinate is gone without ever being sent
    assert!(!pending.contains(&pos(100, 100)));
    assert!(pending.contains(&pos(1, 1)));
    let cache = all_loaded(&pending);
    let sent = send_full_loaded_chunks(&mut queue, &cache, MAX_CHUNKS_PER_TICK);
    assert!(!sent.contains(&pos(100, 100)));
}

#[test]
fn duplicate_coordinate_is_sent_at_most_once() {
    let mut queue = ChunkSendQueue::default();
    queue.push(pos(1, 1));
    queue.push(pos(1, 1));
    let mut last = pos(50, 50);
    let moved = generate_chunk_changes(&mut queue, &mut last, pos(0, 0), 1);
    assert!(moved);
    let cache = all_loaded(&[pos(1, 1), pos(0, 0), pos(0, -1), pos(-1, 0), pos(-1, -1)]);
    let sent = send_full_loaded_chunks(&mut queue, &cache, MAX_CHUNKS_PER_TICK);
    let count = sent.iter().filter(|p| **p == pos(1, 1)).count();
    assert_eq!(count, 1);
}

#[test]
fn adjacent_duplicates_dropped_by_send_without_budget_cost() {
    let mut queue = ChunkSendQueue::default();
    queue.push(pos(2, 0));
    queue.push(pos(1, 0));
    queue.push(pos(1, 0));
    let cache = all_loaded(&[pos(1, 0), pos(2, 0)]);
    let sent = send_full_loaded_chunks(&mut queue, &cache, 2);
    assert_eq!(sent, vec![pos(1, 0), pos(2, 0)]);
    assert_eq!(queue.len(), 0);
}

#[test]
fn chunk_order_farthest_first_with_coordinate_ties() {
    let center = pos(0, 0);
    assert!(chunk_before(center, pos(5, 5), pos(1, 1)));
    assert!(!chunk_before(center, pos(1, 1), pos(5, 5)));
    // equal distance: ordered by coordinates
    assert!(chunk_before(center, pos(-1, 0), pos(1, 0)));
    assert!(chunk_before(center, pos(1, -1), pos(1, 1)));
    assert!(chunk_before(center, pos(2, 2), pos(2, 2)));
}

#[test]
fn window_is_half_open() {
    let c = pos(0, 0);
    assert!(window_contains(c, 2, pos(-2, -2)));
    assert!(window_contains(c, 2, pos(1, 1)));
    assert!(!window_contains(c, 2, pos(2, 0)));
    assert!(!window_contains(c, 2, pos(0, 2)));
    assert!(!window_contains(c, 0, pos(0, 0)));
}
