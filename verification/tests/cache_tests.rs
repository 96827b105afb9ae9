use flyover::cache::GpuCache;
use flyover::loader::{Job, TileLoader};
use flyover::tileset::TileKey;

fn k(z: u8, x: u32, y: u32) -> TileKey {
    TileKey::new(z, x, y)
}

#[test]
fn uploads_count_bytes_and_replace_by_address() {
    let mut c = GpuCache::new(1000);
    assert!(c.is_empty());
    c.upload(k(0, 0, 0), 300, 1);
    c.upload(k(1, 0, 0), 200, 1);
    assert_eq!(c.len(), 2);
    assert_eq!(c.bytes(), 500);
    c.upload(k(0, 0, 0), 100, 2);
    assert_eq!(c.len(), 2);
    assert_eq!(c.bytes(), 300);
    assert!(c.contains(k(1, 0, 0)));
    assert!(!c.contains(k(1, 1, 0)));
}

#[test]
fn eviction_drops_the_least_recently_used_first() {
    let mut c = GpuCache::new(250);
    c.upload(k(1, 0, 0), 100, 1);
    c.upload(k(1, 1, 0), 100, 2);
    c.upload(k(1, 0, 1), 100, 3);
    c.evict(10);
    assert_eq!(c.bytes(), 200);
    assert!(!c.contains(k(1, 0, 0)));
    assert!(c.contains(k(1, 1, 0)) && c.contains(k(1, 0, 1)));
}

#[test]
fn eviction_breaks_ties_by_address() {
    let mut c = GpuCache::new(100);
    c.upload(k(2, 3, 0), 100, 5);
    c.upload(k(2, 1, 0), 100, 5);
    c.evict(9);
    assert_eq!(c.len(), 1);
    assert!(c.contains(k(2, 3, 0)));
}

#[test]
fn tiles_drawn_this_frame_survive_eviction() {
    let mut c = GpuCache::new(50);
    c.upload(k(0, 0, 0), 100, 4);
    c.upload(k(1, 0, 0), 100, 7);
    c.evict(7);
    // Over budget, but the survivor was drawn this frame.
    assert_eq!(c.len(), 1);
    assert!(c.contains(k(1, 0, 0)));
    assert_eq!(c.bytes(), 100);
}

#[test]
fn touching_a_tile_protects_it() {
    let mut c = GpuCache::new(100);
    c.upload(k(1, 0, 0), 100, 1);
    c.upload(k(1, 1, 0), 100, 2);
    c.touch(k(1, 0, 0), 3);
    c.touch(k(5, 5, 5), 3);
    c.evict(4);
    assert!(c.contains(k(1, 0, 0)));
    assert!(!c.contains(k(1, 1, 0)));
}

#[test]
fn a_cache_within_budget_keeps_everything() {
    let mut c = GpuCache::new(1000);
    c.upload(k(0, 0, 0), 400, 0);
    c.upload(k(1, 1, 1), 600, 0);
    c.evict(100);
    assert_eq!(c.len(), 2);
    assert_eq!(c.bytes(), 1000);
}

#[test]
fn a_tile_is_requested_once_until_delivered() {
    let mut l = TileLoader::new();
    l.request(k(1, 0, 0), 5);
    l.request(k(1, 0, 0), 9);
    l.request(k(2, 1, 1), 7);
    assert!(l.in_flight(k(1, 0, 0)));
    assert_eq!(l.next(), Some(Job { priority: 7, key: k(2, 1, 1) }));
    assert_eq!(l.next(), Some(Job { priority: 5, key: k(1, 0, 0) }));
    assert_eq!(l.next(), None);
    // Taken by a worker but not delivered: still in flight, so no second job.
    l.request(k(1, 0, 0), 1);
    assert_eq!(l.next(), None);
    l.finish(k(1, 0, 0));
    assert!(!l.in_flight(k(1, 0, 0)));
    l.request(k(1, 0, 0), 1);
    assert_eq!(l.next(), Some(Job { priority: 1, key: k(1, 0, 0) }));
    assert!(l.in_flight(k(2, 1, 1)));
}
