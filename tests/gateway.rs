use w_kiva_moe::gateway::{RedirectEntry, VideoGateway};
use w_kiva_moe::pool::FreePool;

fn s(x: &str) -> String {
    x.to_string()
}

#[test]
fn scenario_two_slots_reuse_first_released() {
    let mut g = VideoGateway::new(2, 100);
    assert_eq!(g.create_redirect(s("a"), 0), Some(1));
    assert_eq!(g.create_redirect(s("b"), 0), Some(2));
    assert_eq!(g.create_redirect(s("c"), 0), None);
    // 150 ms later, plus one sweep
    g.tick(150);
    g.tick(160);
    assert_eq!(g.free_count(), 2);
    assert_eq!(g.create_redirect(s("c"), 160), Some(1));
    assert_eq!(g.get_redirect(1, 160), Some(s("c")));
}

#[test]
fn exhaustion_hands_out_distinct_ids_then_fails() {
    let n: u32 = 5;
    let mut g = VideoGateway::new(n, 1000);
    let mut got = Vec::new();
    for k in 0..n {
        let id = g.create_redirect(format!("u{}", k), 0);
        assert_eq!(id, Some(k + 1));
        got.push(id.unwrap());
    }
    got.sort();
    got.dedup();
    assert_eq!(got.len(), n as usize);
    assert_eq!(g.create_redirect(s("x"), 0), None);
    assert_eq!(g.free_count(), 0);
    assert_eq!(g.active_len(), n as usize);
}

#[test]
fn unknown_slot_read_is_not_found_and_touch_is_noop() {
    let mut g = VideoGateway::new(3, 100);
    assert_eq!(g.get_redirect(2, 0), None);
    assert_eq!(g.get_redirect(0, 0), None);
    assert_eq!(g.get_redirect(99, 0), None);
    g.touch_redirect_slot(2, 0);
    g.touch_redirect_slot(99, 0);
    assert_eq!(g.free_count(), 3);
    assert_eq!(g.active_len(), 0);
    assert_eq!(g.create_redirect(s("a"), 0), Some(1));
}

#[test]
fn conservation_across_operations() {
    let mut g = VideoGateway::new(4, 50);
    let n = 4usize;
    assert_eq!(g.free_count() + g.active_len(), n);
    g.create_redirect(s("a"), 0);
    g.create_redirect(s("b"), 10);
    assert_eq!(g.free_count() + g.active_len(), n);
    g.touch_redirect_slot(1, 20);
    assert_eq!(g.free_count() + g.active_len(), n);
    g.tick(60);
    assert_eq!(g.free_count() + g.active_len(), n);
    g.remove_redirect(1);
    assert_eq!(g.free_count() + g.active_len(), n);
    assert_eq!(g.free_count(), 4);
}

#[test]
fn repeated_touch_does_not_leak() {
    let mut g = VideoGateway::new(3, 100);
    g.create_redirect(s("a"), 0);
    for t in 0..10u64 {
        g.touch_redirect_slot(1, t * 5);
        assert_eq!(g.free_count(), 2);
        assert_eq!(g.active_len(), 1);
    }
    assert_eq!(g.get_redirect(1, 120), Some(s("a")));
}

#[test]
fn expired_entry_is_reclaimed_by_sweep() {
    let mut g = VideoGateway::new(1, 100);
    assert_eq!(g.create_redirect(s("a"), 0), Some(1));
    // dead but not yet swept: unreadable, still occupying its slot
    assert_eq!(g.get_redirect(1, 100), None);
    assert_eq!(g.create_redirect(s("b"), 100), None);
    g.tick(100);
    assert_eq!(g.free_count(), 1);
    assert_eq!(g.active_len(), 0);
    assert_eq!(g.create_redirect(s("b"), 101), Some(1));
}

#[test]
fn touch_defers_reclaim() {
    let mut g = VideoGateway::new(2, 100);
    g.create_redirect(s("a"), 0);
    g.touch_redirect_slot(1, 90);
    g.tick(100);
    assert_eq!(g.free_count(), 1);
    assert_eq!(g.get_redirect(1, 150), Some(s("a")));
    g.tick(189);
    assert_eq!(g.free_count(), 1);
    g.tick(190);
    assert_eq!(g.free_count(), 2);
    assert_eq!(g.get_redirect(1, 190), None);
}

#[test]
fn touch_after_expiry_is_noop() {
    let mut g = VideoGateway::new(2, 100);
    g.create_redirect(s("a"), 0);
    g.touch_redirect_slot(1, 100);
    assert_eq!(g.get_redirect(1, 100), None);
    g.tick(100);
    assert_eq!(g.free_count(), 2);
}

#[test]
fn sweep_releases_in_increasing_id_order() {
    let mut g = VideoGateway::new(3, 100);
    g.create_redirect(s("a"), 0);
    g.create_redirect(s("b"), 0);
    g.create_redirect(s("c"), 50);
    g.tick(100);
    assert_eq!(g.create_redirect(s("d"), 100), Some(1));
    assert_eq!(g.create_redirect(s("e"), 100), Some(2));
    assert_eq!(g.create_redirect(s("f"), 100), None);
}

#[test]
fn explicit_remove_returns_id_to_tail() {
    let mut g = VideoGateway::new(3, 1000);
    g.create_redirect(s("a"), 0);
    g.create_redirect(s("b"), 0);
    g.remove_redirect(1);
    assert_eq!(g.get_redirect(1, 0), None);
    assert_eq!(g.create_redirect(s("c"), 0), Some(3));
    assert_eq!(g.create_redirect(s("d"), 0), Some(1));
    assert_eq!(g.create_redirect(s("e"), 0), None);
    g.remove_redirect(7);
    assert_eq!(g.free_count(), 0);
}

#[test]
fn snapshot_lists_live_entries_in_order() {
    let mut g = VideoGateway::new(3, 100);
    g.create_redirect(s("a"), 0);
    g.create_redirect(s("b"), 50);
    g.create_redirect(s("c"), 10);
    let all: Vec<RedirectEntry> = g.get_all_redirect(100).unwrap();
    let pairs: Vec<(u32, String)> = all.into_iter().map(|e| (e.slot_id, e.url)).collect();
    assert_eq!(pairs, vec![(2, s("b")), (3, s("c"))]);
    assert!(VideoGateway::new(2, 10).get_all_redirect(0).unwrap().is_empty());
}

#[test]
fn batch_touch_skips_unknown_ids() {
    let mut g = VideoGateway::new(3, 100);
    g.create_redirect(s("a"), 0);
    g.create_redirect(s("b"), 0);
    g.batch_touch(&vec![2, 9, 0, 2], 60);
    g.tick(100);
    assert_eq!(g.get_redirect(1, 100), None);
    assert_eq!(g.get_redirect(2, 100), Some(s("b")));
    assert_eq!(g.free_count(), 2);
}

#[test]
fn zero_capacity_pool_is_always_exhausted() {
    let mut g = VideoGateway::new(0, 100);
    assert_eq!(g.create_redirect(s("a"), 0), None);
    g.tick(1000);
    assert_eq!(g.free_count(), 0);
}

#[test]
fn expiry_saturates_at_clock_end() {
    let mut g = VideoGateway::new(1, u64::MAX);
    assert_eq!(g.create_redirect(s("a"), 10), Some(1));
    assert_eq!(g.get_redirect(1, u64::MAX - 1), Some(s("a")));
    g.tick(u64::MAX);
    assert_eq!(g.free_count(), 1);
}

#[test]
fn free_pool_is_fifo() {
    let mut p = FreePool::new(3);
    assert_eq!(p.len(), 3);
    assert_eq!(p.acquire(), Some(1));
    p.release(1);
    assert_eq!(p.acquire(), Some(2));
    assert_eq!(p.acquire(), Some(3));
    assert_eq!(p.acquire(), Some(1));
    assert_eq!(p.acquire(), None);
}

#[test]
fn batch_touch_leaves_expired_entry_dead() {
    let mut g = VideoGateway::new(2, 100);
    g.create_redirect(s("a"), 0);
    g.create_redirect(s("b"), 50);
    // slot 1 has expired but no sweep has run yet
    g.batch_touch(&vec![1, 2], 120);
    assert_eq!(g.get_redirect(1, 120), None);
    assert_eq!(g.get_redirect(2, 200), Some(s("b")));
    g.tick(120);
    assert_eq!(g.free_count(), 1);
    assert_eq!(g.create_redirect(s("c"), 120), Some(1));
}
