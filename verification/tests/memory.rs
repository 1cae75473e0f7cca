use macvm::codecache::guard::{GuardState, JitAction, JitWriteGuard};
use macvm::memory::cards::{CardTable, CARD_CLEAN, CARD_DIRTY, CARD_SHIFT, CARD_SIZE};
use macvm::memory::layout::SpaceBounds;
use macvm::memory::reservation::{round_down, round_up, PageRange, Reservation};

const TABLE: usize = 0x7000_0000;

fn table(old_len: usize) -> CardTable {
    CardTable::new(SpaceBounds { start: 0x10_0000, end: 0x10_0000 + old_len }, TABLE)
}

#[test]
fn card_index_math() {
    let t = table(4 << 20);
    let base = 0x10_0000;
    assert_eq!(t.card_index(base), 0);
    assert_eq!(t.card_index(base + CARD_SIZE - 8), 0);
    assert_eq!(t.card_index(base + CARD_SIZE), 1);
    let last_card = t.n_cards() - 1;
    let last_slot = base + last_card * CARD_SIZE + CARD_SIZE - 8;
    assert_eq!(t.card_index(last_slot), last_card);
    assert_eq!(t.n_cards(), 8192);
    assert_eq!(t.card_base(1), base + 512);
    assert_eq!(1usize << CARD_SHIFT, CARD_SIZE);
}

#[test]
fn fresh_table_all_clean() {
    let t = table(4 << 20);
    for i in 0..t.n_cards() {
        assert!(!t.is_dirty(i), "card {i} should start clean");
    }
}

#[test]
fn a_table_has_at_least_one_card() {
    assert_eq!(table(0).n_cards(), 1);
    assert_eq!(table(1).n_cards(), 1);
    assert_eq!(table(513).n_cards(), 2);
}

#[test]
fn dirty_for_slot_and_set_clean() {
    let mut t = table(4 << 20);
    let base = 0x10_0000;
    let slot = base + 5 * CARD_SIZE + 16;
    assert!(!t.is_dirty(5));
    t.dirty_for_slot(slot);
    assert!(t.is_dirty(5));
    t.set_clean(5);
    assert!(!t.is_dirty(5));
}

#[test]
fn base_biased_lands_on_same_card_as_dirty_for_slot() {
    let mut t = table(4 << 20);
    let base = 0x10_0000;
    let slot = base + 3 * CARD_SIZE + 17;
    let biased_addr = t.base_biased() + ((slot as u64) >> CARD_SHIFT);
    assert_eq!(
        t.byte_at(biased_addr),
        CARD_CLEAN,
        "fresh table: the biased address must read back as clean before any dirty"
    );
    t.dirty_for_slot(slot);
    assert_eq!(
        t.byte_at(biased_addr),
        CARD_DIRTY,
        "base_biased()'s own arithmetic must land on the exact byte dirty_for_slot flips"
    );
}

#[test]
fn record_multistores_range() {
    let mut t = table(600 * CARD_SIZE);
    let base = 0x10_0000;

    t.record_multistores(base + 10 * CARD_SIZE, base + 10 * CARD_SIZE + 8);
    assert!(t.is_dirty(10));
    assert!(!t.is_dirty(9));
    assert!(!t.is_dirty(11));

    let s = base + 20 * CARD_SIZE + CARD_SIZE - 8;
    let e = s + 16;
    t.record_multistores(s, e);
    assert!(t.is_dirty(20));
    assert!(t.is_dirty(21));
    assert!(!t.is_dirty(22));

    let s2 = base + 30 * CARD_SIZE;
    let e2 = s2 + 513 * CARD_SIZE;
    t.record_multistores(s2, e2);
    for i in 30..30 + 513 {
        assert!(t.is_dirty(i), "card {i} should be dirty");
    }
    assert!(!t.is_dirty(30 + 513));
    t.record_multistores(base, base);
    assert!(!t.is_dirty(0));
}

#[test]
fn dirty_for_slot_isolates_card() {
    let mut t = table(4 << 20);
    let base = 0x10_0000;
    t.dirty_for_slot(base + 100 * CARD_SIZE + 256);
    for i in 0..t.n_cards() {
        let expected = i == 100;
        assert_eq!(t.is_dirty(i), expected, "card {i}");
    }
}

#[test]
fn round_trip_helpers() {
    assert_eq!(round_up(0, 16), 0);
    assert_eq!(round_up(1, 16), 16);
    assert_eq!(round_up(16, 16), 16);
    assert_eq!(round_down(17, 16), 16);
    assert_eq!(round_down(16, 16), 16);
}

#[test]
fn commits_are_by_pages() {
    let page = 16384usize;
    assert_eq!(Reservation::reserve_size(1, page), page);
    let r = Reservation::reserve(0x1_0000, 100_000, page);
    assert_eq!(r.base(), 0x1_0000);
    assert_eq!(r.size(), 7 * page);
    assert_eq!(r.commit(0, 1, page), Some(PageRange { addr: 0x1_0000, len: page }));
    assert_eq!(
        r.commit(page + 5, 2 * page, page),
        Some(PageRange { addr: 0x1_0000 + page, len: 3 * page })
    );
    assert_eq!(r.decommit(0, 4097, 4096), Some(PageRange { addr: 0x1_0000, len: 8192 }));
    let t = Reservation::test_heap(0x2_0000, 13);
    assert_eq!(t.size(), 16);
    assert_eq!(t.commit(0, 4096, page), None);
    assert_eq!(t.decommit(0, 4096, page), None);
    assert_eq!(t.base() % 8, 0);
    assert_eq!(t.commit(usize::MAX, usize::MAX, page), None);
    assert_eq!(t.decommit(usize::MAX, 1, page), None);
}

#[test]
fn a_window_closes_in_order() {
    let mut state = GuardState { depth: 0, acquires: 4, icache_bytes: u64::MAX };
    let mut actions = Vec::new();
    let mut g = JitWriteGuard::new(&mut state, &mut actions);
    assert_eq!(state.depth, 1);
    for i in 0..3usize {
        g.note(0x1000 * (i + 1), 8 + i);
    }
    g.close(&mut state, &mut actions);
    assert_eq!(
        actions,
        vec![
            JitAction::WriteProtect(false),
            JitAction::WriteProtect(true),
            JitAction::Invalidate { start: 0x1000, len: 8 },
            JitAction::Invalidate { start: 0x2000, len: 9 },
            JitAction::Invalidate { start: 0x3000, len: 10 },
        ]
    );
    assert_eq!(state, GuardState { depth: 0, acquires: 5, icache_bytes: 26 });
}
