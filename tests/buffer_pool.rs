use buffer_pool::buffer_pool_manager::{BufferPoolManager, BufferPoolManagerInstance};
use buffer_pool::common::{FrameId, PageId, TxnId, INVALID_PAGE_ID, PAGE_SIZE};
use buffer_pool::disk::{log_file_name, MemoryDisk, PageStore};
use buffer_pool::lru_replacer::LRUReplacer;
use buffer_pool::page::{Page, TablePage};
use buffer_pool::replacer::Replacer;

fn filled(b: u8) -> Vec<u8> {
    vec![b; PAGE_SIZE]
}

/// A store holding `n` pages, page `i` filled with byte `i`.
fn disk_with(n: usize) -> MemoryDisk {
    let mut d = MemoryDisk::new();
    for i in 0..n {
        d.write_page(PageId::new(i as isize), &filled(i as u8));
    }
    d
}

fn resident(bpm: &BufferPoolManagerInstance<MemoryDisk>, p: isize) -> bool {
    (0..bpm.get_pool_size()).any(|i| bpm.get_page(FrameId::new(i as isize)).get_page_id().as_int == p)
}

#[test]
fn ids_keep_their_value() {
    assert_eq!(FrameId::new(3).as_int, 3);
    assert_eq!(PageId::new(7).as_int, 7);
    assert_eq!(TxnId::new(-2).as_int, -2);
    assert_eq!(PageId::invalid().as_int, INVALID_PAGE_ID);
}

#[test]
fn new_page_frame_is_empty() {
    let p = Page::new();
    assert_eq!(p.get_page_id().as_int, INVALID_PAGE_ID);
    assert_eq!(p.get_pin_count(), 0);
    assert!(!p.is_dirty());
    assert_eq!(p.get_data().len(), PAGE_SIZE);
    assert!(p.get_data().iter().all(|b| *b == 0));
    assert_eq!(p.as_page().get_pin_count(), 0);
}

#[test]
fn reset_memory_zeroes_bytes() {
    let mut p = Page::new();
    p.reset_memory();
    assert!(p.get_data().iter().all(|b| *b == 0));
    assert_eq!(p.get_page_id().as_int, INVALID_PAGE_ID);
}

#[test]
fn lru_victim_is_least_recently_unpinned() {
    let mut r = LRUReplacer::new();
    assert_eq!(r.victim(), None);
    r.unpin(FrameId::new(1));
    r.unpin(FrameId::new(2));
    r.unpin(FrameId::new(3));
    assert_eq!(r.size(), 3);
    assert_eq!(r.victim(), Some(FrameId::new(1)));
    assert_eq!(r.victim(), Some(FrameId::new(2)));
    assert_eq!(r.size(), 1);
}

#[test]
fn lru_unpin_twice_has_no_duplicate_effect() {
    let mut r = LRUReplacer::new();
    r.unpin(FrameId::new(4));
    r.unpin(FrameId::new(5));
    r.unpin(FrameId::new(4));
    assert_eq!(r.size(), 2);
    assert_eq!(r.victim(), Some(FrameId::new(4)));
}

#[test]
fn lru_pin_removes_candidate() {
    let mut r = LRUReplacer::new();
    r.unpin(FrameId::new(0));
    r.unpin(FrameId::new(1));
    r.pin(FrameId::new(0));
    r.pin(FrameId::new(9));
    assert_eq!(r.size(), 1);
    assert_eq!(r.victim(), Some(FrameId::new(1)));
    assert_eq!(r.victim(), None);
    assert_eq!(r.size(), 0);
}

#[test]
fn memory_disk_round_trip_and_counters() {
    let mut d = MemoryDisk::new();
    d.write_page(PageId::new(0), &filled(7));
    let mut buf = Vec::new();
    d.read_page(PageId::new(0), &mut buf);
    assert_eq!(buf, filled(7));
    assert_eq!(d.get_num_writes(), 1);
    assert_eq!(d.get_num_reads(), 1);
}

#[test]
fn memory_disk_write_past_end_zero_fills() {
    let mut d = MemoryDisk::new();
    d.write_page(PageId::new(2), &filled(9));
    assert_eq!(d.num_pages(), 3);
    let mut buf = Vec::new();
    d.read_page(PageId::new(1), &mut buf);
    assert_eq!(buf, filled(0));
    d.read_page(PageId::new(2), &mut buf);
    assert_eq!(buf, filled(9));
}

#[test]
fn memory_disk_log_appends() {
    let mut d = MemoryDisk::new();
    d.write_log(b"first");
    d.write_log(b"second");
    let mut out = b"x".to_vec();
    d.read_log(&mut out);
    assert_eq!(out, b"xfirstsecond".to_vec());
    assert_eq!(d.get_num_flushes(), 2);
}

#[test]
fn log_name_replaces_last_extension() {
    assert_eq!(log_file_name(b"test.db"), Some(b"test.log".to_vec()));
    assert_eq!(log_file_name(b"a.b.db"), Some(b"a.b.log".to_vec()));
    assert_eq!(log_file_name(b"nodot"), None);
}

#[test]
fn pool_size_is_reported() {
    let bpm = BufferPoolManagerInstance::new(5, MemoryDisk::new());
    assert_eq!(bpm.get_pool_size(), 5);
}

#[test]
fn fetch_hit_increments_pin_count() {
    let mut bpm = BufferPoolManagerInstance::new(2, disk_with(2));
    let f = bpm.fetch_pg_imp(PageId::new(1)).unwrap();
    let g = bpm.fetch_pg_imp(PageId::new(1)).unwrap();
    assert_eq!(f, g);
    assert_eq!(bpm.get_page(f).get_pin_count(), 2);
    assert_eq!(bpm.get_page(f).get_data(), &filled(1));
    assert_eq!(bpm.disk().get_num_reads(), 1);
}

#[test]
fn scenario_pool_exhausted_then_evicts() {
    let mut bpm = BufferPoolManagerInstance::new(2, disk_with(4));
    assert_eq!(bpm.fetch_pg_imp(PageId::new(1)), Some(FrameId::new(0)));
    assert_eq!(bpm.fetch_pg_imp(PageId::new(2)), Some(FrameId::new(1)));
    assert_eq!(bpm.fetch_pg_imp(PageId::new(3)), None);
    assert!(bpm.unpin_pg_imp(PageId::new(1), false));
    assert_eq!(bpm.fetch_pg_imp(PageId::new(3)), Some(FrameId::new(0)));
    assert!(!resident(&bpm, 1));
    assert!(bpm.unpin_pg_imp(PageId::new(2), false));
    let reads = bpm.disk().get_num_reads();
    let f = bpm.fetch_pg_imp(PageId::new(1)).unwrap();
    assert_eq!(bpm.disk().get_num_reads(), reads + 1);
    assert_eq!(bpm.get_page(f).get_data(), &filled(1));
}

#[test]
fn fetch_unpin_cycle_evicts_least_recent_once() {
    let mut bpm = BufferPoolManagerInstance::new(3, disk_with(4));
    for p in 0..4 {
        assert!(bpm.fetch_pg_imp(PageId::new(p)).is_some());
        assert!(bpm.unpin_pg_imp(PageId::new(p), false));
    }
    assert!(!resident(&bpm, 0));
    assert!(resident(&bpm, 1));
    assert!(resident(&bpm, 2));
    assert!(resident(&bpm, 3));
    assert_eq!(bpm.disk().get_num_writes(), 4);
}

#[test]
fn unpin_misuse_returns_false() {
    let mut bpm = BufferPoolManagerInstance::new(2, disk_with(1));
    assert!(!bpm.unpin_pg_imp(PageId::new(0), false));
    let f = bpm.fetch_pg_imp(PageId::new(0)).unwrap();
    assert!(bpm.unpin_pg_imp(PageId::new(0), true));
    assert!(!bpm.unpin_pg_imp(PageId::new(0), false));
    assert_eq!(bpm.get_page(f).get_pin_count(), 0);
    assert!(bpm.get_page(f).is_dirty());
}

#[test]
fn new_page_round_trips_through_eviction() {
    let mut bpm = BufferPoolManagerInstance::new(2, MemoryDisk::new());
    let f = bpm.new_pg_imp().unwrap();
    let id = bpm.get_page(f).get_page_id();
    assert_eq!(id.as_int, 0);
    assert!(bpm.get_page(f).is_dirty());
    assert!(bpm.write_page_data(f, &filled(42)));
    assert!(bpm.flush_pg_imp(id));
    assert!(!bpm.get_page(f).is_dirty());
    assert!(bpm.unpin_pg_imp(id, false));
    for _ in 0..2 {
        let g = bpm.new_pg_imp().unwrap();
        let other = bpm.get_page(g).get_page_id();
        assert!(bpm.unpin_pg_imp(other, false));
    }
    assert!(!resident(&bpm, 0));
    let h = bpm.fetch_pg_imp(id).unwrap();
    assert_eq!(bpm.get_page(h).get_data(), &filled(42));
}

#[test]
fn dirty_victim_is_written_back() {
    let mut bpm = BufferPoolManagerInstance::new(1, disk_with(2));
    let f = bpm.fetch_pg_imp(PageId::new(0)).unwrap();
    assert!(bpm.write_page_data(f, &filled(77)));
    assert!(bpm.unpin_pg_imp(PageId::new(0), true));
    assert!(bpm.fetch_pg_imp(PageId::new(1)).is_some());
    assert!(bpm.unpin_pg_imp(PageId::new(1), false));
    let g = bpm.fetch_pg_imp(PageId::new(0)).unwrap();
    assert_eq!(bpm.get_page(g).get_data(), &filled(77));
}

#[test]
fn write_page_data_requires_pin() {
    let mut bpm = BufferPoolManagerInstance::new(1, disk_with(1));
    assert!(!bpm.write_page_data(FrameId::new(0), &filled(1)));
    bpm.fetch_pg_imp(PageId::new(0)).unwrap();
    bpm.unpin_pg_imp(PageId::new(0), false);
    assert!(!bpm.write_page_data(FrameId::new(0), &filled(1)));
}

#[test]
fn delete_pinned_fails_then_succeeds() {
    let mut bpm = BufferPoolManagerInstance::new(2, disk_with(2));
    let f = bpm.fetch_pg_imp(PageId::new(1)).unwrap();
    assert!(!bpm.delete_pg_imp(PageId::new(1)));
    assert!(resident(&bpm, 1));
    assert_eq!(bpm.get_page(f).get_pin_count(), 1);
    assert!(bpm.unpin_pg_imp(PageId::new(1), false));
    assert!(bpm.delete_pg_imp(PageId::new(1)));
    assert!(!resident(&bpm, 1));
    assert_eq!(bpm.get_page(f).get_page_id().as_int, INVALID_PAGE_ID);
    let reads = bpm.disk().get_num_reads();
    assert!(bpm.fetch_pg_imp(PageId::new(1)).is_some());
    assert_eq!(bpm.disk().get_num_reads(), reads + 1);
}

#[test]
fn delete_absent_page_succeeds() {
    let mut bpm = BufferPoolManagerInstance::new(2, disk_with(1));
    assert!(bpm.delete_pg_imp(PageId::new(5)));
}

#[test]
fn flush_absent_page_fails() {
    let mut bpm = BufferPoolManagerInstance::new(2, disk_with(1));
    assert!(!bpm.flush_pg_imp(PageId::new(0)));
    assert_eq!(bpm.disk().get_num_writes(), 1);
}

#[test]
fn new_page_fails_when_all_pinned() {
    let mut bpm = BufferPoolManagerInstance::new(2, disk_with(3));
    let a = bpm.new_pg_imp().unwrap();
    let b = bpm.new_pg_imp().unwrap();
    assert_eq!(bpm.get_page(a).get_page_id().as_int, 3);
    assert_eq!(bpm.get_page(b).get_page_id().as_int, 4);
    assert!(bpm.new_pg_imp().is_none());
    assert!(bpm.fetch_pg_imp(PageId::new(0)).is_none());
}

#[test]
fn flush_all_survives_restart() {
    let mut bpm = BufferPoolManagerInstance::new(3, MemoryDisk::new());
    let mut ids = Vec::new();
    for b in 0..3u8 {
        let f = bpm.new_pg_imp().unwrap();
        assert!(bpm.write_page_data(f, &filled(b + 10)));
        ids.push(bpm.get_page(f).get_page_id());
    }
    bpm.flush_all_pgs_imp();
    for i in 0..3 {
        assert!(!bpm.get_page(FrameId::new(i)).is_dirty());
    }
    let disk = bpm.into_disk();
    let mut again = BufferPoolManagerInstance::new(3, disk);
    for (k, id) in ids.iter().enumerate() {
        let f = again.fetch_pg_imp(*id).unwrap();
        assert_eq!(again.get_page(f).get_data(), &filled(k as u8 + 10));
        assert!(again.unpin_pg_imp(*id, false));
    }
    let f = again.new_pg_imp().unwrap();
    assert_eq!(again.get_page(f).get_page_id().as_int, 3);
}
