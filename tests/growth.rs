use component_bridge::error::BridgeError;
use component_bridge::memory::LinearMemory;
use component_bridge::paging::{check_range, pages_needed, MAX_PAGES, PAGE_SIZE};
use component_bridge::state::{GlobalState, GrowCache};
use component_bridge::write_back::{ReadBuf, WriteBack};

#[test]
fn pages_needed_rounds_up_with_one_page_minimum() {
    assert_eq!(PAGE_SIZE, 65536);
    assert_eq!(pages_needed(0), 1);
    assert_eq!(pages_needed(1), 1);
    assert_eq!(pages_needed(65535), 1);
    assert_eq!(pages_needed(65536), 1);
    assert_eq!(pages_needed(65537), 2);
    assert_eq!(pages_needed(200000), 4);
    assert_eq!(pages_needed(u32::MAX), MAX_PAGES);
}

#[test]
fn check_range_accepts_exactly_the_ranges_inside() {
    assert_eq!(check_range(1, 0, 65536), Ok(()));
    assert_eq!(check_range(1, 65535, 1), Ok(()));
    assert_eq!(check_range(1, 65535, 2), Err(BridgeError::BoundsViolation));
    assert_eq!(check_range(0, 0, 0), Ok(()));
    assert_eq!(check_range(0, 0, 1), Err(BridgeError::BoundsViolation));
    assert_eq!(check_range(2, u32::MAX, u32::MAX), Err(BridgeError::BoundsViolation));
}

#[test]
fn cache_entries_are_kept_per_instance() {
    let mut state = GlobalState::new();
    let a = "a".to_string();
    let b = "b".to_string();
    assert_eq!(state.get_cache(&a), None);
    state.update_cache(a.clone(), 3, 1);
    assert_eq!(state.get_cache(&a), Some(&GrowCache { offset: 3, pages: 1 }));
    assert_eq!(state.get_cache(&b), None);
    state.update_cache(b.clone(), 7, 2);
    state.update_cache(a.clone(), 3, 4);
    assert_eq!(state.get_cache(&a), Some(&GrowCache { offset: 3, pages: 4 }));
    assert_eq!(state.get_cache(&b), Some(&GrowCache { offset: 7, pages: 2 }));
}

#[test]
fn plan_grows_once_then_extends_from_the_same_base() {
    let s: u32 = 17;
    let mut state = GlobalState::new();
    let inst = "caller".to_string();
    let first = state.plan_write_back(&inst, s, 1).unwrap();
    assert_eq!(
        first,
        WriteBack { offset: s * PAGE_SIZE, len: 1, grow_pages: 1, entry: GrowCache { offset: s, pages: 1 } }
    );
    let rb = state.finish_read_buffer(inst.clone(), first, true).unwrap();
    assert_eq!((rb.offset, rb.len), ((s * PAGE_SIZE) as usize, 1));
    assert_eq!(state.get_cache(&inst), Some(&GrowCache { offset: s, pages: 1 }));
    let second = state.plan_write_back(&inst, s + 1, 200000).unwrap();
    assert_eq!(
        second,
        WriteBack { offset: s * PAGE_SIZE, len: 200000, grow_pages: 3, entry: GrowCache { offset: s, pages: 4 } }
    );
    state.finish_read_buffer(inst.clone(), second, true).unwrap();
    assert_eq!(state.get_cache(&inst), Some(&GrowCache { offset: s, pages: 4 }));
    let third = state.plan_write_back(&inst, s + 4, 10).unwrap();
    assert_eq!(third.grow_pages, 0);
    assert_eq!(third.offset, s * PAGE_SIZE);
}

#[test]
fn failed_growth_leaves_the_cache_alone() {
    let mut state = GlobalState::new();
    let inst = "i".to_string();
    let plan = state.plan_write_back(&inst, 2, 5).unwrap();
    let r = state.finish_read_buffer(inst.clone(), plan, false);
    assert!(matches!(r, Err(BridgeError::GrowthFailed)));
    assert_eq!(state.get_cache(&inst), None);
}

#[test]
fn plan_refuses_growth_past_the_largest_memory() {
    let state = GlobalState::new();
    let inst = "i".to_string();
    assert_eq!(state.plan_write_back(&inst, MAX_PAGES, 1), Err(BridgeError::GrowthFailed));
    assert_eq!(state.plan_write_back(&inst, MAX_PAGES - 1, 65537), Err(BridgeError::GrowthFailed));
    assert!(state.plan_write_back(&inst, MAX_PAGES - 1, 65536).is_ok());
}

#[test]
fn plan_refuses_a_cached_region_outside_memory() {
    let mut state = GlobalState::new();
    let inst = "i".to_string();
    state.update_cache(inst.clone(), 4, 2);
    assert_eq!(state.plan_write_back(&inst, 5, 1), Err(BridgeError::BoundsViolation));
    assert!(state.plan_write_back(&inst, 6, 1).is_ok());
}

#[test]
fn record_is_two_little_endian_words() {
    let rb = ReadBuf { offset: 0x0102_0304, len: 0xA0B0_C0D0 };
    assert_eq!(rb.to_le_bytes(), vec![4, 3, 2, 1, 0xD0, 0xC0, 0xB0, 0xA0]);
    let rb = ReadBuf { offset: 65536, len: 1 };
    assert_eq!(rb.to_le_bytes(), vec![0, 0, 1, 0, 1, 0, 0, 0]);
}

#[test]
fn linear_memory_grows_reads_and_writes_in_bounds() {
    let mut mem = LinearMemory::new(1, 3);
    assert_eq!(mem.size(), 1);
    assert_eq!(mem.write(65534, &[7, 8]), Ok(()));
    assert_eq!(mem.read(65534, 2).unwrap(), vec![7, 8]);
    assert_eq!(mem.write(65535, &[7, 8]), Err(BridgeError::BoundsViolation));
    assert_eq!(mem.read(65535, 2), Err(BridgeError::BoundsViolation));
    assert_eq!(mem.grow(2), Ok(1));
    assert_eq!(mem.size(), 3);
    assert_eq!(mem.read(65535, 3).unwrap(), vec![8, 0, 0]);
    assert_eq!(mem.grow(1), Err(BridgeError::GrowthFailed));
    assert_eq!(mem.size(), 3);
}
