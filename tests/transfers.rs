use component_bridge::error::BridgeError;
use component_bridge::memory::LinearMemory;
use component_bridge::paging::PAGE_SIZE;
use component_bridge::person::{foo, Person};
use component_bridge::state::{GlobalState, GrowCache};

fn record_at(mem: &LinearMemory, dest: u32) -> (u32, u32) {
    let r = mem.read(dest, 8).unwrap();
    (
        u32::from_le_bytes([r[0], r[1], r[2], r[3]]),
        u32::from_le_bytes([r[4], r[5], r[6], r[7]]),
    )
}

#[test]
fn payload_round_trips_through_guest_memory() {
    let mut state = GlobalState::new();
    let mut caller = LinearMemory::new(1, 16);
    let mut callee = LinearMemory::new(1, 16);
    let t = state.new_queue();
    caller.write(100, b"hello bridge").unwrap();
    state.put_guest_buffer(t, &caller, 100, 12).unwrap();
    let callee_name = "callee".to_string();
    let rb = state.read_guest_buffer(t, &callee_name, &mut callee, 0).unwrap();
    assert_eq!((rb.offset, rb.len), (PAGE_SIZE as usize, 12));
    assert_eq!(callee.size(), 2);
    assert_eq!(callee.read(rb.offset as u32, rb.len as u32).unwrap(), b"hello bridge".to_vec());
    assert_eq!(record_at(&callee, 0), (PAGE_SIZE, 12));
}

#[test]
fn growth_follows_the_cache_across_transfers() {
    let s: u32 = 3;
    let mut state = GlobalState::new();
    let mut mem = LinearMemory::new(s, 64);
    let name = "caller".to_string();
    let t = state.new_queue();
    state.put_buffer(t, vec![9]).unwrap();
    state.put_buffer(t, vec![5u8; 200000]).unwrap();
    let first = state.read_guest_buffer(t, &name, &mut mem, 8).unwrap();
    assert_eq!(mem.size(), s + 1);
    assert_eq!(state.get_cache(&name), Some(&GrowCache { offset: s, pages: 1 }));
    assert_eq!((first.offset, first.len), ((s * PAGE_SIZE) as usize, 1));
    let second = state.read_guest_buffer(t, &name, &mut mem, 8).unwrap();
    assert_eq!(mem.size(), s + 4);
    assert_eq!(state.get_cache(&name), Some(&GrowCache { offset: s, pages: 4 }));
    assert_eq!((second.offset, second.len), ((s * PAGE_SIZE) as usize, 200000));
    assert_eq!(mem.read(second.offset as u32, 200000).unwrap(), vec![5u8; 200000]);
    assert_eq!(record_at(&mem, 8), (s * PAGE_SIZE, 200000));
}

#[test]
fn shrinking_payloads_grow_memory_once() {
    let mut state = GlobalState::new();
    let mut mem = LinearMemory::new(2, 64);
    let name = "i".to_string();
    let t = state.new_queue();
    for n in [150000usize, 150000, 70000, 10, 0] {
        state.put_buffer(t, vec![1u8; n]).unwrap();
    }
    let mut sizes = Vec::new();
    for _ in 0..5 {
        state.read_guest_buffer(t, &name, &mut mem, 0).unwrap();
        sizes.push(mem.size());
    }
    assert_eq!(sizes, vec![5, 5, 5, 5, 5]);
    assert_eq!(state.get_cache(&name), Some(&GrowCache { offset: 2, pages: 3 }));
}

#[test]
fn each_instance_has_its_own_cache() {
    let mut state = GlobalState::new();
    let mut a = LinearMemory::new(1, 8);
    let mut b = LinearMemory::new(2, 8);
    let t = state.new_queue();
    state.put_buffer(t, vec![1]).unwrap();
    state.put_buffer(t, vec![2]).unwrap();
    state.read_guest_buffer(t, &"a".to_string(), &mut a, 0).unwrap();
    state.read_guest_buffer(t, &"b".to_string(), &mut b, 0).unwrap();
    assert_eq!(state.get_cache(&"a".to_string()), Some(&GrowCache { offset: 1, pages: 1 }));
    assert_eq!(state.get_cache(&"b".to_string()), Some(&GrowCache { offset: 2, pages: 1 }));
}

#[test]
fn put_outside_guest_memory_is_a_bounds_violation() {
    let mut state = GlobalState::new();
    let mem = LinearMemory::new(1, 1);
    let t = state.new_queue();
    assert_eq!(state.put_guest_buffer(t, &mem, 65530, 7), Err(BridgeError::BoundsViolation));
    assert_eq!(state.front_len(t), Err(BridgeError::EmptyQueue));
    assert_eq!(state.put_guest_buffer(t + 1, &mem, 0, 7), Err(BridgeError::UnknownTicket));
}

#[test]
fn read_with_record_outside_memory_keeps_the_buffer() {
    let mut state = GlobalState::new();
    let mut mem = LinearMemory::new(1, 4);
    let t = state.new_queue();
    state.put_buffer(t, vec![1, 2]).unwrap();
    let r = state.read_guest_buffer(t, &"g".to_string(), &mut mem, 65532);
    assert!(matches!(r, Err(BridgeError::BoundsViolation)));
    assert_eq!(state.front_len(t), Ok(2));
    assert_eq!(mem.size(), 1);
}

#[test]
fn read_from_empty_queue_fails() {
    let mut state = GlobalState::new();
    let mut mem = LinearMemory::new(1, 4);
    let t = state.new_queue();
    let r = state.read_guest_buffer(t, &"g".to_string(), &mut mem, 0);
    assert!(matches!(r, Err(BridgeError::EmptyQueue)));
    let r = state.read_guest_buffer(t + 5, &"g".to_string(), &mut mem, 0);
    assert!(matches!(r, Err(BridgeError::UnknownTicket)));
    assert_eq!(mem.size(), 1);
}

#[test]
fn growth_refused_by_memory_fails_the_read() {
    let mut state = GlobalState::new();
    let mut mem = LinearMemory::new(1, 1);
    let t = state.new_queue();
    state.put_buffer(t, vec![1, 2]).unwrap();
    let r = state.read_guest_buffer(t, &"g".to_string(), &mut mem, 0);
    assert!(matches!(r, Err(BridgeError::GrowthFailed)));
    assert_eq!(state.get_cache(&"g".to_string()), None);
    assert_eq!(mem.size(), 1);
}

#[test]
fn foo_replaces_the_age() {
    let p = foo(Person { name: "John".to_string(), age: 18 }, 20);
    assert_eq!(p.name, "John");
    assert_eq!(p.age, 20);
}
