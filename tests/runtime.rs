use guest_runtime::array::{count_by_enumerating, count_by_enumerating_in_guest, from_va_args, from_vec, to_vec};
use guest_runtime::enumeration::{enumerate_all, enumerate_chunk, FastEnumState};
use guest_runtime::error::Fatal;
use guest_runtime::memory::GuestMemory;
use guest_runtime::registry::{MethodEntry, Registry};
use guest_runtime::runtime::{drain_order, Runtime};
use guest_runtime::store::{HostBlob, ObjectStore, NIL};
use guest_runtime::varargs::{collect_va_args, VaList};

const NS_OBJECT: u64 = 1;
const NS_ARRAY: u64 = 2;
const SEL_DESCRIBE: u64 = 100;
const SEL_COUNT: u64 = 101;
const SEL_ALLOC: u64 = 102;

fn entry(selector: u64, imp: u64) -> MethodEntry {
    MethodEntry { selector, imp }
}

/// Class 0 is a root with `describe`; class 1 is an array class under it.
fn basic_runtime() -> Runtime {
    let mut reg = Registry::new();
    let root = reg
        .register_class(NS_OBJECT, None, vec![entry(SEL_DESCRIBE, 10)], vec![entry(SEL_ALLOC, 11)], false)
        .unwrap();
    assert_eq!(root, 0);
    let arr = reg
        .register_class(NS_ARRAY, Some(root), vec![entry(SEL_COUNT, 20)], vec![], true)
        .unwrap();
    assert_eq!(arr, 1);
    Runtime::new(reg)
}

fn words(ws: &[u32]) -> GuestMemory {
    let mut bytes = Vec::new();
    for w in ws {
        bytes.extend_from_slice(&w.to_le_bytes());
    }
    GuestMemory::from_bytes(bytes)
}

#[test]
fn retain_autorelease_release_pop_deallocates() {
    let mut rt = basic_runtime();
    let a = rt.alloc_object(0, HostBlob::Plain).unwrap();
    assert_eq!(rt.store().retain_count(a), 1);
    assert_eq!(rt.retain(a), Ok(a));
    assert_eq!(rt.store().retain_count(a), 2);
    rt.push_pool();
    assert_eq!(rt.autorelease(a), Ok(a));
    assert_eq!(rt.release(a), Ok(()));
    assert_eq!(rt.store().retain_count(a), 1);
    assert!(rt.store().is_alive(a));
    assert_eq!(rt.pop_pool(), Ok(vec![a]));
    assert!(!rt.store().is_alive(a));
    assert_eq!(to_vec(&rt, a), Err(Fatal::DeadObject));
    assert_eq!(rt.retain(a), Err(Fatal::DeadObject));
    assert_eq!(rt.release(a), Err(Fatal::DeadObject));
}

#[test]
fn super_send_runs_derived_then_base_once_each() {
    const BASE_DESCRIBE: u64 = 1000;
    const DERIVED_DESCRIBE: u64 = 1001;
    let mut reg = Registry::new();
    let base = reg.register_class(10, None, vec![entry(SEL_DESCRIBE, BASE_DESCRIBE)], vec![], false).unwrap();
    let derived = reg
        .register_class(11, Some(base), vec![entry(SEL_DESCRIBE, DERIVED_DESCRIBE)], vec![], false)
        .unwrap();
    let mut rt = Runtime::new(reg);
    let obj = rt.alloc_object(derived, HostBlob::Plain).unwrap();

    let mut log: Vec<&str> = Vec::new();
    let mut pending = vec![rt.send(obj, SEL_DESCRIBE).unwrap().unwrap()];
    while let Some(imp) = pending.pop() {
        match imp {
            DERIVED_DESCRIBE => {
                log.push("Derived");
                pending.push(rt.send_super(derived, SEL_DESCRIBE, false).unwrap());
            }
            BASE_DESCRIBE => log.push("Base"),
            _ => unreachable!(),
        }
    }
    assert_eq!(log, vec!["Derived", "Base"]);
}

#[test]
fn resolve_finds_nearest_ancestor() {
    let mut reg = Registry::new();
    let a = reg.register_class(1, None, vec![entry(5, 50), entry(6, 60)], vec![entry(7, 70)], false).unwrap();
    let b = reg.register_class(2, Some(a), vec![entry(5, 51)], vec![], false).unwrap();
    let c = reg.register_class(3, Some(b), vec![entry(8, 80)], vec![], false).unwrap();
    assert_eq!(reg.resolve(c, 5, false), Some(51));
    assert_eq!(reg.resolve(c, 6, false), Some(60));
    assert_eq!(reg.resolve(c, 8, false), Some(80));
    assert_eq!(reg.resolve(c, 9, false), None);
    assert_eq!(reg.resolve(c, 7, true), Some(70));
    assert_eq!(reg.resolve(c, 7, false), None);
    assert_eq!(reg.resolve(a, 5, false), Some(50));
    // A super send from B skips B's own entry.
    assert_eq!(reg.resolve_super(b, 5, false), Some(50));
    assert_eq!(reg.resolve_super(c, 5, false), Some(51));
    assert_eq!(reg.resolve_super(a, 5, false), None);
}

#[test]
fn first_row_of_a_table_wins() {
    let mut reg = Registry::new();
    let a = reg.register_class(1, None, vec![entry(5, 50), entry(5, 99)], vec![], false).unwrap();
    assert_eq!(reg.resolve(a, 5, false), Some(50));
}

#[test]
fn registration_is_idempotent_and_detects_conflicts() {
    let mut reg = Registry::new();
    let a = reg.register_class(1, None, vec![entry(5, 50)], vec![], false).unwrap();
    let b = reg.register_class(2, Some(a), vec![], vec![], true).unwrap();
    assert_eq!(reg.register_class(2, Some(a), vec![], vec![], true), Ok(b));
    assert_eq!(reg.len(), 2);
    assert_eq!(reg.register_class(2, None, vec![], vec![], true), Err(Fatal::ConflictingRegistration));
    assert_eq!(reg.register_class(1, None, vec![entry(5, 51)], vec![], false), Err(Fatal::ConflictingRegistration));
    assert_eq!(reg.register_class(3, Some(7), vec![], vec![], false), Err(Fatal::UnknownClass));
    assert_eq!(reg.len(), 2);
    assert_eq!(reg.find_class(2), Some(b));
    assert_eq!(reg.find_class(3), None);
    assert_eq!(reg.superclass_of(b), Some(a));
    assert!(reg.has_state(b));
}

#[test]
fn deallocation_happens_once_when_releases_balance_retains() {
    let mut store = ObjectStore::new();
    let r = store.allocate(0, HostBlob::Plain).unwrap();
    for _ in 0..3 {
        store.retain(r).unwrap();
    }
    assert_eq!(store.retain_count(r), 4);
    let mut deallocations = 0;
    for _ in 0..4 {
        if store.release(r).unwrap().is_some() {
            deallocations += 1;
        }
    }
    assert_eq!(deallocations, 1);
    assert!(!store.is_alive(r));
    assert_eq!(store.release(r).unwrap_err(), Fatal::DeadObject);
}

#[test]
fn identities_are_never_reused() {
    let mut store = ObjectStore::new();
    let a = store.allocate(0, HostBlob::Plain).unwrap();
    assert!(store.release(a).unwrap().is_some());
    let b = store.allocate(0, HostBlob::Plain).unwrap();
    assert_ne!(a, b);
    assert_ne!(a, NIL);
    assert!(!store.is_alive(a));
    assert!(store.deallocate(b).is_ok());
    assert_eq!(store.deallocate(b).unwrap_err(), Fatal::DeadObject);
}

#[test]
fn retain_and_release_of_nil_do_nothing() {
    let mut rt = basic_runtime();
    assert_eq!(rt.retain(NIL), Ok(NIL));
    assert_eq!(rt.release(NIL), Ok(()));
    assert_eq!(rt.autorelease(NIL), Ok(NIL));
}

#[test]
fn pools_drain_in_reverse_and_nest() {
    let mut rt = basic_runtime();
    let a = rt.alloc_object(0, HostBlob::Plain).unwrap();
    let b = rt.alloc_object(0, HostBlob::Plain).unwrap();
    let c = rt.alloc_object(0, HostBlob::Plain).unwrap();
    let d = rt.alloc_object(0, HostBlob::Plain).unwrap();
    rt.push_pool();
    rt.autorelease(a).unwrap();
    rt.push_pool();
    rt.autorelease(b).unwrap();
    rt.autorelease(c).unwrap();
    rt.retain(d).unwrap();
    rt.autorelease(d).unwrap();
    assert_eq!(rt.pop_pool(), Ok(vec![d, c, b]));
    assert!(!rt.store().is_alive(b));
    assert!(!rt.store().is_alive(c));
    assert_eq!(rt.store().retain_count(d), 1);
    // The outer pool's registrant is untouched until its own pool is popped.
    assert!(rt.store().is_alive(a));
    assert_eq!(rt.pop_pool(), Ok(vec![a]));
    assert!(!rt.store().is_alive(a));
    assert_eq!(rt.pop_pool(), Err(Fatal::PoolUnderflow));
}

#[test]
fn drain_order_reverses_registration() {
    assert_eq!(drain_order(&vec![1, 2, 3]), vec![3, 2, 1]);
    assert_eq!(drain_order(&vec![]), Vec::<u32>::new());
}

#[test]
fn autorelease_needs_a_pool() {
    let mut rt = basic_runtime();
    let a = rt.alloc_object(0, HostBlob::Plain).unwrap();
    assert_eq!(rt.autorelease(a), Err(Fatal::NoActivePool));
}

#[test]
fn releasing_an_array_releases_its_elements() {
    let mut rt = basic_runtime();
    let x = rt.alloc_object(0, HostBlob::Plain).unwrap();
    let y = rt.alloc_object(0, HostBlob::Plain).unwrap();
    rt.retain(y).unwrap();
    let inner = from_vec(&mut rt, 1, vec![x]).unwrap();
    let outer = from_vec(&mut rt, 1, vec![inner, y]).unwrap();
    assert_eq!(rt.release(outer), Ok(()));
    assert!(!rt.store().is_alive(outer));
    assert!(!rt.store().is_alive(inner));
    assert!(!rt.store().is_alive(x));
    assert!(rt.store().is_alive(y));
    assert_eq!(rt.store().retain_count(y), 1);
}

#[test]
fn from_vec_and_to_vec_round_trip() {
    let mut rt = basic_runtime();
    let x = rt.alloc_object(0, HostBlob::Plain).unwrap();
    let y = rt.alloc_object(0, HostBlob::Plain).unwrap();
    let arr = from_vec(&mut rt, 1, vec![x, y, x]).unwrap();
    assert_eq!(to_vec(&rt, arr), Ok(vec![x, y, x]));
    assert_eq!(rt.store().retain_count(x), 1);
    assert_eq!(to_vec(&rt, x), Err(Fatal::WrongBlobType));
    assert_eq!(from_vec(&mut rt, 9, vec![]), Err(Fatal::UnknownClass));
}

#[test]
fn from_va_args_collects_until_sentinel_and_retains() {
    let mut rt = basic_runtime();
    let x = rt.alloc_object(0, HostBlob::Plain).unwrap();
    let y = rt.alloc_object(0, HostBlob::Plain).unwrap();
    let z = rt.alloc_object(0, HostBlob::Plain).unwrap();
    let arr = from_vec(&mut rt, 1, vec![]).unwrap();
    let mem = words(&[y, z, 0, x]);
    let mut rest = VaList::start(0);
    assert_eq!(from_va_args(&mut rt, &mem, arr, x, &mut rest), Ok(vec![]));
    assert_eq!(to_vec(&rt, arr), Ok(vec![x, y, z]));
    assert_eq!(rest.next_addr, 12);
    assert_eq!(rt.store().retain_count(x), 2);
    assert_eq!(rt.store().retain_count(y), 2);
    assert_eq!(rt.store().retain_count(z), 2);
}

#[test]
fn from_va_args_with_nil_first_is_empty() {
    let mut rt = basic_runtime();
    let x = rt.alloc_object(0, HostBlob::Plain).unwrap();
    let arr = from_vec(&mut rt, 1, vec![x]).unwrap();
    let mem = words(&[x, 0]);
    let mut rest = VaList::start(0);
    assert_eq!(from_va_args(&mut rt, &mem, arr, NIL, &mut rest), Ok(vec![x]));
    assert_eq!(to_vec(&rt, arr), Ok(vec![]));
    assert_eq!(rest.next_addr, 0);
}

#[test]
fn from_va_args_errors() {
    let mut rt = basic_runtime();
    let x = rt.alloc_object(0, HostBlob::Plain).unwrap();
    let arr = from_vec(&mut rt, 1, vec![]).unwrap();
    let mem = words(&[x, x]);
    let mut rest = VaList::start(0);
    assert_eq!(from_va_args(&mut rt, &mem, arr, x, &mut rest), Err(Fatal::BadAddress));
    assert_eq!(rt.store().retain_count(x), 1);
    let mut rest = VaList::start(0);
    assert_eq!(from_va_args(&mut rt, &mem, x, x, &mut rest), Err(Fatal::WrongBlobType));
    assert_eq!(from_va_args(&mut rt, &mem, 77, x, &mut rest), Err(Fatal::DeadObject));
}

#[test]
fn va_list_yields_words_before_sentinel() {
    let mem = words(&[5, 7, 0, 9]);
    let mut list = VaList::start(0);
    assert_eq!(collect_va_args(&mem, &mut list), Ok(vec![5, 7]));
    assert_eq!(list.next_addr, 12);
    let mut list = VaList::start(12);
    assert_eq!(collect_va_args(&mem, &mut list), Err(Fatal::BadAddress));
    let mut list = VaList::start(8);
    assert_eq!(collect_va_args(&mem, &mut list), Ok(vec![]));
}

#[test]
fn va_list_next_steps_word_by_word() {
    let mem = words(&[3, 0]);
    let mut list = VaList::start(0);
    assert_eq!(list.next(&mem), Ok(3));
    assert_eq!(list.next(&mem), Ok(NIL));
    assert_eq!(list.next(&mem), Err(Fatal::BadAddress));
    assert_eq!(list.next_addr, 8);
}

#[test]
fn fast_enumeration_in_chunks() {
    let items: Vec<u32> = vec![11, 12, 13, 14, 15];
    let mut state = FastEnumState { state: 0, items_ptr: 0, mutations_ptr: 0 };
    let mut buf = vec![0u32; 2];
    let mut seen = Vec::new();
    let mut counts = Vec::new();
    loop {
        let n = enumerate_chunk(&items, &mut state, &mut buf, 2, 0x1000, 0x2000);
        counts.push(n);
        if n == 0 {
            break;
        }
        assert_eq!(state.items_ptr, 0x1000);
        assert_eq!(state.mutations_ptr, 0x2000);
        seen.extend_from_slice(&buf[..n as usize]);
    }
    assert_eq!(counts, vec![2, 2, 1, 0]);
    assert_eq!(seen, items);
    assert_eq!(state.state, 5);
}

#[test]
fn fast_enumeration_of_empty_collection_leaves_state_alone() {
    let items: Vec<u32> = vec![];
    let mut state = FastEnumState { state: 0, items_ptr: 7, mutations_ptr: 9 };
    let mut buf = vec![42u32; 4];
    assert_eq!(enumerate_chunk(&items, &mut state, &mut buf, 4, 0x1000, 0x2000), 0);
    assert_eq!(state, FastEnumState { state: 0, items_ptr: 7, mutations_ptr: 9 });
    assert_eq!(buf, vec![42, 42, 42, 42]);
}

#[test]
fn fast_enumeration_buffer_larger_than_collection() {
    let items: Vec<u32> = vec![1, 2, 3];
    let mut state = FastEnumState { state: 0, items_ptr: 0, mutations_ptr: 0 };
    let mut buf = vec![0u32; 8];
    assert_eq!(enumerate_chunk(&items, &mut state, &mut buf, 8, 4, 8), 3);
    assert_eq!(buf, vec![1, 2, 3, 0, 0, 0, 0, 0]);
    assert_eq!(enumerate_chunk(&items, &mut state, &mut buf, 8, 4, 8), 0);
}

#[test]
fn array_enumeration_uses_its_identity_as_token() {
    let mut rt = basic_runtime();
    let x = rt.alloc_object(0, HostBlob::Plain).unwrap();
    let y = rt.alloc_object(0, HostBlob::Plain).unwrap();
    let arr = from_vec(&mut rt, 1, vec![x, y, x]).unwrap();
    let mut state = FastEnumState { state: 0, items_ptr: 0, mutations_ptr: 0 };
    let mut buf = vec![0u32; 2];
    assert_eq!(count_by_enumerating(&rt, arr, &mut state, &mut buf, 2, 0x40), Ok(2));
    assert_eq!(buf, vec![x, y]);
    assert_eq!(state.mutations_ptr, arr);
    assert_eq!(count_by_enumerating(&rt, arr, &mut state, &mut buf, 2, 0x40), Ok(1));
    assert_eq!(buf[0], x);
    assert_eq!(count_by_enumerating(&rt, arr, &mut state, &mut buf, 2, 0x40), Ok(0));
    let mut bad = FastEnumState { state: 9, items_ptr: 0, mutations_ptr: 0 };
    assert_eq!(
        count_by_enumerating(&rt, arr, &mut bad, &mut buf, 2, 0x40),
        Err(Fatal::CorruptEnumerationState)
    );
    assert_eq!(count_by_enumerating(&rt, x, &mut state, &mut buf, 2, 0x40), Err(Fatal::WrongBlobType));
}

#[test]
fn dispatch_by_dynamic_class() {
    let mut rt = basic_runtime();
    let arr = from_vec(&mut rt, 1, vec![]).unwrap();
    assert_eq!(rt.send(arr, SEL_COUNT), Ok(Some(20)));
    assert_eq!(rt.send(arr, SEL_DESCRIBE), Ok(Some(10)));
    assert_eq!(rt.send(arr, 999), Err(Fatal::DoesNotUnderstand));
    assert_eq!(rt.send(NIL, SEL_COUNT), Ok(None));
    assert_eq!(rt.send_class(1, SEL_ALLOC), Ok(11));
    assert_eq!(rt.send_class(1, SEL_COUNT), Err(Fatal::DoesNotUnderstand));
    assert_eq!(rt.send_class(5, SEL_ALLOC), Err(Fatal::UnknownClass));
    assert_eq!(rt.send_super(1, SEL_DESCRIBE, false), Ok(10));
    assert_eq!(rt.send_super(1, SEL_COUNT, false), Err(Fatal::DoesNotUnderstand));
    rt.release(arr).unwrap();
    assert_eq!(rt.send(arr, SEL_COUNT), Err(Fatal::DeadObject));
}

#[test]
fn alloc_of_unknown_class_fails() {
    let mut rt = basic_runtime();
    assert_eq!(rt.alloc_object(2, HostBlob::Plain), Err(Fatal::UnknownClass));
}

#[test]
fn replace_array_hands_back_old_contents() {
    let mut rt = basic_runtime();
    let arr = from_vec(&mut rt, 1, vec![5, 6]).unwrap();
    assert_eq!(rt.replace_array(arr, vec![7]), Ok(vec![5, 6]));
    assert_eq!(to_vec(&rt, arr), Ok(vec![7]));
}

#[test]
fn memory_words_round_trip() {
    let mut mem = GuestMemory::new(16);
    assert_eq!(mem.len(), 16);
    assert_eq!(mem.read_u32(4), Ok(0));
    assert_eq!(mem.write_u32(4, 0xdead_beef), Ok(()));
    assert_eq!(mem.read_u32(4), Ok(0xdead_beef));
    assert_eq!(mem.read_u32(0), Ok(0));
    assert_eq!(mem.read_u32(8), Ok(0));
    assert_eq!(mem.read_u32(2), Err(Fatal::BadAddress));
    assert_eq!(mem.read_u32(16), Err(Fatal::BadAddress));
    assert_eq!(mem.write_u32(13, 1), Err(Fatal::BadAddress));
    let mem = GuestMemory::from_bytes(vec![0x78, 0x56, 0x34, 0x12]);
    assert_eq!(mem.read_u32(0), Ok(0x1234_5678));
}

#[test]
fn guest_resident_enumeration_in_chunks() {
    let mut rt = basic_runtime();
    let x = rt.alloc_object(0, HostBlob::Plain).unwrap();
    let y = rt.alloc_object(0, HostBlob::Plain).unwrap();
    let z = rt.alloc_object(0, HostBlob::Plain).unwrap();
    let arr = from_vec(&mut rt, 1, vec![x, y, z]).unwrap();
    // Record at 0..12, buffer of two words at 16.
    let mut mem = GuestMemory::new(32);
    assert_eq!(count_by_enumerating_in_guest(&rt, &mut mem, arr, 0, 16, 2), Ok(2));
    assert_eq!(mem.read_u32(0), Ok(2));
    assert_eq!(mem.read_u32(4), Ok(16));
    assert_eq!(mem.read_u32(8), Ok(arr));
    assert_eq!(mem.read_u32(16), Ok(x));
    assert_eq!(mem.read_u32(20), Ok(y));
    assert_eq!(count_by_enumerating_in_guest(&rt, &mut mem, arr, 0, 16, 2), Ok(1));
    assert_eq!(mem.read_u32(0), Ok(3));
    assert_eq!(mem.read_u32(16), Ok(z));
    assert_eq!(mem.read_u32(20), Ok(y));
    assert_eq!(mem.read_u32(8), Ok(arr));
    assert_eq!(count_by_enumerating_in_guest(&rt, &mut mem, arr, 0, 16, 2), Ok(0));
    assert_eq!(mem.read_u32(0), Ok(3));
}

#[test]
fn guest_resident_enumeration_of_empty_array_touches_nothing() {
    let mut rt = basic_runtime();
    let arr = from_vec(&mut rt, 1, vec![]).unwrap();
    let mut mem = GuestMemory::from_bytes(vec![7u8; 32]);
    assert_eq!(count_by_enumerating_in_guest(&rt, &mut mem, arr, 0, 16, 4), Ok(0));
    assert_eq!(mem.read_u32(0), Ok(0x0707_0707));
    assert_eq!(mem.read_u32(4), Ok(0x0707_0707));
}

#[test]
fn guest_resident_enumeration_rejects_bad_regions() {
    let mut rt = basic_runtime();
    let x = rt.alloc_object(0, HostBlob::Plain).unwrap();
    let arr = from_vec(&mut rt, 1, vec![x, x]).unwrap();
    let mut mem = GuestMemory::new(32);
    // Buffer overlapping the record.
    assert_eq!(count_by_enumerating_in_guest(&rt, &mut mem, arr, 0, 8, 2), Err(Fatal::BadAddress));
    // Buffer running past the end of memory.
    assert_eq!(count_by_enumerating_in_guest(&rt, &mut mem, arr, 0, 28, 2), Err(Fatal::BadAddress));
    // Record past the end of memory.
    assert_eq!(count_by_enumerating_in_guest(&rt, &mut mem, arr, 24, 0, 2), Err(Fatal::BadAddress));
    assert_eq!(mem.read_u32(0), Ok(0));
    mem.write_u32(0, 5).unwrap();
    assert_eq!(
        count_by_enumerating_in_guest(&rt, &mut mem, arr, 0, 16, 2),
        Err(Fatal::CorruptEnumerationState)
    );
}

#[test]
fn inner_pool_pop_releases_only_its_own_registration() {
    let mut rt = basic_runtime();
    let x = rt.alloc_object(0, HostBlob::Plain).unwrap();
    let a = from_vec(&mut rt, 1, vec![x]).unwrap();
    rt.push_pool();
    rt.retain(a).unwrap();
    rt.autorelease(a).unwrap();
    rt.push_pool();
    rt.retain(a).unwrap();
    rt.autorelease(a).unwrap();
    assert_eq!(rt.store().retain_count(a), 3);
    assert_eq!(rt.pop_pool(), Ok(vec![a]));
    assert!(rt.store().is_alive(a));
    assert_eq!(rt.store().retain_count(a), 2);
    assert_eq!(to_vec(&rt, a), Ok(vec![x]));
}

#[test]
fn enumerate_all_counts_per_call() {
    let items: Vec<u32> = vec![1, 2, 3, 4, 5, 6, 7];
    assert_eq!(enumerate_all(&items, 3), (items.clone(), vec![3, 3, 1, 0]));
    assert_eq!(enumerate_all(&items, 7), (items.clone(), vec![7, 0]));
    assert_eq!(enumerate_all(&items, 100), (items.clone(), vec![7, 0]));
    assert_eq!(enumerate_all(&vec![], 4), (vec![], vec![0]));
}

#[test]
fn enumeration_of_empty_array_ignores_cursor() {
    let mut rt = basic_runtime();
    let arr = from_vec(&mut rt, 1, vec![]).unwrap();
    let mut state = FastEnumState { state: 9, items_ptr: 1, mutations_ptr: 2 };
    let mut buf = vec![0u32; 2];
    assert_eq!(count_by_enumerating(&rt, arr, &mut state, &mut buf, 2, 0x40), Ok(0));
    assert_eq!(state, FastEnumState { state: 9, items_ptr: 1, mutations_ptr: 2 });
}
