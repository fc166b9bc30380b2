use tg_notebook::memory_tools::{DyArray, GlobalStorage, LocalStorage, Storable, TinyString};

#[test]
fn globalstorage_alloc_and_store() {
    let mut gls = GlobalStorage::new();
    {
        let a = [10u8; 4];
        let _ = gls.store(a, "a");
    }
    let b = [10u8; 4];
    assert_eq!(b, gls.get::<[u8; 4]>("a").unwrap());
}

#[test]
fn globalstorage_vec() {
    let mut gls = GlobalStorage::new();
    let mut dy = DyArray::<u32>::new(&mut gls);

    dy.push(&mut gls, 12);
    dy.push(&mut gls, 123);
    dy.push(&mut gls, 1231);

    println!("print test");
    let a = dy.get(&gls, 1);
    assert_eq!(123, a);

    let a = dy.get(&gls, 2);
    assert_eq!(1231, a);
}

#[test]
fn global_storage_vec2() {
    let mut gls = GlobalStorage::new();
    // the arena holds the float by its bits
    let _a = gls.allocate(123.09f32.to_bits());
    let mut dy = DyArray::<u32>::new(&mut gls);
    let _b = gls.allocate(123i32);

    dy.push(&mut gls, 12);
    dy.push(&mut gls, 123);
    dy.push(&mut gls, 1231);

    let ab = dy.get(&gls, 1);
    assert_eq!(123, ab);

    let ab = dy.get(&gls, 2);
    assert_eq!(1231, ab);
}

#[test]
fn global_storage_vec3() {
    let mut gls = GlobalStorage::new();
    {
        let mut dy = DyArray::<u32>::new(&mut gls);

        dy.push(&mut gls, 12);
        dy.push(&mut gls, 123);
        dy.push(&mut gls, 1231);

        let _ = gls.store(dy, "dy");
    }

    let a = gls.get::<DyArray<u32>>("dy").unwrap();
    let ab = a.get(&gls, 0);
    assert_eq!(12, ab);
}

#[test]
fn store_then_get_returns_value() {
    let mut gls = GlobalStorage::new();
    assert!(gls.store(42u64, "answer").is_ok());
    assert!(gls.store(-7i32, "neg").is_ok());
    assert_eq!(gls.get::<u64>("answer").unwrap(), 42);
    assert_eq!(gls.get::<i32>("neg").unwrap(), -7);
}

#[test]
fn store_keeps_other_names() {
    let mut gls = GlobalStorage::new();
    assert!(gls.store(1u32, "one").is_ok());
    assert!(gls.store(2u32, "two").is_ok());
    assert!(gls.store([1u8, 2, 3, 4], "bytes").is_ok());
    assert_eq!(gls.get::<u32>("one").unwrap(), 1);
    assert_eq!(gls.get::<u32>("two").unwrap(), 2);
    assert_eq!(gls.get::<[u8; 4]>("bytes").unwrap(), [1, 2, 3, 4]);
}

#[test]
fn store_name_collision() {
    let mut gls = GlobalStorage::new();
    assert!(gls.store(1u8, "x").is_ok());
    let before = gls.storage.clone();
    let err = gls.store(2u8, "x").unwrap_err();
    assert_eq!(err, "Global Storage name collision: x");
    assert_eq!(gls.storage, before);
    assert_eq!(gls.get::<u8>("x").unwrap(), 1);
}

#[test]
fn store_name_too_long() {
    let mut gls = GlobalStorage::new();
    let name = "n".repeat(129);
    let err = gls.store(1u8, &name).unwrap_err();
    assert_eq!(err, "storage name is too damn long");
    assert!(gls.storage.is_empty());
    let name = "n".repeat(128);
    assert!(gls.store(1u8, &name).is_ok());
    assert_eq!(gls.get::<u8>(&name).unwrap(), 1);
}

#[test]
fn store_empty_name_collides_with_free_slot() {
    let mut gls = GlobalStorage::new();
    let err = gls.store(1u8, "").unwrap_err();
    assert_eq!(err, "Global Storage name collision: ");
}

#[test]
fn get_missing_name() {
    let gls = GlobalStorage::new();
    let err = gls.get::<u32>("nothing").unwrap_err();
    assert_eq!(err, "Name not found in Global Storage: nothing");
}

#[test]
fn non_ascii_name_is_stored_but_not_found() {
    let mut gls = GlobalStorage::new();
    assert!(gls.store(5u32, "é").is_ok());
    let err = gls.get::<u32>("é").unwrap_err();
    assert_eq!(err, "Name not found in Global Storage: é");
}

#[test]
fn allocate_appends_bytes() {
    let mut gls = GlobalStorage::new();
    let _p = gls.allocate(0x0403_0201u32);
    let _q = gls.allocate(9u8);
    assert_eq!(gls.storage, vec![1, 2, 3, 4, 9]);
    assert_eq!(gls.storage_filled, vec![true; 5]);
}

#[test]
fn alloc_multi_empty_zeroes() {
    let mut gls = GlobalStorage::new();
    let _p = gls.alloc_multi_empty::<u32>(3);
    assert_eq!(gls.storage, vec![0u8; 12]);
    assert_eq!(gls.storage_filled, vec![true; 12]);
}

#[test]
fn ptr_deref_reads_value() {
    let mut gls = GlobalStorage::new();
    let _a = gls.allocate(7u8);
    let p = gls.allocate(0xdead_beefu32);
    let q = p.clone();
    assert_eq!(q.deref_mut::<u32>(&gls), 0xdead_beef);
}

#[test]
fn write_to_inside_and_outside() {
    let mut gls = GlobalStorage::new();
    let _p = gls.alloc_multi_empty::<u32>(2);
    assert!(gls.write_to(0x0a0b0c0du32, 4).is_ok());
    assert_eq!(gls.storage, vec![0, 0, 0, 0, 0x0d, 0x0c, 0x0b, 0x0a]);
    let err = gls.write_to(1u32, 8).unwrap_err();
    assert_eq!(err, "Writing outside the bounds of memory allocated to global storage");
}

#[test]
fn write_to_named_value() {
    let mut gls = GlobalStorage::new();
    assert!(gls.store(1u32, "a").is_ok());
    assert!(gls.store(2u32, "b").is_ok());
    assert!(gls.write_to(20u32, 4).is_ok());
    assert_eq!(gls.get::<u32>("a").unwrap(), 1);
    assert_eq!(gls.get::<u32>("b").unwrap(), 20);
}

#[test]
fn realloc_copies_and_unmarks() {
    let mut gls = GlobalStorage::new();
    let p = gls.allocate(0x0403_0201u32);
    let q = gls.realloc::<u32>(p, 3, 2);
    assert_eq!(gls.storage, vec![1, 2, 3, 4, 1, 2, 3, 0, 0]);
    assert_eq!(gls.storage_filled, vec![false, false, false, true, true, true, true, true, true]);
    assert_eq!(q.deref_mut::<u32>(&gls), 0x0003_0201);
}

#[test]
fn dyarray_get_mut_replaces_element() {
    let mut gls = GlobalStorage::new();
    let mut dy = DyArray::<u32>::with_capacity(&mut gls, 3);
    dy.push(&mut gls, 5);
    dy.push(&mut gls, 6);
    dy.get_mut(&mut gls, 0, 50);
    assert_eq!(dy.get(&gls, 0), 50);
    assert_eq!(dy.get(&gls, 1), 6);
}

#[test]
fn dyarray_push_when_full_moves_without_writing() {
    let mut gls = GlobalStorage::new();
    let mut dy = DyArray::<u32>::with_capacity(&mut gls, 1);
    dy.push(&mut gls, 7);
    assert_eq!(gls.storage.len(), 4);
    dy.push(&mut gls, 8);
    // the array was full: its bytes from its start up to index 4 are copied, one
    // zero byte per element of capacity is added, and 8 is not written
    assert_eq!(gls.storage, vec![7, 0, 0, 0, 7, 0, 0, 0, 0]);
    assert_eq!(dy.get(&gls, 0), 7);
}

#[test]
fn dyarray_elements_survive_later_allocations() {
    let mut gls = GlobalStorage::new();
    let mut dy = DyArray::<u32>::new(&mut gls);
    dy.push(&mut gls, 11);
    let _x = gls.allocate(99u64);
    assert!(gls.store(3u8, "three").is_ok());
    dy.push(&mut gls, 22);
    assert_eq!(dy.get(&gls, 0), 11);
    assert_eq!(dy.get(&gls, 1), 22);
}

#[test]
fn tiny_string_push_and_len() {
    let mut t = TinyString::new();
    assert_eq!(t.len(), 0);
    assert!(t.push('a').is_ok());
    assert!(t.push('b').is_ok());
    assert_eq!(t.len(), 2);
    assert_eq!(*t.get(0), 'a');
    assert_eq!(*t.get(1), 'b');
    assert_eq!(t[0], 'a');
    *t.get_mut(1) = 'c';
    assert_eq!(*t.get(1), 'c');
}

#[test]
fn tiny_string_push_full() {
    let mut t = TinyString::new();
    for _ in 0..128 {
        assert!(t.push('x').is_ok());
    }
    assert_eq!(t.push('y').unwrap_err(), "Out sized tinystring");
    assert_eq!(t.len(), 128);
}

#[test]
fn tiny_string_copystr_and_samestr() {
    let mut t = TinyString::new();
    t.copystr("hello");
    assert_eq!(t.len(), 5);
    assert!(t.is_samestr("hello"));
    assert!(!t.is_samestr("hell"));
    assert!(!t.is_samestr("hellp"));
    let mut u = TinyString::new();
    u.copystr("é");
    assert_eq!(u.len(), 1);
    assert!(!u.is_samestr("é"));
}

#[test]
fn tiny_string_copystr_appends_and_caps() {
    let mut t = TinyString::new();
    t.copystr("ab");
    t.copystr("cd");
    assert!(t.is_samestr("abcd"));
    let mut u = TinyString::new();
    u.copystr(&"z".repeat(200));
    assert_eq!(u.len(), 128);
}

#[test]
fn tiny_string_copy_keeps_cursor() {
    let mut a = TinyString::new();
    a.copystr("xyz");
    let mut b = TinyString::new();
    b.copystr("ab");
    a.copy(&b);
    assert_eq!(a.len(), 3);
    assert!(a.is_samestr("abz"));
    assert!(!a.is_same(&b));
    let mut c = TinyString::new();
    c.copystr("abz");
    assert!(a.is_same(&c));
}

#[test]
fn local_storage_starts_uninitialized() {
    let ls = LocalStorage::new();
    assert!(!ls.initialized);
}

#[test]
fn set_updates_named_value() {
    let mut gls = GlobalStorage::new();
    assert!(gls.store(1u32, "counter").is_ok());
    assert!(gls.store(9u32, "other").is_ok());
    assert!(gls.set(2u32, "counter").is_ok());
    assert_eq!(gls.get::<u32>("counter").unwrap(), 2);
    assert_eq!(gls.get::<u32>("other").unwrap(), 9);
    assert_eq!(gls.storage_filled, vec![true; 8]);
}

#[test]
fn set_missing_name() {
    let mut gls = GlobalStorage::new();
    assert!(gls.store(1u32, "a").is_ok());
    let before = gls.storage.clone();
    let err = gls.set(2u32, "b").unwrap_err();
    assert_eq!(err, "Name not found in Global Storage: b");
    assert_eq!(gls.storage, before);
}

#[test]
fn stored_array_updated_through_set() {
    let mut gls = GlobalStorage::new();
    let mut dy = DyArray::<u32>::new(&mut gls);
    dy.push(&mut gls, 12);
    assert!(gls.store(dy, "dy").is_ok());
    let mut a = gls.get::<DyArray<u32>>("dy").unwrap();
    a.push(&mut gls, 13);
    assert!(gls.set(a, "dy").is_ok());
    let b = gls.get::<DyArray<u32>>("dy").unwrap();
    assert_eq!(b.get(&gls, 0), 12);
    assert_eq!(b.get(&gls, 1), 13);
}

#[test]
fn ptr_set_overwrites_value() {
    let mut gls = GlobalStorage::new();
    let _a = gls.allocate(1u8);
    let p = gls.allocate(5u32);
    p.set(&mut gls, 0x0102_0304u32);
    assert_eq!(p.deref_mut::<u32>(&gls), 0x0102_0304);
    assert_eq!(gls.storage, vec![1, 4, 3, 2, 1]);
}

#[test]
fn allocate_usize_takes_its_size() {
    let mut gls = GlobalStorage::new();
    let p = gls.allocate(7usize);
    assert_eq!(gls.storage.len(), std::mem::size_of::<usize>());
    assert_eq!(p.deref_mut::<usize>(&gls), 7);
}

#[test]
fn dyarray_get_mut_at_length() {
    let mut gls = GlobalStorage::new();
    let dy = DyArray::<u32>::with_capacity(&mut gls, 2);
    dy.get_mut(&mut gls, 0, 0x0A0B_0C0D);
    assert_eq!(dy.get(&gls, 0), 0x0A0B_0C0D);
    assert_eq!(gls.storage, vec![0x0D, 0x0C, 0x0B, 0x0A, 0, 0, 0, 0]);
}

#[test]
fn dyarray_get_mut_writes_unmarked_bytes() {
    let mut gls = GlobalStorage::new();
    let mut dy = DyArray::<u32>::with_capacity(&mut gls, 1);
    dy.push(&mut gls, 7);
    assert!(gls.store(dy, "dy").is_ok());
    let mut dy = gls.get::<DyArray<u32>>("dy").unwrap();
    // a push on the full array moves it and unmarks the bytes it left
    dy.push(&mut gls, 8);
    assert!(!gls.storage_filled[0]);
    let stale = gls.get::<DyArray<u32>>("dy").unwrap();
    stale.get_mut(&mut gls, 0, 3);
    assert_eq!(stale.get(&gls, 0), 3);
    assert!(!gls.storage_filled[0]);
}

#[test]
fn nested_array_tags_differ() {
    let t = <u32 as Storable>::type_tag();
    let t1 = <DyArray<u32> as Storable>::type_tag();
    let t2 = <DyArray<DyArray<u32>> as Storable>::type_tag();
    assert_ne!(t1, t);
    assert_ne!(t2, t);
    assert_ne!(t2, t1);
    assert_eq!(t1, t.wrapping_add(0x1_0000_0000));
    assert_eq!(t2, t.wrapping_add(0x2_0000_0000));
}

#[test]
fn ptr_set_keeps_names_and_marks() {
    let mut gls = GlobalStorage::new();
    assert!(gls.store(5u32, "five").is_ok());
    let filled = gls.storage_filled.clone();
    let p = gls.allocate(1u8);
    let filled_after_alloc = gls.storage_filled.clone();
    p.set(&mut gls, 9u8);
    assert_eq!(gls.storage_filled, filled_after_alloc);
    assert_eq!(filled.len() + 1, gls.storage_filled.len());
    assert_eq!(gls.get::<u32>("five").unwrap(), 5);
    assert_eq!(p.deref_mut::<u8>(&gls), 9);
}

#[test]
fn tiny_string_length_counts_appended_chars() {
    let mut t = TinyString::new();
    assert!(t.push('a').is_ok());
    t.copystr("bcd");
    let mut other = TinyString::new();
    other.copystr("xy");
    t.copy(&other);
    *t.get_mut(10) = 'z';
    assert!(t.push('e').is_ok());
    // one push, three copied, one push; copy and the write append nothing
    assert_eq!(t.len(), 5);
    assert_eq!(t.buffer[..5].iter().collect::<String>(), "xycde");
    let mut full = TinyString::new();
    for _ in 0..128 {
        assert!(full.push('q').is_ok());
    }
    assert!(full.push('r').is_err());
    assert_eq!(full.len(), 128);
}
