use fajar_wasi_p2::resources::{
    batch_drop, batch_drop_recursive, BorrowHandle, HandleError, HandleTable, OwnHandle, RawHandle, ResourceDef,
};
// ── W8.1: Handle Table — alloc/free/get ──

#[test]
fn w8_1_alloc_and_get() {
    let mut table: HandleTable<String> = HandleTable::new();
    let h = table.allocate("hello".to_string()).unwrap();
    assert_eq!(h.index, 0);
    assert_eq!(h.generation, 0);
    assert_eq!(table.get(h).unwrap(), "hello");
    assert_eq!(table.len(), 1);
}

#[test]
fn w8_1_alloc_multiple_and_free() {
    let mut table: HandleTable<i32> = HandleTable::new();
    let h0 = table.allocate(10).unwrap();
    let h1 = table.allocate(20).unwrap();
    let h2 = table.allocate(30).unwrap();

    assert_eq!(table.len(), 3);
    assert_eq!(*table.get(h1).unwrap(), 20);

    // Free middle slot.
    let freed = table.free(h1).unwrap();
    assert_eq!(freed, 20);
    assert_eq!(table.len(), 2);

    // Reuse freed slot.
    let h3 = table.allocate(40).unwrap();
    assert_eq!(h3.index, 1); // reused index
    assert_eq!(h3.generation, 1); // bumped generation
    assert_eq!(*table.get(h3).unwrap(), 40);

    // Old handle h1 is now stale.
    assert_eq!(
        table.get(h1).unwrap_err(),
        HandleError::StaleHandle {
            index: 1,
            expected: 1,
            actual: 0
        }
    );

    // h0 and h2 still valid.
    assert_eq!(*table.get(h0).unwrap(), 10);
    assert_eq!(*table.get(h2).unwrap(), 30);
}

#[test]
fn w8_1_stale_handle_detection() {
    let mut table: HandleTable<&str> = HandleTable::new();
    let h = table.allocate("alive").unwrap();
    table.free(h).unwrap();

    // Handle is now stale.
    let err = table.get(h).unwrap_err();
    assert!(matches!(err, HandleError::StaleHandle { .. }));
}

#[test]
fn w8_1_invalid_index() {
    let table: HandleTable<u32> = HandleTable::new();
    let fake = RawHandle {
        index: 999,
        generation: 0,
    };
    assert_eq!(table.get(fake).unwrap_err(), HandleError::InvalidIndex(999));
}

// ── W8.2: Drop Protocol ──

#[test]
fn w8_2_auto_drop_via_resource_def() {
    let mut res: ResourceDef<String> = ResourceDef::new("File");
    let h = res.construct("data.txt".to_string()).unwrap();
    assert_eq!(res.table.len(), 1);
    res.drop_resource(h).unwrap();
    assert_eq!(res.table.len(), 0);
}

// ── W8.3: Borrow Semantics ──

#[test]
fn w8_3_borrow_prevents_drop() {
    let mut table: HandleTable<i32> = HandleTable::new();
    let h = table.allocate(42).unwrap();

    // Borrow the handle.
    table.borrow(h).unwrap();
    assert_eq!(table.borrow_count(h).unwrap(), 1);

    // Cannot free while borrowed.
    let err = table.free(h).unwrap_err();
    assert_eq!(err, HandleError::ActiveBorrows { index: 0, count: 1 });

    // Release borrow, then free succeeds.
    table.release_borrow(h).unwrap();
    assert_eq!(table.borrow_count(h).unwrap(), 0);
    assert_eq!(table.free(h).unwrap(), 42);
}

#[test]
fn w8_4_borrow_from_own_handle() {
    let mut res: ResourceDef<i32> = ResourceDef::new("Counter");
    let own = res.construct(100).unwrap();

    // Create a borrow from the own handle.
    let borrowed = res.borrow_handle(own).unwrap();
    assert_eq!(*res.get_borrowed(borrowed).unwrap(), 100);

    // Cannot drop while borrowed.
    let err = res.drop_resource(own).unwrap_err();
    assert!(matches!(err, HandleError::ActiveBorrows { .. }));

    // Release borrow.
    res.release_borrow(borrowed).unwrap();
    res.drop_resource(own).unwrap();
}

// ── W8.5: Resource Constructor ──

#[test]
fn w8_5_construct_returns_own_handle() {
    let mut res: ResourceDef<Vec<u8>> = ResourceDef::new("Buffer");
    let h = res.construct(vec![1, 2, 3]).unwrap();
    assert_eq!(h.index(), 0);
    assert_eq!(h.generation(), 0);
    assert_eq!(res.get_resource(h).unwrap(), &vec![1, 2, 3]);
}

// ── W8.6: Resource Instance Methods ──

#[test]
fn w8_6_method_registration_and_dispatch() {
    let mut res: ResourceDef<String> = ResourceDef::new("File");
    res.register_method("read", 1);
    res.register_method("write", 2);

    assert!(res.get_method("read").is_some());
    assert_eq!(res.get_method("read").unwrap().param_count, 1);
    assert!(!res.get_method("read").unwrap().is_static);
    assert!(res.get_method("write").is_some());
    assert!(res.get_method("close").is_none());

    let names = res.method_names();
    assert!(names.contains(&"read"));
    assert!(names.contains(&"write"));

    // Validate method call on a live handle.
    let h = res.construct("test.fj".to_string()).unwrap();
    assert!(res.validate_method_call(h, "read").is_ok());

    // Mutate through handle.
    res.get_resource_mut(h).unwrap().push_str(".bak");
    assert_eq!(res.get_resource(h).unwrap(), "test.fj.bak");
}

// ── W8.7: Static Methods ──

#[test]
fn w8_7_static_method_factory_pattern() {
    let mut res: ResourceDef<String> = ResourceDef::new("File");
    res.register_static("open", 1);
    res.register_static("create", 1);

    let open = res.get_static("open").unwrap();
    assert!(open.is_static);
    assert_eq!(open.param_count, 1);

    let static_names = res.static_names();
    assert!(static_names.contains(&"open"));
    assert!(static_names.contains(&"create"));
    assert!(res.get_static("delete").is_none());

    // Simulate factory: static method constructs a resource.
    let h = res.construct("/tmp/out.fj".to_string()).unwrap();
    assert_eq!(res.get_resource(h).unwrap(), "/tmp/out.fj");
}

// ── W8.8: Nested Resources — LIFO Drop ──

#[test]
fn w8_8_cycle_detection() {
    let mut res: ResourceDef<i32> = ResourceDef::new("Graph");

    let a = res.construct(1).unwrap();
    let b = res.construct(2).unwrap();

    res.add_child(a, b).unwrap();

    // Adding a as child of b would create a cycle.
    let err = res.add_child(b, a).unwrap_err();
    assert!(matches!(err, HandleError::CycleDetected { .. }));
}

// ── W8.9: Resource in Collections — batch drop ──

#[test]
fn w8_9_batch_drop_collection() {
    let mut res: ResourceDef<i32> = ResourceDef::new("Item");

    let mut handles = Vec::new();
    for i in 0..5 {
        handles.push(res.construct(i * 10).unwrap());
    }
    assert_eq!(res.table.len(), 5);

    let (freed, err) = batch_drop(&mut res, handles);
    assert!(err.is_none());
    assert_eq!(freed.len(), 5);
    assert_eq!(res.table.len(), 0);

    // Values should be in reverse order (LIFO).
    assert_eq!(freed[0], 40);
    assert_eq!(freed[4], 0);
}

#[test]
fn w8_10_raw_handle_encode_decode_roundtrip() {
    let original = RawHandle {
        index: 42,
        generation: 7,
    };
    let encoded = original.encode();
    let decoded = RawHandle::decode(encoded);
    assert_eq!(original, decoded);
}

#[test]
fn w8_10_double_free_returns_error() {
    let mut table: HandleTable<i32> = HandleTable::new();
    let h = table.allocate(99).unwrap();
    table.free(h).unwrap();
    let err = table.free(h).unwrap_err();
    assert!(matches!(err, HandleError::StaleHandle { .. }));
}

#[test]
fn w8_10_multiple_borrows_tracked() {
    let mut table: HandleTable<i32> = HandleTable::new();
    let h = table.allocate(1).unwrap();

    table.borrow(h).unwrap();
    table.borrow(h).unwrap();
    table.borrow(h).unwrap();
    assert_eq!(table.borrow_count(h).unwrap(), 3);

    // Cannot free with 3 borrows.
    assert!(matches!(
        table.free(h).unwrap_err(),
        HandleError::ActiveBorrows { count: 3, .. }
    ));

    table.release_borrow(h).unwrap();
    table.release_borrow(h).unwrap();
    table.release_borrow(h).unwrap();
    assert_eq!(table.borrow_count(h).unwrap(), 0);
    table.free(h).unwrap();
}

#[test]
fn w8_10_get_mut_through_handle() {
    let mut table: HandleTable<Vec<i32>> = HandleTable::new();
    let h = table.allocate(vec![1, 2]).unwrap();

    table.get_mut(h).unwrap().push(3);
    assert_eq!(table.get(h).unwrap(), &vec![1, 2, 3]);
}

#[test]
fn w8_10_handle_table_with_capacity() {
    let table: HandleTable<u8> = HandleTable::with_capacity(64);
    assert!(table.is_empty());
    assert_eq!(table.len(), 0);
    assert_eq!(table.capacity(), 0); // capacity is for Vec pre-alloc, slots are added lazily
}

#[test]
fn w8_10_handle_error_display() {
    let e1 = HandleError::InvalidIndex(42);
    assert_eq!(e1.to_string(), "invalid handle index: 42");

    let e2 = HandleError::StaleHandle {
        index: 1,
        expected: 3,
        actual: 2,
    };
    assert!(e2.to_string().contains("stale handle"));

    let e3 = HandleError::ActiveBorrows { index: 0, count: 2 };
    assert!(e3.to_string().contains("2 active borrow(s)"));

    let e4 = HandleError::TableFull;
    assert_eq!(e4.to_string(), "handle table is full");

    let e5 = HandleError::AlreadyFreed(5);
    assert!(e5.to_string().contains("already freed"));

    let e6 = HandleError::CycleDetected {
        parent: 0,
        child: 1,
    };
    assert!(e6.to_string().contains("cycle detected"));
}

#[test]
fn w8_10_raw_handle_display() {
    let h = RawHandle {
        index: 3,
        generation: 1,
    };
    assert_eq!(h.to_string(), "handle(3:gen1)");
}

#[test]
fn w8_10_slot_reuse_across_generations() {
    let mut table: HandleTable<&str> = HandleTable::new();

    // Allocate and free the same slot multiple times.
    let h0 = table.allocate("gen0").unwrap();
    assert_eq!(h0.generation, 0);
    table.free(h0).unwrap();

    let h1 = table.allocate("gen1").unwrap();
    assert_eq!(h1.index, 0); // same slot
    assert_eq!(h1.generation, 1); // bumped generation
    table.free(h1).unwrap();

    let h2 = table.allocate("gen2").unwrap();
    assert_eq!(h2.index, 0);
    assert_eq!(h2.generation, 2);

    // All old handles are stale.
    assert!(table.get(h0).is_err());
    assert!(table.get(h1).is_err());
    assert_eq!(table.get(h2).unwrap(), &"gen2");
}

#[test]
fn w8_4_own_vs_borrow_distinction() {
    let raw = RawHandle { index: 5, generation: 2 };

    let own: OwnHandle<String> = OwnHandle::new(raw);
    let borrowed: BorrowHandle<String> = BorrowHandle::new(raw);

    // Both wrap the same raw handle but are different types.
    assert_eq!(own.raw(), raw);
    assert_eq!(borrowed.raw(), raw);
    assert_eq!(own.index(), 5);
    assert_eq!(borrowed.generation(), 2);

    // The text includes the handle kind.
    let own_str = own.describe("String");
    assert!(own_str.contains("own<"));
    assert!(own_str.contains("5:gen2"));

    let borrow_str = borrowed.describe("String");
    assert!(borrow_str.contains("borrow<"));
}

#[test]
fn w8_8_nested_resource_lifo_drop() {
    let mut res: ResourceDef<String> = ResourceDef::new("Node");

    let parent = res.construct("parent".to_string()).unwrap();
    let child1 = res.construct("child1".to_string()).unwrap();
    let child2 = res.construct("child2".to_string()).unwrap();
    let grandchild = res.construct("grandchild".to_string()).unwrap();

    // Build tree: parent → [child1, child2], child1 → [grandchild].
    res.add_child(parent, child1).unwrap();
    res.add_child(parent, child2).unwrap();
    res.add_child(child1, grandchild).unwrap();

    assert_eq!(res.table.len(), 4);

    // Recursive drop: should free grandchild, child2, child1, parent.
    let freed = res.drop_recursive(parent).unwrap();
    assert_eq!(res.table.len(), 0);

    // Parent is last in the freed list.
    assert_eq!(freed.last().unwrap(), "parent");
    // All 4 values freed.
    assert_eq!(freed.len(), 4);
    // Verify children were freed before parent (LIFO).
    let parent_pos = freed.iter().position(|v| v == "parent").unwrap();
    let child1_pos = freed.iter().position(|v| v == "child1").unwrap();
    let grandchild_pos = freed.iter().position(|v| v == "grandchild").unwrap();
    assert!(grandchild_pos < child1_pos);
    assert!(child1_pos < parent_pos);
}

#[test]
fn w8_9_batch_drop_recursive_with_children() {
    let mut res: ResourceDef<String> = ResourceDef::new("Dir");

    let dir1 = res.construct("dir1".to_string()).unwrap();
    let file1 = res.construct("dir1/a.fj".to_string()).unwrap();
    res.add_child(dir1, file1).unwrap();

    let dir2 = res.construct("dir2".to_string()).unwrap();
    let file2 = res.construct("dir2/b.fj".to_string()).unwrap();
    res.add_child(dir2, file2).unwrap();

    assert_eq!(res.table.len(), 4);

    let (freed, err) = batch_drop_recursive(&mut res, vec![dir1, dir2]);
    assert!(err.is_none());
    assert_eq!(freed.len(), 4);
    assert_eq!(res.table.len(), 0);
}

#[test]
fn recursive_drop_exact_order() {
    let mut table: HandleTable<&str> = HandleTable::new();
    let p = table.allocate("p").unwrap();
    let a = table.allocate("a").unwrap();
    let b = table.allocate("b").unwrap();
    let c = table.allocate("c").unwrap();
    table.add_child(p, a).unwrap();
    table.add_child(p, b).unwrap();
    table.add_child(a, c).unwrap();
    // the walk records b, a, c (last child first); they are freed c, a, b
    assert_eq!(table.free_recursive(p).unwrap(), vec!["c", "a", "b", "p"]);
    assert!(table.is_empty());
}

#[test]
fn recursive_drop_stops_at_borrowed_child() {
    let mut table: HandleTable<u8> = HandleTable::new();
    let p = table.allocate(1).unwrap();
    let a = table.allocate(2).unwrap();
    let b = table.allocate(3).unwrap();
    table.add_child(p, a).unwrap();
    table.add_child(p, b).unwrap();
    table.borrow(a).unwrap();
    // the walk records b then a; a is freed first and fails, so nothing is freed
    assert_eq!(table.free_recursive(p), Err(HandleError::ActiveBorrows { index: a.index, count: 1 }));
    assert_eq!(*table.get(b).unwrap(), 3);
    assert_eq!(*table.get(p).unwrap(), 1);
    assert_eq!(table.len(), 3);
}

#[test]
fn recursive_drop_stale_handle() {
    let mut table: HandleTable<u8> = HandleTable::new();
    let p = table.allocate(1).unwrap();
    table.free(p).unwrap();
    assert_eq!(
        table.free_recursive(p),
        Err(HandleError::StaleHandle { index: 0, expected: 1, actual: 0 })
    );
}

#[test]
fn batch_drop_keeps_first_error() {
    let mut res: ResourceDef<u8> = ResourceDef::new("X");
    let a = res.construct(1).unwrap();
    let b = res.construct(2).unwrap();
    res.drop_resource(a).unwrap();
    let (freed, err) = batch_drop(&mut res, vec![a, b, a]);
    assert_eq!(freed, vec![2]);
    assert!(matches!(err, Some(HandleError::StaleHandle { index: 0, .. })));
}

#[test]
fn handle_describe_exact() {
    let own: OwnHandle<u8> = OwnHandle::new(RawHandle { index: 7, generation: 0 });
    assert_eq!(own.describe("u8"), "own<u8>(7:gen0)");
}

#[test]
fn recursive_free_skips_reused_child_slot() {
    let mut t: HandleTable<&str> = HandleTable::new();
    let p = t.allocate("A").unwrap();
    let c = t.allocate("B").unwrap();
    t.add_child(p, c).unwrap();
    t.free(c).unwrap();
    let n = t.allocate("C").unwrap();
    assert_eq!(n.index, c.index);
    assert_eq!(t.free_recursive(p), Ok(vec!["A"]));
    assert_eq!(t.get(n), Ok(&"C"));
    assert_eq!(t.len(), 1);
}

#[test]
fn add_child_rejects_cycle_through_second_parent() {
    let mut t: HandleTable<i32> = HandleTable::new();
    let a = t.allocate(1).unwrap();
    let b = t.allocate(2).unwrap();
    let c = t.allocate(3).unwrap();
    t.add_child(a, b).unwrap();
    t.add_child(c, b).unwrap();
    assert_eq!(
        t.add_child(b, a),
        Err(HandleError::CycleDetected { parent: b.index, child: a.index })
    );
    assert_eq!(t.free_recursive(a), Ok(vec![2, 1]));
}

#[test]
fn freed_child_leaves_every_parent() {
    let mut t: HandleTable<&str> = HandleTable::new();
    let a = t.allocate("A").unwrap();
    let b = t.allocate("B").unwrap();
    let c = t.allocate("C").unwrap();
    t.add_child(a, b).unwrap();
    t.add_child(c, b).unwrap();
    t.free(b).unwrap();
    let d = t.allocate("D").unwrap();
    assert_eq!(d.index, b.index);
    assert_eq!(t.free_recursive(a), Ok(vec!["A"]));
    assert_eq!(t.free_recursive(c), Ok(vec!["C"]));
    assert_eq!(t.get(d), Ok(&"D"));
}
