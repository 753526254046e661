//! Whole-cycle scenarios: reachability preservation, cycle collection,
//! premature-collection freedom, deallocation liveness and idempotence.

use gc::example::ExampleNum;
use gc::registry::{force_collect, init_gc, GcAlloc};
use gc::traceable::{Gc, GcAble};

/// A non-rooted reference to a known slot, for reading values in tests.
fn weak_ref(id: usize) -> Gc {
    Gc { id, is_root: false }
}

#[test]
fn empty_registry_collects() {
    let mut gc: GcAlloc<ExampleNum> = init_gc();
    assert_eq!(gc.live_count(), 0);
    force_collect(&mut gc);
    assert_eq!(gc.live_count(), 0);
}

#[test]
fn chain_survives_collection() {
    let mut gc: GcAlloc<ExampleNum> = init_gc();
    let tail = Gc::new(&mut gc, ExampleNum::new(2, vec![]));
    let tail_id = tail.as_ptr();
    let mid = Gc::new(&mut gc, ExampleNum::new(1, vec![tail]));
    let mid_id = mid.as_ptr();
    let head = Gc::new(&mut gc, ExampleNum::new(0, vec![mid]));
    let head_id = head.as_ptr();

    // Only the head handle is rooted; interior nodes are reachable through
    // graph structure alone. Several cycles, as the background thread would
    // run them, must not collect anything.
    for _ in 0..5 {
        force_collect(&mut gc);
        assert_eq!(gc.live_count(), 3);
        assert!(gc.is_live(head_id) && gc.is_live(mid_id) && gc.is_live(tail_id));
        assert_eq!(gc.get(&head).get(), 0);
        assert_eq!(gc.get(&weak_ref(mid_id)).get(), 1);
        assert_eq!(gc.get(&weak_ref(tail_id)).get(), 2);
    }
    head.drop_handle(&mut gc);
}

#[test]
fn cycle_is_collected() {
    let mut gc: GcAlloc<ExampleNum> = init_gc();
    let a = Gc::new(&mut gc, ExampleNum::new(10, vec![]));
    let a_id = a.as_ptr();
    let edge_to_a = a.clone_handle(&mut gc);
    let b = Gc::new(&mut gc, ExampleNum::new(11, vec![edge_to_a]));
    let b_id = b.as_ptr();

    // Close the cycle: a's only outgoing edge goes to b.
    let mut edge_to_b = b.clone_handle(&mut gc);
    edge_to_b.set_not_root(&mut gc);
    gc.get_mut(&a).push_next(edge_to_b);

    force_collect(&mut gc);
    assert_eq!(gc.live_count(), 2);

    // No independently held rooted handle remains: plain reference counting
    // would leak this pair, mark/sweep must reclaim both.
    a.drop_handle(&mut gc);
    b.drop_handle(&mut gc);
    force_collect(&mut gc);
    assert_eq!(gc.live_count(), 0);
    assert!(!gc.is_live(a_id));
    assert!(!gc.is_live(b_id));
}

#[test]
fn deallocation_liveness() {
    let mut gc: GcAlloc<ExampleNum> = init_gc();
    // An unrelated rooted node that must survive.
    let keeper = Gc::new(&mut gc, ExampleNum::new(99, vec![]));
    let keeper_id = keeper.as_ptr();
    // A three-node subgraph held by a single rooted handle.
    let c = Gc::new(&mut gc, ExampleNum::new(2, vec![]));
    let b = Gc::new(&mut gc, ExampleNum::new(1, vec![c]));
    let a = Gc::new(&mut gc, ExampleNum::new(0, vec![b]));
    assert_eq!(gc.live_count(), 4);

    // Dropping the sole root of the subgraph, then collecting, removes
    // exactly its three records: no more, no fewer.
    a.drop_handle(&mut gc);
    force_collect(&mut gc);
    assert_eq!(gc.live_count(), 1);
    assert!(gc.is_live(keeper_id));
    assert_eq!(gc.get(&keeper).get(), 99);
    keeper.drop_handle(&mut gc);
}

#[test]
fn collect_idempotent() {
    let mut gc: GcAlloc<ExampleNum> = init_gc();
    let garbage = Gc::new(&mut gc, ExampleNum::new(7, vec![]));
    let tail = Gc::new(&mut gc, ExampleNum::new(2, vec![]));
    let head = Gc::new(&mut gc, ExampleNum::new(1, vec![tail]));
    let head_id = head.as_ptr();
    garbage.drop_handle(&mut gc);

    force_collect(&mut gc);
    let count_after_first = gc.live_count();
    let live_after_first: Vec<bool> = (0..3).map(|i| gc.is_live(i)).collect();
    let head_value = gc.get(&head).get();

    // Repeated cycles with no intervening handle mutations must not alter
    // the observable heap and must not crash.
    for _ in 0..4 {
        force_collect(&mut gc);
        assert_eq!(gc.live_count(), count_after_first);
        let live_now: Vec<bool> = (0..3).map(|i| gc.is_live(i)).collect();
        assert_eq!(live_now, live_after_first);
        assert_eq!(gc.get(&head).get(), head_value);
    }
    assert!(gc.is_live(head_id));
    head.drop_handle(&mut gc);
}

#[test]
fn scenario_three_nodes_all_destructed_once() {
    let mut gc: GcAlloc<ExampleNum> = init_gc();
    // C (value 2) with no outgoing edges; B (value 1) with one edge to C;
    // A (value 0) with one edge to B; a single rooted handle to A.
    let c = Gc::new(&mut gc, ExampleNum::new(2, vec![]));
    let c_id = c.as_ptr();
    let b = Gc::new(&mut gc, ExampleNum::new(1, vec![c]));
    let b_id = b.as_ptr();
    let a = Gc::new(&mut gc, ExampleNum::new(0, vec![b]));
    let a_id = a.as_ptr();
    assert_eq!(gc.live_count(), 3);

    a.drop_handle(&mut gc);
    force_collect(&mut gc);
    // A, B and C are each gone, exactly once: three records removed.
    assert_eq!(gc.live_count(), 0);
    assert!(!gc.is_live(a_id) && !gc.is_live(b_id) && !gc.is_live(c_id));

    // No later destruction either: the next cycles find nothing to free.
    force_collect(&mut gc);
    assert_eq!(gc.live_count(), 0);
}

#[test]
fn diamond_shared_node_kept_then_collected() {
    let mut gc: GcAlloc<ExampleNum> = init_gc();
    let d = Gc::new(&mut gc, ExampleNum::new(3, vec![]));
    let d_id = d.as_ptr();
    let d_for_b = d.clone_handle(&mut gc);
    let b = Gc::new(&mut gc, ExampleNum::new(1, vec![d_for_b]));
    let d_for_c = d;
    let c = Gc::new(&mut gc, ExampleNum::new(2, vec![d_for_c]));
    let a = Gc::new(&mut gc, ExampleNum::new(0, vec![b, c]));
    let a_id = a.as_ptr();

    force_collect(&mut gc);
    assert_eq!(gc.live_count(), 4);
    assert_eq!(gc.get(&weak_ref(d_id)).get(), 3);

    a.drop_handle(&mut gc);
    force_collect(&mut gc);
    assert_eq!(gc.live_count(), 0);
    assert!(!gc.is_live(a_id) && !gc.is_live(d_id));
}

#[test]
fn edge_added_after_construction_keeps_target_alive() {
    let mut gc: GcAlloc<ExampleNum> = init_gc();
    let a = Gc::new(&mut gc, ExampleNum::new(0, vec![]));
    let b = Gc::new(&mut gc, ExampleNum::new(1, vec![]));
    let b_id = b.as_ptr();

    let mut edge = b.clone_handle(&mut gc);
    edge.set_not_root(&mut gc);
    gc.get_mut(&a).push_next(edge);
    let traced = gc.get(&a).trace();
    assert_eq!(traced, vec![b_id]);

    b.drop_handle(&mut gc);
    force_collect(&mut gc);
    // b has no rooted handle left, but is reachable from rooted a.
    assert!(gc.is_live(b_id));
    a.drop_handle(&mut gc);
    force_collect(&mut gc);
    assert!(!gc.is_live(b_id));
}
