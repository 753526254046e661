//! Handle and record bookkeeping: root counts under clone, drop and
//! demotion, header operations, tracing, and registration.

use gc::example::ExampleNum;
use gc::header::GcBoxHeader;
use gc::registry::{force_collect, init_gc, GcAlloc, GcBox};
use gc::traceable::{Gc, GcAble};

#[test]
fn header_operations() {
    let mut h = GcBoxHeader::new();
    assert!(h.is_rooted());
    assert_eq!(h.root_count(), 1);
    assert!(!h.marked());
    h.mark();
    assert!(h.marked());
    h.unmark();
    assert!(!h.marked());
    h.inc_root_count();
    assert_eq!(h.root_count(), 2);
    h.dec_root_count();
    h.dec_root_count();
    assert_eq!(h.root_count(), 0);
    assert!(!h.is_rooted());
}

#[test]
fn wrap_starts_rooted_with_count_one() {
    let mut gc: GcAlloc<ExampleNum> = init_gc();
    let x = Gc::new(&mut gc, ExampleNum::new(5, vec![]));
    assert!(gc.is_live(x.as_ptr()));
    assert_eq!(gc.root_count_at(x.as_ptr()), 1);
    assert_eq!(gc.get(&x).get(), 5);
}

#[test]
fn root_count_conservation_under_clone_drop_demote() {
    let mut gc: GcAlloc<ExampleNum> = init_gc();
    let x = Gc::new(&mut gc, ExampleNum::new(5, vec![]));
    let id = x.as_ptr();
    assert_eq!(gc.root_count_at(id), 1);

    let y = x.clone_handle(&mut gc);
    let mut z = x.clone_handle(&mut gc);
    assert_eq!(gc.root_count_at(id), 3);

    y.drop_handle(&mut gc);
    assert_eq!(gc.root_count_at(id), 2);

    z.set_not_root(&mut gc);
    assert_eq!(gc.root_count_at(id), 1);
    // Demotion is idempotent: a second demotion changes nothing.
    z.set_not_root(&mut gc);
    assert_eq!(gc.root_count_at(id), 1);
    // Dropping an already-demoted handle removes no vote.
    z.drop_handle(&mut gc);
    assert_eq!(gc.root_count_at(id), 1);

    x.drop_handle(&mut gc);
    assert_eq!(gc.root_count_at(id), 0);
}

#[test]
fn raw_root_count_ops() {
    let mut gc: GcAlloc<ExampleNum> = init_gc();
    let x = Gc::new(&mut gc, ExampleNum::new(5, vec![]));
    let id = x.as_ptr();
    x.inc_root_count(&mut gc);
    x.inc_root_count(&mut gc);
    assert_eq!(gc.root_count_at(id), 3);
    x.dec_root_count(&mut gc);
    assert_eq!(gc.root_count_at(id), 2);
}

#[test]
fn embedding_returns_the_vote() {
    let mut gc: GcAlloc<ExampleNum> = init_gc();
    let x = Gc::new(&mut gc, ExampleNum::new(5, vec![]));
    let x_id = x.as_ptr();
    let embedded = x.clone_handle(&mut gc);
    assert_eq!(gc.root_count_at(x_id), 2);

    // Wrapping a value demotes its embedded handles: the clone's vote is
    // given back the instant it becomes a graph edge.
    let y = Gc::new(&mut gc, ExampleNum::new(6, vec![embedded]));
    assert_eq!(gc.root_count_at(x_id), 1);
    assert_eq!(gc.root_count_at(y.as_ptr()), 1);

    // x is reachable through y even after its own handle is gone.
    x.drop_handle(&mut gc);
    force_collect(&mut gc);
    assert!(gc.is_live(x_id));
    y.drop_handle(&mut gc);
}

#[test]
fn block_promotion_and_demotion() {
    let mut gc: GcAlloc<ExampleNum> = init_gc();
    let a = Gc::new(&mut gc, ExampleNum::new(0, vec![]));
    let b = Gc::new(&mut gc, ExampleNum::new(1, vec![]));
    let a_id = a.as_ptr();
    let b_id = b.as_ptr();
    // A container holding edges to a (twice) and b, promoted as a block.
    let a1 = a.clone_handle(&mut gc);
    let a2 = a.clone_handle(&mut gc);
    let b1 = b.clone_handle(&mut gc);
    let container = ExampleNum::new(9, vec![a1, a2, b1]);
    let before_a = gc.root_count_at(a_id);
    let before_b = gc.root_count_at(b_id);

    let ids = container.trace();
    gc.inc_root_counts(&ids);
    assert_eq!(gc.root_count_at(a_id), before_a + 2);
    assert_eq!(gc.root_count_at(b_id), before_b + 1);
    gc.dec_root_counts(&ids);
    assert_eq!(gc.root_count_at(a_id), before_a);
    assert_eq!(gc.root_count_at(b_id), before_b);
}

#[test]
fn identifiers_are_sequential() {
    let mut gc: GcAlloc<ExampleNum> = init_gc();
    let a = Gc::new(&mut gc, ExampleNum::new(0, vec![]));
    let b = Gc::new(&mut gc, ExampleNum::new(1, vec![]));
    let c = Gc::new(&mut gc, ExampleNum::new(2, vec![]));
    assert_eq!(a.as_ptr(), 0);
    assert_eq!(b.as_ptr(), 1);
    assert_eq!(c.as_ptr(), 2);
}

#[test]
fn trace_lists_edges_in_order() {
    let mut gc: GcAlloc<ExampleNum> = init_gc();
    let a = Gc::new(&mut gc, ExampleNum::new(0, vec![]));
    let b = Gc::new(&mut gc, ExampleNum::new(1, vec![]));
    let a_id = a.as_ptr();
    let b_id = b.as_ptr();
    let node = ExampleNum::new(9, vec![a, b]);
    assert_eq!(node.trace(), vec![a_id, b_id]);
}

#[test]
fn leaf_node_traces_nothing() {
    let node = ExampleNum::new(3, vec![]);
    assert_eq!(node.trace(), Vec::<usize>::new());
    assert_eq!(node.get(), 3);
}

#[test]
fn from_box_wraps_like_new() {
    let mut gc: GcAlloc<ExampleNum> = init_gc();
    let h = Gc::from_box(&mut gc, Box::new(ExampleNum::new(7, vec![])));
    assert_eq!(gc.get(&h).get(), 7);
    assert_eq!(gc.root_count_at(h.as_ptr()), 1);
}

#[test]
fn register_gcbox_owns_the_record() {
    let mut gc: GcAlloc<ExampleNum> = init_gc();
    let b = GcBox::new(ExampleNum::new(4, vec![]));
    assert!(b.header().is_rooted());
    assert!(!b.header().marked());
    assert_eq!(b.val().get(), 4);
    let id = gc.register_gcbox(b);
    assert!(gc.is_live(id));
    assert_eq!(gc.live_count(), 1);
    assert_eq!(gc.root_count_at(id), 1);
}

#[test]
fn live_count_counts_only_live_slots() {
    let mut gc: GcAlloc<ExampleNum> = init_gc();
    let a = Gc::new(&mut gc, ExampleNum::new(0, vec![]));
    let b = Gc::new(&mut gc, ExampleNum::new(1, vec![]));
    assert_eq!(gc.live_count(), 2);
    a.drop_handle(&mut gc);
    force_collect(&mut gc);
    assert_eq!(gc.live_count(), 1);
    // Slot identifiers are never reused: the dead slot stays empty.
    assert!(!gc.is_live(0));
    assert!(gc.is_live(b.as_ptr()));
}
