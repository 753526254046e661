//! Root-count accounting for one allocation record.
//!
//! Handles are cloned, demoted and dropped freely, possibly from many
//! threads; every mutation of the shared root count goes through the
//! record's own synchronization, so whatever the interleaving, the effect
//! on one record is some sequence of the three operations modelled here.
//! Each operation mirrors the contract of the corresponding handle
//! operation: [`crate::registry`]'s `Gc::clone_handle` adds a rooted handle
//! and one vote, `Gc::drop_handle` removes the handle and its vote if it
//! still held one, and `Gc::set_not_root` keeps the handle but withdraws
//! its vote. The conservation law proved at the end says the root count
//! always equals the number of live handles still marked rooted — in
//! particular it can never underflow while a rooted handle exists.

use vstd::prelude::*;

verus! {

/// The state of one handle in the accounting model.
pub ghost enum HandleState {
    /// Live and counting toward the root count.
    Rooted,
    /// Live, but its root vote has been withdrawn.
    Unrooted,
    /// Dropped.
    Dropped,
}

/// One operation on the handles of a single allocation.
pub ghost enum RootOp {
    /// Clone the live handle `src`: a new handle appears, rooted.
    CloneFrom { src: int },
    /// Drop the live handle `h`.
    DropHandle { h: int },
    /// Demote the live handle `h`.
    Demote { h: int },
}

/// The accounting state of one allocation: every handle ever created for
/// it (in order of creation), and the record's root count.
pub ghost struct RootState {
    pub handles: Seq<HandleState>,
    pub root_count: int,
}

/// How many handles are live and rooted.
pub open spec fn num_rooted(hs: Seq<HandleState>) -> int
    decreases hs.len(),
{
    if hs.len() == 0 {
        0
    } else {
        num_rooted(hs.drop_last()) + if hs.last() is Rooted {
            1int
        } else {
            0int
        }
    }
}

/// The state right after wrapping a value: the constructing handle, rooted,
/// and a root count of 1.
pub open spec fn init_state() -> RootState {
    RootState { handles: seq![HandleState::Rooted], root_count: 1 }
}

/// An operation may only name a handle that exists and is not yet dropped.
pub open spec fn op_enabled(s: RootState, op: RootOp) -> bool {
    match op {
        RootOp::CloneFrom { src } => 0 <= src < s.handles.len() && !(s.handles[src] is Dropped),
        RootOp::DropHandle { h } => 0 <= h < s.handles.len() && !(s.handles[h] is Dropped),
        RootOp::Demote { h } => 0 <= h < s.handles.len() && !(s.handles[h] is Dropped),
    }
}

/// The effect of one operation, as the handle contracts state it.
pub open spec fn apply_op(s: RootState, op: RootOp) -> RootState {
    match op {
        RootOp::CloneFrom { src } => RootState {
            handles: s.handles.push(HandleState::Rooted),
            root_count: s.root_count + 1,
        },
        RootOp::DropHandle { h } => RootState {
            handles: s.handles.update(h, HandleState::Dropped),
            root_count: s.root_count - if s.handles[h] is Rooted {
                1int
            } else {
                0int
            },
        },
        RootOp::Demote { h } => RootState {
            handles: s.handles.update(h, HandleState::Unrooted),
            root_count: s.root_count - if s.handles[h] is Rooted {
                1int
            } else {
                0int
            },
        },
    }
}

/// A whole sequence of operations, applied in order.
pub open spec fn apply_ops(s: RootState, ops: Seq<RootOp>) -> RootState
    decreases ops.len(),
{
    if ops.len() == 0 {
        s
    } else {
        apply_op(apply_ops(s, ops.drop_last()), ops.last())
    }
}

/// Every operation of the sequence is enabled in the state it meets.
pub open spec fn ops_enabled(s: RootState, ops: Seq<RootOp>) -> bool
    decreases ops.len(),
{
    if ops.len() == 0 {
        true
    } else {
        ops_enabled(s, ops.drop_last()) && op_enabled(apply_ops(s, ops.drop_last()), ops.last())
    }
}

/// The root count matches the rooted handles.
pub open spec fn conserved(s: RootState) -> bool {
    s.root_count == num_rooted(s.handles)
}

/// Replacing one handle state changes the rooted tally accordingly.
proof fn lemma_num_rooted_update(hs: Seq<HandleState>, i: int, v: HandleState)
    requires
        0 <= i < hs.len(),
    ensures
        num_rooted(hs.update(i, v)) == num_rooted(hs) - (if hs[i] is Rooted {
            1int
        } else {
            0int
        }) + (if v is Rooted {
            1int
        } else {
            0int
        }),
    decreases hs.len(),
{
    let t = hs.update(i, v);
    if i == hs.len() - 1 {
        assert(t.drop_last() =~= hs.drop_last());
        assert(t.last() == v);
    } else {
        assert(t.drop_last() =~= hs.drop_last().update(i, v));
        assert(t.last() == hs.last());
        lemma_num_rooted_update(hs.drop_last(), i, v);
    }
}

/// Appending a rooted handle raises the rooted tally by one.
proof fn lemma_num_rooted_push(hs: Seq<HandleState>, v: HandleState)
    ensures
        num_rooted(hs.push(v)) == num_rooted(hs) + (if v is Rooted {
            1int
        } else {
            0int
        }),
{
    assert(hs.push(v).drop_last() =~= hs);
    assert(hs.push(v).last() == v);
}

/// One enabled operation keeps the root count equal to the rooted handles.
pub proof fn lemma_op_conserves(s: RootState, op: RootOp)
    requires
        conserved(s),
        op_enabled(s, op),
    ensures
        conserved(apply_op(s, op)),
{
    match op {
        RootOp::CloneFrom { src } => {
            lemma_num_rooted_push(s.handles, HandleState::Rooted);
        },
        RootOp::DropHandle { h } => {
            lemma_num_rooted_update(s.handles, h, HandleState::Dropped);
        },
        RootOp::Demote { h } => {
            lemma_num_rooted_update(s.handles, h, HandleState::Unrooted);
        },
    }
}

/// Root-count conservation: for any sequence of clone, drop and demote
/// operations on handles to the same allocation — any interleaving of any
/// number of threads' operations — the allocation's root count equals the
/// number of live handles still marked rooted.
pub proof fn lemma_root_count_conservation(ops: Seq<RootOp>)
    requires
        ops_enabled(init_state(), ops),
    ensures
        conserved(apply_ops(init_state(), ops)),
    decreases ops.len(),
{
    if ops.len() == 0 {
        assert(init_state().handles.drop_last() =~= Seq::<HandleState>::empty());
        assert(num_rooted(Seq::<HandleState>::empty()) == 0);
    } else {
        lemma_root_count_conservation(ops.drop_last());
        lemma_op_conserves(apply_ops(init_state(), ops.drop_last()), ops.last());
    }
}

} // verus!
