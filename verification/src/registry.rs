//! The global registry and collector: owns every allocation record and runs
//! the mark/sweep cycle.
//!
//! Records are identified by the index of their slot; a slot is live while it
//! still holds its value and becomes empty when the sweep phase deallocates
//! the record. The registry's ghost model is the graph of
//! [`crate::graph::GNode`]s built from the live slots, and `mark_sweep` is
//! proved to leave exactly the records reachable from a rooted record.
//!
//! The process-wide singleton of the original design (a lazily initialized
//! registry guarded by a lock, with a background thread that runs a cycle
//! every few milliseconds) is synchronization around this type and lives in
//! the embedding application; every operation here takes the registry
//! explicitly.

use vstd::prelude::*;

use crate::graph::{
    collect_model, lemma_reaches_closed_set, lemma_reaches_in_dom, lemma_rooted_step, reaches_k,
    rooted_node, rooted_reaches, step, GNode,
};
use crate::header::GcBoxHeader;
use crate::traceable::{
    demote_seq, field_ids, lemma_occ_usize_at, lemma_occ_usize_push, lemma_occ_usize_split,
    occ_usize, rooted_occ, Gc, GcAble,
};

verus! {

/// One allocation record: the header paired with the owned value. The unit
/// the registry tracks and frees.
pub struct GcBox<T> {
    pub(crate) header: GcBoxHeader,
    pub(crate) val: T,
}

impl<T> GcBox<T> {
    /// The record's header, as contracts see it.
    pub closed spec fn spec_header(&self) -> GcBoxHeader {
        self.header
    }

    /// The record's value, as contracts see it.
    pub closed spec fn spec_val(&self) -> T {
        self.val
    }

    /// A record for a fresh allocation: unmarked, root count 1.
    pub fn new(val: T) -> (b: GcBox<T>)
        ensures
            !b.spec_header().spec_marked(),
            b.spec_header().spec_root_count() == 1,
            b.spec_val() == val,
    {
        GcBox { header: GcBoxHeader::new(), val }
    }

    /// Reads the record's header.
    pub fn header(&self) -> (h: &GcBoxHeader)
        ensures
            *h == self.spec_header(),
    {
        &self.header
    }

    /// Reads the record's value.
    pub fn val(&self) -> (v: &T)
        ensures
            *v == self.spec_val(),
    {
        &self.val
    }
}

/// Stores all the information about the collector: every live allocation
/// record, addressed by slot index. Slot indices are never reused, so a
/// handle's identifier stays unambiguous for the life of the registry.
pub struct GcAlloc<T: GcAble> {
    pub(crate) headers: Vec<GcBoxHeader>,
    pub(crate) vals: Vec<Option<T>>,
}

/// How many slots of `s` still hold a value.
spec fn num_live_seq<T>(s: Seq<Option<T>>) -> nat
    decreases s.len(),
{
    if s.len() == 0 {
        0
    } else {
        num_live_seq(s.drop_last()) + if s.last() is Some {
            1nat
        } else {
            0nat
        }
    }
}

/// How many headers of `s` are unmarked: the measure of the mark phase.
spec fn num_unmarked(s: Seq<GcBoxHeader>) -> nat
    decreases s.len(),
{
    if s.len() == 0 {
        0
    } else {
        num_unmarked(s.drop_last()) + if s.last().spec_marked() {
            0nat
        } else {
            1nat
        }
    }
}

/// Marking an unmarked header lowers the number of unmarked headers by one.
proof fn lemma_num_unmarked_update(s: Seq<GcBoxHeader>, i: int, h: GcBoxHeader)
    requires
        0 <= i < s.len(),
        !s[i].spec_marked(),
        h.spec_marked(),
    ensures
        num_unmarked(s.update(i, h)) + 1 == num_unmarked(s),
    decreases s.len(),
{
    let t = s.update(i, h);
    if i == s.len() - 1 {
        assert(t.drop_last() =~= s.drop_last());
        assert(t.last() == h);
    } else {
        assert(t.drop_last() =~= s.drop_last().update(i, h));
        assert(t.last() == s.last());
        lemma_num_unmarked_update(s.drop_last(), i, h);
    }
}

/// Record `j` appears somewhere on the mark worklist.
spec fn in_stack(s: Seq<usize>, j: int) -> bool {
    exists|t: int| 0 <= t < s.len() && s[t] as int == j
}

impl<T: GcAble> GcAlloc<T> {
    /// Well-formed: one header per slot.
    pub closed spec fn wf(&self) -> bool {
        self.headers@.len() == self.vals@.len()
    }

    /// How many slots the registry has ever allocated, live or not.
    pub closed spec fn slot_count(&self) -> int {
        self.vals@.len() as int
    }

    /// Slot `i` holds a record that has not been swept.
    pub closed spec fn live(&self, i: int) -> bool {
        0 <= i < self.vals@.len() && self.vals@[i] is Some
    }

    /// The value stored in live slot `i`.
    pub closed spec fn value(&self, i: int) -> T {
        self.vals@[i].unwrap()
    }

    /// The root count of slot `i` (0 outside the registry).
    pub closed spec fn rc(&self, i: int) -> nat {
        if 0 <= i < self.headers@.len() {
            self.headers@[i].spec_root_count()
        } else {
            0
        }
    }

    /// The mark bit of slot `i` (clear outside the registry).
    pub closed spec fn is_marked(&self, i: int) -> bool {
        0 <= i < self.headers@.len() && self.headers@[i].spec_marked()
    }

    /// The outgoing edges of live slot `i`: the record identifiers of the
    /// handle fields of its value.
    pub open spec fn edges(&self, i: int) -> Seq<int> {
        field_ids(self.value(i).gc_fields())
    }

    /// The ghost graph of the registry: one node per live slot.
    pub open spec fn graph(&self) -> Map<int, GNode> {
        Map::new(
            |i: int| self.live(i),
            |i: int| GNode { rooted: self.rc(i) > 0, edges: self.edges(i) },
        )
    }

    /// How many slots are live.
    pub closed spec fn num_live(&self) -> nat {
        num_live_seq(self.vals@)
    }

    /// Propagates a root-count delta of minus one to each of the given
    /// records, with multiplicity: how a container value with those handle
    /// fields is demoted from rootedness as a block. Every vote withdrawn
    /// must actually be held.
    pub fn dec_root_counts(&mut self, ids: &Vec<usize>)
        requires
            old(self).wf(),
            forall|id: int| #[trigger] occ_usize(ids@, id) <= old(self).rc(id),
        ensures
            final(self).wf(),
            final(self).slot_count() == old(self).slot_count(),
            forall|id: int|
                #[trigger] final(self).rc(id) == old(self).rc(id) - occ_usize(ids@, id),
            forall|j: int| final(self).live(j) == old(self).live(j),
            forall|j: int| old(self).live(j) ==> final(self).value(j) == old(self).value(j),
            forall|j: int| final(self).is_marked(j) == old(self).is_marked(j),
    {
        let ghost gc0: GcAlloc<T> = *self;
        let len = ids.len();
        let mut j: usize = 0;
        while j < len
            invariant
                self.wf(),
                self.slot_count() == gc0.slot_count(),
                j <= len,
                len == ids@.len(),
                forall|id: int| #[trigger] occ_usize(ids@, id) <= gc0.rc(id),
                forall|id: int|
                    #[trigger] self.rc(id) == gc0.rc(id) - occ_usize(ids@.take(j as int), id),
                forall|jj: int| self.live(jj) == gc0.live(jj),
                forall|jj: int| gc0.live(jj) ==> self.value(jj) == gc0.value(jj),
                forall|jj: int| self.is_marked(jj) == gc0.is_marked(jj),
            decreases len - j,
        {
            let id = ids[j];
            proof {
                lemma_occ_usize_split(ids@, j as int, id as int);
                lemma_occ_usize_at(ids@.skip(j as int), 0);
                assert(ids@.skip(j as int)[0] == ids@[j as int]);
                assert(occ_usize(ids@.skip(j as int), id as int) >= 1);
                assert(self.rc(id as int) > 0);
            }
            self.dec_root_count_at(id);
            proof {
                assert(ids@.take(j + 1) =~= ids@.take(j as int).push(ids@[j as int]));
                assert forall|x: int|
                    #[trigger] occ_usize(ids@.take(j + 1), x) == occ_usize(
                        ids@.take(j as int),
                        x,
                    ) + if ids@[j as int] as int == x {
                        1nat
                    } else {
                        0nat
                    } by {
                    lemma_occ_usize_push(ids@.take(j as int), ids@[j as int], x);
                }
            }
            j = j + 1;
        }
        proof {
            assert(ids@.take(len as int) =~= ids@);
        }
    }

    /// Propagates a root-count delta of plus one to each of the given
    /// records, with multiplicity: how a container value with those handle
    /// fields is promoted to rootedness as a block.
    pub fn inc_root_counts(&mut self, ids: &Vec<usize>)
        requires
            old(self).wf(),
            forall|t: int| 0 <= t < ids@.len() ==> (#[trigger] ids@[t] as int) < old(self).slot_count(),
            forall|id: int| old(self).rc(id) + #[trigger] occ_usize(ids@, id) <= u32::MAX,
        ensures
            final(self).wf(),
            final(self).slot_count() == old(self).slot_count(),
            forall|id: int|
                #[trigger] final(self).rc(id) == old(self).rc(id) + occ_usize(ids@, id),
            forall|j: int| final(self).live(j) == old(self).live(j),
            forall|j: int| old(self).live(j) ==> final(self).value(j) == old(self).value(j),
            forall|j: int| final(self).is_marked(j) == old(self).is_marked(j),
    {
        let ghost gc0: GcAlloc<T> = *self;
        let len = ids.len();
        let mut j: usize = 0;
        while j < len
            invariant
                self.wf(),
                self.slot_count() == gc0.slot_count(),
                j <= len,
                len == ids@.len(),
                forall|t: int|
                    0 <= t < ids@.len() ==> (#[trigger] ids@[t] as int) < gc0.slot_count(),
                forall|id: int| gc0.rc(id) + #[trigger] occ_usize(ids@, id) <= u32::MAX,
                forall|id: int|
                    #[trigger] self.rc(id) == gc0.rc(id) + occ_usize(ids@.take(j as int), id),
                forall|jj: int| self.live(jj) == gc0.live(jj),
                forall|jj: int| gc0.live(jj) ==> self.value(jj) == gc0.value(jj),
                forall|jj: int| self.is_marked(jj) == gc0.is_marked(jj),
            decreases len - j,
        {
            let id = ids[j];
            proof {
                lemma_occ_usize_split(ids@, j as int, id as int);
                lemma_occ_usize_at(ids@.skip(j as int), 0);
                assert(ids@.skip(j as int)[0] == ids@[j as int]);
                assert(occ_usize(ids@.skip(j as int), id as int) >= 1);
                assert(self.rc(id as int) < u32::MAX);
            }
            self.inc_root_count_at(id);
            proof {
                assert(ids@.take(j + 1) =~= ids@.take(j as int).push(ids@[j as int]));
                assert forall|x: int|
                    #[trigger] occ_usize(ids@.take(j + 1), x) == occ_usize(
                        ids@.take(j as int),
                        x,
                    ) + if ids@[j as int] as int == x {
                        1nat
                    } else {
                        0nat
                    } by {
                    lemma_occ_usize_push(ids@.take(j as int), ids@[j as int], x);
                }
            }
            j = j + 1;
        }
        proof {
            assert(ids@.take(len as int) =~= ids@);
        }
    }

    /// A record that holds a root vote is a root of the ghost graph, so it
    /// is reachable and every collection cycle keeps it: the bridge between
    /// a handle's bookkeeping and the reachability model.
    pub proof fn lemma_rooted_record_reachable(&self, i: int)
        requires
            self.live(i),
            self.rc(i) > 0,
        ensures
            rooted_reaches(self.graph(), i),
    {
        assert(rooted_node(self.graph(), i));
        assert(reaches_k(self.graph(), i, i, 0));
    }

    /// An empty registry, with no allocations and no slots.
    pub fn new() -> (gc: GcAlloc<T>)
        ensures
            gc.wf(),
            gc.slot_count() == 0,
    {
        GcAlloc { headers: Vec::new(), vals: Vec::new() }
    }

    /// Gives this registry control over the given record, which is needed
    /// for it to be collected. Returns the identifier of the new slot. A
    /// record is registered exactly once: it is moved into the registry, so
    /// a second registration of the same record cannot be expressed.
    pub fn register_gcbox(&mut self, gcb: GcBox<T>) -> (id: usize)
        requires
            old(self).wf(),
            old(self).slot_count() < usize::MAX,
        ensures
            final(self).wf(),
            id as int == old(self).slot_count(),
            final(self).slot_count() == old(self).slot_count() + 1,
            final(self).live(id as int),
            final(self).value(id as int) == gcb.spec_val(),
            final(self).rc(id as int) == gcb.spec_header().spec_root_count(),
            final(self).is_marked(id as int) == gcb.spec_header().spec_marked(),
            forall|j: int| j != id as int ==> final(self).live(j) == old(self).live(j),
            forall|j: int|
                j != id as int && old(self).live(j) ==> final(self).value(j) == old(self).value(j),
            forall|j: int| j != id as int ==> final(self).rc(j) == old(self).rc(j),
            forall|j: int| j != id as int ==> final(self).is_marked(j) == old(self).is_marked(j),
    {
        let GcBox { header, val } = gcb;
        let id = self.vals.len();
        self.headers.push(header);
        self.vals.push(Some(val));
        id
    }

    /// Slot `i` holds a record that has not been swept.
    pub fn is_live(&self, i: usize) -> (b: bool)
        requires
            self.wf(),
        ensures
            b == self.live(i as int),
    {
        i < self.vals.len() && self.vals[i].is_some()
    }

    /// How many records are currently registered and unswept.
    pub fn live_count(&self) -> (n: usize)
        requires
            self.wf(),
        ensures
            n as nat == self.num_live(),
    {
        let mut n: usize = 0;
        let mut i: usize = 0;
        let len = self.vals.len();
        while i < len
            invariant
                i <= len,
                len == self.vals@.len(),
                n as nat == num_live_seq(self.vals@.take(i as int)),
                n <= i,
            decreases len - i,
        {
            if self.vals[i].is_some() {
                n = n + 1;
            }
            proof {
                assert(self.vals@.take(i + 1).drop_last() =~= self.vals@.take(i as int));
                assert(self.vals@.take(i + 1).last() == self.vals@[i as int]);
            }
            i = i + 1;
        }
        proof {
            assert(self.vals@.take(len as int) =~= self.vals@);
        }
        n
    }

    /// Reads the root count of slot `i`'s record.
    pub fn root_count_at(&self, i: usize) -> (n: u32)
        requires
            self.wf(),
            (i as int) < self.slot_count(),
        ensures
            n as int == self.rc(i as int),
    {
        self.headers[i].root_count()
    }

    /// Dereferences a handle: a reference to the value in the handle's slot.
    pub fn get(&self, h: &Gc) -> (v: &T)
        requires
            self.wf(),
            self.live(h.spec_id()),
        ensures
            *v == self.value(h.spec_id()),
    {
        self.vals[h.id].as_ref().unwrap()
    }

    /// Adds one root vote to slot `i`'s record.
    pub fn inc_root_count_at(&mut self, i: usize)
        requires
            old(self).wf(),
            (i as int) < old(self).slot_count(),
            old(self).rc(i as int) < u32::MAX,
        ensures
            final(self).wf(),
            final(self).slot_count() == old(self).slot_count(),
            final(self).rc(i as int) == old(self).rc(i as int) + 1,
            forall|j: int| j != i as int ==> final(self).rc(j) == old(self).rc(j),
            forall|j: int| final(self).is_marked(j) == old(self).is_marked(j),
            forall|j: int| final(self).live(j) == old(self).live(j),
            forall|j: int| old(self).live(j) ==> final(self).value(j) == old(self).value(j),
    {
        let mut h = self.headers[i];
        h.inc_root_count();
        self.headers[i] = h;
    }

    /// Removes one root vote from slot `i`'s record. A record with no votes
    /// left has none to remove: that is a bookkeeping bug, excluded here.
    pub fn dec_root_count_at(&mut self, i: usize)
        requires
            old(self).wf(),
            old(self).rc(i as int) > 0,
        ensures
            final(self).wf(),
            final(self).slot_count() == old(self).slot_count(),
            final(self).rc(i as int) == old(self).rc(i as int) - 1,
            forall|j: int| j != i as int ==> final(self).rc(j) == old(self).rc(j),
            forall|j: int| final(self).is_marked(j) == old(self).is_marked(j),
            forall|j: int| final(self).live(j) == old(self).live(j),
            forall|j: int| old(self).live(j) ==> final(self).value(j) == old(self).value(j),
    {
        let mut h = self.headers[i];
        h.dec_root_count();
        self.headers[i] = h;
    }

    /// First phase of a cycle: clear the mark bit on every record. No
    /// recursion is needed.
    #[verifier::loop_isolation(false)]
    fn unmark_all(&mut self)
        requires
            old(self).wf(),
        ensures
            final(self).wf(),
            final(self).slot_count() == old(self).slot_count(),
            forall|j: int| final(self).live(j) == old(self).live(j),
            forall|j: int| old(self).live(j) ==> final(self).value(j) == old(self).value(j),
            forall|j: int| final(self).rc(j) == old(self).rc(j),
            forall|j: int| !final(self).is_marked(j),
    {
        let ghost gc0: GcAlloc<T> = *self;
        let len = self.vals.len();
        let mut i: usize = 0;
        while i < len
            invariant
                self.wf(),
                len == self.vals@.len(),
                self.vals@ == gc0.vals@,
                self.headers@.len() == gc0.headers@.len(),
                i <= len,
                forall|j: int|
                    0 <= j < i ==> ((#[trigger] self.headers@[j]).spec_root_count()
                        == gc0.headers@[j].spec_root_count() && !self.headers@[j].spec_marked()),
                forall|j: int| i <= j < len ==> self.headers@[j] == gc0.headers@[j],
            decreases len - i,
        {
            let mut h = self.headers[i];
            h.unmark();
            self.headers[i] = h;
            i = i + 1;
        }
    }

    /// Second phase of a cycle: mark every record whose root count is
    /// positive, then walk outgoing edges until no new record is found. A
    /// record already marked is not revisited, so the walk terminates on
    /// cyclic graphs. Afterwards, a record is marked exactly when it is
    /// reachable from a rooted record.
    #[verifier::loop_isolation(false)]
    fn mark_from_roots(&mut self)
        requires
            old(self).wf(),
            forall|j: int| !old(self).is_marked(j),
        ensures
            final(self).wf(),
            final(self).slot_count() == old(self).slot_count(),
            forall|j: int| final(self).live(j) == old(self).live(j),
            forall|j: int| old(self).live(j) ==> final(self).value(j) == old(self).value(j),
            forall|j: int| final(self).rc(j) == old(self).rc(j),
            forall|j: int|
                final(self).is_marked(j) == rooted_reaches(old(self).graph(), j),
    {
        let ghost gc0: GcAlloc<T> = *self;
        let ghost g0 = self.graph();
        let len = self.vals.len();
        proof {
            assert forall|j: int| 0 <= j < len implies !(#[trigger] self.headers@[j]).spec_marked()
                by {
                assert(!self.is_marked(j));
            }
        }
        let mut stack: Vec<usize> = Vec::new();
        let mut i: usize = 0;
        while i < len
            invariant
                self.wf(),
                len == self.vals@.len(),
                self.vals@ == gc0.vals@,
                self.headers@.len() == gc0.headers@.len(),
                i <= len,
                forall|j: int|
                    0 <= j < len ==> (#[trigger] self.headers@[j]).spec_root_count()
                        == gc0.headers@[j].spec_root_count(),
                forall|j: int|
                    0 <= j < i ==> ((#[trigger] self.headers@[j]).spec_marked() == rooted_node(
                        g0,
                        j,
                    )),
                forall|j: int| i <= j < len ==> !(#[trigger] self.headers@[j]).spec_marked(),
                forall|t: int| #![trigger stack@[t]]
                    0 <= t < stack@.len() ==> ((stack@[t] as int) < len
                        && self.headers@[stack@[t] as int].spec_marked()),
                forall|j: int|
                    0 <= j < len && (#[trigger] self.headers@[j]).spec_marked() ==> in_stack(
                        stack@,
                        j,
                    ),
            decreases len - i,
        {
            let live_slot = self.vals[i].is_some();
            let rooted = self.headers[i].is_rooted();
            if live_slot && rooted {
                let mut h = self.headers[i];
                h.mark();
                self.headers[i] = h;
                let ghost pre_push = stack@;
                stack.push(i);
                proof {
                    assert(g0.contains_key(i as int));
                    assert(g0[i as int].rooted);
                    assert(stack@[stack@.len() - 1] == i);
                    assert(in_stack(stack@, i as int));
                    assert forall|j: int| in_stack(pre_push, j) implies in_stack(stack@, j) by {
                        let u = choose|u: int| 0 <= u < pre_push.len() && pre_push[u] as int == j;
                        assert(stack@[u] as int == j);
                    }
                }
            } else {
                proof {
                    if rooted_node(g0, i as int) {
                        assert(g0.contains_key(i as int));
                        assert(gc0.live(i as int));
                        assert(g0[i as int].rooted == (gc0.rc(i as int) > 0));
                        assert(false);
                    }
                }
            }
            i = i + 1;
        }
        proof {
            assert forall|j: int|
                0 <= j < len && (#[trigger] self.headers@[j]).spec_marked()
                implies self.vals@[j] is Some && rooted_reaches(g0, j) by {
                assert(rooted_node(g0, j));
                assert(g0.contains_key(j));
                assert(gc0.live(j));
                assert(reaches_k(g0, j, j, 0));
            }
            assert forall|j: int| 0 <= j < len && rooted_node(g0, j)
                implies (#[trigger] self.headers@[j]).spec_marked() by {}
        }
        while stack.len() > 0
            invariant
                self.wf(),
                len == self.vals@.len(),
                self.vals@ == gc0.vals@,
                self.headers@.len() == gc0.headers@.len(),
                forall|j: int|
                    0 <= j < len ==> (#[trigger] self.headers@[j]).spec_root_count()
                        == gc0.headers@[j].spec_root_count(),
                forall|j: int|
                    0 <= j < len && (#[trigger] self.headers@[j]).spec_marked()
                        ==> self.vals@[j] is Some,
                forall|j: int|
                    0 <= j < len && (#[trigger] self.headers@[j]).spec_marked()
                        ==> rooted_reaches(g0, j),
                forall|j: int|
                    0 <= j < len && rooted_node(g0, j)
                        ==> (#[trigger] self.headers@[j]).spec_marked(),
                forall|t: int| #![trigger stack@[t]]
                    0 <= t < stack@.len() ==> ((stack@[t] as int) < len
                        && self.headers@[stack@[t] as int].spec_marked()),
                forall|j: int, e: int|
                    #![trigger self.headers@[j], step(g0, j, e)]
                    0 <= j < len && self.headers@[j].spec_marked() && !in_stack(stack@, j)
                        && step(g0, j, e) ==> self.headers@[e].spec_marked(),
            decreases num_unmarked(self.headers@) + stack@.len(),
        {
            let ghost sum0 = num_unmarked(self.headers@) + stack@.len();
            let ghost pre_pop = stack@;
            let n_id = stack.pop().unwrap();
            proof {
                assert(self.headers@[n_id as int].spec_marked());
                assert forall|j: int| in_stack(pre_pop, j) && j != n_id as int
                    implies in_stack(stack@, j) by {
                    let t = choose|t: int| 0 <= t < pre_pop.len() && pre_pop[t] as int == j;
                    assert(t < pre_pop.len() - 1);
                    assert(stack@[t] as int == j);
                }
            }
            let v: &T = self.vals[n_id].as_ref().unwrap();
            let edges: Vec<usize> = v.trace();
            proof {
                assert(g0.contains_key(n_id as int));
                assert(g0[n_id as int].edges == field_ids(gc0.value(n_id as int).gc_fields()));
                assert(*v == gc0.value(n_id as int));
                assert(edges@.len() == g0[n_id as int].edges.len());
            }
            let mut t: usize = 0;
            while t < edges.len()
                invariant
                    self.wf(),
                    len == self.vals@.len(),
                    self.vals@ == gc0.vals@,
                    self.headers@.len() == gc0.headers@.len(),
                    forall|j: int|
                        0 <= j < len ==> (#[trigger] self.headers@[j]).spec_root_count()
                            == gc0.headers@[j].spec_root_count(),
                    forall|j: int|
                        0 <= j < len && (#[trigger] self.headers@[j]).spec_marked()
                            ==> self.vals@[j] is Some,
                    forall|j: int|
                        0 <= j < len && (#[trigger] self.headers@[j]).spec_marked()
                            ==> rooted_reaches(g0, j),
                    forall|j: int|
                        0 <= j < len && rooted_node(g0, j)
                            ==> (#[trigger] self.headers@[j]).spec_marked(),
                    forall|u: int| #![trigger stack@[u]]
                        0 <= u < stack@.len() ==> ((stack@[u] as int) < len
                            && self.headers@[stack@[u] as int].spec_marked()),
                    t <= edges@.len(),
                    (n_id as int) < len,
                    self.headers@[n_id as int].spec_marked(),
                    g0.contains_key(n_id as int),
                    edges@.len() == g0[n_id as int].edges.len(),
                    forall|u: int|
                        0 <= u < edges@.len() ==> (#[trigger] edges@[u]) as int == g0[n_id
                            as int].edges[u],
                    forall|j: int, e: int|
                        #![trigger self.headers@[j], step(g0, j, e)]
                        0 <= j < len && self.headers@[j].spec_marked() && !in_stack(stack@, j)
                            && j != n_id as int && step(g0, j, e)
                            ==> self.headers@[e].spec_marked(),
                    forall|u: int|
                        0 <= u < t && g0.contains_key(#[trigger] g0[n_id as int].edges[u])
                            ==> self.headers@[g0[n_id as int].edges[u]].spec_marked(),
                    num_unmarked(self.headers@) + stack@.len() <= sum0 - 1,
                decreases edges@.len() - t,
            {
                let m = edges[t];
                if m < len {
                    if self.vals[m].is_some() {
                        if !self.headers[m].marked() {
                            let mut h = self.headers[m];
                            h.mark();
                            proof {
                                lemma_num_unmarked_update(self.headers@, m as int, h);
                                assert(g0[n_id as int].edges[t as int] == m as int);
                                assert(g0[n_id as int].edges.contains(m as int));
                                assert(gc0.live(m as int));
                                assert(g0.contains_key(m as int));
                                assert(step(g0, n_id as int, m as int));
                                lemma_rooted_step(g0, n_id as int, m as int);
                            }
                            let ghost pre_push = stack@;
                            self.headers[m] = h;
                            stack.push(m);
                            proof {
                                assert(stack@[stack@.len() - 1] == m);
                                assert(in_stack(stack@, m as int));
                                assert forall|j: int| in_stack(pre_push, j)
                                    implies in_stack(stack@, j) by {
                                    let u = choose|u: int|
                                        0 <= u < pre_push.len() && pre_push[u] as int == j;
                                    assert(stack@[u] as int == j);
                                }
                            }
                        }
                    }
                }
                proof {
                    let e = g0[n_id as int].edges[t as int];
                    if g0.contains_key(e) {
                        assert(gc0.live(e));
                        assert(e < len);
                        assert(self.headers@[e].spec_marked());
                    }
                }
                t = t + 1;
            }
            proof {
                assert forall|e: int| #[trigger] step(g0, n_id as int, e)
                    implies self.headers@[e].spec_marked() by {
                    let u = choose|u: int|
                        0 <= u < g0[n_id as int].edges.len() && g0[n_id as int].edges[u] == e;
                    assert(g0.contains_key(g0[n_id as int].edges[u]));
                }
                assert(num_unmarked(self.headers@) + stack@.len() < sum0);
            }
        }
        proof {
            let s_marked = Set::new(|j: int| self.is_marked(j));
            assert forall|b: int| rooted_reaches(g0, b) implies self.is_marked(b) by {
                let (r, k): (int, nat) = choose|r: int, k: nat|
                    rooted_node(g0, r) && reaches_k(g0, r, b, k);
                assert(gc0.live(r));
                assert(self.headers@[r].spec_marked());
                assert(s_marked.contains(r));
                assert forall|m: int, n: int|
                    s_marked.contains(m) && #[trigger] step(g0, m, n)
                    implies s_marked.contains(n) by {
                    assert(!in_stack(stack@, m));
                    assert(g0.contains_key(m));
                    assert(gc0.live(m));
                    assert(self.headers@[n].spec_marked());
                }
                lemma_reaches_closed_set(g0, s_marked, r, b, k);
                assert(s_marked.contains(b));
            }
            assert forall|j: int| #[trigger] self.is_marked(j) implies rooted_reaches(g0, j) by {}
        }
    }

    /// Third phase of a cycle: remove and deallocate every record whose mark
    /// bit is still clear; marked records remain registered for the next
    /// cycle.
    #[verifier::loop_isolation(false)]
    fn sweep_unmarked(&mut self)
        requires
            old(self).wf(),
        ensures
            final(self).wf(),
            final(self).slot_count() == old(self).slot_count(),
            forall|j: int| final(self).is_marked(j) == old(self).is_marked(j),
            forall|j: int| final(self).rc(j) == old(self).rc(j),
            forall|j: int|
                final(self).live(j) == (old(self).live(j) && old(self).is_marked(j)),
            forall|j: int| final(self).live(j) ==> final(self).value(j) == old(self).value(j),
    {
        let ghost gc0: GcAlloc<T> = *self;
        let len = self.vals.len();
        let mut i: usize = 0;
        while i < len
            invariant
                self.wf(),
                len == gc0.vals@.len(),
                self.headers@ == gc0.headers@,
                self.vals@.len() == gc0.vals@.len(),
                i <= len,
                forall|j: int| i <= j < len ==> (#[trigger] self.vals@[j]) == gc0.vals@[j],
                forall|j: int|
                    0 <= j < i ==> (((#[trigger] self.vals@[j]) is Some) == (gc0.vals@[j] is Some
                        && gc0.headers@[j].spec_marked())),
                forall|j: int|
                    0 <= j < i && ((#[trigger] self.vals@[j]) is Some) ==> self.vals@[j]
                        == gc0.vals@[j],
            decreases len - i,
        {
            if !self.headers[i].marked() {
                self.vals[i] = None;
            }
            i = i + 1;
        }
    }

    /// Mark then sweep: one full collection cycle. Afterwards the registry
    /// holds exactly the records that were reachable from a rooted record,
    /// each with its value and its root count unchanged; everything else has
    /// been removed and deallocated. The resulting ghost graph is
    /// [`collect_model`] of the old one.
    pub fn mark_sweep(&mut self)
        requires
            old(self).wf(),
        ensures
            final(self).wf(),
            final(self).slot_count() == old(self).slot_count(),
            forall|i: int| final(self).live(i) == rooted_reaches(old(self).graph(), i),
            forall|i: int| final(self).live(i) ==> final(self).value(i) == old(self).value(i),
            forall|i: int| final(self).rc(i) == old(self).rc(i),
            forall|i: int|
                final(self).is_marked(i) == rooted_reaches(old(self).graph(), i),
            final(self).graph() == collect_model(old(self).graph()),
    {
        let ghost gc0: GcAlloc<T> = *self;
        let ghost g0 = self.graph();
        self.unmark_all();
        proof {
            assert(self.graph() =~= g0);
        }
        self.mark_from_roots();
        proof {
            assert forall|i: int| rooted_reaches(g0, i) implies gc0.live(i) by {
                let (r, k): (int, nat) = choose|r: int, k: nat|
                    rooted_node(g0, r) && reaches_k(g0, r, i, k);
                lemma_reaches_in_dom(g0, r, i, k);
            }
        }
        self.sweep_unmarked();
        proof {
            assert(self.graph() =~= collect_model(g0));
        }
    }

    /// Mutable access to the value in the handle's slot, so that edges can
    /// be added after construction (a cyclic graph is built this way). The
    /// new contents replace the old in the registry's model.
    pub fn get_mut(&mut self, h: &Gc) -> (v: &mut T)
        requires
            old(self).wf(),
            old(self).live(h.spec_id()),
        ensures
            *v == old(self).value(h.spec_id()),
            final(self).wf(),
            final(self).slot_count() == old(self).slot_count(),
            final(self).live(h.spec_id()),
            final(self).value(h.spec_id()) == *final(v),
            forall|j: int| j != h.spec_id() ==> final(self).live(j) == old(self).live(j),
            forall|j: int|
                j != h.spec_id() && old(self).live(j) ==> final(self).value(j) == old(
                    self,
                ).value(j),
            forall|j: int| final(self).rc(j) == old(self).rc(j),
            forall|j: int| final(self).is_marked(j) == old(self).is_marked(j),
    {
        self.vals[h.id].as_mut().unwrap()
    }
}

impl Gc {
    /// Wraps a value in a fresh allocation: demotes every handle embedded
    /// in the value (giving their root votes back to their records),
    /// registers a record whose root count is 1, and returns a rooted
    /// handle to it. The root-vote requirement asks only that the embedded
    /// rooted handles actually hold the votes they are about to return.
    pub fn new<T: GcAble>(gc: &mut GcAlloc<T>, val: T) -> (h: Gc)
        requires
            old(gc).wf(),
            old(gc).slot_count() < usize::MAX,
            forall|id: int| #[trigger] rooted_occ(val.gc_fields(), id) <= old(gc).rc(id),
        ensures
            final(gc).wf(),
            final(gc).slot_count() == old(gc).slot_count() + 1,
            h.spec_id() == old(gc).slot_count(),
            h.spec_is_root(),
            final(gc).live(h.spec_id()),
            final(gc).rc(h.spec_id()) == 1,
            !final(gc).is_marked(h.spec_id()),
            final(gc).value(h.spec_id()).gc_fields() == demote_seq(val.gc_fields()),
            val.same_payload(&final(gc).value(h.spec_id())),
            forall|j: int| j != h.spec_id() ==> final(gc).live(j) == old(gc).live(j),
            forall|j: int|
                j != h.spec_id() && old(gc).live(j) ==> final(gc).value(j) == old(gc).value(j),
            forall|j: int|
                j != h.spec_id() ==> final(gc).rc(j) == old(gc).rc(j) - rooted_occ(
                    val.gc_fields(),
                    j,
                ),
            forall|j: int| j != h.spec_id() ==> final(gc).is_marked(j) == old(gc).is_marked(j),
    {
        let mut val = val;
        let ghost fields0 = val.gc_fields();
        let rooted: Vec<usize> = val.set_not_root();
        gc.dec_root_counts(&rooted);
        let id = gc.register_gcbox(GcBox::new(val));
        Gc { id, is_root: true }
    }

    /// Wraps an owned, boxed value: the same as `Gc::new` on the unboxed
    /// value. The registry takes ownership of the value; nothing is leaked.
    pub fn from_box<T: GcAble>(gc: &mut GcAlloc<T>, owned_ptr: Box<T>) -> (h: Gc)
        requires
            old(gc).wf(),
            old(gc).slot_count() < usize::MAX,
            forall|id: int| #[trigger] rooted_occ(owned_ptr.gc_fields(), id) <= old(gc).rc(id),
        ensures
            final(gc).wf(),
            final(gc).slot_count() == old(gc).slot_count() + 1,
            h.spec_id() == old(gc).slot_count(),
            h.spec_is_root(),
            final(gc).live(h.spec_id()),
            final(gc).rc(h.spec_id()) == 1,
            !final(gc).is_marked(h.spec_id()),
            final(gc).value(h.spec_id()).gc_fields() == demote_seq(owned_ptr.gc_fields()),
            owned_ptr.same_payload(&final(gc).value(h.spec_id())),
            forall|j: int| j != h.spec_id() ==> final(gc).live(j) == old(gc).live(j),
            forall|j: int|
                j != h.spec_id() && old(gc).live(j) ==> final(gc).value(j) == old(gc).value(j),
            forall|j: int|
                j != h.spec_id() ==> final(gc).rc(j) == old(gc).rc(j) - rooted_occ(
                    owned_ptr.gc_fields(),
                    j,
                ),
            forall|j: int| j != h.spec_id() ==> final(gc).is_marked(j) == old(gc).is_marked(j),
    {
        let val = *owned_ptr;
        Gc::new(gc, val)
    }

    /// Clones this handle: adds one root vote to the record and returns a
    /// new handle, itself rooted. Two handles may reference the same
    /// record; each independently tracks its own rootedness.
    pub fn clone_handle<T: GcAble>(&self, gc: &mut GcAlloc<T>) -> (h: Gc)
        requires
            old(gc).wf(),
            old(gc).live(self.spec_id()),
            old(gc).rc(self.spec_id()) < u32::MAX,
        ensures
            final(gc).wf(),
            final(gc).slot_count() == old(gc).slot_count(),
            h.spec_id() == self.spec_id(),
            h.spec_is_root(),
            final(gc).rc(self.spec_id()) == old(gc).rc(self.spec_id()) + 1,
            forall|j: int| j != self.spec_id() ==> final(gc).rc(j) == old(gc).rc(j),
            forall|j: int| final(gc).live(j) == old(gc).live(j),
            forall|j: int| old(gc).live(j) ==> final(gc).value(j) == old(gc).value(j),
            forall|j: int| final(gc).is_marked(j) == old(gc).is_marked(j),
    {
        gc.inc_root_count_at(self.id);
        Gc { id: self.id, is_root: true }
    }

    /// Drops this handle: withdraws its root vote, if it still holds one.
    /// Dropping never deallocates; only the sweep phase frees records, so
    /// "no more rooted handles" is decoupled from "memory freed".
    pub fn drop_handle<T: GcAble>(self, gc: &mut GcAlloc<T>)
        requires
            old(gc).wf(),
            self.spec_is_root() ==> old(gc).rc(self.spec_id()) > 0,
        ensures
            final(gc).wf(),
            final(gc).slot_count() == old(gc).slot_count(),
            final(gc).rc(self.spec_id()) == old(gc).rc(self.spec_id()) - (
            if self.spec_is_root() {
                1int
            } else {
                0int
            }),
            forall|j: int| j != self.spec_id() ==> final(gc).rc(j) == old(gc).rc(j),
            forall|j: int| final(gc).live(j) == old(gc).live(j),
            forall|j: int| old(gc).live(j) ==> final(gc).value(j) == old(gc).value(j),
            forall|j: int| final(gc).is_marked(j) == old(gc).is_marked(j),
    {
        if self.is_root {
            gc.dec_root_count_at(self.id);
        }
    }

    /// Demotes this handle: if currently rooted, withdraws its vote and
    /// clears `is_root`; otherwise does nothing. Idempotent. Used when a
    /// handle is moved into another managed value as an outgoing edge: it
    /// must stop counting as a root the instant it becomes reachable only
    /// through graph structure.
    pub fn set_not_root<T: GcAble>(&mut self, gc: &mut GcAlloc<T>)
        requires
            old(gc).wf(),
            old(self).spec_is_root() ==> old(gc).rc(old(self).spec_id()) > 0,
        ensures
            final(self).spec_id() == old(self).spec_id(),
            !final(self).spec_is_root(),
            final(gc).wf(),
            final(gc).slot_count() == old(gc).slot_count(),
            final(gc).rc(old(self).spec_id()) == old(gc).rc(old(self).spec_id()) - (
            if old(self).spec_is_root() {
                1int
            } else {
                0int
            }),
            forall|j: int| j != old(self).spec_id() ==> final(gc).rc(j) == old(gc).rc(j),
            forall|j: int| final(gc).live(j) == old(gc).live(j),
            forall|j: int| old(gc).live(j) ==> final(gc).value(j) == old(gc).value(j),
            forall|j: int| final(gc).is_marked(j) == old(gc).is_marked(j),
    {
        if self.is_root {
            gc.dec_root_count_at(self.id);
            self.is_root = false;
        }
    }

    /// Adds one root vote to this handle's record, without touching the
    /// handle's own flag: the building block used when a container value is
    /// promoted to rootedness as a block.
    pub fn inc_root_count<T: GcAble>(&self, gc: &mut GcAlloc<T>)
        requires
            old(gc).wf(),
            self.spec_id() < old(gc).slot_count(),
            old(gc).rc(self.spec_id()) < u32::MAX,
        ensures
            final(gc).wf(),
            final(gc).slot_count() == old(gc).slot_count(),
            final(gc).rc(self.spec_id()) == old(gc).rc(self.spec_id()) + 1,
            forall|j: int| j != self.spec_id() ==> final(gc).rc(j) == old(gc).rc(j),
            forall|j: int| final(gc).live(j) == old(gc).live(j),
            forall|j: int| old(gc).live(j) ==> final(gc).value(j) == old(gc).value(j),
            forall|j: int| final(gc).is_marked(j) == old(gc).is_marked(j),
    {
        gc.inc_root_count_at(self.id);
    }

    /// Removes one root vote from this handle's record, without touching
    /// the handle's own flag: the counterpart of `inc_root_count` for
    /// demoting a container value as a block.
    pub fn dec_root_count<T: GcAble>(&self, gc: &mut GcAlloc<T>)
        requires
            old(gc).wf(),
            old(gc).rc(self.spec_id()) > 0,
        ensures
            final(gc).wf(),
            final(gc).slot_count() == old(gc).slot_count(),
            final(gc).rc(self.spec_id()) == old(gc).rc(self.spec_id()) - 1,
            forall|j: int| j != self.spec_id() ==> final(gc).rc(j) == old(gc).rc(j),
            forall|j: int| final(gc).live(j) == old(gc).live(j),
            forall|j: int| old(gc).live(j) ==> final(gc).value(j) == old(gc).value(j),
            forall|j: int| final(gc).is_marked(j) == old(gc).is_marked(j),
    {
        gc.dec_root_count_at(self.id);
    }
}

/// Returns a fresh, empty registry. The original design keeps one
/// process-wide registry behind a lock and starts its background collector
/// thread here; that synchronization and the thread live in the embedding
/// application, which calls this once and then shares the registry.
pub fn init_gc<T: GcAble>() -> (gc: GcAlloc<T>)
    ensures
        gc.wf(),
        gc.slot_count() == 0,
{
    GcAlloc::new()
}

/// Makes sure all memory that can be freed at the moment is freed: runs one
/// full collection cycle on the registry, synchronously, and returns only
/// once sweeping completes.
pub fn force_collect<T: GcAble>(gc: &mut GcAlloc<T>)
    requires
        old(gc).wf(),
    ensures
        final(gc).wf(),
        final(gc).slot_count() == old(gc).slot_count(),
        forall|i: int| final(gc).live(i) == rooted_reaches(old(gc).graph(), i),
        forall|i: int| final(gc).live(i) ==> final(gc).value(i) == old(gc).value(i),
        forall|i: int| final(gc).rc(i) == old(gc).rc(i),
        final(gc).graph() == collect_model(old(gc).graph()),
{
    gc.mark_sweep()
}

} // verus!
