//! A sample managed value type: an integer node with outgoing edges to
//! other managed nodes. It shows what a client of the collector implements,
//! and exercises the tracing capability over an arbitrary number of handle
//! fields.

use vstd::prelude::*;

use crate::traceable::{
    demote_seq, field_ids, lemma_occ_usize_push, lemma_rooted_occ_take_step, occ_usize,
    rooted_occ, Gc, GcAble,
};

verus! {

/// A managed value holding a number and a list of outgoing managed
/// references.
pub struct ExampleNum {
    pub(crate) n: i32,
    pub(crate) next: Vec<Gc>,
}

impl ExampleNum {
    /// The number this node carries.
    pub closed spec fn spec_n(&self) -> i32 {
        self.n
    }

    /// A node with the given number and outgoing references.
    pub fn new(n: i32, next: Vec<Gc>) -> (r: ExampleNum)
        ensures
            r.spec_n() == n,
            r.gc_fields() == next@,
    {
        ExampleNum { n, next }
    }

    /// Reads the number this node carries.
    pub fn get(&self) -> (r: i32)
        ensures
            r == self.spec_n(),
    {
        self.n
    }

    /// Appends one outgoing reference: how an edge is added after
    /// construction, for instance to close a cycle. The handle should be
    /// demoted first if this node already lives in the registry.
    pub fn push_next(&mut self, h: Gc)
        ensures
            final(self).spec_n() == old(self).spec_n(),
            final(self).gc_fields() == old(self).gc_fields().push(h),
    {
        self.next.push(h);
    }
}

impl GcAble for ExampleNum {
    closed spec fn gc_fields(&self) -> Seq<Gc> {
        self.next@
    }

    closed spec fn same_payload(&self, other: &Self) -> bool {
        self.n == other.n && field_ids(self.next@) == field_ids(other.next@)
    }

    #[verifier::loop_isolation(false)]
    fn trace(&self) -> (r: Vec<usize>) {
        let mut r: Vec<usize> = Vec::new();
        let len = self.next.len();
        let mut k: usize = 0;
        while k < len
            invariant
                k <= len,
                r@.len() == k,
                forall|t: int| 0 <= t < k ==> (#[trigger] r@[t]) as int == self.next@[t].spec_id(),
            decreases len - k,
        {
            r.push(self.next[k].as_ptr());
            k = k + 1;
        }
        r
    }

    #[verifier::loop_isolation(false)]
    fn set_not_root(&mut self) -> (r: Vec<usize>) {
        let ghost fields0 = self.next@;
        let mut r: Vec<usize> = Vec::new();
        let len = self.next.len();
        let mut k: usize = 0;
        while k < len
            invariant
                k <= len,
                self.n == old(self).n,
                self.next@.len() == fields0.len(),
                forall|t: int| 0 <= t < k ==> (#[trigger] self.next@[t]) == fields0[t].demoted(),
                forall|t: int| k <= t < len ==> (#[trigger] self.next@[t]) == fields0[t],
                forall|x: int| #[trigger] occ_usize(r@, x) == rooted_occ(fields0.take(k as int), x),
            decreases len - k,
        {
            let hid = self.next[k].id;
            let hroot = self.next[k].is_root;
            let ghost r_pre = r@;
            if hroot {
                r.push(hid);
            }
            self.next[k] = Gc { id: hid, is_root: false };
            proof {
                assert forall|x: int|
                    #[trigger] occ_usize(r@, x) == rooted_occ(fields0.take(k + 1), x) by {
                    lemma_rooted_occ_take_step(fields0, k as int, x);
                    if hroot {
                        lemma_occ_usize_push(r_pre, hid, x);
                    }
                }
            }
            k = k + 1;
        }
        proof {
            assert(fields0.take(len as int) =~= fields0);
            assert(self.next@ =~= demote_seq(fields0));
            assert(field_ids(fields0) =~= field_ids(self.next@));
        }
        r
    }
}

/// What payload equality means for this type: the number is the same and
/// the outgoing edges lead to the same records, in the same order.
pub proof fn lemma_same_payload(a: &ExampleNum, b: &ExampleNum)
    requires
        a.same_payload(b),
    ensures
        a.spec_n() == b.spec_n(),
        field_ids(a.gc_fields()) == field_ids(b.gc_fields()),
{
}

} // verus!
