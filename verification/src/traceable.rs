//! The tracked handle type and the tracing capability.
//!
//! A [`Gc`] is the reference application code holds to a managed value: the
//! identifier of an allocation record in the registry, together with a
//! per-handle rootedness flag. The [`GcAble`] trait is the contract every
//! managed value type implements so the collector can discover the handles
//! the value stores as fields.

use vstd::prelude::*;

verus! {

/// A tracked reference to a managed value.
///
/// The allocation record is owned by the registry, never by a handle; the
/// handle only votes on rootedness through the record's root count. While
/// `is_root` is set, the handle counts toward the record's root count.
pub struct Gc {
    pub id: usize,
    pub is_root: bool,
}

impl Gc {
    /// The identifier of the allocation record this handle refers to.
    pub open spec fn spec_id(&self) -> int {
        self.id as int
    }

    /// Whether this handle currently counts as a root.
    pub open spec fn spec_is_root(&self) -> bool {
        self.is_root
    }

    /// The same handle with its root vote withdrawn.
    pub open spec fn demoted(&self) -> Gc {
        Gc { id: self.id, is_root: false }
    }

    /// The identifier of the allocation record, which stands for the
    /// allocation's address.
    pub fn as_ptr(&self) -> (p: usize)
        ensures
            p as int == self.spec_id(),
    {
        self.id
    }
}

/// The record identifiers of a sequence of handle fields, in order.
pub open spec fn field_ids(s: Seq<Gc>) -> Seq<int> {
    s.map_values(|h: Gc| h.spec_id())
}

/// The same handle fields with every root vote withdrawn.
pub open spec fn demote_seq(s: Seq<Gc>) -> Seq<Gc> {
    s.map_values(|h: Gc| h.demoted())
}

/// How many handles in `s` are rooted at record `id`.
pub open spec fn rooted_occ(s: Seq<Gc>, id: int) -> nat
    decreases s.len(),
{
    if s.len() == 0 {
        0
    } else {
        rooted_occ(s.drop_last(), id) + if s.last().spec_is_root() && s.last().spec_id() == id {
            1nat
        } else {
            0nat
        }
    }
}

/// How many entries of `s` equal `id`.
pub open spec fn occ_usize(s: Seq<usize>, id: int) -> nat
    decreases s.len(),
{
    if s.len() == 0 {
        0
    } else {
        occ_usize(s.drop_last(), id) + if s.last() as int == id {
            1nat
        } else {
            0nat
        }
    }
}

/// Appending one entry raises its own count by one and no other.
pub proof fn lemma_occ_usize_push(s: Seq<usize>, x: usize, id: int)
    ensures
        occ_usize(s.push(x), id) == occ_usize(s, id) + if x as int == id {
            1nat
        } else {
            0nat
        },
{
    assert(s.push(x).drop_last() =~= s);
    assert(s.push(x).last() == x);
}

/// Counting rooted handles over one more field.
pub proof fn lemma_rooted_occ_take_step(s: Seq<Gc>, k: int, id: int)
    requires
        0 <= k < s.len(),
    ensures
        rooted_occ(s.take(k + 1), id) == rooted_occ(s.take(k), id)
            + if s[k].spec_is_root() && s[k].spec_id() == id {
            1nat
        } else {
            0nat
        },
{
    assert(s.take(k + 1).drop_last() =~= s.take(k));
    assert(s.take(k + 1).last() == s[k]);
}

/// The count over a whole sequence splits at any point.
pub proof fn lemma_occ_usize_split(s: Seq<usize>, j: int, id: int)
    requires
        0 <= j <= s.len(),
    ensures
        occ_usize(s, id) == occ_usize(s.take(j), id) + occ_usize(s.skip(j), id),
    decreases s.len(),
{
    if j == s.len() {
        assert(s.take(j) =~= s);
        assert(s.skip(j) =~= Seq::<usize>::empty());
    } else {
        let d = s.drop_last();
        lemma_occ_usize_split(d, j, id);
        assert(s.take(j) =~= d.take(j));
        assert(s.skip(j).drop_last() =~= d.skip(j));
        assert(s.skip(j).last() == s.last());
        assert(s.skip(j).len() > 0);
    }
}

/// Withdrawing root votes does not change where the handles point: the
/// record identifiers are the same before and after demotion.
pub proof fn lemma_field_ids_demote(s: Seq<Gc>)
    ensures
        field_ids(demote_seq(s)) == field_ids(s),
{
    assert(field_ids(demote_seq(s)) =~= field_ids(s));
}

/// An entry of `s` counts at least once toward its own tally.
pub proof fn lemma_occ_usize_at(s: Seq<usize>, k: int)
    requires
        0 <= k < s.len(),
    ensures
        occ_usize(s, s[k] as int) >= 1,
    decreases s.len(),
{
    if k < s.len() - 1 {
        lemma_occ_usize_at(s.drop_last(), k);
        assert(s.drop_last()[k] == s[k]);
    }
}

/// The contract every managed value type implements so the collector can
/// traverse, root and unroot the handles the value stores as fields.
///
/// A value's outgoing references are exactly the `Gc` handles it stores;
/// `gc_fields` is their model. Leaf value types with no handle fields
/// implement `gc_fields` as the empty sequence and the two operations as
/// no-ops. A missing field here would let the collector free a reachable
/// record, so the model must be exhaustive.
pub trait GcAble: Sized {
    /// Model: the handle fields this value owns, in field order.
    spec fn gc_fields(&self) -> Seq<Gc>;

    /// The two values carry the same payload: they differ at most in the
    /// rootedness flags of their handle fields.
    spec fn same_payload(&self, other: &Self) -> bool;

    /// Lists the record identifier of every handle field, for the mark
    /// phase's graph walk.
    fn trace(&self) -> (r: Vec<usize>)
        ensures
            r@.len() == self.gc_fields().len(),
            forall|t: int| 0 <= t < r@.len() ==> r@[t] as int == self.gc_fields()[t].spec_id(),
    ;

    /// Withdraws the root vote of every handle field, and reports the record
    /// identifiers of the fields that were rooted, with multiplicity, so the
    /// caller can give back their votes. Called exactly once, when the value
    /// is wrapped by a new allocation: handles embedded in a managed value
    /// must not be counted as stack-level roots.
    fn set_not_root(&mut self) -> (r: Vec<usize>)
        ensures
            final(self).gc_fields() == demote_seq(old(self).gc_fields()),
            forall|id: int| occ_usize(r@, id) == rooted_occ(old(self).gc_fields(), id),
            old(self).same_payload(final(self)),
    ;
}

} // verus!
