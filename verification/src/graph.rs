//! Ghost model of the managed heap: a graph of allocation records.
//!
//! Each record is a [`GNode`] holding its rootedness and the identifiers of
//! its outgoing edges. A collection cycle is modelled by [`collect_model`]:
//! the restriction of the graph to the records reachable from a rooted
//! record. The lemmas here state the collector's laws: reachable records are
//! preserved, unreachable ones are removed, and collecting twice is the same
//! as collecting once.

use vstd::prelude::*;

verus! {

/// One allocation record, as the reachability analysis sees it: whether its
/// root count is positive, and the record identifiers of its outgoing edges.
#[verifier::ext_equal]
pub ghost struct GNode {
    pub rooted: bool,
    pub edges: Seq<int>,
}

/// One edge step: `a` and `b` are both registered and `b` is an outgoing
/// edge of `a`.
pub open spec fn step(g: Map<int, GNode>, a: int, b: int) -> bool {
    g.contains_key(a) && g.contains_key(b) && g[a].edges.contains(b)
}

/// There is a path of at most `k` steps from `a` to `b`.
pub open spec fn reaches_k(g: Map<int, GNode>, a: int, b: int, k: nat) -> bool
    decreases k,
{
    (a == b && g.contains_key(a)) || (k > 0 && exists|m: int|
        step(g, a, m) && reaches_k(g, m, b, (k - 1) as nat))
}

/// `r` is a registered record whose root count is positive.
pub open spec fn rooted_node(g: Map<int, GNode>, r: int) -> bool {
    g.contains_key(r) && g[r].rooted
}

/// `b` is reachable from some rooted record: the records that a collection
/// cycle must keep.
pub open spec fn rooted_reaches(g: Map<int, GNode>, b: int) -> bool {
    exists|r: int, k: nat| rooted_node(g, r) && reaches_k(g, r, b, k)
}

/// What one full collection cycle leaves behind: exactly the records
/// reachable from a rooted record, unchanged.
pub open spec fn collect_model(g: Map<int, GNode>) -> Map<int, GNode> {
    g.restrict(Set::new(|i: int| rooted_reaches(g, i)))
}

/// A reachable record is registered.
pub proof fn lemma_reaches_in_dom(g: Map<int, GNode>, a: int, b: int, k: nat)
    requires
        reaches_k(g, a, b, k),
    ensures
        g.contains_key(a),
        g.contains_key(b),
    decreases k,
{
    if !(a == b && g.contains_key(a)) {
        let m = choose|m: int| step(g, a, m) && reaches_k(g, m, b, (k - 1) as nat);
        lemma_reaches_in_dom(g, m, b, (k - 1) as nat);
    }
}

/// A path can be extended by one step at its end.
pub proof fn lemma_reaches_step(g: Map<int, GNode>, a: int, b: int, c: int, k: nat)
    requires
        reaches_k(g, a, b, k),
        step(g, b, c),
    ensures
        reaches_k(g, a, c, k + 1),
    decreases k,
{
    if a == b && g.contains_key(a) {
        assert(reaches_k(g, c, c, 0)) by {
            assert(g.contains_key(c));
        }
        assert(step(g, a, c) && reaches_k(g, c, c, k as nat));
    } else {
        let m = choose|m: int| step(g, a, m) && reaches_k(g, m, b, (k - 1) as nat);
        lemma_reaches_step(g, m, b, c, (k - 1) as nat);
        assert(step(g, a, m) && reaches_k(g, m, c, k as nat));
    }
}

/// One step away from a record reachable from a root is still reachable.
pub proof fn lemma_rooted_step(g: Map<int, GNode>, b: int, c: int)
    requires
        rooted_reaches(g, b),
        step(g, b, c),
    ensures
        rooted_reaches(g, c),
{
    let (r, k): (int, nat) = choose|r: int, k: nat| rooted_node(g, r) && reaches_k(g, r, b, k);
    lemma_reaches_step(g, r, b, c, k);
}

/// Everything reachable from a member of a step-closed set is a member: the
/// mark phase's closure argument.
pub proof fn lemma_reaches_closed_set(g: Map<int, GNode>, s: Set<int>, a: int, b: int, k: nat)
    requires
        s.contains(a),
        forall|m: int, n: int| s.contains(m) && #[trigger] step(g, m, n) ==> s.contains(n),
        reaches_k(g, a, b, k),
    ensures
        s.contains(b),
    decreases k,
{
    if !(a == b && g.contains_key(a)) {
        let m = choose|m: int| step(g, a, m) && reaches_k(g, m, b, (k - 1) as nat);
        lemma_reaches_closed_set(g, s, m, b, (k - 1) as nat);
    }
}

/// A path in a restriction of the graph is a path in the graph itself.
pub proof fn lemma_reaches_restrict_sub(g: Map<int, GNode>, s: Set<int>, a: int, b: int, k: nat)
    requires
        reaches_k(g.restrict(s), a, b, k),
    ensures
        reaches_k(g, a, b, k),
    decreases k,
{
    let gr = g.restrict(s);
    if a == b && gr.contains_key(a) {
        assert(g.contains_key(a));
    } else {
        let m = choose|m: int| step(gr, a, m) && reaches_k(gr, m, b, (k - 1) as nat);
        lemma_reaches_restrict_sub(g, s, m, b, (k - 1) as nat);
        assert(step(g, a, m));
    }
}

/// A path from a record that is reachable from a root survives restriction
/// to the reachable records: every record along it is itself reachable.
pub proof fn lemma_reaches_restrict_super(g: Map<int, GNode>, a: int, b: int, k: nat)
    requires
        rooted_reaches(g, a),
        reaches_k(g, a, b, k),
    ensures
        reaches_k(collect_model(g), a, b, k),
    decreases k,
{
    let gr = collect_model(g);
    if a == b && g.contains_key(a) {
        assert(gr.contains_key(a));
    } else {
        let m = choose|m: int| step(g, a, m) && reaches_k(g, m, b, (k - 1) as nat);
        lemma_rooted_step(g, a, m);
        lemma_reaches_restrict_super(g, m, b, (k - 1) as nat);
        assert(gr.contains_key(a) && gr.contains_key(m));
        assert(step(gr, a, m));
    }
}

/// Reachability preservation: every record reachable from a rooted record is
/// kept by a collection cycle, with its rootedness and its edges unchanged.
pub proof fn lemma_reachable_preserved(g: Map<int, GNode>, i: int)
    requires
        rooted_reaches(g, i),
    ensures
        collect_model(g).contains_key(i),
        collect_model(g)[i] == g[i],
{
    let (r, k): (int, nat) = choose|r: int, k: nat| rooted_node(g, r) && reaches_k(g, r, i, k);
    lemma_reaches_in_dom(g, r, i, k);
}

/// Deallocation liveness: a collection cycle removes every record that is
/// not reachable from a rooted record, and keeps nothing else.
pub proof fn lemma_unreachable_removed(g: Map<int, GNode>, i: int)
    requires
        !rooted_reaches(g, i),
    ensures
        !collect_model(g).contains_key(i),
{
}

/// Cycle collection: records keep one another alive only through a rooted
/// record. In a heap with no rooted record — however the records reference
/// each other, cycles included — a collection cycle removes every record.
/// This is the defining advantage over plain reference counting.
pub proof fn lemma_no_roots_collects_all(g: Map<int, GNode>)
    requires
        forall|r: int| g.contains_key(r) ==> !(#[trigger] g[r]).rooted,
    ensures
        collect_model(g) == Map::<int, GNode>::empty(),
{
    assert forall|i: int| !rooted_reaches(g, i) by {
        if rooted_reaches(g, i) {
            let (r, k): (int, nat) = choose|r: int, k: nat|
                rooted_node(g, r) && reaches_k(g, r, i, k);
            assert(g[r].rooted);
        }
    }
    assert(collect_model(g) =~= Map::<int, GNode>::empty());
}

/// Collection keeps reachability: a record is reachable from a rooted record
/// of the collected graph exactly when it was reachable before the cycle.
pub proof fn lemma_collect_keeps_reachability(g: Map<int, GNode>, b: int)
    ensures
        rooted_reaches(collect_model(g), b) == rooted_reaches(g, b),
{
    let gr = collect_model(g);
    if rooted_reaches(gr, b) {
        let (r, k): (int, nat) = choose|r: int, k: nat|
            rooted_node(gr, r) && reaches_k(gr, r, b, k);
        lemma_reaches_restrict_sub(g, Set::new(|i: int| rooted_reaches(g, i)), r, b, k);
        assert(rooted_node(g, r) && reaches_k(g, r, b, k));
    }
    if rooted_reaches(g, b) {
        let (r, k): (int, nat) = choose|r: int, k: nat| rooted_node(g, r) && reaches_k(g, r, b, k);
        assert(reaches_k(g, r, r, 0));
        assert(rooted_reaches(g, r));
        lemma_reaches_restrict_super(g, r, b, k);
        assert(rooted_node(gr, r));
    }
}

/// The heap after `n` collection cycles with no intervening handle
/// mutations.
pub open spec fn collect_iter(g: Map<int, GNode>, n: nat) -> Map<int, GNode>
    decreases n,
{
    if n == 0 {
        g
    } else {
        collect_model(collect_iter(g, (n - 1) as nat))
    }
}

/// Reachability preservation over time: a record reachable from a rooted
/// record survives any number of collection cycles, unchanged.
pub proof fn lemma_reachable_preserved_forever(g: Map<int, GNode>, i: int, n: nat)
    requires
        rooted_reaches(g, i),
    ensures
        collect_iter(g, n).contains_key(i),
        collect_iter(g, n)[i] == g[i],
    decreases n,
{
    if n == 0 {
        let (r, k): (int, nat) = choose|r: int, k: nat| rooted_node(g, r) && reaches_k(g, r, i, k);
        lemma_reaches_in_dom(g, r, i, k);
    } else {
        let prev = collect_iter(g, (n - 1) as nat);
        lemma_reachable_preserved_forever(g, i, (n - 1) as nat);
        lemma_collect_iter_keeps_reachability(g, i, (n - 1) as nat);
        lemma_reachable_preserved(prev, i);
    }
}

/// A record reachable from a rooted record stays reachable across any
/// number of collection cycles.
pub proof fn lemma_collect_iter_keeps_reachability(g: Map<int, GNode>, b: int, n: nat)
    ensures
        rooted_reaches(collect_iter(g, n), b) == rooted_reaches(g, b),
    decreases n,
{
    if n > 0 {
        lemma_collect_iter_keeps_reachability(g, b, (n - 1) as nat);
        lemma_collect_keeps_reachability(collect_iter(g, (n - 1) as nat), b);
    }
}

/// Idempotence: running a second collection cycle with no intervening handle
/// mutations leaves the heap exactly as the first cycle left it.
pub proof fn lemma_collect_idempotent(g: Map<int, GNode>)
    ensures
        collect_model(collect_model(g)) == collect_model(g),
{
    let g1 = collect_model(g);
    let g2 = collect_model(g1);
    assert forall|i: int| g1.contains_key(i) implies g2.contains_key(i) by {
        assert(rooted_reaches(g, i));
        lemma_collect_keeps_reachability(g, i);
    }
    assert forall|i: int| g2.contains_key(i) implies g1.contains_key(i) by {}
    assert(g2 =~= g1);
}

} // verus!
