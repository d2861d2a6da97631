use vstd::prelude::*;
use vstd::string::StringExecFns;
use vstd::arithmetic::power2::{pow2, lemma_pow2_unfold, lemma2_to64};
use vstd::set_lib::{lemma_len_union, lemma_len_subset, lemma_map_size_bound};
use crate::edge_store::{EdgeStore, store_edges, store_node_count, store_nodes, store_edge_count, store_endpoints, store_symbol, store_new, store_add_node, store_add_edge};
use crate::pretty_print::{PrettyState, PrettyTransition, Symbol};

verus! {

/// A set of node indices of one automaton, as a membership vector with one
/// entry per node.
pub type NodeGroup = Vec<bool>;

/// The edges of an automaton, as (source, destination, symbol).
pub type EdgeSeq = Seq<(nat, nat, PrettyTransition)>;

pub open spec fn eps() -> PrettyTransition {
    PrettyTransition(Symbol::Epsilon)
}

/// Nodes reached from a member of `g` by one edge that carries `t`.
pub open spec fn step(es: EdgeSeq, g: Seq<bool>, t: PrettyTransition) -> Seq<bool> {
    Seq::new(
        g.len(),
        |j: int|
            exists|i: int|
                0 <= i < es.len() && es[i].2 == t && es[i].1 == j && es[i].0 < g.len()
                    && #[trigger] g[es[i].0 as int],
    )
}

/// Pointwise union of two membership vectors of equal length.
pub open spec fn union(a: Seq<bool>, b: Seq<bool>) -> Seq<bool> {
    Seq::new(a.len(), |j: int| a[j] || b[j])
}

/// The nodes reached from `g` by at most `k` epsilon edges.
pub open spec fn eps_iter(es: EdgeSeq, g: Seq<bool>, k: nat) -> Seq<bool>
    decreases k,
{
    if k == 0 {
        g
    } else {
        let r = eps_iter(es, g, (k - 1) as nat);
        union(r, step(es, r, eps()))
    }
}

/// No epsilon edge leaves `g`.
pub open spec fn eps_closed(es: EdgeSeq, g: Seq<bool>) -> bool {
    forall|i: int|
        0 <= i < es.len() && es[i].2 == eps() && es[i].0 < g.len() && es[i].1 < g.len()
            && #[trigger] g[es[i].0 as int] ==> g[es[i].1 as int]
}

/// `r` is the epsilon-closure of `g`: the first epsilon-closed set in the
/// expansion of `g` by epsilon edges.
pub open spec fn is_closure_of(es: EdgeSeq, g: Seq<bool>, r: Seq<bool>) -> bool {
    exists|k: nat| r == eps_iter(es, g, k) && eps_closed(es, r)
}

/// The number of nodes that are not in `g`.
pub open spec fn nfalse(g: Seq<bool>) -> nat
    decreases g.len(),
{
    if g.len() == 0 {
        0
    } else {
        nfalse(g.drop_last()) + if g.last() { 0nat } else { 1nat }
    }
}

pub proof fn lemma_nfalse_grows(a: Seq<bool>, b: Seq<bool>, j: int)
    requires
        a.len() == b.len(),
        forall|x: int| 0 <= x < a.len() && #[trigger] a[x] ==> b[x],
        0 <= j < a.len(),
        b[j] && !a[j],
    ensures
        nfalse(b) < nfalse(a),
    decreases a.len(),
{
    lemma_nfalse_mono(a.drop_last(), b.drop_last());
    if j < a.len() - 1 {
        lemma_nfalse_grows(a.drop_last(), b.drop_last(), j);
    }
}

proof fn lemma_nfalse_mono(a: Seq<bool>, b: Seq<bool>)
    requires
        a.len() == b.len(),
        forall|x: int| 0 <= x < a.len() && #[trigger] a[x] ==> b[x],
    ensures
        nfalse(b) <= nfalse(a),
    decreases a.len(),
{
    if a.len() > 0 {
        assert forall|x: int| 0 <= x < a.drop_last().len() && #[trigger] a.drop_last()[x] implies b.drop_last()[x] by {
            assert(a[x]);
        }
        lemma_nfalse_mono(a.drop_last(), b.drop_last());
    }
}

/// An epsilon-closed set does not grow under further expansion.
pub proof fn lemma_closed_fixed(es: EdgeSeq, g: Seq<bool>, k: nat)
    requires
        eps_closed(es, g),
    ensures
        eps_iter(es, g, k) == g,
    decreases k,
{
    if k > 0 {
        lemma_closed_fixed(es, g, (k - 1) as nat);
        let s = step(es, g, eps());
        assert forall|j: int| 0 <= j < g.len() implies union(g, s)[j] == g[j] by {
            if s[j] {
                let i = choose|i: int|
                    0 <= i < es.len() && es[i].2 == eps() && es[i].1 == j && es[i].0 < g.len()
                        && #[trigger] g[es[i].0 as int];
                assert(g[es[i].0 as int]);
            }
        }
        assert(union(g, s) =~= g);
    }
}

proof fn lemma_iter_add(es: EdgeSeq, g: Seq<bool>, a: nat, b: nat)
    ensures
        eps_iter(es, g, a + b) == eps_iter(es, eps_iter(es, g, a), b),
    decreases b,
{
    if b > 0 {
        lemma_iter_add(es, g, a, (b - 1) as nat);
        assert(eps_iter(es, g, a + b) == {
            let r = eps_iter(es, g, (a + b - 1) as nat);
            union(r, step(es, r, eps()))
        });
    }
}

/// The epsilon-closure of a set is unique.
pub proof fn lemma_closure_unique(es: EdgeSeq, g: Seq<bool>, r1: Seq<bool>, r2: Seq<bool>)
    requires
        is_closure_of(es, g, r1),
        is_closure_of(es, g, r2),
    ensures
        r1 == r2,
{
    let k1 = choose|k: nat| r1 == eps_iter(es, g, k) && eps_closed(es, r1);
    let k2 = choose|k: nat| r2 == eps_iter(es, g, k) && eps_closed(es, r2);
    if k1 <= k2 {
        lemma_iter_add(es, g, k1, (k2 - k1) as nat);
        lemma_closed_fixed(es, r1, (k2 - k1) as nat);
    } else {
        lemma_iter_add(es, g, k2, (k1 - k2) as nat);
        lemma_closed_fixed(es, r2, (k1 - k2) as nat);
    }
}

/// Taking the epsilon-closure twice gives the same set as taking it once.
pub proof fn lemma_closure_idempotent(es: EdgeSeq, s: Seq<bool>, r1: Seq<bool>, r2: Seq<bool>)
    requires
        is_closure_of(es, s, r1),
        is_closure_of(es, r1, r2),
    ensures
        r2 == r1,
{
    lemma_closed_fixed(es, r1, 0);
    assert(is_closure_of(es, r1, r1));
    lemma_closure_unique(es, r1, r1, r2);
}

/// No edge carries epsilon, and no node has two outgoing edges with the same
/// symbol.
pub open spec fn is_deterministic(es: EdgeSeq) -> bool {
    &&& forall|i: int| 0 <= i < es.len() ==> (#[trigger] es[i]).2 != eps()
    &&& forall|i: int, j: int|
        0 <= i < es.len() && 0 <= j < es.len() && i != j && (#[trigger] es[i]).0 == (#[trigger] es[j]).0
            ==> es[i].2 != es[j].2
}

/// Some edge that leaves a member of `g` carries `t`.
pub open spec fn in_alphabet(es: EdgeSeq, g: Seq<bool>, t: PrettyTransition) -> bool {
    exists|i: int| 0 <= i < es.len() && es[i].0 < g.len() && #[trigger] g[es[i].0 as int] && es[i].2 == t
}

/// A transition between two labelled states, labels taken as tag sets.
pub type LabelTriple = (Set<Seq<char>>, PrettyTransition, Set<Seq<char>>);

/// A transition as the construction interface takes it.
pub type Transition = (PrettyState, PrettyTransition, PrettyState);

/// The label-level transitions among the first `k` of `ts`.
pub open spec fn trans_upto(ts: Seq<Transition>, k: int) -> Set<LabelTriple> {
    Set::new(
        |x: LabelTriple|
            exists|i: int|
                0 <= i < k && (#[trigger] ts[i]).0@ == x.0 && ts[i].1 == x.1 && ts[i].2@ == x.2,
    )
}

/// The labels of the endpoints of the first `k` of `ts`.
pub open spec fn ends_upto(ts: Seq<Transition>, k: int) -> Set<Set<Seq<char>>> {
    Set::new(|l: Set<Seq<char>>| exists|i: int| 0 <= i < k && ((#[trigger] ts[i]).0@ == l || ts[i].2@ == l))
}

/// The labels among the first `k` of `ls`.
pub open spec fn labels_upto(ls: Seq<PrettyState>, k: int) -> Set<Set<Seq<char>>> {
    Set::new(|l: Set<Seq<char>>| exists|i: int| 0 <= i < k && (#[trigger] ls[i])@ == l)
}

/// The labels of the nodes that construction from `seeds` and `ts` makes.
pub open spec fn implied_labels(seeds: Seq<PrettyState>, ts: Seq<Transition>) -> Set<Set<Seq<char>>> {
    labels_upto(seeds, seeds.len() as int).union(ends_upto(ts, ts.len() as int))
}

/// Why construction failed: the start label, or a final label, names no node
/// that the transitions imply.
#[derive(Clone, Copy, Debug, PartialEq, Eq, Structural)]
pub enum MissingStateError {
    Start,
    Final,
}

/// The union of the labels of the members of `g`.
pub open spec fn group_label(labels: Seq<PrettyState>, g: Seq<bool>) -> Set<Seq<char>> {
    Set::new(
        |t: Seq<char>|
            exists|j: int| 0 <= j < g.len() && j < labels.len() && #[trigger] g[j] && labels[j]@.contains(t),
    )
}

/// The group that holds node `i` alone.
pub open spec fn singleton(n: nat, i: nat) -> Seq<bool> {
    Seq::new(n, |j: int| j == i)
}

/// Some member of `g` is in `f`.
pub open spec fn meets(g: Seq<bool>, f: Seq<bool>) -> bool {
    exists|j: int| 0 <= j < g.len() && j < f.len() && #[trigger] g[j] && f[j]
}

/// One step of subset construction: from group `g`, the symbol `s` (not
/// epsilon, and carried by an edge that leaves `g`) leads to `tgt`, the
/// epsilon-closure of the nodes that `s` reaches from `g`.
pub open spec fn dfa_step(es: EdgeSeq, g: Seq<bool>, s: PrettyTransition, tgt: Seq<bool>) -> bool {
    &&& s != eps()
    &&& in_alphabet(es, g, s)
    &&& is_closure_of(es, step(es, g, s), tgt)
}

/// `x` is a step of subset construction between two groups over `n` nodes,
/// each named by its label.
pub open spec fn subset_step(es: EdgeSeq, labels: Seq<PrettyState>, n: nat, x: LabelTriple) -> bool {
    exists|g: Seq<bool>, tgt: Seq<bool>|
        g.len() == n && #[trigger] dfa_step(es, g, x.1, tgt) && x.0 == group_label(labels, g) && x.2
            == group_label(labels, tgt)
}

/// `l` names a group over `n` nodes that holds a node of `f`.
pub open spec fn accepting_label(labels: Seq<PrettyState>, f: Seq<bool>, n: nat, l: Set<Seq<char>>) -> bool {
    exists|g: Seq<bool>| g.len() == n && #[trigger] meets(g, f) && l == group_label(labels, g)
}

/// All membership vectors of length `n`.
pub open spec fn groups_of_size(n: nat) -> Set<Seq<bool>> {
    Set::new(|g: Seq<bool>| g.len() == n)
}

proof fn lemma_groups_of_size(n: nat)
    ensures
        groups_of_size(n).finite(),
        groups_of_size(n).len() <= pow2(n),
    decreases n,
{
    if n == 0 {
        lemma2_to64();
        assert(groups_of_size(0) =~= Set::<Seq<bool>>::empty().insert(Seq::<bool>::empty())) by {
            assert forall|g: Seq<bool>| groups_of_size(0).contains(g) implies g == Seq::<bool>::empty() by {
                assert(g =~= Seq::<bool>::empty());
            }
        }
    } else {
        let p = groups_of_size((n - 1) as nat);
        lemma_groups_of_size((n - 1) as nat);
        let fa = |g: Seq<bool>| g.push(false);
        let tr = |g: Seq<bool>| g.push(true);
        lemma_map_size_bound(p, p.map(fa), fa);
        lemma_map_size_bound(p, p.map(tr), tr);
        lemma_len_union(p.map(fa), p.map(tr));
        assert(groups_of_size(n) =~= p.map(fa).union(p.map(tr))) by {
            assert forall|g: Seq<bool>| groups_of_size(n).contains(g) implies p.map(fa).union(p.map(tr)).contains(g) by {
                assert(g =~= g.drop_last().push(g.last()));
                assert(p.contains(g.drop_last()));
                if g.last() {
                    assert(tr(g.drop_last()) == g);
                } else {
                    assert(fa(g.drop_last()) == g);
                }
            }
        }
        lemma_pow2_unfold(n);
    }
}

/// Distinct groups over `n` nodes number at most `2^n`.
proof fn lemma_distinct_groups_bound(gs: Seq<Seq<bool>>, n: nat)
    requires
        gs.no_duplicates(),
        forall|k: int| 0 <= k < gs.len() ==> (#[trigger] gs[k]).len() == n,
    ensures
        gs.len() <= pow2(n),
{
    lemma_groups_of_size(n);
    gs.unique_seq_to_set();
    assert forall|g: Seq<bool>| gs.to_set().contains(g) implies groups_of_size(n).contains(g) by {
        let k = choose|k: int| 0 <= k < gs.len() && gs[k] == g;
        assert(gs[k].len() == n);
    }
    lemma_len_subset(gs.to_set(), groups_of_size(n));
}

/// Some string of `v` is `t`.
pub open spec fn tags_hold(v: Seq<String>, t: Seq<char>) -> bool {
    exists|x: int| 0 <= x < v.len() && #[trigger] v[x]@ == t
}

/// Some member of `g` below `j` has the tag `t`.
pub open spec fn group_holds_upto(labels: Seq<PrettyState>, g: Seq<bool>, j: int, t: Seq<char>) -> bool {
    exists|m: int| 0 <= m < j && #[trigger] g[m] && labels[m]@.contains(t)
}

/// True iff the two groups hold the same members.
fn group_eq(a: &NodeGroup, b: &NodeGroup) -> (r: bool)
    ensures
        r == (a@ == b@),
{
    if a.len() != b.len() {
        return false;
    }
    let mut i: usize = 0;
    while i < a.len()
        invariant
            a@.len() == b@.len(),
            i <= a@.len(),
            forall|x: int| 0 <= x < i ==> a@[x] == b@[x],
        decreases a@.len() - i,
    {
        if a[i] != b[i] {
            return false;
        }
        i = i + 1;
    }
    assert(a@ =~= b@);
    true
}

/// True iff some group of `list` holds the same members as `g`.
fn contains_group(list: &Vec<NodeGroup>, g: &NodeGroup) -> (r: bool)
    ensures
        r == exists|k: int| 0 <= k < list@.len() && (#[trigger] list@[k])@ == g@,
{
    let mut k: usize = 0;
    while k < list.len()
        invariant
            k <= list@.len(),
            forall|x: int| 0 <= x < k ==> (#[trigger] list@[x])@ != g@,
        decreases list@.len() - k,
    {
        if group_eq(&list[k], g) {
            return true;
        }
        k = k + 1;
    }
    false
}

/// A copy of `g`.
fn copy_group(g: &NodeGroup) -> (r: NodeGroup)
    ensures
        r@ == g@,
{
    let mut r: Vec<bool> = Vec::new();
    let mut i: usize = 0;
    while i < g.len()
        invariant
            i <= g@.len(),
            r@ == g@.subrange(0, i as int),
        decreases g@.len() - i,
    {
        r.push(g[i]);
        assert(g@.subrange(0, i + 1) =~= g@.subrange(0, i as int).push(g@[i as int]));
        i = i + 1;
    }
    assert(g@.subrange(0, g@.len() as int) =~= g@);
    r
}

/// Every label is nonempty and no two labels share a tag, so that distinct
/// groups have distinct labels.
pub open spec fn labels_separate(labels: Seq<PrettyState>) -> bool {
    &&& forall|i: int| 0 <= i < labels.len() ==> exists|t: Seq<char>| (#[trigger] labels[i])@.contains(t)
    &&& forall|i: int, j: int, t: Seq<char>|
        0 <= i < labels.len() && 0 <= j < labels.len() && i != j && #[trigger] labels[i]@.contains(t)
            ==> !#[trigger] labels[j]@.contains(t)
}

/// Under separate labels, groups over the same nodes with equal labels are
/// equal.
pub proof fn lemma_group_label_injective(labels: Seq<PrettyState>, g1: Seq<bool>, g2: Seq<bool>)
    requires
        labels_separate(labels),
        g1.len() == labels.len(),
        g2.len() == labels.len(),
        group_label(labels, g1) == group_label(labels, g2),
    ensures
        g1 == g2,
{
    assert forall|j: int| 0 <= j < g1.len() implies g1[j] == g2[j] by {
        let t = choose|t: Seq<char>| (#[trigger] labels[j])@.contains(t);
        if g1[j] {
            assert(group_label(labels, g1).contains(t));
            let m = choose|m: int| 0 <= m < g2.len() && m < labels.len() && #[trigger] g2[m] && labels[m]@.contains(t);
            assert(m == j);
        }
        if g2[j] {
            assert(group_label(labels, g2).contains(t));
            let m = choose|m: int| 0 <= m < g1.len() && m < labels.len() && #[trigger] g1[m] && labels[m]@.contains(t);
            assert(m == j);
        }
    }
    assert(g1 =~= g2);
}

/// The label whose one tag is `s`.
fn single(s: &str) -> (r: PrettyState)
    ensures
        r@ == set![s@],
{
    let mut v: Vec<String> = Vec::new();
    v.push(String::from_str(s));
    let r = PrettyState(v);
    assert(r@ =~= set![s@]) by {
        assert(r.0@[0]@ == s@);
    }
    r
}

/// Every member of `g` is a member of `r`.
pub open spec fn within(g: Seq<bool>, r: Seq<bool>) -> bool {
    forall|j: int| 0 <= j < g.len() && #[trigger] g[j] ==> j < r.len() && r[j]
}

/// `r` holds node `s` and is closed under edges of every symbol.
pub open spec fn closed_from(es: EdgeSeq, s: nat, r: Seq<bool>) -> bool {
    &&& s < r.len()
    &&& r[s as int]
    &&& forall|i: int|
        0 <= i < es.len() && es[i].0 < r.len() && es[i].1 < r.len() && #[trigger] r[es[i].0 as int]
            ==> r[es[i].1 as int]
}

/// `g` is a group that subset construction can reach from node `s`: it
/// is nonempty, epsilon-closed, and all its members are reachable from `s`
/// (they lie in every set that holds `s` and is closed under edges).
pub open spec fn reached_group(es: EdgeSeq, s: nat, g: Seq<bool>) -> bool {
    &&& exists|j: int| 0 <= j < g.len() && #[trigger] g[j]
    &&& eps_closed(es, g)
    &&& forall|r: Seq<bool>| r.len() == g.len() && #[trigger] closed_from(es, s, r) ==> within(g, r)
}

/// `l` is the label of a group over `n` nodes that subset construction can
/// reach from node `s`.
pub open spec fn reached_label(es: EdgeSeq, labels: Seq<PrettyState>, s: nat, n: nat, l: Set<Seq<char>>) -> bool {
    exists|g: Seq<bool>| g.len() == n && #[trigger] reached_group(es, s, g) && l == group_label(labels, g)
}

proof fn lemma_iter_superset(es: EdgeSeq, g: Seq<bool>, k: nat, j: int)
    requires
        0 <= j < g.len(),
        g[j],
    ensures
        eps_iter(es, g, k).len() == g.len(),
        eps_iter(es, g, k)[j],
    decreases k,
{
    if k > 0 {
        lemma_iter_superset(es, g, (k - 1) as nat, j);
    }
}

proof fn lemma_step_within(es: EdgeSeq, s: nat, g: Seq<bool>, t: PrettyTransition, r: Seq<bool>)
    requires
        closed_from(es, s, r),
        r.len() == g.len(),
        within(g, r),
        forall|i: int| 0 <= i < es.len() ==> (#[trigger] es[i]).1 < g.len(),
    ensures
        within(step(es, g, t), r),
{
    assert forall|j: int| 0 <= j < step(es, g, t).len() && #[trigger] step(es, g, t)[j] implies j < r.len() && r[j] by {
        let i = choose|i: int|
            0 <= i < es.len() && es[i].2 == t && es[i].1 == j && es[i].0 < g.len() && #[trigger] g[es[i].0 as int];
        assert(g[es[i].0 as int]);
        assert(r[es[i].0 as int]);
    }
}

proof fn lemma_iter_within(es: EdgeSeq, s: nat, g: Seq<bool>, k: nat, r: Seq<bool>)
    requires
        closed_from(es, s, r),
        r.len() == g.len(),
        within(g, r),
        forall|i: int| 0 <= i < es.len() ==> (#[trigger] es[i]).1 < g.len(),
    ensures
        eps_iter(es, g, k).len() == g.len(),
        within(eps_iter(es, g, k), r),
    decreases k,
{
    if k > 0 {
        let p = eps_iter(es, g, (k - 1) as nat);
        lemma_iter_within(es, s, g, (k - 1) as nat, r);
        lemma_step_within(es, s, p, eps(), r);
        assert forall|j: int| 0 <= j < union(p, step(es, p, eps())).len() && #[trigger] union(p, step(es, p, eps()))[j]
            implies j < r.len() && r[j] by {
            if p[j] {
            } else {
                assert(step(es, p, eps())[j]);
            }
        }
    }
}

/// The closure of a group that lies within every edge-closed set holding
/// `s` lies there too.
proof fn lemma_closure_reached(es: EdgeSeq, s: nat, g: Seq<bool>, c: Seq<bool>, j: int)
    requires
        is_closure_of(es, g, c),
        0 <= j < g.len(),
        g[j],
        forall|i: int| 0 <= i < es.len() ==> (#[trigger] es[i]).1 < g.len(),
        forall|r: Seq<bool>| r.len() == g.len() && #[trigger] closed_from(es, s, r) ==> within(g, r),
    ensures
        reached_group(es, s, c),
        c.len() == g.len(),
{
    let k = choose|k: nat| c == eps_iter(es, g, k) && eps_closed(es, c);
    lemma_iter_superset(es, g, k, j);
    assert forall|r: Seq<bool>| r.len() == c.len() && #[trigger] closed_from(es, s, r) implies within(c, r) by {
        lemma_iter_within(es, s, g, k, r);
    }
}

/// `x` holds the group `sg` and, with each group over `n` nodes that it
/// holds, every group that one subset construction step leads to.
pub open spec fn step_closed(es: EdgeSeq, n: nat, sg: Seq<bool>, x: Set<Seq<bool>>) -> bool {
    &&& x.contains(sg)
    &&& forall|g: Seq<bool>, s: PrettyTransition, tgt: Seq<bool>|
        x.contains(g) && g.len() == n && #[trigger] dfa_step(es, g, s, tgt) ==> x.contains(tgt)
}

/// The groups that subset construction reaches from `sg`: those in every
/// step-closed set.
pub open spec fn dfa_groups(es: EdgeSeq, n: nat, sg: Seq<bool>) -> Set<Seq<bool>> {
    Set::new(|g: Seq<bool>| forall|x: Set<Seq<bool>>| #[trigger] step_closed(es, n, sg, x) ==> x.contains(g))
}

/// The labels of the groups in `d`.
pub open spec fn dfa_labels(labels: Seq<PrettyState>, d: Set<Seq<bool>>) -> Set<Set<Seq<char>>> {
    Set::new(|l: Set<Seq<char>>| exists|g: Seq<bool>| #[trigger] d.contains(g) && l == group_label(labels, g))
}

/// The labels of the groups in `d` that hold a node of `f`.
pub open spec fn dfa_final_labels(labels: Seq<PrettyState>, f: Seq<bool>, d: Set<Seq<bool>>) -> Set<Set<Seq<char>>> {
    Set::new(
        |l: Set<Seq<char>>| exists|g: Seq<bool>| #[trigger] d.contains(g) && meets(g, f) && l == group_label(labels, g),
    )
}

/// The labelled steps of subset construction out of the groups in `d`.
pub open spec fn dfa_edges(es: EdgeSeq, labels: Seq<PrettyState>, n: nat, d: Set<Seq<bool>>) -> Set<LabelTriple> {
    Set::new(
        |x: LabelTriple|
            exists|g: Seq<bool>, tgt: Seq<bool>|
                d.contains(g) && g.len() == n && #[trigger] dfa_step(es, g, x.1, tgt) && x.0 == group_label(labels, g)
                    && x.2 == group_label(labels, tgt),
    )
}

/// The moves of subset construction out of the groups in `d`: each group
/// with each symbol other than epsilon on an edge that leaves it.
pub open spec fn dfa_moves(es: EdgeSeq, d: Set<Seq<bool>>) -> Set<(Seq<bool>, PrettyTransition)> {
    Set::new(|p: (Seq<bool>, PrettyTransition)| d.contains(p.0) && p.1 != eps() && in_alphabet(es, p.0, p.1))
}

/// The largest number of groups, and of moves, that the result of subset
/// construction may have.
pub const DFA_CAPACITY: usize = 0x1000_0000;

/// Some vector of `v` holds the members of `g`.
pub open spec fn listed(v: Seq<Vec<bool>>, g: Seq<bool>) -> bool {
    exists|k: int| 0 <= k < v.len() && (#[trigger] v[k])@ == g
}

proof fn lemma_listed_push(v: Seq<Vec<bool>>, x: Vec<bool>, g: Seq<bool>)
    ensures
        listed(v, g) ==> listed(v.push(x), g),
        listed(v.push(x), x@),
{
    assert(v.push(x)[v.len() as int] == x);
    if listed(v, g) {
        let k = choose|k: int| 0 <= k < v.len() && (#[trigger] v[k])@ == g;
        assert(v.push(x)[k] == v[k]);
    }
}

proof fn lemma_trans_push(ts: Seq<Transition>, x: Transition, y: LabelTriple)
    ensures
        trans_upto(ts, ts.len() as int).contains(y) ==> trans_upto(ts.push(x), ts.len() as int + 1).contains(y),
        trans_upto(ts.push(x), ts.len() as int + 1).contains((x.0@, x.1, x.2@)),
{
    assert(ts.push(x)[ts.len() as int] == x);
    if trans_upto(ts, ts.len() as int).contains(y) {
        let i = choose|i: int| 0 <= i < ts.len() && (#[trigger] ts[i]).0@ == y.0 && ts[i].1 == y.1 && ts[i].2@ == y.2;
        assert(ts.push(x)[i] == ts[i]);
    }
}

proof fn lemma_listed_pop(v: Seq<Vec<bool>>, g: Seq<bool>)
    requires
        v.len() > 0,
        listed(v, g),
    ensures
        listed(v.drop_last(), g) || v.last()@ == g,
{
    let k = choose|k: int| 0 <= k < v.len() && (#[trigger] v[k])@ == g;
    if k < v.len() - 1 {
        assert(v.drop_last()[k] == v[k]);
    }
}

pub struct FiniteAutomata {
    pub graph: EdgeStore,
    pub labels: Vec<PrettyState>,
    pub start: usize,
    pub fin: NodeGroup,
}

impl FiniteAutomata {
    pub open spec fn edges(&self) -> EdgeSeq {
        store_edges(self.graph)
    }

    pub open spec fn node_count(&self) -> nat {
        store_node_count(self.graph)
    }

    /// The node and edge arena is consistent: one label per node, edges
    /// between existing nodes, no two nodes with the same label and no two
    /// equal edges.
    pub open spec fn graph_wf(&self) -> bool {
        &&& self.labels@.len() == self.node_count()
        &&& self.node_count() < u32::MAX
        &&& forall|i: int|
            0 <= i < self.edges().len() ==> (#[trigger] self.edges()[i]).0 < self.node_count()
                && self.edges()[i].1 < self.node_count()
        &&& forall|i: int, j: int|
            0 <= i < self.labels@.len() && 0 <= j < self.labels@.len() && i != j
                ==> (#[trigger] self.labels@[i])@ != (#[trigger] self.labels@[j])@
        &&& forall|i: int, j: int|
            0 <= i < self.edges().len() && 0 <= j < self.edges().len() && i != j
                ==> #[trigger] self.edges()[i] != #[trigger] self.edges()[j]
    }

    pub open spec fn wf(&self) -> bool {
        &&& self.graph_wf()
        &&& self.start < self.node_count()
        &&& self.fin@.len() == self.node_count()
    }

    /// The labels of all nodes.
    pub open spec fn node_labels(&self) -> Set<Set<Seq<char>>> {
        labels_upto(self.labels@, self.labels@.len() as int)
    }

    /// The edges, with each endpoint given by its label.
    pub open spec fn label_edges(&self) -> Set<LabelTriple> {
        Set::new(
            |x: LabelTriple|
                exists|i: int|
                    0 <= i < self.edges().len() && self.labels@[(#[trigger] self.edges()[i]).0 as int]@ == x.0
                        && self.edges()[i].2 == x.1 && self.labels@[self.edges()[i].1 as int]@ == x.2,
        )
    }

    /// The number of nodes.
    pub fn num_nodes(&self) -> (r: usize)
        ensures
            r == self.node_count(),
    {
        store_nodes(&self.graph)
    }

    /// The number of edges.
    pub fn num_edges(&self) -> (r: usize)
        ensures
            r == self.edges().len(),
    {
        store_edge_count(&self.graph)
    }

    /// The edge at index `i`, as (source, destination, symbol).
    pub fn edge(&self, i: usize) -> (r: (usize, usize, PrettyTransition))
        requires
            i < self.edges().len(),
        ensures
            r.0 == self.edges()[i as int].0,
            r.1 == self.edges()[i as int].1,
            r.2 == self.edges()[i as int].2,
    {
        let (a, b) = store_endpoints(&self.graph, i);
        (a, b, store_symbol(&self.graph, i))
    }


    /// The index of the node labelled `l`, if there is one. This scans all
    /// nodes, which bounds the automaton sizes that construction suits.
    pub fn node_idx(&self, l: &PrettyState) -> (r: Option<usize>)
        requires
            self.graph_wf(),
        ensures
            match r {
                Some(i) => i < self.labels@.len() && self.labels@[i as int]@ == l@,
                None => !self.node_labels().contains(l@),
            },
    {
        let mut i: usize = 0;
        while i < self.labels.len()
            invariant
                i <= self.labels@.len(),
                forall|x: int| 0 <= x < i ==> (#[trigger] self.labels@[x])@ != l@,
            decreases self.labels@.len() - i,
        {
            if self.labels[i].same_as(l) {
                return Some(i);
            }
            i = i + 1;
        }
        None
    }

    /// The index of the node labelled `l`, made when there is none.
    fn get_or_create(&mut self, l: &PrettyState) -> (r: usize)
        requires
            old(self).graph_wf(),
            old(self).node_count() + 1 < u32::MAX,
        ensures
            final(self).graph_wf(),
            r < final(self).node_count(),
            final(self).labels@[r as int]@ == l@,
            final(self).edges() == old(self).edges(),
            old(self).node_count() <= final(self).node_count() <= old(self).node_count() + 1,
            forall|i: int| 0 <= i < old(self).labels@.len() ==> final(self).labels@[i] == old(self).labels@[i],
            final(self).node_labels() == old(self).node_labels().insert(l@),
            final(self).label_edges() == old(self).label_edges(),
            final(self).start == old(self).start,
            final(self).fin == old(self).fin,
    {
        match self.node_idx(l) {
            Some(i) => {
                assert(self.node_labels() =~= self.node_labels().insert(l@));
                i
            },
            None => {
                let ghost old_self = *self;
                let i = store_add_node(&mut self.graph);
                self.labels.push(l.duplicate());
                assert(self.node_labels() =~= old_self.node_labels().insert(l@)) by {
                    assert forall|x: Set<Seq<char>>| self.node_labels().contains(x) implies old_self.node_labels().insert(l@).contains(x) by {
                        let k = choose|k: int| 0 <= k < self.labels@.len() && (#[trigger] self.labels@[k])@ == x;
                        if k < old_self.labels@.len() {
                            assert(old_self.labels@[k]@ == x);
                        }
                    }
                    assert forall|x: Set<Seq<char>>| old_self.node_labels().insert(l@).contains(x) implies self.node_labels().contains(x) by {
                        if x == l@ {
                            assert(self.labels@[i as int]@ == x);
                        } else {
                            let k = choose|k: int| 0 <= k < old_self.labels@.len() && (#[trigger] old_self.labels@[k])@ == x;
                            assert(self.labels@[k]@ == x);
                        }
                    }
                }
                assert(self.label_edges() =~= old_self.label_edges()) by {
                    assert forall|x: LabelTriple| self.label_edges().contains(x) implies old_self.label_edges().contains(x) by {
                        let k = choose|k: int| 0 <= k < self.edges().len() && self.labels@[(#[trigger] self.edges()[k]).0 as int]@ == x.0
                            && self.edges()[k].2 == x.1 && self.labels@[self.edges()[k].1 as int]@ == x.2;
                        assert(old_self.edges()[k] == self.edges()[k]);
                    }
                    assert forall|x: LabelTriple| old_self.label_edges().contains(x) implies self.label_edges().contains(x) by {
                        let k = choose|k: int| 0 <= k < old_self.edges().len() && old_self.labels@[(#[trigger] old_self.edges()[k]).0 as int]@ == x.0
                            && old_self.edges()[k].2 == x.1 && old_self.labels@[old_self.edges()[k].1 as int]@ == x.2;
                        assert(self.edges()[k] == old_self.edges()[k]);
                    }
                }
                i
            },
        }
    }

    /// Resolves or makes both endpoints, then adds the edge unless an equal
    /// one is already there.
    fn add_edge_no_dup(&mut self, src: &PrettyState, t: PrettyTransition, dest: &PrettyState)
        requires
            old(self).graph_wf(),
            old(self).node_count() + 3 < u32::MAX,
            old(self).edges().len() + 1 < u32::MAX,
        ensures
            final(self).graph_wf(),
            old(self).node_count() <= final(self).node_count() <= old(self).node_count() + 2,
            final(self).edges().len() <= old(self).edges().len() + 1,
            forall|i: int| 0 <= i < old(self).labels@.len() ==> final(self).labels@[i] == old(self).labels@[i],
            final(self).node_labels() == old(self).node_labels().insert(src@).insert(dest@),
            final(self).label_edges() == old(self).label_edges().insert((src@, t, dest@)),
            final(self).start == old(self).start,
            final(self).fin == old(self).fin,
    {
        let a = self.get_or_create(src);
        let b = self.get_or_create(dest);
        let ghost mid = *self;
        let ghost es = self.edges();
        let m = store_edge_count(&self.graph);
        let mut i: usize = 0;
        while i < m
            invariant
                *self == mid,
                mid.graph_wf(),
                old(self).node_count() <= mid.node_count() <= old(self).node_count() + 2,
                mid.edges() == old(self).edges(),
                forall|k: int| 0 <= k < old(self).labels@.len() ==> mid.labels@[k] == old(self).labels@[k],
                mid.node_labels() == old(self).node_labels().insert(src@).insert(dest@),
                mid.label_edges() == old(self).label_edges(),
                mid.start == old(self).start,
                mid.fin == old(self).fin,
                a < mid.labels@.len(),
                b < mid.labels@.len(),
                mid.labels@[a as int]@ == src@,
                mid.labels@[b as int]@ == dest@,
                es == self.edges(),
                m == es.len(),
                i <= m,
                forall|x: int| 0 <= x < i ==> #[trigger] es[x] != (a as nat, b as nat, t),
            decreases m - i,
        {
            let (c, d) = store_endpoints(&self.graph, i);
            let u = store_symbol(&self.graph, i);
            if c == a && d == b && u == t {
                assert(es[i as int] == (a as nat, b as nat, t));
                assert(self.label_edges() =~= self.label_edges().insert((src@, t, dest@))) by {
                    assert(self.labels@[es[i as int].0 as int]@ == src@);
                    assert(self.labels@[es[i as int].1 as int]@ == dest@);
                    assert(self.label_edges().contains((src@, t, dest@)));
                }
                return;
            }
            i = i + 1;
        }
        store_add_edge(&mut self.graph, a, b, t);
        assert(self.label_edges() =~= mid.label_edges().insert((src@, t, dest@))) by {
            assert forall|x: LabelTriple| self.label_edges().contains(x) implies mid.label_edges().insert((src@, t, dest@)).contains(x) by {
                let k = choose|k: int| 0 <= k < self.edges().len() && self.labels@[(#[trigger] self.edges()[k]).0 as int]@ == x.0
                    && self.edges()[k].2 == x.1 && self.labels@[self.edges()[k].1 as int]@ == x.2;
                if k < m {
                    assert(mid.edges()[k] == self.edges()[k]);
                }
            }
            assert forall|x: LabelTriple| mid.label_edges().insert((src@, t, dest@)).contains(x) implies self.label_edges().contains(x) by {
                if x == (src@, t, dest@) {
                    assert(self.edges()[m as int] == (a as nat, b as nat, t));
                } else {
                    let k = choose|k: int| 0 <= k < mid.edges().len() && mid.labels@[(#[trigger] mid.edges()[k]).0 as int]@ == x.0
                        && mid.edges()[k].2 == x.1 && mid.labels@[mid.edges()[k].1 as int]@ == x.2;
                    assert(self.edges()[k] == mid.edges()[k]);
                }
            }
        }
        assert forall|x: int, y: int|
            0 <= x < self.edges().len() && 0 <= y < self.edges().len() && x != y
                implies #[trigger] self.edges()[x] != #[trigger] self.edges()[y] by {
            if x < m && y < m {
                assert(mid.edges()[x] == self.edges()[x] && mid.edges()[y] == self.edges()[y]);
            } else if x < m {
                assert(es[x] == self.edges()[x]);
            } else if y < m {
                assert(es[y] == self.edges()[y]);
            }
        }
    }

    /// What building from `seeds`, `ts`, `start` and `fin` yields: the
    /// automaton whose node labels are those that the seeds and transitions
    /// imply, whose labelled edges are the transitions, started at the node
    /// labelled `start`, with the nodes labelled by `fin` final; or the
    /// error that names the first missing label.
    pub open spec fn built_from(
        seeds: Seq<PrettyState>,
        ts: Seq<Transition>,
        start: PrettyState,
        fin: Seq<PrettyState>,
        r: Result<FiniteAutomata, MissingStateError>,
    ) -> bool {
        let implied = implied_labels(seeds, ts);
        &&& r.is_ok() <==> (implied.contains(start@) && forall|k: int|
            0 <= k < fin.len() ==> implied.contains(#[trigger] fin[k]@))
        &&& match r {
            Ok(a) => {
                &&& a.wf()
                &&& a.node_labels() == implied
                &&& a.label_edges() == trans_upto(ts, ts.len() as int)
                &&& a.labels@[a.start as int]@ == start@
                &&& forall|j: int|
                    0 <= j < a.fin@.len() ==> (#[trigger] a.fin@[j] <==> exists|k: int|
                        0 <= k < fin.len() && (#[trigger] fin[k])@ == a.labels@[j]@)
            },
            Err(MissingStateError::Start) => !implied.contains(start@),
            Err(MissingStateError::Final) => implied.contains(start@),
        }
    }

    /// Makes one node for each label of `seeds`, adds each transition with
    /// its endpoints resolved or made, then resolves the start and final
    /// labels. This admits nodes that no transition touches.
    pub fn with_states(
        seeds: &Vec<PrettyState>,
        transitions: &Vec<Transition>,
        start: &PrettyState,
        fin: &Vec<PrettyState>,
    ) -> (r: Result<FiniteAutomata, MissingStateError>)
        requires
            seeds@.len() + 2 * transitions@.len() + 4 < u32::MAX,
        ensures
            Self::built_from(seeds@, transitions@, *start, fin@, r),
    {
        let ghost ts = transitions@;
        let ghost sl = seeds@.len() as int;
        let mut a = FiniteAutomata { graph: store_new(), labels: Vec::new(), start: 0, fin: Vec::new() };
        assert(a.node_labels() =~= labels_upto(seeds@, 0));
        assert(a.label_edges() =~= trans_upto(ts, 0));
        let mut i: usize = 0;
        while i < seeds.len()
            invariant
                seeds@.len() + 2 * ts.len() + 4 < u32::MAX,
                i <= seeds@.len(),
                a.graph_wf(),
                a.node_count() <= i,
                a.edges().len() == 0,
                a.node_labels() == labels_upto(seeds@, i as int),
                a.label_edges() == trans_upto(ts, 0),
            decreases seeds@.len() - i,
        {
            a.get_or_create(&seeds[i]);
            assert(labels_upto(seeds@, i + 1) =~= labels_upto(seeds@, i as int).insert(seeds@[i as int]@));
            i = i + 1;
        }
        assert(a.node_labels() =~= labels_upto(seeds@, sl).union(ends_upto(ts, 0)));
        let mut j: usize = 0;
        while j < transitions.len()
            invariant
                seeds@.len() + 2 * ts.len() + 4 < u32::MAX,
                ts == transitions@,
                sl == seeds@.len(),
                j <= ts.len(),
                a.graph_wf(),
                a.node_count() <= sl + 2 * j,
                a.edges().len() <= j,
                a.node_labels() == labels_upto(seeds@, sl).union(ends_upto(ts, j as int)),
                a.label_edges() == trans_upto(ts, j as int),
            decreases ts.len() - j,
        {
            let tr = &transitions[j];
            a.add_edge_no_dup(&tr.0, tr.1, &tr.2);
            assert(ends_upto(ts, j + 1) =~= ends_upto(ts, j as int).insert(ts[j as int].0@).insert(ts[j as int].2@));
            assert(labels_upto(seeds@, sl).union(ends_upto(ts, j + 1)) =~=
                labels_upto(seeds@, sl).union(ends_upto(ts, j as int)).insert(ts[j as int].0@).insert(ts[j as int].2@));
            assert(trans_upto(ts, j + 1) =~= trans_upto(ts, j as int).insert((ts[j as int].0@, ts[j as int].1, ts[j as int].2@)));
            j = j + 1;
        }
        assert(a.node_labels() == implied_labels(seeds@, ts));
        match a.node_idx(start) {
            None => {
                return Err(MissingStateError::Start);
            },
            Some(s) => {
                a.start = s;
                assert(a.labels@[s as int]@ == start@);
                assert(a.node_labels().contains(start@));
            },
        }
        let n = store_nodes(&a.graph);
        let mut k: usize = 0;
        while k < fin.len()
            invariant
                a.graph_wf(),
                a.node_labels() == implied_labels(seeds@, ts),
                a.node_labels().contains(start@),
                ts == transitions@,
                a.start < a.node_count(),
                a.labels@[a.start as int]@ == start@,
                k <= fin@.len(),
                forall|x: int| 0 <= x < k ==> a.node_labels().contains(#[trigger] fin@[x]@),
            decreases fin@.len() - k,
        {
            match a.node_idx(&fin[k]) {
                None => {
                    assert(!implied_labels(seeds@, ts).contains(fin@[k as int]@));
                    return Err(MissingStateError::Final);
                },
                Some(x) => {
                    assert(a.labels@[x as int]@ == fin@[k as int]@);
                },
            }
            k = k + 1;
        }
        let mut marks: Vec<bool> = Vec::new();
        let mut j: usize = 0;
        while j < n
            invariant
                n == a.node_count(),
                a.graph_wf(),
                a.node_labels() == implied_labels(seeds@, ts),
                ts == transitions@,
                a.start < a.node_count(),
                a.labels@[a.start as int]@ == start@,
                forall|x: int| 0 <= x < fin@.len() ==> a.node_labels().contains(#[trigger] fin@[x]@),
                a.labels@.len() == n,
                j <= n,
                marks@.len() == j,
                forall|x: int| 0 <= x < j ==> (#[trigger] marks@[x] <==> exists|y: int|
                    0 <= y < fin@.len() && (#[trigger] fin@[y])@ == a.labels@[x]@),
            decreases n - j,
        {
            let mut hit = false;
            let mut y: usize = 0;
            while y < fin.len()
                invariant
                    j < n,
                    a.labels@.len() == n,
                    y <= fin@.len(),
                    hit <==> exists|z: int| 0 <= z < y && (#[trigger] fin@[z])@ == a.labels@[j as int]@,
                decreases fin@.len() - y,
            {
                if fin[y].same_as(&a.labels[j]) {
                    hit = true;
                }
                y = y + 1;
            }
            marks.push(hit);
            j = j + 1;
        }
        a.fin = marks;
        Ok(a)
    }

    /// Builds an automaton from its transitions, start label and final
    /// labels. Each transition's endpoints resolve to the node with that
    /// label, made on first use; an edge equal to one already there is not
    /// added again. Fails when the start label, or a final label, names no
    /// endpoint of the transitions.
    pub fn new(transitions: &Vec<Transition>, start: PrettyState, fin: Vec<PrettyState>) -> (r: Result<Self, MissingStateError>)
        requires
            2 * transitions@.len() + 4 < u32::MAX,
        ensures
            Self::built_from(Seq::empty(), transitions@, start, fin@, r),
    {
        let seeds: Vec<PrettyState> = Vec::new();
        Self::with_states(&seeds, transitions, &start, &fin)
    }

    /// The label of a group: the union of its members' labels.
    pub fn parse_states(&self, idx: &NodeGroup) -> (r: PrettyState)
        requires
            self.graph_wf(),
            idx@.len() == self.node_count(),
        ensures
            r@ == group_label(self.labels@, idx@),
    {
        let mut tags: Vec<String> = Vec::new();
        let mut j: usize = 0;
        while j < idx.len()
            invariant
                self.graph_wf(),
                idx@.len() == self.labels@.len(),
                j <= idx@.len(),
                forall|t: Seq<char>| #[trigger] tags_hold(tags@, t) <==> group_holds_upto(self.labels@, idx@, j as int, t),
            decreases idx@.len() - j,
        {
            if idx[j] {
                let l = &self.labels[j];
                let ghost before = tags@;
                let mut q: usize = 0;
                while q < l.0.len()
                    invariant
                        q <= l.0@.len(),
                        tags@.len() == before.len() + q,
                        forall|x: int| 0 <= x < before.len() ==> tags@[x] == before[x],
                        forall|x: int| 0 <= x < q ==> tags@[before.len() + x]@ == (#[trigger] l.0@[x])@,
                    decreases l.0@.len() - q,
                {
                    tags.push(l.0[q].clone());
                    q = q + 1;
                }
                assert forall|t: Seq<char>| #[trigger] tags_hold(tags@, t) <==> group_holds_upto(self.labels@, idx@, j + 1, t) by {
                    if tags_hold(tags@, t) {
                        let x = choose|x: int| 0 <= x < tags@.len() && #[trigger] tags@[x]@ == t;
                        if x < before.len() {
                            assert(before[x]@ == t);
                            assert(tags_hold(before, t));
                        } else {
                            assert(l.0@[x - before.len()]@ == t);
                            assert(idx@[j as int] && self.labels@[j as int]@.contains(t));
                        }
                    }
                    if group_holds_upto(self.labels@, idx@, j + 1, t) {
                        let m = choose|m: int| 0 <= m < j + 1 && #[trigger] idx@[m] && self.labels@[m]@.contains(t);
                        if m < j {
                            assert(group_holds_upto(self.labels@, idx@, j as int, t));
                            assert(tags_hold(before, t));
                            let x = choose|x: int| 0 <= x < before.len() && #[trigger] before[x]@ == t;
                            assert(tags@[x]@ == t);
                        } else {
                            let y = choose|y: int| 0 <= y < l.0@.len() && #[trigger] l.0@[y]@ == t;
                            assert(tags@[before.len() + y]@ == t);
                        }
                    }
                }
            } else {
                assert forall|t: Seq<char>| #[trigger] tags_hold(tags@, t) <==> group_holds_upto(self.labels@, idx@, j + 1, t) by {
                    if group_holds_upto(self.labels@, idx@, j + 1, t) {
                        let m = choose|m: int| 0 <= m < j + 1 && #[trigger] idx@[m] && self.labels@[m]@.contains(t);
                        assert(m < j);
                        assert(group_holds_upto(self.labels@, idx@, j as int, t));
                    }
                }
            }
            j = j + 1;
        }
        let r = PrettyState(tags);
        assert forall|t: Seq<char>| r@.contains(t) <==> group_label(self.labels@, idx@).contains(t) by {
            assert(r@.contains(t) <==> tags_hold(tags@, t));
            assert(group_label(self.labels@, idx@).contains(t) <==> group_holds_upto(self.labels@, idx@, idx@.len() as int, t));
        }
        assert(r@ =~= group_label(self.labels@, idx@));
        r
    }

    /// The labels of the final nodes.
    pub open spec fn final_labels(&self) -> Set<Set<Seq<char>>> {
        Set::new(|l: Set<Seq<char>>| exists|j: int| 0 <= j < self.fin@.len() && #[trigger] self.fin@[j] && self.labels@[j]@ == l)
    }

    /// `d` is what subset construction makes of `a`. With `sg` the
    /// epsilon-closure of the start and the groups those that steps of
    /// subset construction reach from it: the start is labelled by `sg`,
    /// the node labels are the groups' labels, the labelled edges are the
    /// steps out of the groups, and a node is final iff its label is that of
    /// a group holding a final node of `a`. So no edge carries epsilon, and
    /// every node stands for a nonempty, epsilon-closed group of nodes
    /// reachable from the start of `a`.
    pub open spec fn derived_from(a: FiniteAutomata, d: FiniteAutomata) -> bool {
        &&& d.wf()
        &&& exists|sg: Seq<bool>|
            #[trigger] is_closure_of(a.edges(), singleton(a.node_count(), a.start as nat), sg)
                && d.labels@[d.start as int]@ == group_label(a.labels@, sg)
                && d.label_edges() == dfa_edges(a.edges(), a.labels@, a.node_count(), dfa_groups(a.edges(), a.node_count(), sg))
                && d.node_labels() == dfa_labels(a.labels@, dfa_groups(a.edges(), a.node_count(), sg))
                && forall|j: int|
                0 <= j < d.fin@.len() ==> (#[trigger] d.fin@[j] <==> dfa_final_labels(
                    a.labels@,
                    a.fin@,
                    dfa_groups(a.edges(), a.node_count(), sg),
                ).contains(d.labels@[j]@))
        &&& forall|x: LabelTriple|
            #[trigger] d.label_edges().contains(x) ==> subset_step(a.edges(), a.labels@, a.node_count(), x)
        &&& forall|i: int| 0 <= i < d.edges().len() ==> (#[trigger] d.edges()[i]).2 != eps()
        &&& forall|j: int|
            0 <= j < d.labels@.len() ==> reached_label(
                a.edges(),
                a.labels@,
                a.start as nat,
                a.node_count(),
                #[trigger] d.labels@[j]@,
            )
        &&& forall|j: int|
            0 <= j < d.fin@.len() && #[trigger] d.fin@[j] ==> accepting_label(
                a.labels@,
                a.fin@,
                a.node_count(),
                d.labels@[j]@,
            )
    }

    /// Subset construction: a new automaton whose nodes are the groups of
    /// this one's nodes reached from the epsilon-closure of the start, each
    /// named by the union of its members' labels. Groups with equal labels
    /// are one node. Nodes that the start cannot reach take no part. `None`
    /// exactly when the groups, or the moves between them, number
    /// `DFA_CAPACITY` or more, which keeps the result within the graph's
    /// index range.
    pub fn to_dfa(&self) -> (r: Option<Self>)
        requires
            self.wf(),
        ensures
            match r {
                Some(d) => Self::derived_from(*self, d),
                None => exists|sg: Seq<bool>|
                    #[trigger] is_closure_of(self.edges(), singleton(self.node_count(), self.start as nat), sg)
                        && (dfa_groups(self.edges(), self.node_count(), sg).len() >= DFA_CAPACITY
                        || dfa_moves(self.edges(), dfa_groups(self.edges(), self.node_count(), sg)).len() >= DFA_CAPACITY),
            },
    {
        let ghost es = self.edges();
        let ghost labels = self.labels@;
        let n = store_nodes(&self.graph);
        let mut s0: Vec<bool> = Vec::new();
        let mut j: usize = 0;
        while j < n
            invariant
                j <= n,
                s0@ == singleton(n as nat, self.start as nat).subrange(0, j as int),
            decreases n - j,
        {
            s0.push(j == self.start);
            assert(singleton(n as nat, self.start as nat).subrange(0, j + 1) =~=
                singleton(n as nat, self.start as nat).subrange(0, j as int).push(j == self.start));
            j = j + 1;
        }
        assert(s0@ =~= singleton(n as nat, self.start as nat));
        let start_group = self.epsilon_closure(&s0);
        proof {
            let st = self.start as nat;
            assert forall|r: Seq<bool>| r.len() == s0@.len() && #[trigger] closed_from(es, st, r) implies within(s0@, r) by {
            }
            assert forall|i: int| 0 <= i < es.len() implies (#[trigger] es[i]).1 < s0@.len() by {
            }
            lemma_closure_reached(es, st, s0@, start_group@, self.start as int);
        }
        let ghost sg = start_group@;
        let ghost dd = dfa_groups(es, n as nat, sg);
        let mut work: Vec<NodeGroup> = Vec::new();
        work.push(copy_group(&start_group));
        proof {
            assert(dd.contains(sg));
            lemma_listed_push(Seq::<Vec<bool>>::empty(), work@[0], sg);
            assert(Seq::<Vec<bool>>::empty().push(work@[0]) == work@);
        }
        let mut done: Vec<NodeGroup> = Vec::new();
        let mut trans: Vec<Transition> = Vec::new();
        let ghost mut pairs: Seq<(Seq<bool>, PrettyTransition)> = Seq::empty();
        while work.len() > 0
            invariant
                self.wf(),
                es == self.edges(),
                labels == self.labels@,
                n == self.node_count(),
                forall|k: int| 0 <= k < work@.len() ==> (#[trigger] work@[k])@.len() == n,
                forall|k: int| 0 <= k < done@.len() ==> (#[trigger] done@[k])@.len() == n,
                forall|k: int| 0 <= k < work@.len() ==> reached_group(es, self.start as nat, (#[trigger] work@[k])@),
                forall|k: int| 0 <= k < done@.len() ==> reached_group(es, self.start as nat, (#[trigger] done@[k])@),
                sg == start_group@,
                dd == dfa_groups(es, n as nat, sg),
                forall|k: int| 0 <= k < work@.len() ==> dd.contains((#[trigger] work@[k])@),
                forall|k: int| 0 <= k < done@.len() ==> dd.contains((#[trigger] done@[k])@),
                listed(done@, sg) || listed(work@, sg),
                pairs.len() == trans@.len(),
                pairs.no_duplicates(),
                forall|p: (Seq<bool>, PrettyTransition)|
                    #[trigger] pairs.contains(p) <==> (listed(done@, p.0) && p.1 != eps() && in_alphabet(es, p.0, p.1)),
                forall|k: int|
                    0 <= k < trans@.len() ==> dfa_edges(es, labels, n as nat, dd).contains(
                        ((#[trigger] trans@[k]).0@, trans@[k].1, trans@[k].2@),
                    ),
                forall|k: int, t: PrettyTransition, tgt: Seq<bool>|
                    0 <= k < done@.len() && #[trigger] dfa_step(es, done@[k]@, t, tgt) ==> trans_upto(
                        trans@,
                        trans@.len() as int,
                    ).contains((group_label(labels, done@[k]@), t, group_label(labels, tgt))),
                forall|k: int, t: PrettyTransition, tgt: Seq<bool>|
                    0 <= k < done@.len() && #[trigger] dfa_step(es, done@[k]@, t, tgt) ==> listed(done@, tgt) || listed(work@, tgt),
                forall|k: int|
                    0 <= k < trans@.len() ==> reached_label(es, labels, self.start as nat, n as nat, (#[trigger] trans@[k]).0@)
                        && reached_label(es, labels, self.start as nat, n as nat, trans@[k].2@),
                forall|a: int, b: int|
                    0 <= a < done@.len() && 0 <= b < done@.len() && a != b ==> (#[trigger] done@[a])@
                        != (#[trigger] done@[b])@,
                done@.len() <= pow2(n as nat),
                forall|k: int|
                    0 <= k < trans@.len() ==> subset_step(
                        es,
                        labels,
                        n as nat,
                        ((#[trigger] trans@[k]).0@, trans@[k].1, trans@[k].2@),
                    ),
            decreases pow2(n as nat) - done@.len(), work@.len(),
        {
            let ghost work_b = work@;
            let cur = work.pop().unwrap();
            let ghost work0 = work@;
            proof {
                assert(cur == work_b.last());
                assert(work0 == work_b.drop_last());
            }
            if contains_group(&done, &cur) {
                proof {
                    let kc = choose|kc: int| 0 <= kc < done@.len() && (#[trigger] done@[kc])@ == cur@;
                    assert forall|g: Seq<bool>| listed(work_b, g) implies listed(done@, g) || listed(work@, g) by {
                        lemma_listed_pop(work_b, g);
                    }
                    assert forall|k: int| 0 <= k < work@.len() implies dd.contains((#[trigger] work@[k])@) by {
                        assert(work@[k] == work_b[k]);
                    }
                    assert forall|k: int| 0 <= k < work@.len() implies (#[trigger] work@[k])@.len() == n by {
                        assert(work@[k] == work_b[k]);
                    }
                    assert forall|k: int| 0 <= k < work@.len() implies reached_group(es, self.start as nat, (#[trigger] work@[k])@) by {
                        assert(work@[k] == work_b[k]);
                    }
                }
                continue;
            }
            let symbols = self.next_moves(&cur);
            let mut q: usize = 0;
            proof {
                if listed(done@, cur@) {
                    let kc = choose|kc: int| 0 <= kc < done@.len() && (#[trigger] done@[kc])@ == cur@;
                }
            }
            while q < symbols.len()
                invariant
                    self.wf(),
                    es == self.edges(),
                    labels == self.labels@,
                    n == self.node_count(),
                    cur@.len() == n,
                    reached_group(es, self.start as nat, cur@),
                    dd == dfa_groups(es, n as nat, sg),
                    dd.contains(cur@),
                    forall|k: int| 0 <= k < work@.len() ==> dd.contains((#[trigger] work@[k])@),
                    work@.len() >= work0.len(),
                    forall|k: int| 0 <= k < work0.len() ==> work@[k] == work0[k],
                    forall|qq: int, tgt: Seq<bool>|
                        0 <= qq < q && symbols@[qq] != eps() && #[trigger] is_closure_of(es, step(es, cur@, symbols@[qq]), tgt)
                            ==> listed(work@, tgt),
                    q <= symbols@.len(),
                    cur@.len() == n,
                    symbols@.no_duplicates(),
                    !listed(done@, cur@),
                    pairs.len() == trans@.len(),
                    pairs.no_duplicates(),
                    forall|p: (Seq<bool>, PrettyTransition)|
                        #[trigger] pairs.contains(p) <==> ((listed(done@, p.0) || (p.0 == cur@ && exists|qq: int|
                            0 <= qq < q && symbols@[qq] == p.1)) && p.1 != eps() && in_alphabet(es, p.0, p.1)),
                    forall|k: int| 0 <= k < done@.len() ==> (#[trigger] done@[k])@.len() == n,
                    forall|k: int|
                        0 <= k < trans@.len() ==> dfa_edges(es, labels, n as nat, dd).contains(
                            ((#[trigger] trans@[k]).0@, trans@[k].1, trans@[k].2@),
                        ),
                    forall|k: int, t: PrettyTransition, tgt: Seq<bool>|
                        0 <= k < done@.len() && #[trigger] dfa_step(es, done@[k]@, t, tgt) ==> trans_upto(
                            trans@,
                            trans@.len() as int,
                        ).contains((group_label(labels, done@[k]@), t, group_label(labels, tgt))),
                    forall|qq: int, tgt: Seq<bool>|
                        0 <= qq < q && symbols@[qq] != eps() && #[trigger] is_closure_of(es, step(es, cur@, symbols@[qq]), tgt)
                            ==> trans_upto(trans@, trans@.len() as int).contains(
                            (group_label(labels, cur@), symbols@[qq], group_label(labels, tgt)),
                        ),
                forall|k: int| 0 <= k < work@.len() ==> reached_group(es, self.start as nat, (#[trigger] work@[k])@),
                forall|k: int|
                    0 <= k < trans@.len() ==> reached_label(es, labels, self.start as nat, n as nat, (#[trigger] trans@[k]).0@)
                        && reached_label(es, labels, self.start as nat, n as nat, trans@[k].2@),
                    forall|t: PrettyTransition| symbols@.contains(t) <==> in_alphabet(es, cur@, t),
                    forall|k: int| 0 <= k < work@.len() ==> (#[trigger] work@[k])@.len() == n,
                    forall|k: int|
                        0 <= k < trans@.len() ==> subset_step(
                            es,
                            labels,
                            n as nat,
                            ((#[trigger] trans@[k]).0@, trans@[k].1, trans@[k].2@),
                        ),
                decreases symbols@.len() - q,
            {
                let sym = symbols[q];
                if sym != PrettyTransition(Symbol::Epsilon) {
                    let moved = self.reachable_states(&cur, sym);
                    let target = self.epsilon_closure(&moved);
                    let tr = (self.parse_states(&cur), sym, self.parse_states(&target));
                    proof {
                        assert(symbols@.contains(sym));
                        assert(dfa_step(es, cur@, sym, target@));
                        let x: LabelTriple = (tr.0@, tr.1, tr.2@);
                        assert(x.0 == group_label(labels, cur@));
                        assert(x.2 == group_label(labels, target@));
                        assert(x.1 == sym);
                        assert(dfa_step(es, cur@, x.1, target@));
                        assert(subset_step(es, labels, n as nat, (tr.0@, tr.1, tr.2@)));
                        let st = self.start as nat;
                        let e = choose|e: int| 0 <= e < es.len() && es[e].0 < cur@.len() && #[trigger] cur@[es[e].0 as int] && es[e].2 == sym;
                        assert(moved@[es[e].1 as int]);
                        assert forall|i: int| 0 <= i < es.len() implies (#[trigger] es[i]).1 < moved@.len() by {
                        }
                        assert forall|r: Seq<bool>| r.len() == moved@.len() && #[trigger] closed_from(es, st, r) implies within(moved@, r) by {
                            lemma_step_within(es, st, cur@, sym, r);
                        }
                        lemma_closure_reached(es, st, moved@, target@, es[e].1 as int);
                        assert(reached_label(es, labels, st, n as nat, tr.0@));
                        assert(reached_label(es, labels, st, n as nat, tr.2@));
                        assert forall|x: Set<Seq<bool>>| #[trigger] step_closed(es, n as nat, sg, x) implies x.contains(target@) by {
                            assert(x.contains(cur@));
                        }
                    }
                    let ghost wpre = work@;
                    let ghost tpre = trans@;
                    trans.push(tr);
                    work.push(target);
                    proof {
                        let np = (cur@, sym);
                        assert(!pairs.contains(np)) by {
                            if pairs.contains(np) {
                                let qq = choose|qq: int| 0 <= qq < q && symbols@[qq] == sym;
                                assert(symbols@[q as int] == sym);
                            }
                        }
                        let pp = pairs;
                        pairs = pairs.push(np);
                        assert forall|x: int, y: int| 0 <= x < y < pairs.len() implies pairs[x] != pairs[y] by {
                            if y == pairs.len() - 1 {
                                assert(pp.contains(pp[x]));
                            } else {
                                assert(pairs[x] == pp[x] && pairs[y] == pp[y]);
                            }
                        }
                        assert forall|p: (Seq<bool>, PrettyTransition)|
                            #[trigger] pairs.contains(p) <==> ((listed(done@, p.0) || (p.0 == cur@ && exists|qq: int|
                                0 <= qq < q + 1 && symbols@[qq] == p.1)) && p.1 != eps() && in_alphabet(es, p.0, p.1)) by {
                            if pairs.contains(p) && p != np {
                                let x = choose|x: int| 0 <= x < pairs.len() && pairs[x] == p;
                                assert(pp[x] == p);
                                assert(pp.contains(p));
                                if p.0 == cur@ && !listed(done@, p.0) {
                                    let qq = choose|qq: int| 0 <= qq < q && symbols@[qq] == p.1;
                                    assert(0 <= qq < q + 1 && symbols@[qq] == p.1);
                                }
                            }
                            if p == np {
                                assert(pairs[pp.len() as int] == np);
                                assert(symbols@.contains(sym));
                                assert(0 <= q < q + 1 && symbols@[q as int] == p.1);
                            }
                            if (listed(done@, p.0) || (p.0 == cur@ && exists|qq: int| 0 <= qq < q + 1 && symbols@[qq] == p.1))
                                && p.1 != eps() && in_alphabet(es, p.0, p.1) && p != np {
                                if !listed(done@, p.0) {
                                    let qq = choose|qq: int| 0 <= qq < q + 1 && symbols@[qq] == p.1;
                                    if qq == q {
                                        assert(p == np);
                                    }
                                }
                                assert(pp.contains(p));
                                let x = choose|x: int| 0 <= x < pp.len() && pp[x] == p;
                                assert(pairs[x] == p);
                            }
                        }
                        assert(dfa_edges(es, labels, n as nat, dd).contains((tr.0@, tr.1, tr.2@)));
                        assert forall|k: int| 0 <= k < trans@.len() implies dfa_edges(es, labels, n as nat, dd).contains(
                            ((#[trigger] trans@[k]).0@, trans@[k].1, trans@[k].2@)) by {
                            if k < tpre.len() {
                                assert(trans@[k] == tpre[k]);
                            }
                        }
                        assert forall|k: int, t: PrettyTransition, tgt: Seq<bool>|
                            0 <= k < done@.len() && #[trigger] dfa_step(es, done@[k]@, t, tgt) implies trans_upto(trans@, trans@.len() as int).contains(
                                (group_label(labels, done@[k]@), t, group_label(labels, tgt))) by {
                            lemma_trans_push(tpre, tr, (group_label(labels, done@[k]@), t, group_label(labels, tgt)));
                        }
                        assert forall|qq: int, tgt: Seq<bool>|
                            0 <= qq < q + 1 && symbols@[qq] != eps() && #[trigger] is_closure_of(es, step(es, cur@, symbols@[qq]), tgt)
                                implies trans_upto(trans@, trans@.len() as int).contains(
                                (group_label(labels, cur@), symbols@[qq], group_label(labels, tgt))) by {
                            lemma_trans_push(tpre, tr, (group_label(labels, cur@), symbols@[qq], group_label(labels, tgt)));
                            if qq == q {
                                lemma_closure_unique(es, step(es, cur@, sym), tgt, target@);
                            }
                        }
                        assert forall|qq: int, tgt: Seq<bool>|
                            0 <= qq < q + 1 && symbols@[qq] != eps() && #[trigger] is_closure_of(es, step(es, cur@, symbols@[qq]), tgt)
                                implies listed(work@, tgt) by {
                            lemma_listed_push(wpre, target, tgt);
                            if qq == q {
                                lemma_closure_unique(es, step(es, cur@, sym), tgt, target@);
                            }
                        }
                    }
                }
                q = q + 1;
            }
            proof {
                let dv = done@.map_values(|v: Vec<bool>| v@).push(cur@);
                assert forall|a: int, b: int| 0 <= a < b < dv.len() implies dv[a] != dv[b] by {
                    if b == dv.len() - 1 {
                        assert(dv[a] == done@[a]@);
                    } else {
                        assert(dv[a] == done@[a]@ && dv[b] == done@[b]@);
                    }
                }
                assert forall|k: int| 0 <= k < dv.len() implies (#[trigger] dv[k]).len() == n by {
                    if k < done@.len() {
                        assert(dv[k] == done@[k]@);
                    }
                }
                lemma_distinct_groups_bound(dv, n as nat);
            }
            let ghost done_b = done@;
            done.push(cur);
            proof {
                lemma_listed_push(done_b, cur, cur@);
                assert forall|p: (Seq<bool>, PrettyTransition)|
                    #[trigger] pairs.contains(p) <==> (listed(done@, p.0) && p.1 != eps() && in_alphabet(es, p.0, p.1)) by {
                    lemma_listed_push(done_b, cur, p.0);
                    if listed(done@, p.0) && !listed(done_b, p.0) {
                        let k = choose|k: int| 0 <= k < done@.len() && (#[trigger] done@[k])@ == p.0;
                        if k < done_b.len() {
                            assert(done_b[k] == done@[k]);
                        }
                        assert(p.0 == cur@);
                        if p.1 != eps() && in_alphabet(es, p.0, p.1) {
                            assert(symbols@.contains(p.1));
                        }
                    }
                }
                assert forall|g: Seq<bool>| listed(done_b, g) || listed(work_b, g) implies listed(done@, g) || listed(work@, g) by {
                    lemma_listed_push(done_b, cur, g);
                    if listed(work_b, g) {
                        lemma_listed_pop(work_b, g);
                        if listed(work0, g) {
                            let k = choose|k: int| 0 <= k < work0.len() && (#[trigger] work0[k])@ == g;
                            assert(work@[k] == work0[k]);
                        }
                    }
                }
                assert forall|k: int, t: PrettyTransition, tgt: Seq<bool>|
                    0 <= k < done@.len() && #[trigger] dfa_step(es, done@[k]@, t, tgt) implies listed(done@, tgt) || listed(work@, tgt) by {
                    if k < done_b.len() {
                        assert(done@[k] == done_b[k]);
                    } else {
                        assert(done@[k] == cur);
                        assert(symbols@.contains(t));
                        let qq = choose|qq: int| 0 <= qq < symbols@.len() && symbols@[qq] == t;
                        assert(is_closure_of(es, step(es, cur@, symbols@[qq]), tgt));
                    }
                }
                assert forall|k: int, t: PrettyTransition, tgt: Seq<bool>|
                    0 <= k < done@.len() && #[trigger] dfa_step(es, done@[k]@, t, tgt) implies trans_upto(trans@, trans@.len() as int).contains(
                        (group_label(labels, done@[k]@), t, group_label(labels, tgt))) by {
                    if k < done_b.len() {
                        assert(done@[k] == done_b[k]);
                    } else {
                        assert(done@[k] == cur);
                        assert(symbols@.contains(t));
                        let qq = choose|qq: int| 0 <= qq < symbols@.len() && symbols@[qq] == t;
                        assert(is_closure_of(es, step(es, cur@, symbols@[qq]), tgt));
                    }
                }
                assert forall|k: int| 0 <= k < done@.len() implies dd.contains((#[trigger] done@[k])@) by {
                    if k < done_b.len() {
                        assert(done@[k] == done_b[k]);
                    }
                }
                assert forall|k: int| 0 <= k < done@.len() implies (#[trigger] done@[k])@.len() == n by {
                    if k < done_b.len() {
                        assert(done@[k] == done_b[k]);
                    }
                }
                assert forall|k: int| 0 <= k < done@.len() implies reached_group(es, self.start as nat, (#[trigger] done@[k])@) by {
                    if k < done_b.len() {
                        assert(done@[k] == done_b[k]);
                    }
                }
            }
        }
        proof {
            let xs = Set::new(|g: Seq<bool>| listed(done@, g));
            if listed(work@, sg) {
                let k = choose|k: int| 0 <= k < work@.len() && (#[trigger] work@[k])@ == sg;
            }
            assert forall|g: Seq<bool>, t: PrettyTransition, tgt: Seq<bool>|
                xs.contains(g) && g.len() == n && #[trigger] dfa_step(es, g, t, tgt) implies xs.contains(tgt) by {
                let k = choose|k: int| 0 <= k < done@.len() && (#[trigger] done@[k])@ == g;
                assert(dfa_step(es, done@[k]@, t, tgt));
                if listed(work@, tgt) {
                    let w = choose|w: int| 0 <= w < work@.len() && (#[trigger] work@[w])@ == tgt;
                }
            }
            assert(step_closed(es, n as nat, sg, xs));
            assert forall|g: Seq<bool>| dd.contains(g) implies listed(done@, g) by {
                assert(xs.contains(g));
            }
            let dv = done@.map_values(|v: Vec<bool>| v@);
            assert forall|x: int, y: int| 0 <= x < y < dv.len() implies dv[x] != dv[y] by {
                assert(dv[x] == done@[x]@ && dv[y] == done@[y]@);
            }
            assert(dv.to_set() =~= dd) by {
                assert forall|g: Seq<bool>| dv.to_set().contains(g) implies dd.contains(g) by {
                    let k = choose|k: int| 0 <= k < dv.len() && dv[k] == g;
                    assert(dd.contains(done@[k]@));
                }
                assert forall|g: Seq<bool>| dd.contains(g) implies dv.to_set().contains(g) by {
                    let k = choose|k: int| 0 <= k < done@.len() && (#[trigger] done@[k])@ == g;
                    assert(dv[k] == g);
                }
            }
            dv.unique_seq_to_set();
            assert(pairs.to_set() =~= dfa_moves(es, dd)) by {
                assert forall|p: (Seq<bool>, PrettyTransition)| pairs.to_set().contains(p) implies dfa_moves(es, dd).contains(p) by {
                    assert(pairs.contains(p));
                    let k = choose|k: int| 0 <= k < done@.len() && (#[trigger] done@[k])@ == p.0;
                    assert(dd.contains(done@[k]@));
                }
                assert forall|p: (Seq<bool>, PrettyTransition)| dfa_moves(es, dd).contains(p) implies pairs.to_set().contains(p) by {
                    assert(listed(done@, p.0));
                    assert(pairs.contains(p));
                }
            }
            pairs.unique_seq_to_set();
            assert(listed(done@, sg));
        }
        // final groups and the labels of every group
        let mut finals: Vec<PrettyState> = Vec::new();
        let mut seeds: Vec<PrettyState> = Vec::new();
        let mut k: usize = 0;
        while k < done.len()
            invariant
                self.wf(),
                labels == self.labels@,
                n == self.node_count(),
                k <= done@.len(),
                seeds@.len() == k,
                forall|x: int| 0 <= x < done@.len() ==> (#[trigger] done@[x])@.len() == n,
                forall|x: int| 0 <= x < done@.len() ==> reached_group(es, self.start as nat, (#[trigger] done@[x])@),
                es == self.edges(),
                forall|x: int| 0 <= x < seeds@.len() ==> reached_label(es, labels, self.start as nat, n as nat, (#[trigger] seeds@[x])@),
                forall|x: int|
                    0 <= x < finals@.len() ==> accepting_label(labels, self.fin@, n as nat, (#[trigger] finals@[x])@),
                dd == dfa_groups(es, n as nat, sg),
                forall|x: int| 0 <= x < done@.len() ==> dd.contains((#[trigger] done@[x])@),
                forall|x: int| 0 <= x < k ==> (#[trigger] seeds@[x])@ == group_label(labels, done@[x]@),
                dd.finite(),
                dd.len() == done@.len(),
                dfa_moves(es, dd).len() == trans@.len(),
                listed(done@, sg),
                forall|g: Seq<bool>| dd.contains(g) ==> listed(done@, g),
                is_closure_of(es, singleton(n as nat, self.start as nat), sg),
                forall|y: int|
                    0 <= y < finals@.len() ==> dfa_final_labels(labels, self.fin@, dd).contains((#[trigger] finals@[y])@),
                forall|x: int|
                    0 <= x < k && meets(#[trigger] done@[x]@, self.fin@) ==> exists|y: int|
                        0 <= y < finals@.len() && (#[trigger] finals@[y])@ == group_label(labels, done@[x]@),
            decreases done@.len() - k,
        {
            let g = &done[k];
            let mut hit = false;
            let mut i: usize = 0;
            while i < n
                invariant
                    self.wf(),
                    n == self.node_count(),
                    g@.len() == n,
                    i <= n,
                    hit <==> exists|z: int| 0 <= z < i && #[trigger] g@[z] && self.fin@[z],
                decreases n - i,
            {
                if g[i] && self.fin[i] {
                    hit = true;
                }
                i = i + 1;
            }
            let l = self.parse_states(g);
            assert(reached_label(es, labels, self.start as nat, n as nat, l@));
            assert(hit <==> meets(g@, self.fin@));
            let ghost fpre = finals@;
            let ghost spre = seeds@;
            if hit {
                finals.push(l.duplicate());
                assert(dfa_final_labels(labels, self.fin@, dd).contains(l@));
            }
            seeds.push(l);
            proof {
                assert forall|x: int| 0 <= x < k + 1 implies (#[trigger] seeds@[x])@ == group_label(labels, done@[x]@) by {
                    if x < k {
                        assert(seeds@[x] == spre[x]);
                    }
                }
                assert forall|y: int| 0 <= y < finals@.len() implies dfa_final_labels(labels, self.fin@, dd).contains((#[trigger] finals@[y])@) by {
                    if y < fpre.len() {
                        assert(finals@[y] == fpre[y]);
                    }
                }
                assert forall|x: int| 0 <= x < k + 1 && meets(#[trigger] done@[x]@, self.fin@) implies exists|y: int|
                    0 <= y < finals@.len() && (#[trigger] finals@[y])@ == group_label(labels, done@[x]@) by {
                    if x < k {
                        let y = choose|y: int| 0 <= y < fpre.len() && (#[trigger] fpre[y])@ == group_label(labels, done@[x]@);
                        assert(finals@[y] == fpre[y]);
                    } else {
                        assert(finals@[fpre.len() as int]@ == l@);
                    }
                }
            }
            k = k + 1;
        }
        if seeds.len() >= DFA_CAPACITY || trans.len() >= DFA_CAPACITY {
            return None;
        }
        let start_label = self.parse_states(&start_group);
        let built = Self::with_states(&seeds, &trans, &start_label, &finals);
        proof {
            let implied = implied_labels(seeds@, trans@);
            let ks = choose|ks: int| 0 <= ks < done@.len() && (#[trigger] done@[ks])@ == sg;
            assert(seeds@[ks]@ == start_label@);
            assert(labels_upto(seeds@, seeds@.len() as int).contains(start_label@));
            assert forall|y: int| 0 <= y < finals@.len() implies implied.contains(#[trigger] finals@[y]@) by {
                assert(dfa_final_labels(labels, self.fin@, dd).contains(finals@[y]@));
                let g = choose|g: Seq<bool>| #[trigger] dd.contains(g) && meets(g, self.fin@) && finals@[y]@ == group_label(labels, g);
                assert(listed(done@, g));
                let kg = choose|kg: int| 0 <= kg < done@.len() && (#[trigger] done@[kg])@ == g;
                assert(seeds@[kg]@ == finals@[y]@);
                assert(labels_upto(seeds@, seeds@.len() as int).contains(finals@[y]@));
            }
            assert(built.is_ok());
        }
        match built {
            Ok(d) => {
                proof {
                    assert forall|x: LabelTriple| #[trigger] d.label_edges().contains(x) implies subset_step(es, labels, n as nat, x) by {
                        let i = choose|i: int| 0 <= i < trans@.len() && (#[trigger] trans@[i]).0@ == x.0 && trans@[i].1 == x.1 && trans@[i].2@ == x.2;
                        assert(subset_step(es, labels, n as nat, (trans@[i].0@, trans@[i].1, trans@[i].2@)));
                    }
                    assert forall|i: int| 0 <= i < d.edges().len() implies (#[trigger] d.edges()[i]).2 != eps() by {
                        let x = (d.labels@[d.edges()[i].0 as int]@, d.edges()[i].2, d.labels@[d.edges()[i].1 as int]@);
                        assert(d.label_edges().contains(x));
                        assert(subset_step(es, labels, n as nat, x));
                    }
                    assert forall|j: int| 0 <= j < d.labels@.len() implies reached_label(es, labels, self.start as nat, n as nat, #[trigger] d.labels@[j]@) by {
                        assert(d.node_labels().contains(d.labels@[j]@));
                        let l = d.labels@[j]@;
                        if labels_upto(seeds@, seeds@.len() as int).contains(l) {
                            let x = choose|x: int| 0 <= x < seeds@.len() && (#[trigger] seeds@[x])@ == l;
                            assert(reached_label(es, labels, self.start as nat, n as nat, seeds@[x]@));
                        } else {
                            let x = choose|x: int| 0 <= x < trans@.len() && ((#[trigger] trans@[x]).0@ == l || trans@[x].2@ == l);
                            assert(reached_label(es, labels, self.start as nat, n as nat, trans@[x].0@));
                            assert(reached_label(es, labels, self.start as nat, n as nat, trans@[x].2@));
                        }
                    }
                    assert(d.label_edges() =~= dfa_edges(es, labels, n as nat, dd)) by {
                        assert forall|x: LabelTriple| d.label_edges().contains(x) implies dfa_edges(es, labels, n as nat, dd).contains(x) by {
                            let i = choose|i: int| 0 <= i < trans@.len() && (#[trigger] trans@[i]).0@ == x.0 && trans@[i].1 == x.1 && trans@[i].2@ == x.2;
                            assert(dfa_edges(es, labels, n as nat, dd).contains((trans@[i].0@, trans@[i].1, trans@[i].2@)));
                        }
                        assert forall|x: LabelTriple| dfa_edges(es, labels, n as nat, dd).contains(x) implies d.label_edges().contains(x) by {
                            let (g, tgt) = choose|g: Seq<bool>, tgt: Seq<bool>|
                                dd.contains(g) && g.len() == n && #[trigger] dfa_step(es, g, x.1, tgt) && x.0 == group_label(labels, g)
                                    && x.2 == group_label(labels, tgt);
                            assert(listed(done@, g));
                            let k = choose|k: int| 0 <= k < done@.len() && (#[trigger] done@[k])@ == g;
                            assert(dfa_step(es, done@[k]@, x.1, tgt));
                        }
                    }
                    assert(d.node_labels() =~= dfa_labels(labels, dd)) by {
                        assert forall|l: Set<Seq<char>>| d.node_labels().contains(l) implies dfa_labels(labels, dd).contains(l) by {
                            if labels_upto(seeds@, seeds@.len() as int).contains(l) {
                                let x = choose|x: int| 0 <= x < seeds@.len() && (#[trigger] seeds@[x])@ == l;
                                assert(dd.contains(done@[x]@));
                            } else {
                                let x = choose|x: int| 0 <= x < trans@.len() && ((#[trigger] trans@[x]).0@ == l || trans@[x].2@ == l);
                                let e = (trans@[x].0@, trans@[x].1, trans@[x].2@);
                                assert(dfa_edges(es, labels, n as nat, dd).contains(e));
                                let (g, tgt) = choose|g: Seq<bool>, tgt: Seq<bool>|
                                    dd.contains(g) && g.len() == n && #[trigger] dfa_step(es, g, e.1, tgt) && e.0 == group_label(labels, g)
                                        && e.2 == group_label(labels, tgt);
                                assert forall|xs: Set<Seq<bool>>| #[trigger] step_closed(es, n as nat, sg, xs) implies xs.contains(tgt) by {
                                    assert(xs.contains(g));
                                }
                                assert(dd.contains(tgt));
                            }
                        }
                        assert forall|l: Set<Seq<char>>| dfa_labels(labels, dd).contains(l) implies d.node_labels().contains(l) by {
                            let g = choose|g: Seq<bool>| #[trigger] dd.contains(g) && l == group_label(labels, g);
                            assert(listed(done@, g));
                            let k = choose|k: int| 0 <= k < done@.len() && (#[trigger] done@[k])@ == g;
                            assert(seeds@[k]@ == l);
                            assert(labels_upto(seeds@, seeds@.len() as int).contains(l));
                        }
                    }
                    assert forall|j: int| 0 <= j < d.fin@.len() implies (#[trigger] d.fin@[j] <==> dfa_final_labels(labels, self.fin@, dd).contains(d.labels@[j]@)) by {
                        if d.fin@[j] {
                            let y = choose|y: int| 0 <= y < finals@.len() && (#[trigger] finals@[y])@ == d.labels@[j]@;
                            assert(dfa_final_labels(labels, self.fin@, dd).contains(finals@[y]@));
                        }
                        if dfa_final_labels(labels, self.fin@, dd).contains(d.labels@[j]@) {
                            let g = choose|g: Seq<bool>| #[trigger] dd.contains(g) && meets(g, self.fin@) && d.labels@[j]@ == group_label(labels, g);
                            assert(listed(done@, g));
                            let k = choose|k: int| 0 <= k < done@.len() && (#[trigger] done@[k])@ == g;
                            assert(meets(done@[k]@, self.fin@));
                            let y = choose|y: int| 0 <= y < finals@.len() && (#[trigger] finals@[y])@ == group_label(labels, done@[k]@);
                            assert(finals@[y]@ == d.labels@[j]@);
                        }
                    }
                    assert(d.labels@[d.start as int]@ == group_label(labels, sg));
                    assert forall|j: int| 0 <= j < d.fin@.len() && #[trigger] d.fin@[j] implies accepting_label(labels, self.fin@, n as nat, d.labels@[j]@) by {
                        let y = choose|y: int| 0 <= y < finals@.len() && (#[trigger] finals@[y])@ == d.labels@[j]@;
                        assert(accepting_label(labels, self.fin@, n as nat, finals@[y]@));
                    }
                }
                Some(d)
            },
            Err(_) => None,
        }
    }

    /// `new` on labels of one tag each: every transition, the start and each
    /// final state are named by a single string.
    pub fn from_slice(transitions: &[(&str, Symbol, &str)], start: &str, fin: &[&str]) -> (r: Result<Self, MissingStateError>)
        requires
            2 * transitions@.len() + 4 < u32::MAX,
        ensures
            exists|ts: Seq<Transition>, st: PrettyState, fs: Seq<PrettyState>|
                #[trigger] Self::built_from(Seq::empty(), ts, st, fs, r) && ts.len() == transitions@.len()
                    && (forall|i: int|
                    0 <= i < ts.len() ==> (#[trigger] ts[i]).0@ == set![transitions@[i].0@] && ts[i].1 == PrettyTransition(
                        transitions@[i].1,
                    ) && ts[i].2@ == set![transitions@[i].2@]) && st@ == set![start@] && fs.len() == fin@.len()
                    && forall|k: int| 0 <= k < fs.len() ==> (#[trigger] fs[k])@ == set![fin@[k]@],
    {
        let mut ts: Vec<Transition> = Vec::new();
        let mut i: usize = 0;
        while i < transitions.len()
            invariant
                i <= transitions@.len(),
                ts@.len() == i,
                forall|x: int|
                    0 <= x < i ==> (#[trigger] ts@[x]).0@ == set![transitions@[x].0@] && ts@[x].1 == PrettyTransition(
                        transitions@[x].1,
                    ) && ts@[x].2@ == set![transitions@[x].2@],
            decreases transitions@.len() - i,
        {
            let (a, t, b) = transitions[i];
            ts.push((single(a), PrettyTransition(t), single(b)));
            i = i + 1;
        }
        let mut fs: Vec<PrettyState> = Vec::new();
        let mut k: usize = 0;
        while k < fin.len()
            invariant
                k <= fin@.len(),
                fs@.len() == k,
                forall|x: int| 0 <= x < k ==> (#[trigger] fs@[x])@ == set![fin@[x]@],
            decreases fin@.len() - k,
        {
            fs.push(single(fin[k]));
            k = k + 1;
        }
        let st = single(start);
        let ghost stv = st;
        let ghost fsv = fs@;
        let r = Self::new(&ts, st, fs);
        assert(Self::built_from(Seq::empty(), ts@, stv, fsv, r));
        r
    }

    /// The nodes reached from a member of `src` by one edge that carries
    /// `transition` (epsilon is a symbol like any other here).
    pub fn reachable_states(&self, src: &NodeGroup, transition: PrettyTransition) -> (r: NodeGroup)
        requires
            self.graph_wf(),
            src@.len() == self.node_count(),
        ensures
            r@ == step(self.edges(), src@, transition),
    {
        let n = store_nodes(&self.graph);
        let m = store_edge_count(&self.graph);
        let mut out: Vec<bool> = Vec::new();
        let mut j: usize = 0;
        while j < n
            invariant
                j <= n,
                out@.len() == j,
                forall|x: int| 0 <= x < j ==> !out@[x],
            decreases n - j,
        {
            out.push(false);
            j = j + 1;
        }
        let ghost es = self.edges();
        let mut i: usize = 0;
        while i < m
            invariant
                self.graph_wf(),
                n == self.node_count(),
                m == es.len(),
                es == self.edges(),
                src@.len() == n,
                i <= m,
                out@.len() == n,
                forall|x: int|
                    0 <= x < n ==> (out@[x] <==> exists|e: int|
                        0 <= e < i && es[e].2 == transition && es[e].1 == x && es[e].0 < n
                            && #[trigger] src@[es[e].0 as int]),
            decreases m - i,
        {
            let (a, b) = store_endpoints(&self.graph, i);
            let t = store_symbol(&self.graph, i);
            assert(es[i as int].0 < n && es[i as int].1 < n);
            if t == transition && src[a] {
                out.set(b, true);
            }
            assert forall|x: int|
                0 <= x < n implies (out@[x] <==> exists|e: int|
                    0 <= e < i + 1 && es[e].2 == transition && es[e].1 == x && es[e].0 < n
                        && #[trigger] src@[es[e].0 as int]) by {
                if out@[x] && !(t == transition && src@[a as int] && x == b) {
                    let e = choose|e: int|
                        0 <= e < i && es[e].2 == transition && es[e].1 == x && es[e].0 < n
                            && #[trigger] src@[es[e].0 as int];
                    assert(src@[es[e].0 as int]);
                }
                if t == transition && src@[a as int] && x == b {
                    assert(src@[es[i as int].0 as int]);
                }
            }
            i = i + 1;
        }
        assert(out@ =~= step(es, src@, transition));
        out
    }

    /// The epsilon-closure of `src`: `src` and every node reached from it by
    /// epsilon edges alone.
    pub fn epsilon_closure(&self, src: &NodeGroup) -> (r: NodeGroup)
        requires
            self.graph_wf(),
            src@.len() == self.node_count(),
        ensures
            is_closure_of(self.edges(), src@, r@),
            r@.len() == src@.len(),
    {
        let ghost es = self.edges();
        let n = store_nodes(&self.graph);
        let mut result = src.clone();
        assert(result@ =~= src@);
        let ghost mut k: nat = 0;
        let mut grew = true;
        while grew
            invariant
                self.graph_wf(),
                es == self.edges(),
                n == self.node_count(),
                src@.len() == n,
                result@.len() == n,
                result@ == eps_iter(es, src@, k),
                !grew ==> eps_closed(es, result@),
            decreases nfalse(result@) + if grew { 1nat } else { 0nat },
        {
            let next = self.reachable_states(&result, PrettyTransition(Symbol::Epsilon));
            let ghost before = result@;
            grew = false;
            let mut merged: Vec<bool> = Vec::new();
            let mut j: usize = 0;
            while j < n
                invariant
                    n == before.len(),
                    result@ == before,
                    next@ == step(es, before, eps()),
                    merged@.len() == j,
                    j <= n,
                    forall|x: int| 0 <= x < j ==> merged@[x] == (before[x] || next@[x]),
                    grew <==> exists|x: int| 0 <= x < j && next@[x] && !before[x],
                decreases n - j,
            {
                let ghost g0 = grew;
                let nj = next[j];
                let rj = result[j];
                merged.push(rj || nj);
                assert(rj == before[j as int]);
                assert(nj == next@[j as int]);
                assert(merged@[j as int] == (before[j as int] || next@[j as int]));
                if nj && !rj {
                    grew = true;
                }
                assert(grew <==> exists|x: int| 0 <= x < j + 1 && next@[x] && !before[x]) by {
                    if g0 {
                        let x = choose|x: int| 0 <= x < j && next@[x] && !before[x];
                        assert(0 <= x < j + 1 && next@[x] && !before[x]);
                    }
                    if nj && !rj {
                        assert(0 <= j < j + 1 && next@[j as int] && !before[j as int]);
                    }
                }
                j = j + 1;
            }
            result = merged;
            proof {
                k = k + 1;
                assert(result@ =~= union(before, next@));
                if grew {
                    let x = choose|x: int| 0 <= x < n && next@[x] && !before[x];
                    lemma_nfalse_grows(before, result@, x);
                } else {
                    assert(result@ =~= before);
                    assert forall|i: int|
                        0 <= i < es.len() && es[i].2 == eps() && es[i].0 < n && es[i].1 < n
                            && #[trigger] before[es[i].0 as int] implies before[es[i].1 as int] by {
                        assert(next@[es[i].1 as int]);
                    }
                }
            }
        }
        result
    }

    /// True iff no edge carries epsilon and no node has two outgoing edges
    /// with the same symbol.
    pub fn is_dfa(&self) -> (r: bool)
        requires
            self.wf(),
        ensures
            r == is_deterministic(self.edges()),
    {
        let ghost es = self.edges();
        let m = store_edge_count(&self.graph);
        let mut i: usize = 0;
        while i < m
            invariant
                es == self.edges(),
                m == es.len(),
                i <= m,
                forall|x: int| 0 <= x < i ==> (#[trigger] es[x]).2 != eps(),
                forall|x: int, y: int|
                    0 <= x < i && 0 <= y < m && x != y && (#[trigger] es[x]).0 == (#[trigger] es[y]).0
                        ==> es[x].2 != es[y].2,
            decreases m - i,
        {
            let t = store_symbol(&self.graph, i);
            if t == PrettyTransition(Symbol::Epsilon) {
                return false;
            }
            let (a, _b) = store_endpoints(&self.graph, i);
            let mut j: usize = 0;
            while j < m
                invariant
                    es == self.edges(),
                    m == es.len(),
                    i < m,
                    j <= m,
                    a == es[i as int].0,
                    t == es[i as int].2,
                    forall|y: int|
                        0 <= y < j && y != i && (#[trigger] es[y]).0 == es[i as int].0 ==> es[i as int].2 != es[y].2,
                decreases m - j,
            {
                if j != i {
                    let (c, _d) = store_endpoints(&self.graph, j);
                    let u = store_symbol(&self.graph, j);
                    if c == a && u == t {
                        assert(es[i as int].0 == es[j as int].0 && es[i as int].2 == es[j as int].2);
                        return false;
                    }
                }
                j = j + 1;
            }
            i = i + 1;
        }
        true
    }

    /// The symbols of the edges that leave members of `src`, each once
    /// (epsilon included, when such an edge carries it).
    pub fn next_moves(&self, src: &NodeGroup) -> (r: Vec<PrettyTransition>)
        requires
            self.graph_wf(),
            src@.len() == self.node_count(),
        ensures
            r@.no_duplicates(),
            forall|t: PrettyTransition| r@.contains(t) <==> in_alphabet(self.edges(), src@, t),
    {
        let ghost es = self.edges();
        let n = store_nodes(&self.graph);
        let m = store_edge_count(&self.graph);
        let mut out: Vec<PrettyTransition> = Vec::new();
        let mut i: usize = 0;
        while i < m
            invariant
                self.graph_wf(),
                es == self.edges(),
                n == self.node_count(),
                m == es.len(),
                src@.len() == n,
                i <= m,
                out@.no_duplicates(),
                forall|t: PrettyTransition| out@.contains(t) <==> exists|e: int|
                    0 <= e < i && es[e].0 < n && #[trigger] src@[es[e].0 as int] && es[e].2 == t,
            decreases m - i,
        {
            let (a, _b) = store_endpoints(&self.graph, i);
            let t = store_symbol(&self.graph, i);
            assert(es[i as int].0 < n);
            let ghost out0 = out@;
            if src[a] {
                let mut found = false;
                let mut k: usize = 0;
                while k < out.len()
                    invariant
                        k <= out@.len(),
                        found <==> exists|x: int| 0 <= x < k && out@[x] == t,
                    decreases out@.len() - k,
                {
                    if out[k] == t {
                        found = true;
                    }
                    k = k + 1;
                }
                if !found {
                    out.push(t);
                    assert forall|x: int, y: int| 0 <= x < y < out@.len() implies out@[x] != out@[y] by {
                        if y == out@.len() - 1 {
                            assert(out0[x] == out@[x]);
                        } else {
                            assert(out0[x] == out@[x] && out0[y] == out@[y]);
                        }
                    }
                }
            }
            assert(out@ == out0 || (out@ == out0.push(t) && src@[a as int]));
            assert forall|u: PrettyTransition| out@.contains(u) <==> exists|e: int|
                0 <= e < i + 1 && es[e].0 < n && #[trigger] src@[es[e].0 as int] && es[e].2 == u by {
                if exists|e: int| 0 <= e < i + 1 && es[e].0 < n && #[trigger] src@[es[e].0 as int] && es[e].2 == u {
                    let e = choose|e: int| 0 <= e < i + 1 && es[e].0 < n && #[trigger] src@[es[e].0 as int] && es[e].2 == u;
                    if e < i {
                        assert(src@[es[e].0 as int]);
                    }
                }
                if out0.contains(u) {
                    let x = choose|x: int| 0 <= x < out0.len() && out0[x] == u;
                    assert(out@[x] == u);
                    let e = choose|e: int| 0 <= e < i && es[e].0 < n && #[trigger] src@[es[e].0 as int] && es[e].2 == u;
                    assert(src@[es[e].0 as int]);
                }
                if out@.contains(u) && !out0.contains(u) {
                    let x = choose|x: int| 0 <= x < out@.len() && out@[x] == u;
                    if x < out0.len() {
                        assert(out0[x] == u);
                    }
                    assert(u == t);
                    assert(src@[es[i as int].0 as int]);
                }
                if src@[a as int] && u == t {
                    assert(out@.contains(t)) by {
                        if out@ == out0 {
                            let x = choose|x: int| 0 <= x < out0.len() && out0[x] == t;
                            assert(out@[x] == t);
                        } else {
                            assert(out@[out0.len() as int] == t);
                        }
                    }
                }
            }
            i = i + 1;
        }
        assert forall|u: PrettyTransition| out@.contains(u) <==> in_alphabet(es, src@, u) by {
            if in_alphabet(es, src@, u) {
                let e = choose|e: int| 0 <= e < es.len() && es[e].0 < src@.len() && #[trigger] src@[es[e].0 as int] && es[e].2 == u;
                assert(src@[es[e].0 as int]);
            }
            if out@.contains(u) {
                let e = choose|e: int| 0 <= e < m && es[e].0 < n && #[trigger] src@[es[e].0 as int] && es[e].2 == u;
                assert(src@[es[e].0 as int]);
            }
        }
        out
    }
}

/// Where a node is final iff its label is in `fl`, the final labels are the
/// node labels that `fl` holds.
proof fn lemma_final_labels_from_flags(d: FiniteAutomata, fl: Set<Set<Seq<char>>>)
    requires
        d.fin@.len() == d.labels@.len(),
        forall|j: int| 0 <= j < d.fin@.len() ==> (#[trigger] d.fin@[j] <==> fl.contains(d.labels@[j]@)),
    ensures
        forall|l: Set<Seq<char>>| d.final_labels().contains(l) <==> fl.contains(l) && d.node_labels().contains(l),
{
    assert forall|l: Set<Seq<char>>| d.final_labels().contains(l) <==> fl.contains(l) && d.node_labels().contains(l) by {
        if d.final_labels().contains(l) {
            let j = choose|j: int| 0 <= j < d.fin@.len() && #[trigger] d.fin@[j] && d.labels@[j]@ == l;
            assert(d.labels@[j]@ == l);
        }
        if fl.contains(l) && d.node_labels().contains(l) {
            let j = choose|j: int| 0 <= j < d.labels@.len() && (#[trigger] d.labels@[j])@ == l;
            assert(d.fin@[j]);
        }
    }
}

/// Subset construction depends on its input alone, not on the order in
/// which groups are taken from the worklist: any two automata that are what
/// it makes of `a` have the same node labels, the same labelled edges, the
/// same start label and the same final labels.
pub proof fn lemma_to_dfa_schedule_invariant(a: FiniteAutomata, d1: FiniteAutomata, d2: FiniteAutomata)
    requires
        a.wf(),
        FiniteAutomata::derived_from(a, d1),
        FiniteAutomata::derived_from(a, d2),
    ensures
        d1.node_labels() == d2.node_labels(),
        d1.label_edges() == d2.label_edges(),
        d1.labels@[d1.start as int]@ == d2.labels@[d2.start as int]@,
        d1.final_labels() == d2.final_labels(),
{
    let es = a.edges();
    let n = a.node_count();
    let s0 = singleton(n, a.start as nat);
    let sg1 = choose|sg: Seq<bool>|
        #[trigger] is_closure_of(es, s0, sg) && d1.labels@[d1.start as int]@ == group_label(a.labels@, sg)
            && d1.label_edges() == dfa_edges(es, a.labels@, n, dfa_groups(es, n, sg))
            && d1.node_labels() == dfa_labels(a.labels@, dfa_groups(es, n, sg))
            && forall|j: int|
            0 <= j < d1.fin@.len() ==> (#[trigger] d1.fin@[j] <==> dfa_final_labels(a.labels@, a.fin@, dfa_groups(es, n, sg)).contains(
                d1.labels@[j]@,
            ));
    let sg2 = choose|sg: Seq<bool>|
        #[trigger] is_closure_of(es, s0, sg) && d2.labels@[d2.start as int]@ == group_label(a.labels@, sg)
            && d2.label_edges() == dfa_edges(es, a.labels@, n, dfa_groups(es, n, sg))
            && d2.node_labels() == dfa_labels(a.labels@, dfa_groups(es, n, sg))
            && forall|j: int|
            0 <= j < d2.fin@.len() ==> (#[trigger] d2.fin@[j] <==> dfa_final_labels(a.labels@, a.fin@, dfa_groups(es, n, sg)).contains(
                d2.labels@[j]@,
            ));
    lemma_closure_unique(es, s0, sg1, sg2);
    let fl = dfa_final_labels(a.labels@, a.fin@, dfa_groups(es, n, sg1));
    lemma_final_labels_from_flags(d1, fl);
    lemma_final_labels_from_flags(d2, fl);
    assert(d1.final_labels() =~= d2.final_labels());
}

} // verus!
