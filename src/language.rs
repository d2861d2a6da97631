use vstd::prelude::*;
use crate::finite_automata::{
    dfa_edges, dfa_final_labels, dfa_groups, dfa_labels, dfa_step, eps, eps_closed, eps_iter,
    group_label, in_alphabet, is_closure_of, is_deterministic, labels_separate,
    lemma_closed_fixed, lemma_closure_unique, lemma_group_label_injective, lemma_nfalse_grows,
    meets, nfalse, singleton, step, step_closed, union, EdgeSeq,
    FiniteAutomata, LabelTriple,
};
use crate::pretty_print::{PrettyState, PrettyTransition, Symbol};

verus! {

/// The epsilon-closure of `g`, as a function of `g`.
pub open spec fn closure(es: EdgeSeq, g: Seq<bool>) -> Seq<bool> {
    choose|r: Seq<bool>| is_closure_of(es, g, r)
}

proof fn lemma_closure_exists_from(es: EdgeSeq, g: Seq<bool>, k: nat)
    ensures
        exists|r: Seq<bool>| is_closure_of(es, g, r),
    decreases nfalse(eps_iter(es, g, k)),
{
    let c = eps_iter(es, g, k);
    if eps_closed(es, c) {
        assert(is_closure_of(es, g, c));
    } else {
        let i = choose|i: int|
            !(0 <= i < es.len() && es[i].2 == eps() && es[i].0 < c.len() && es[i].1 < c.len()
                && #[trigger] c[es[i].0 as int] ==> c[es[i].1 as int]);
        let nx = eps_iter(es, g, k + 1);
        assert(nx == union(c, step(es, c, eps())));
        assert(step(es, c, eps())[es[i].1 as int]);
        lemma_nfalse_grows(c, nx, es[i].1 as int);
        lemma_closure_exists_from(es, g, k + 1);
    }
}

/// Every set has an epsilon-closure.
pub proof fn lemma_closure_exists(es: EdgeSeq, g: Seq<bool>)
    ensures
        is_closure_of(es, g, closure(es, g)),
{
    lemma_closure_exists_from(es, g, 0);
}

/// The nodes that can be current after reading `w` from the nodes of `g`:
/// each character follows the edges that carry it, then epsilon edges.
pub open spec fn nfa_after(es: EdgeSeq, g: Seq<bool>, w: Seq<char>) -> Seq<bool>
    decreases w.len(),
{
    if w.len() == 0 {
        g
    } else {
        nfa_after(es, closure(es, step(es, g, PrettyTransition(Symbol::Char(w[0])))), w.drop_first())
    }
}

/// `a` accepts `w`: reading it from the epsilon-closure of the start can
/// end on a final node.
pub open spec fn nfa_accepts(a: FiniteAutomata, w: Seq<char>) -> bool {
    meets(nfa_after(a.edges(), closure(a.edges(), singleton(a.node_count(), a.start as nat)), w), a.fin@)
}

/// The node of `d` reached from node `j` by following, for each character
/// of `w`, an edge that carries it; `None` where no such edge leaves.
pub open spec fn dfa_after(d: FiniteAutomata, j: nat, w: Seq<char>) -> Option<nat>
    decreases w.len(),
{
    if w.len() == 0 {
        Some(j)
    } else if exists|i: int|
        0 <= i < d.edges().len() && (#[trigger] d.edges()[i]).0 == j && d.edges()[i].2 == PrettyTransition(
            Symbol::Char(w[0]),
        ) {
        let i = choose|i: int|
            0 <= i < d.edges().len() && (#[trigger] d.edges()[i]).0 == j && d.edges()[i].2 == PrettyTransition(
                Symbol::Char(w[0]),
            );
        dfa_after(d, d.edges()[i].1, w.drop_first())
    } else {
        None
    }
}

/// `d` accepts `w`: following edges from the start ends on a final node.
pub open spec fn dfa_accepts(d: FiniteAutomata, w: Seq<char>) -> bool {
    match dfa_after(d, d.start as nat, w) {
        Some(j) => j < d.fin@.len() && d.fin@[j as int],
        None => false,
    }
}

proof fn lemma_iter_len(es: EdgeSeq, g: Seq<bool>, k: nat)
    ensures
        eps_iter(es, g, k).len() == g.len(),
    decreases k,
{
    if k > 0 {
        lemma_iter_len(es, g, (k - 1) as nat);
    }
}

proof fn lemma_groups_len(es: EdgeSeq, n: nat, sg: Seq<bool>, g: Seq<bool>)
    requires
        sg.len() == n,
        dfa_groups(es, n, sg).contains(g),
    ensures
        g.len() == n,
{
    let x = Set::new(|h: Seq<bool>| h.len() == n);
    assert forall|h: Seq<bool>, s: PrettyTransition, tgt: Seq<bool>|
        x.contains(h) && h.len() == n && #[trigger] dfa_step(es, h, s, tgt) implies x.contains(tgt) by {
        let k = choose|k: nat| tgt == eps_iter(es, step(es, h, s), k) && eps_closed(es, tgt);
        lemma_iter_len(es, step(es, h, s), k);
    }
    assert(step_closed(es, n, sg, x));
}

proof fn lemma_empty_stays(es: EdgeSeq, g: Seq<bool>, w: Seq<char>)
    requires
        forall|j: int| 0 <= j < g.len() ==> !g[j],
    ensures
        forall|j: int| 0 <= j < nfa_after(es, g, w).len() ==> !(#[trigger] nfa_after(es, g, w)[j]),
    decreases w.len(),
{
    if w.len() > 0 {
        let t = PrettyTransition(Symbol::Char(w[0]));
        let s = step(es, g, t);
        assert forall|j: int| 0 <= j < s.len() implies !s[j] by {
            if s[j] {
                let i = choose|i: int|
                    0 <= i < es.len() && es[i].2 == t && es[i].1 == j && es[i].0 < g.len() && #[trigger] g[es[i].0 as int];
                assert(g[es[i].0 as int]);
            }
        }
        assert(eps_closed(es, s));
        lemma_closed_fixed(es, s, 0);
        assert(is_closure_of(es, s, s));
        lemma_closure_exists(es, s);
        lemma_closure_unique(es, s, s, closure(es, s));
        assert(closure(es, s) == s);
        assert(nfa_after(es, g, w) == nfa_after(es, s, w.drop_first()));
        lemma_empty_stays(es, s, w.drop_first());
    }
}

/// Ends on a final node of `d`.
pub open spec fn ends_final(d: FiniteAutomata, r: Option<nat>) -> bool {
    match r {
        Some(x) => x < d.fin@.len() && d.fin@[x as int],
        None => false,
    }
}

proof fn lemma_run(a: FiniteAutomata, d: FiniteAutomata, sg: Seq<bool>, g: Seq<bool>, j: nat, w: Seq<char>)
    requires
        a.wf(),
        d.wf(),
        labels_tell_apart(a),
        is_deterministic(d.edges()),
        is_closure_of(a.edges(), singleton(a.node_count(), a.start as nat), sg),
        sg.len() == a.node_count(),
        d.label_edges() == dfa_edges(a.edges(), a.labels@, a.node_count(), dfa_groups(a.edges(), a.node_count(), sg)),
        forall|x: int|
            0 <= x < d.fin@.len() ==> (#[trigger] d.fin@[x] <==> dfa_final_labels(
                a.labels@,
                a.fin@,
                dfa_groups(a.edges(), a.node_count(), sg),
            ).contains(d.labels@[x]@)),
        dfa_groups(a.edges(), a.node_count(), sg).contains(g),
        j < d.labels@.len(),
        d.labels@[j as int]@ == group_label(a.labels@, g),
    ensures
        ends_final(d, dfa_after(d, j, w)) == meets(nfa_after(a.edges(), g, w), a.fin@),
    decreases w.len(),
{
    let es = a.edges();
    let n = a.node_count();
    let labels = a.labels@;
    let dd = dfa_groups(es, n, sg);
    lemma_groups_len(es, n, sg, g);
    if w.len() == 0 {
        if d.fin@[j as int] {
            let g2 = choose|g2: Seq<bool>| #[trigger] dd.contains(g2) && meets(g2, a.fin@) && d.labels@[j as int]@ == group_label(labels, g2);
            assert(dd.contains(g2) && dd.contains(g));
        }
        if meets(g, a.fin@) {
            assert(dfa_final_labels(labels, a.fin@, dd).contains(d.labels@[j as int]@));
        }
    } else {
        let sym = PrettyTransition(Symbol::Char(w[0]));
        let st = step(es, g, sym);
        lemma_closure_exists(es, st);
        let t = closure(es, st);
        assert(nfa_after(es, g, w) == nfa_after(es, t, w.drop_first()));
        if in_alphabet(es, g, sym) {
            assert(dfa_step(es, g, sym, t));
            let x: LabelTriple = (group_label(labels, g), sym, group_label(labels, t));
            assert(dd.contains(g) && g.len() == n && dfa_step(es, g, x.1, t) && x.0 == group_label(labels, g)
                && x.2 == group_label(labels, t));
            assert(dfa_edges(es, labels, n, dd).contains(x));
            assert(d.label_edges().contains(x));
            let i = choose|i: int|
                0 <= i < d.edges().len() && d.labels@[(#[trigger] d.edges()[i]).0 as int]@ == x.0
                    && d.edges()[i].2 == x.1 && d.labels@[d.edges()[i].1 as int]@ == x.2;
            assert(d.edges()[i].0 == j);
            let i2 = choose|i2: int|
                0 <= i2 < d.edges().len() && (#[trigger] d.edges()[i2]).0 == j && d.edges()[i2].2 == sym;
            assert(i2 == i);
            assert(dfa_after(d, j, w) == dfa_after(d, d.edges()[i].1, w.drop_first()));
            assert forall|xs: Set<Seq<bool>>| #[trigger] step_closed(es, n, sg, xs) implies xs.contains(t) by {
                assert(xs.contains(g));
            }
            lemma_run(a, d, sg, t, d.edges()[i].1, w.drop_first());
        } else {
            if exists|i: int| 0 <= i < d.edges().len() && (#[trigger] d.edges()[i]).0 == j && d.edges()[i].2 == sym {
                let i = choose|i: int| 0 <= i < d.edges().len() && (#[trigger] d.edges()[i]).0 == j && d.edges()[i].2 == sym;
                let x: LabelTriple = (d.labels@[j as int]@, sym, d.labels@[d.edges()[i].1 as int]@);
                assert(d.label_edges().contains(x));
                let (g2, t2) = choose|g2: Seq<bool>, t2: Seq<bool>|
                    dd.contains(g2) && g2.len() == n && #[trigger] dfa_step(es, g2, x.1, t2) && x.0 == group_label(labels, g2)
                        && x.2 == group_label(labels, t2);
                assert(dd.contains(g2) && dd.contains(g));
            }
            assert forall|y: int| 0 <= y < st.len() implies !st[y] by {
                if st[y] {
                    let e = choose|e: int|
                        0 <= e < es.len() && es[e].2 == sym && es[e].1 == y && es[e].0 < g.len() && #[trigger] g[es[e].0 as int];
                    assert(g[es[e].0 as int]);
                }
            }
            assert(eps_closed(es, st));
            lemma_closed_fixed(es, st, 0);
            assert(is_closure_of(es, st, st));
            lemma_closure_unique(es, st, st, t);
            lemma_empty_stays(es, st, w.drop_first());
            assert(!meets(nfa_after(es, t, w.drop_first()), a.fin@));
        }
    }
}

/// Subset construction keeps the language: the result accepts exactly the
/// words that `a` accepts. This holds wherever the groups that it reaches
/// have distinct labels, so that distinct groups stay distinct nodes.
pub proof fn lemma_to_dfa_language(a: FiniteAutomata, d: FiniteAutomata, w: Seq<char>)
    requires
        a.wf(),
        labels_tell_apart(a),
        FiniteAutomata::derived_from(a, d),
    ensures
        dfa_accepts(d, w) == nfa_accepts(a, w),
{
    let es = a.edges();
    let n = a.node_count();
    let s0 = singleton(n, a.start as nat);
    lemma_to_dfa_deterministic(a, d);
    let sg = choose|sg: Seq<bool>|
        #[trigger] is_closure_of(es, s0, sg) && d.labels@[d.start as int]@ == group_label(a.labels@, sg)
            && d.label_edges() == dfa_edges(es, a.labels@, n, dfa_groups(es, n, sg))
            && d.node_labels() == dfa_labels(a.labels@, dfa_groups(es, n, sg))
            && forall|j: int|
            0 <= j < d.fin@.len() ==> (#[trigger] d.fin@[j] <==> dfa_final_labels(a.labels@, a.fin@, dfa_groups(es, n, sg)).contains(
                d.labels@[j]@,
            ));
    lemma_closure_exists(es, s0);
    lemma_closure_unique(es, s0, sg, closure(es, s0));
    let k = choose|k: nat| sg == eps_iter(es, s0, k) && eps_closed(es, sg);
    lemma_iter_len(es, s0, k);
    lemma_run(a, d, sg, sg, d.start as nat, w);
}

/// The groups that subset construction reaches from the start of `a` have
/// pairwise distinct labels, so each is a node of its own in the result.
pub open spec fn labels_tell_apart(a: FiniteAutomata) -> bool {
    forall|sg: Seq<bool>, g1: Seq<bool>, g2: Seq<bool>|
        #[trigger] is_closure_of(a.edges(), singleton(a.node_count(), a.start as nat), sg)
            && #[trigger] dfa_groups(a.edges(), a.node_count(), sg).contains(g1)
            && #[trigger] dfa_groups(a.edges(), a.node_count(), sg).contains(g2)
            && group_label(a.labels@, g1) == group_label(a.labels@, g2) ==> g1 == g2
}

/// Nonempty, pairwise disjoint labels tell all groups apart.
pub proof fn lemma_separate_labels_tell_apart(a: FiniteAutomata)
    requires
        a.wf(),
        labels_separate(a.labels@),
    ensures
        labels_tell_apart(a),
{
    let es = a.edges();
    let n = a.node_count();
    assert forall|sg: Seq<bool>, g1: Seq<bool>, g2: Seq<bool>|
        #[trigger] is_closure_of(es, singleton(n, a.start as nat), sg)
            && #[trigger] dfa_groups(es, n, sg).contains(g1)
            && #[trigger] dfa_groups(es, n, sg).contains(g2)
            && group_label(a.labels@, g1) == group_label(a.labels@, g2) implies g1 == g2 by {
        let k = choose|k: nat| sg == eps_iter(es, singleton(n, a.start as nat), k) && eps_closed(es, sg);
        lemma_iter_len(es, singleton(n, a.start as nat), k);
        lemma_groups_len(es, n, sg, g1);
        lemma_groups_len(es, n, sg, g2);
        lemma_group_label_injective(a.labels@, g1, g2);
    }
}

/// Where no edge carries epsilon, a set of nodes is its own closure.
proof fn lemma_no_eps_closure(es: EdgeSeq, g: Seq<bool>, c: Seq<bool>)
    requires
        forall|i: int| 0 <= i < es.len() ==> (#[trigger] es[i]).2 != eps(),
        is_closure_of(es, g, c),
    ensures
        c == g,
{
    assert(eps_closed(es, g));
    lemma_closed_fixed(es, g, 0);
    lemma_closure_unique(es, g, g, c);
}

/// In a deterministic automaton every group that subset construction
/// reaches holds a single node.
proof fn lemma_deterministic_singletons(a: FiniteAutomata, sg: Seq<bool>, g: Seq<bool>)
    requires
        a.wf(),
        is_deterministic(a.edges()),
        is_closure_of(a.edges(), singleton(a.node_count(), a.start as nat), sg),
        dfa_groups(a.edges(), a.node_count(), sg).contains(g),
    ensures
        exists|j: nat| j < a.node_count() && g == #[trigger] singleton(a.node_count(), j),
{
    let es = a.edges();
    let n = a.node_count();
    let x = Set::new(|h: Seq<bool>| exists|j: nat| j < n && h == #[trigger] singleton(n, j));
    lemma_no_eps_closure(es, singleton(n, a.start as nat), sg);
    assert(x.contains(sg));
    assert forall|h: Seq<bool>, s: PrettyTransition, tgt: Seq<bool>|
        x.contains(h) && h.len() == n && #[trigger] dfa_step(es, h, s, tgt) implies x.contains(tgt) by {
        let j = choose|j: nat| j < n && h == #[trigger] singleton(n, j);
        let e = choose|e: int| 0 <= e < es.len() && es[e].0 < h.len() && #[trigger] h[es[e].0 as int] && es[e].2 == s;
        assert(es[e].0 == j);
        let st = step(es, h, s);
        assert(st =~= singleton(n, es[e].1)) by {
            assert forall|y: int| 0 <= y < n implies st[y] == (y == es[e].1) by {
                if st[y] {
                    let i = choose|i: int|
                        0 <= i < es.len() && es[i].2 == s && es[i].1 == y && es[i].0 < h.len() && #[trigger] h[es[i].0 as int];
                    assert(h[es[i].0 as int]);
                    if i != e {
                        assert(es[i].0 == es[e].0);
                    }
                }
                if y == es[e].1 {
                    assert(h[es[e].0 as int]);
                }
            }
        }
        lemma_no_eps_closure(es, st, tgt);
        assert(es[e].1 < n);
    }
    assert(step_closed(es, n, sg, x));
}

/// A deterministic automaton's groups have distinct labels whatever its
/// labels are: each group is one node, and nodes have distinct labels.
pub proof fn lemma_deterministic_tells_apart(a: FiniteAutomata)
    requires
        a.wf(),
        is_deterministic(a.edges()),
    ensures
        labels_tell_apart(a),
{
    let es = a.edges();
    let n = a.node_count();
    assert forall|sg: Seq<bool>, g1: Seq<bool>, g2: Seq<bool>|
        #[trigger] is_closure_of(es, singleton(n, a.start as nat), sg)
            && #[trigger] dfa_groups(es, n, sg).contains(g1)
            && #[trigger] dfa_groups(es, n, sg).contains(g2)
            && group_label(a.labels@, g1) == group_label(a.labels@, g2) implies g1 == g2 by {
        lemma_deterministic_singletons(a, sg, g1);
        lemma_deterministic_singletons(a, sg, g2);
        let j1 = choose|j: nat| j < n && g1 == #[trigger] singleton(n, j);
        let j2 = choose|j: nat| j < n && g2 == #[trigger] singleton(n, j);
        lemma_singleton_label(a.labels@, n, j1);
        lemma_singleton_label(a.labels@, n, j2);
        if j1 != j2 {
            assert(a.labels@[j1 as int]@ != a.labels@[j2 as int]@);
        }
    }
}

proof fn lemma_singleton_label(labels: Seq<PrettyState>, n: nat, j: nat)
    requires
        j < n,
        labels.len() == n,
    ensures
        group_label(labels, singleton(n, j)) == labels[j as int]@,
{
    let g = singleton(n, j);
    assert forall|t: Seq<char>| group_label(labels, g).contains(t) <==> labels[j as int]@.contains(t) by {
        if labels[j as int]@.contains(t) {
            assert(g[j as int]);
        }
    }
    assert(group_label(labels, g) =~= labels[j as int]@);
}

/// Subset construction yields a deterministic automaton: no edge carries
/// epsilon and no node has two outgoing edges with the same symbol. This
/// holds wherever the groups it reaches have distinct labels; otherwise two
/// groups may share a label and so one node.
pub proof fn lemma_to_dfa_deterministic(a: FiniteAutomata, d: FiniteAutomata)
    requires
        a.wf(),
        labels_tell_apart(a),
        FiniteAutomata::derived_from(a, d),
    ensures
        is_deterministic(d.edges()),
{
    let es = a.edges();
    let n = a.node_count();
    let labels = a.labels@;
    let s0 = singleton(n, a.start as nat);
    let sg = choose|sg: Seq<bool>|
        #[trigger] is_closure_of(es, s0, sg) && d.labels@[d.start as int]@ == group_label(labels, sg)
            && d.label_edges() == dfa_edges(es, labels, n, dfa_groups(es, n, sg))
            && d.node_labels() == dfa_labels(labels, dfa_groups(es, n, sg))
            && forall|j: int|
            0 <= j < d.fin@.len() ==> (#[trigger] d.fin@[j] <==> dfa_final_labels(labels, a.fin@, dfa_groups(es, n, sg)).contains(
                d.labels@[j]@,
            ));
    let dd = dfa_groups(es, n, sg);
    let des = d.edges();
    assert forall|i: int, j: int|
        0 <= i < des.len() && 0 <= j < des.len() && i != j && (#[trigger] des[i]).0 == (#[trigger] des[j]).0
            implies des[i].2 != des[j].2 by {
        if des[i].2 == des[j].2 {
            let xi = (d.labels@[des[i].0 as int]@, des[i].2, d.labels@[des[i].1 as int]@);
            let xj = (d.labels@[des[j].0 as int]@, des[j].2, d.labels@[des[j].1 as int]@);
            assert(d.label_edges().contains(xi));
            assert(d.label_edges().contains(xj));
            let (g1, t1) = choose|g: Seq<bool>, tgt: Seq<bool>|
                dd.contains(g) && g.len() == n && #[trigger] dfa_step(es, g, xi.1, tgt) && xi.0 == group_label(labels, g)
                    && xi.2 == group_label(labels, tgt);
            let (g2, t2) = choose|g: Seq<bool>, tgt: Seq<bool>|
                dd.contains(g) && g.len() == n && #[trigger] dfa_step(es, g, xj.1, tgt) && xj.0 == group_label(labels, g)
                    && xj.2 == group_label(labels, tgt);
            assert(dd.contains(g1) && dd.contains(g2));
            assert(g1 == g2);
            lemma_closure_unique(es, step(es, g1, des[i].2), t1, t2);
            if des[i].1 != des[j].1 {
                assert(d.labels@[des[i].1 as int]@ != d.labels@[des[j].1 as int]@);
            }
            assert(des[i] == des[j]);
        }
    }
}

/// Determinizing an automaton that is already deterministic, whatever its
/// labels, gives a deterministic automaton with the same language.
pub proof fn lemma_to_dfa_of_deterministic(a: FiniteAutomata, d: FiniteAutomata, w: Seq<char>)
    requires
        a.wf(),
        is_deterministic(a.edges()),
        FiniteAutomata::derived_from(a, d),
    ensures
        is_deterministic(d.edges()),
        dfa_accepts(d, w) == nfa_accepts(a, w),
{
    lemma_deterministic_tells_apart(a);
    lemma_to_dfa_deterministic(a, d);
    lemma_to_dfa_language(a, d, w);
}

} // verus!
