use finite_automata::{FiniteAutomata, MissingStateError, PrettyState, PrettyTransition, Symbol};

const E: Symbol = Symbol::Epsilon;

fn c(ch: char) -> Symbol {
    Symbol::Char(ch)
}

fn label(tags: &[&str]) -> PrettyState {
    PrettyState(tags.iter().map(|t| t.to_string()).collect())
}

/// Runs a deterministic automaton on `input`.
fn accepts(d: &FiniteAutomata, input: &str) -> bool {
    let mut cur = d.start;
    for ch in input.chars() {
        let mut next = None;
        for i in 0..d.num_edges() {
            let (a, b) = { let e = d.edge(i); (e.0, e.1) };
            if a == cur && d.edge(i).2 == PrettyTransition(Symbol::Char(ch)) {
                next = Some(b);
                break;
            }
        }
        match next {
            Some(b) => cur = b,
            None => return false,
        }
    }
    d.fin[cur]
}

fn node_of(a: &FiniteAutomata, tags: &[&str]) -> usize {
    let l = label(tags);
    a.labels.iter().position(|x| x.same_as(&l)).expect("node")
}

fn group(a: &FiniteAutomata, tags: &[&[&str]]) -> Vec<bool> {
    let mut g = vec![false; a.num_nodes()];
    for t in tags {
        g[node_of(a, t)] = true;
    }
    g
}

fn scenario_a() -> FiniteAutomata {
    let edges = vec![
        ("s0", E, "s1"),
        ("s1", c('a'), "s1"),
        ("s1", c('a'), "s2"),
        ("s1", c('b'), "s1"),
        ("s2", c('b'), "s3"),
        ("s3", c('b'), "s4"),
    ];
    FiniteAutomata::from_slice(&edges, "s0", &vec!["s4"]).unwrap()
}

#[test]
fn check1() {
    let nfa = scenario_a();
    assert!(!nfa.is_dfa());
    let dfa = nfa.to_dfa().unwrap();
    assert!(dfa.is_dfa());
    assert!(accepts(&dfa, "aabb"));
    assert!(!accepts(&dfa, "ab"));
    assert!(accepts(&dfa, "abb"));
    assert!(accepts(&dfa, "ababb"));
    assert!(!accepts(&dfa, ""));
    assert!(!accepts(&dfa, "bbb"));
    assert!(dfa.labels[dfa.start].same_as(&label(&["s0", "s1"])));
}

#[test]
fn check2() {
    let edges = vec![
        ("q0", c('a'), "q1"), ("q1", E, "q2"),
        ("q2", E, "q3"), ("q2", E, "q9"),
        ("q3", E, "q4"), ("q3", E, "q6"),
        ("q4", c('b'), "q5"), ("q6", c('c'), "q7"),
        ("q5", E, "q8"), ("q7", E, "q8"),
        ("q8", E, "q3"), ("q8", E, "q9"),
    ];
    let nfa = FiniteAutomata::from_slice(&edges, "q0", &vec!["q9"]).unwrap();
    let dfa = nfa.to_dfa().unwrap();
    assert!(dfa.is_dfa());
    assert!(accepts(&dfa, "a"));
    assert!(accepts(&dfa, "abcb"));
    assert!(!accepts(&dfa, ""));
    assert!(!accepts(&dfa, "b"));
    assert!(!accepts(&dfa, "aa"));
}

#[test]
fn scenario_b_determinized() {
    let edges = vec![
        ("X", c('a'), "X"),
        ("X", c('b'), "X"),
        ("X", c('a'), "Y"),
        ("X", c('a'), "Z"),
        ("Y", c('b'), "Y"),
        ("Z", c('c'), "Z"),
    ];
    let nfa = FiniteAutomata::from_slice(&edges, "X", &vec!["Y", "Z"]).unwrap();
    assert!(!nfa.is_dfa());
    let dfa = nfa.to_dfa().unwrap();
    assert!(dfa.is_dfa());
    let m = dfa.num_edges();
    for i in 0..m {
        for j in 0..m {
            if i != j {
                let (a, _) = { let e = dfa.edge(i); (e.0, e.1) };
                let (b, _) = { let e = dfa.edge(j); (e.0, e.1) };
                assert!(!(a == b && dfa.edge(i).2 == dfa.edge(j).2));
            }
        }
    }
    assert!(accepts(&dfa, "a"));
    assert!(accepts(&dfa, "ac"));
    assert!(!accepts(&dfa, "b"));
}

#[test]
fn single_final_start_without_transitions() {
    let nfa = FiniteAutomata::with_states(&vec![label(&["s"])], &vec![], &label(&["s"]), &vec![label(&["s"])])
        .unwrap();
    let dfa = nfa.to_dfa().unwrap();
    assert_eq!(dfa.num_nodes(), 1);
    assert_eq!(dfa.num_edges(), 0);
    assert_eq!(dfa.start, 0);
    assert!(dfa.fin[0]);
    assert!(dfa.is_dfa());
}

#[test]
fn deterministic_source_stays_equivalent() {
    let edges = vec![("p", c('a'), "q"), ("q", c('b'), "p")];
    let a = FiniteAutomata::from_slice(&edges, "p", &vec!["q"]).unwrap();
    assert!(a.is_dfa());
    let d = a.to_dfa().unwrap();
    assert!(d.is_dfa());
    for w in ["", "a", "ab", "aba", "b", "aa"] {
        let expected = w.len() % 2 == 1 && w.chars().enumerate().all(|(i, ch)| ch == if i % 2 == 0 { 'a' } else { 'b' });
        assert_eq!(accepts(&d, w), expected, "{}", w);
    }
    assert_eq!(d.num_nodes(), 2);
}

#[test]
fn epsilon_closure_is_idempotent() {
    let a = scenario_a();
    let s = group(&a, &[&["s0"]]);
    let once = a.epsilon_closure(&s);
    assert_eq!(once, group(&a, &[&["s0"], &["s1"]]));
    assert_eq!(a.epsilon_closure(&once), once);
}

#[test]
fn epsilon_closure_follows_chains() {
    let edges = vec![("a", E, "b"), ("b", E, "c"), ("c", c('x'), "d"), ("d", E, "a")];
    let a = FiniteAutomata::from_slice(&edges, "a", &vec!["d"]).unwrap();
    let r = a.epsilon_closure(&group(&a, &[&["a"]]));
    assert_eq!(r, group(&a, &[&["a"], &["b"], &["c"]]));
    let r2 = a.epsilon_closure(&group(&a, &[&["d"]]));
    assert_eq!(r2, group(&a, &[&["a"], &["b"], &["c"], &["d"]]));
}

#[test]
fn reachable_and_next_moves() {
    let a = scenario_a();
    let g = group(&a, &[&["s1"]]);
    let r = a.reachable_states(&g, PrettyTransition(c('a')));
    assert_eq!(r, group(&a, &[&["s1"], &["s2"]]));
    let r = a.reachable_states(&g, PrettyTransition(E));
    assert_eq!(r, group(&a, &[]));
    let mut m = a.next_moves(&g);
    m.sort_by_key(|t| format!("{:?}", t));
    assert_eq!(m, vec![PrettyTransition(c('a')), PrettyTransition(c('b'))]);
    let m0 = a.next_moves(&group(&a, &[&["s0"]]));
    assert_eq!(m0, vec![PrettyTransition(E)]);
}

#[test]
fn duplicate_edges_and_nodes_are_merged() {
    let edges = vec![("p", c('a'), "q"), ("p", c('a'), "q"), ("q", c('a'), "p")];
    let a = FiniteAutomata::from_slice(&edges, "p", &vec!["q"]).unwrap();
    assert_eq!(a.num_nodes(), 2);
    assert_eq!(a.num_edges(), 2);
    let b = FiniteAutomata::new(
        &vec![(label(&["x", "y"]), PrettyTransition(c('a')), label(&["y", "x"]))],
        label(&["y", "x"]),
        vec![],
    )
    .unwrap();
    assert_eq!(b.num_nodes(), 1);
    assert_eq!(b.num_edges(), 1);
}

#[test]
fn missing_start_is_an_error() {
    let edges = vec![("p", c('a'), "q")];
    let r = FiniteAutomata::from_slice(&edges, "z", &vec!["q"]);
    assert!(matches!(r, Err(MissingStateError::Start)));
}

#[test]
fn missing_final_is_an_error() {
    let edges = vec![("p", c('a'), "q")];
    let r = FiniteAutomata::from_slice(&edges, "p", &vec!["q", "z"]);
    assert!(matches!(r, Err(MissingStateError::Final)));
}

#[test]
fn unreachable_nodes_are_dropped() {
    let edges = vec![("p", c('a'), "q"), ("u", c('b'), "q")];
    let a = FiniteAutomata::from_slice(&edges, "p", &vec!["q"]).unwrap();
    let d = a.to_dfa().unwrap();
    assert_eq!(d.num_nodes(), 2);
    for l in &d.labels {
        assert!(!l.contains_tag(&"u".to_string()));
    }
}

#[test]
fn group_labels_are_unions() {
    let a = scenario_a();
    let l = a.parse_states(&group(&a, &[&["s1"], &["s3"]]));
    assert!(l.same_as(&label(&["s3", "s1"])));
    assert!(!l.same_as(&label(&["s1"])));
}

#[test]
fn transition_text() {
    assert_eq!(PrettyTransition(c('a')).fmt(), "a");
    assert_eq!(PrettyTransition(E).fmt(), "\u{03B5}");
}

#[test]
fn node_lookup_by_label() {
    let a = scenario_a();
    assert!(a.node_idx(&label(&["s4"])).is_some());
    assert!(a.node_idx(&label(&["s9"])).is_none());
}

#[test]
fn label_text() {
    assert_eq!(label(&["s1", "s3"]).fmt(), "s1, s3");
    assert_eq!(label(&["b", "a"]).fmt(), "a, b");
    assert_eq!(label(&["q2", "q10", "q2", "q1"]).fmt(), "q1, q10, q2");
    assert_eq!(label(&["ab", "a", "b"]).fmt(), "a, ab, b");
    assert_eq!(label(&["q"]).fmt(), "q");
    assert_eq!(label(&[]).fmt(), "");
}

#[test]
fn derived_labels_are_group_unions() {
    let a = scenario_a();
    let d = a.to_dfa().unwrap();
    let mut names: Vec<String> = d
        .labels
        .iter()
        .map(|l| l.fmt())
        .collect();
    names.sort();
    assert_eq!(names, vec!["s0, s1", "s1", "s1, s2", "s1, s3", "s1, s4"]);
    assert_eq!(d.fin.iter().filter(|f| **f).count(), 1);
    assert!(d.fin[node_of(&d, &["s1", "s4"])]);
}

/// Runs the source automaton on `input` through its closure operations.
fn nfa_accepts(a: &FiniteAutomata, input: &str) -> bool {
    let mut start = vec![false; a.num_nodes()];
    start[a.start] = true;
    let mut cur = a.epsilon_closure(&start);
    for ch in input.chars() {
        let moved = a.reachable_states(&cur, PrettyTransition(Symbol::Char(ch)));
        cur = a.epsilon_closure(&moved);
    }
    cur.iter().zip(a.fin.iter()).any(|(x, f)| *x && *f)
}

#[test]
fn determinized_language_matches_source() {
    let a = scenario_a();
    let d = a.to_dfa().unwrap();
    let mut words = vec![String::new()];
    for _ in 0..6 {
        let mut next = vec![];
        for w in &words {
            for ch in ['a', 'b', 'c'] {
                next.push(format!("{}{}", w, ch));
            }
        }
        for w in &words {
            assert_eq!(accepts(&d, w), nfa_accepts(&a, w), "{}", w);
            let expected = w.ends_with("abb") && w.chars().all(|c| c == 'a' || c == 'b');
            assert_eq!(accepts(&d, w), expected, "{}", w);
        }
        words = next;
    }
}

#[test]
fn deterministic_source_with_overlapping_labels() {
    let p = label(&["x"]);
    let q = label(&["x", "y"]);
    let a = FiniteAutomata::new(
        &vec![
            (p.clone(), PrettyTransition(c('a')), q.clone()),
            (q.clone(), PrettyTransition(c('b')), p.clone()),
        ],
        p.clone(),
        vec![q.clone()],
    )
    .unwrap();
    assert!(a.is_dfa());
    let d = a.to_dfa().unwrap();
    assert!(d.is_dfa());
    assert_eq!(d.num_nodes(), 2);
    assert_eq!(d.num_edges(), 2);
    for w in ["", "a", "ab", "aba", "b", "aa"] {
        assert_eq!(accepts(&d, w), nfa_accepts(&a, w), "{}", w);
    }
}
