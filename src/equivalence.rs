use vstd::prelude::*;
use crate::dfa::{DFA, lemma_nothing_from_empty, marked};
use crate::efa::EFA;
use crate::graph::{Digraph, reach_in, reachable};
use crate::matcher::{
    EpsStep, StepAutomaton, direct_step, eps_reach, find_result, has_direct, layer, matches_prefix,
    next_symbol,
};
use crate::minimize::{dfa_find, minimizes};
use crate::regex_parser::{GenericRegexParser, compiles_to, is_determinization};
use crate::state_generator::State;
use crate::thompson::{lemma_thompson_unmixed, row_at, thompson_run};

verus! {

/// No state of `e` has both a move on a symbol and an epsilon move.
pub open spec fn efa_unmixed(e: &EFA) -> bool {
    forall|q: int, a: int, b: int|
        0 <= a < e.row(q).len() && 0 <= b < e.row(q).len() ==> !((#[trigger] e.row(q)[a]).0 is Some
            && (#[trigger] e.row(q)[b]).0 is None)
}

/// Where a search with `e` reports a match in `text`.
pub open spec fn efa_find(e: &EFA, text: Seq<char>) -> Option<nat> {
    find_result(|t: Seq<char>| matches_prefix(e, t), text)
}

proof fn lemma_reach_same<G1: Digraph, G2: Digraph>(g1: &G1, g2: &G2, seeds: Set<State>, v: State, k: nat)
    requires
        forall|u: State, w: State| #[trigger] g1.spec_edge(u, w) == g2.spec_edge(u, w),
    ensures
        reach_in(g1, seeds, v, k) == reach_in(g2, seeds, v, k),
    decreases k,
{
    if k > 0 {
        lemma_reach_same(g1, g2, seeds, v, (k - 1) as nat);
        assert forall|u: State| #[trigger] reach_in(g1, seeds, u, (k - 1) as nat) == reach_in(g2, seeds, u, (k - 1) as nat) by {
            lemma_reach_same(g1, g2, seeds, u, (k - 1) as nat);
        }
        if reach_in(g1, seeds, v, k) {
            if !reach_in(g1, seeds, v, (k - 1) as nat) {
                let u = choose|u: State| #[trigger] g1.spec_edge(u, v) && reach_in(g1, seeds, u, (k - 1) as nat);
                assert(g2.spec_edge(u, v));
                assert(reach_in(g2, seeds, u, (k - 1) as nat));
                assert(reach_in(g2, seeds, v, k));
            }
        }
        if reach_in(g2, seeds, v, k) {
            if !reach_in(g2, seeds, v, (k - 1) as nat) {
                let u = choose|u: State| #[trigger] g2.spec_edge(u, v) && reach_in(g2, seeds, u, (k - 1) as nat);
                assert(g1.spec_edge(u, v));
                assert(reach_in(g1, seeds, u, (k - 1) as nat));
                assert(reach_in(g1, seeds, v, k));
            }
        }
    }
}

/// Without mixed states, no epsilon move is ever blocked by the next
/// symbol.
pub proof fn lemma_unblocked(e: &EFA, seeds: Set<State>, blocked_by: Option<char>)
    requires
        efa_unmixed(e),
    ensures
        eps_reach(e, seeds, blocked_by) == eps_reach(e, seeds, None),
{
    let g1 = EpsStep { aut: e, blocked_by };
    let g2 = EpsStep { aut: e, blocked_by: None };
    assert forall|u: State, w: State| #[trigger] g1.spec_edge(u, w) == g2.spec_edge(u, w) by {
        if g2.spec_edge(u, w) {
            if let Some(c) = blocked_by {
                if has_direct(e, u, c) {
                    let t = choose|t: State| e.spec_direct(u, c, t);
                    let a = choose|a: int| 0 <= a < e.row(u as int).len() && e.row(u as int)[a] == (Some(c), t);
                    let b = choose|b: int| 0 <= b < e.row(u as int).len() && e.row(u as int)[b] == (None::<char>, w);
                    assert(!((e.row(u as int)[a]).0 is Some && (e.row(u as int)[b]).0 is None));
                }
            }
        }
    }
    assert forall|v: State| #[trigger] reachable(&g1, seeds, v) == reachable(&g2, seeds, v) by {
        if reachable(&g1, seeds, v) {
            let k = choose|k: nat| reach_in(&g1, seeds, v, k);
            lemma_reach_same(&g1, &g2, seeds, v, k);
        }
        if reachable(&g2, seeds, v) {
            let k = choose|k: nat| reach_in(&g2, seeds, v, k);
            lemma_reach_same(&g1, &g2, seeds, v, k);
        }
    }
    assert(eps_reach(e, seeds, blocked_by) =~= eps_reach(e, seeds, None));
}

proof fn lemma_empty_reach(e: &EFA)
    ensures
        eps_reach(e, Set::<State>::empty(), None) == Set::<State>::empty(),
{
    let g = EpsStep { aut: e, blocked_by: None };
    assert forall|v: State| !eps_reach(e, Set::<State>::empty(), None).contains(v) by {
        assert forall|k: nat| !reach_in(&g, Set::<State>::empty(), v, k) by {
            lemma_nothing_from_empty(&g, v, k);
        }
    }
    assert(eps_reach(e, Set::<State>::empty(), None) =~= Set::<State>::empty());
}

proof fn lemma_empty_layers(e: &EFA, t: Seq<char>, j: nat, i: nat)
    requires
        efa_unmixed(e),
        j <= i,
        layer(e, t, j) == Set::<State>::empty(),
    ensures
        layer(e, t, i) == Set::<State>::empty(),
    decreases i - j,
{
    if j < i {
        lemma_empty_layers(e, t, j, (i - 1) as nat);
        assert(direct_step(e, layer(e, t, (i - 1) as nat), t[i - 1]) =~= Set::<State>::empty());
        lemma_unblocked(e, Set::<State>::empty(), next_symbol(t, i));
        lemma_empty_reach(e);
    }
}

proof fn lemma_run_tracks_layers(e: &EFA, d: &DFA, sets: Seq<Seq<bool>>, t: Seq<char>, j: nat, q: State)
    requires
        e.wf(),
        efa_unmixed(e),
        DFA::is_subset_dfa(e, d, sets),
        j <= t.len(),
        q < d.n_states(),
        marked(sets[q as int]) == layer(e, t, j),
    ensures
        d.run_accepts(q, t.skip(j as int)) == exists|i: nat| j <= i <= t.len() && #[trigger] layer(e, t, i).contains(
            e.spec_end(),
        ),
    decreases t.len() - j,
{
    let end = e.end_state()->Some_0;
    assert(e.spec_end() == end);
    assert(d.is_accepting(q) <==> marked(sets[q as int]).contains(end));
    if d.is_accepting(q) {
        assert(layer(e, t, j).contains(e.spec_end()));
    } else if j == t.len() {
        assert forall|i: nat| j <= i <= t.len() implies !#[trigger] layer(e, t, i).contains(e.spec_end()) by {
            assert(i == j);
        }
    } else {
        let c = t[j as int];
        let rest = t.skip(j as int);
        assert(rest[0] == c);
        assert(rest.drop_first() =~= t.skip((j + 1) as int));
        lemma_unblocked(e, direct_step(e, layer(e, t, j), c), next_symbol(t, j + 1));
        assert(layer(e, t, j + 1) == eps_reach(e, direct_step(e, layer(e, t, j), c), None));
        match d.delta(q, c) {
            Some(p) => {
                assert(d.has_trans(q, c, p));
                let k = choose|k: int| 0 <= k < d.row(q as int).len() && d.row(q as int)[k] == (c, p);
                assert(d.row(q as int)[k].1 < d.n_states());
                lemma_run_tracks_layers(e, d, sets, t, j + 1, p);
                if exists|i: nat| j <= i <= t.len() && #[trigger] layer(e, t, i).contains(e.spec_end()) {
                    let i = choose|i: nat| j <= i <= t.len() && #[trigger] layer(e, t, i).contains(e.spec_end());
                    assert(i != j);
                    assert(j + 1 <= i <= t.len() && layer(e, t, i).contains(e.spec_end()));
                }
            },
            None => {
                assert(layer(e, t, j + 1) == Set::<State>::empty());
                assert forall|i: nat| j <= i <= t.len() implies !#[trigger] layer(e, t, i).contains(e.spec_end()) by {
                    if i > j {
                        lemma_empty_layers(e, t, j + 1, i);
                    }
                }
            },
        }
    }
}

/// The subset construction over an automaton that mixes no moves accepts
/// a prefix of exactly the texts that the automaton does.
pub proof fn lemma_determinization_agrees(e: &EFA, d: &DFA)
    requires
        e.wf(),
        efa_unmixed(e),
        is_determinization(e, d),
    ensures
        forall|t: Seq<char>| #[trigger] d.accepts_prefix(t) == matches_prefix(e, t),
{
    let sets = choose|sets: Seq<Seq<bool>>| DFA::is_subset_dfa(e, d, sets);
    assert forall|t: Seq<char>| #[trigger] d.accepts_prefix(t) == matches_prefix(e, t) by {
        lemma_unblocked(e, set![e.spec_start()], next_symbol(t, 0));
        assert(e.spec_start() == e.start_state()->Some_0);
        assert(marked(sets[0]) == layer(e, t, 0));
        assert(t.skip(0) =~= t);
        lemma_run_tracks_layers(e, d, sets, t, 0, 0);
    }
}

/// The automaton with epsilon moves, its subset construction and a
/// minimization of that report the same match on every text.
pub proof fn lemma_stages_agree(e: &EFA, d: &DFA, m: &DFA)
    requires
        e.wf(),
        efa_unmixed(e),
        is_determinization(e, d),
        minimizes(d, m),
    ensures
        forall|text: Seq<char>| #[trigger] efa_find(e, text) == dfa_find(d, text),
        forall|text: Seq<char>| #[trigger] dfa_find(d, text) == dfa_find(m, text),
{
    lemma_determinization_agrees(e, d);
    assert((|t: Seq<char>| matches_prefix(e, t)) =~= (|t: Seq<char>| d.accepts_prefix(t)));
    assert((|t: Seq<char>| m.accepts_prefix(t)) =~= (|t: Seq<char>| d.accepts_prefix(t)));
}

/// For a compiled pattern, the automaton with epsilon moves, its subset
/// construction and the minimized automaton that matching runs report the
/// same match on every text.
pub proof fn lemma_compiled_stages_agree(regex: Seq<char>, p: GenericRegexParser)
    requires
        compiles_to(regex, Ok(p)),
    ensures
        exists|d: DFA|
            is_determinization(&p.epsilon_automaton(), &d) && forall|text: Seq<char>|
                #[trigger] efa_find(&p.epsilon_automaton(), text) == dfa_find(&d, text) && dfa_find(&d, text)
                    == dfa_find(&p.matcher(), text),
{
    let tree = crate::regex_parser::spec_parse_regex(crate::regex_parser::with_concat(regex))->Ok_0;
    let post = tree.post_order_seq();
    let e = p.epsilon_automaton();
    lemma_thompson_unmixed(post);
    let rows = thompson_run(post)->Some_0.0;
    assert forall|q: int, a: int, b: int|
        0 <= a < e.row(q).len() && 0 <= b < e.row(q).len() implies !((#[trigger] e.row(q)[a]).0 is Some
            && (#[trigger] e.row(q)[b]).0 is None) by {
        assert(e.row(q) == row_at(rows, q));
    }
    let d = choose|d: DFA| is_determinization(&e, &d) && minimizes(&d, &p.matcher());
    lemma_stages_agree(&e, &d, &p.matcher());
}

} // verus!
