use vstd::prelude::*;
use vstd::relations::injective_on;
use vstd::set_lib::{lemma_int_range, lemma_map_size, set_int_range};
use crate::dfa::DFA;
use crate::graph::{Digraph, lemma_reachable_step, lemma_seed_reachable, reach_in, reachable};
use crate::minimize::{
    all_states, coarsest, hits, is_hom, is_partition, is_stable, lemma_delta_at, minimized_from, quotient_by,
    reach_set, renumbers,
};
use crate::state_generator::State;

verus! {

/// Some state below `n` is mapped to `x`.
pub open spec fn hit_below(h: Seq<State>, n: nat, x: State) -> bool {
    exists|i: State| i < n && #[trigger] h[i as int] == x
}

/// A map of `0 .. n` one to one onto `0 .. m` forces `n == m`.
proof fn lemma_bijection_count(n: nat, m: nat, h: Seq<State>)
    requires
        forall|i: State| i < n ==> #[trigger] h[i as int] < m,
        forall|i: State, j: State| i < n && j < n && #[trigger] h[i as int] == #[trigger] h[j as int] ==> i == j,
        forall|x: State| x < m ==> #[trigger] hit_below(h, n, x),
        n <= usize::MAX,
        m <= usize::MAX,
    ensures
        n == m,
{
    let f = |i: int| h[i] as int;
    let a = set_int_range(0, n as int);
    let b = set_int_range(0, m as int);
    lemma_int_range(0, n as int);
    lemma_int_range(0, m as int);
    assert forall|y: int| #[trigger] a.map(f).contains(y) == b.contains(y) by {
        if b.contains(y) {
            let x = y as State;
            assert(hit_below(h, n, x));
            let i = choose|i: State| i < n && #[trigger] h[i as int] == x;
            assert(a.contains(i as int) && y == f(i as int));
        }
        if a.map(f).contains(y) {
            let i = choose|i: int| a.contains(i) && y == f(i);
            assert(h[(i as State) as int] < m);
        }
    }
    assert(a.map(f) =~= b);
    assert forall|i1: int, i2: int| a.contains(i1) && a.contains(i2) && #[trigger] f(i1) == #[trigger] f(i2) implies i1 == i2 by {
        assert(h[(i1 as State) as int] == h[(i2 as State) as int]);
    }
    assert(injective_on(f, a));
    lemma_map_size(a, b, f);
}

/// The move of `q` on `c` goes to `p` when `q` has that move.
proof fn lemma_trans_delta(d: &DFA, q: State, c: char, p: State)
    requires
        d.wf(),
        q < d.n_states(),
        d.has_trans(q, c, p),
    ensures
        d.delta(q, c) == Some(p),
{
    let k = choose|k: int| 0 <= k < d.row(q as int).len() && d.row(q as int)[k] == (c, p);
    lemma_delta_at(d, q, k);
}

/// A homomorphism that covers the reachable states maps them to reachable
/// states.
proof fn lemma_hom_reach(a: &DFA, b: &DFA, h: Seq<State>, dom: Set<State>, q: State, k: nat)
    requires
        a.wf(),
        b.wf(),
        is_hom(a, b, h, dom),
        a.start_state() is Some,
        b.start_state() == Some(h[a.start_state()->Some_0 as int]),
        forall|u: State| u < a.n_states() && reachable(a, set![a.start_state()->Some_0], u) ==> #[trigger] dom.contains(u),
        reach_in(a, set![a.start_state()->Some_0], q, k),
    ensures
        q < a.n_states(),
        reach_set(b).contains(h[q as int]),
    decreases k,
{
    let s = a.start_state()->Some_0;
    let bs = b.start_state()->Some_0;
    if k == 0 {
        lemma_seed_reachable(b, set![bs], bs);
    } else if reach_in(a, set![s], q, (k - 1) as nat) {
        lemma_hom_reach(a, b, h, dom, q, (k - 1) as nat);
    } else {
        let u = choose|u: State| #[trigger] a.spec_edge(u, q) && reach_in(a, set![s], u, (k - 1) as nat);
        lemma_hom_reach(a, b, h, dom, u, (k - 1) as nat);
        let c = choose|c: char| a.has_trans(u, c, q);
        assert(reachable(a, set![s], u));
        assert(dom.contains(u));
        lemma_trans_delta(a, u, c, q);
        assert(reachable(a, set![s], q)) by {
            crate::graph::lemma_reachable_step(a, set![s], u, q);
        }
        assert(dom.contains(q));
        let hu = h[u as int];
        let hq = h[q as int];
        assert(b.delta(hu, c) == Some(hq));
        assert(b.has_trans(hu, c, hq));
        assert(b.spec_edge(hu, hq));
        lemma_reachable_step(b, set![bs], hu, hq);
    }
}

/// `j` and `q` go, through `f`, to one class of `cls`.
pub open spec fn same_class(cls: Seq<usize>, f: Seq<State>, j: int, q: int) -> bool {
    cls[f[j] as int] == cls[f[q] as int]
}

/// The least state that goes to the class of `q`.
pub open spec fn least_of(cls: Seq<usize>, f: Seq<State>, q: int) -> int {
    choose|r: int| 0 <= r <= q && same_class(cls, f, r, q) && forall|j: int| 0 <= j < r ==> !#[trigger] same_class(cls, f, j, q)
}

proof fn lemma_min_exists(cls: Seq<usize>, f: Seq<State>, q: int, k: int)
    requires
        0 <= k <= q,
        same_class(cls, f, k, q),
    ensures
        exists|r: int| 0 <= r <= q && same_class(cls, f, r, q) && forall|j: int| 0 <= j < r ==> !#[trigger] same_class(cls, f, j, q),
    decreases k,
{
    if exists|j: int| 0 <= j < k && #[trigger] same_class(cls, f, j, q) {
        let j = choose|j: int| 0 <= j < k && #[trigger] same_class(cls, f, j, q);
        lemma_min_exists(cls, f, q, j);
    } else {
        assert(forall|j: int| 0 <= j < k ==> !#[trigger] same_class(cls, f, j, q));
    }
}

proof fn lemma_least(cls: Seq<usize>, f: Seq<State>, q: int)
    requires
        0 <= q,
    ensures
        0 <= least_of(cls, f, q) <= q,
        same_class(cls, f, least_of(cls, f, q), q),
        forall|j: int| 0 <= j < least_of(cls, f, q) ==> !#[trigger] same_class(cls, f, j, q),
{
    lemma_min_exists(cls, f, q, q);
}

proof fn lemma_least_same(cls: Seq<usize>, f: Seq<State>, q1: int, q2: int)
    requires
        0 <= q1,
        0 <= q2,
        same_class(cls, f, q1, q2),
    ensures
        least_of(cls, f, q1) == least_of(cls, f, q2),
{
    lemma_least(cls, f, q1);
    lemma_least(cls, f, q2);
    let r1 = least_of(cls, f, q1);
    let r2 = least_of(cls, f, q2);
    if r1 < r2 {
        assert(same_class(cls, f, r1, q2));
    } else if r2 < r1 {
        assert(same_class(cls, f, r2, q1));
    }
}

/// The facts about one minimization that the proofs below use.
pub open spec fn min_parts(d: &DFA, m: &DFA, d1: &DFA, h1: Seq<State>, cls: Seq<usize>, h2: Seq<State>) -> bool {
    renumbers(d, d1, h1) && d1.wf() && is_partition(d1, cls) && is_stable(d1, cls) && coarsest(d1, cls)
        && quotient_by(d1, m, cls, h2)
}

/// Every state of a minimized automaton is reachable.
proof fn lemma_all_reachable(d: &DFA, m1: &DFA, d1: &DFA, h1: Seq<State>, cls: Seq<usize>, h2: Seq<State>)
    requires
        d.wf(),
        m1.wf(),
        min_parts(d, m1, d1, h1, cls, h2),
    ensures
        forall|x: State| x < m1.n_states() ==> #[trigger] reach_set(m1).contains(x),
{
    assert forall|x: State| x < m1.n_states() implies #[trigger] reach_set(m1).contains(x) by {
        assert(hits(all_states(d1), h2, x));
        let q = choose|q: State| #[trigger] all_states(d1).contains(q) && h2[q as int] == x;
        assert(hits(reach_set(d), h1, q));
        let p = choose|p: State| #[trigger] reach_set(d).contains(p) && h1[p as int] == q;
        let k = choose|k: nat| reach_in(d, set![d.start_state()->Some_0], p, k);
        lemma_hom_reach(d, d1, h1, reach_set(d), p, k);
        assert(reach_set(d1).contains(q));
        let k2 = choose|k2: nat| reach_in(d1, set![d1.start_state()->Some_0], q, k2);
        assert forall|u: State| u < d1.n_states() && reachable(d1, set![d1.start_state()->Some_0], u) implies #[trigger] all_states(d1).contains(u) by {}
        lemma_hom_reach(d1, m1, h2, all_states(d1), q, k2);
    }
}

/// Renumbering an automaton whose states are all reachable keeps their
/// number.
proof fn lemma_renumber_count(m1: &DFA, e1: &DFA, g1: Seq<State>)
    requires
        renumbers(m1, e1, g1),
        m1.n_states() <= usize::MAX,
        forall|x: State| x < m1.n_states() ==> #[trigger] reach_set(m1).contains(x),
    ensures
        e1.n_states() == m1.n_states(),
        forall|x: State| x < e1.n_states() ==> #[trigger] hit_below(g1, m1.n_states(), x),
{
    assert forall|i: State| i < m1.n_states() implies #[trigger] g1[i as int] < e1.n_states() by {
        assert(reach_set(m1).contains(i));
    }
    assert forall|i: State, j: State| i < m1.n_states() && j < m1.n_states() && #[trigger] g1[i as int] == #[trigger] g1[j as int] implies i == j by {
        assert(reach_set(m1).contains(i));
        assert(reach_set(m1).contains(j));
    }
    assert forall|x: State| x < e1.n_states() implies #[trigger] hit_below(g1, m1.n_states(), x) by {
        assert(hits(reach_set(m1), g1, x));
        let y = choose|y: State| #[trigger] reach_set(m1).contains(y) && g1[y as int] == x;
    }
    lemma_bijection_count(m1.n_states(), e1.n_states(), g1);
}

/// The partition of `d1` by the classes of `cls2` that its states go to
/// through `h2` then `g1`.
pub open spec fn pulled_back(n1: nat, cls2: Seq<usize>, f: Seq<State>) -> Seq<usize> {
    Seq::new(n1, |q: int| least_of(cls2, f, q) as usize)
}

/// Pulling the stable partition of `e1` back to `d1` gives a stable
/// partition of `d1`.
#[verifier::rlimit(50)]
proof fn lemma_pullback(d1: &DFA, m1: &DFA, e1: &DFA, h2: Seq<State>, g1: Seq<State>, cls: Seq<usize>, cls2: Seq<usize>, f: Seq<State>)
    requires
        d1.wf(),
        m1.wf(),
        e1.wf(),
        d1.n_states() <= usize::MAX,
        quotient_by(d1, m1, cls, h2),
        renumbers(m1, e1, g1),
        is_partition(e1, cls2),
        is_stable(e1, cls2),
        forall|x: State| x < m1.n_states() ==> #[trigger] reach_set(m1).contains(x),
        f == Seq::new(d1.n_states(), |q: int| g1[h2[q] as int]),
    ensures
        is_partition(d1, pulled_back(d1.n_states(), cls2, f)),
        is_stable(d1, pulled_back(d1.n_states(), cls2, f)),
{
    let n1 = d1.n_states();
    let pp = pulled_back(n1, cls2, f);
    assert forall|q: State| q < n1 implies #[trigger] f[q as int] < e1.n_states() && reach_set(m1).contains(h2[q as int]) by {
        assert(all_states(d1).contains(q));
        assert(reach_set(m1).contains(h2[q as int]));
    }
    assert forall|q: int| 0 <= q < n1 implies #[trigger] pp[q] <= q && pp[pp[q] as int] == pp[q] by {
        lemma_least(cls2, f, q);
        let r = least_of(cls2, f, q);
        lemma_least_same(cls2, f, r, q);
    }
    assert forall|q: State| q < n1 implies #[trigger] d1.is_accepting(q) == d1.is_accepting(pp[q as int] as State) by {
        lemma_least(cls2, f, q as int);
        let r = least_of(cls2, f, q as int) as State;
        assert(all_states(d1).contains(q) && all_states(d1).contains(r));
        let y = h2[q as int];
        let yr = h2[r as int];
        assert(reach_set(m1).contains(y) && reach_set(m1).contains(yr));
        assert(e1.is_accepting(f[q as int]) == e1.is_accepting(cls2[f[q as int] as int] as State));
        assert(e1.is_accepting(f[r as int]) == e1.is_accepting(cls2[f[r as int] as int] as State));
    }
    assert forall|q: State, c: char| q < pp.len() implies match #[trigger] d1.delta(q, c) {
        Some(p) => match d1.delta(pp[q as int] as State, c) {
            Some(p2) => pp[p2 as int] == pp[p as int],
            None => false,
        },
        None => d1.delta(pp[q as int] as State, c) is None,
    } by {
        lemma_pullback_step(d1, m1, e1, h2, g1, cls, cls2, f, q, c);
    }
}

#[verifier::rlimit(50)]
proof fn lemma_pullback_step(d1: &DFA, m1: &DFA, e1: &DFA, h2: Seq<State>, g1: Seq<State>, cls: Seq<usize>, cls2: Seq<usize>, f: Seq<State>, q: State, c: char)
    requires
        d1.wf(),
        m1.wf(),
        e1.wf(),
        d1.n_states() <= usize::MAX,
        quotient_by(d1, m1, cls, h2),
        renumbers(m1, e1, g1),
        is_partition(e1, cls2),
        is_stable(e1, cls2),
        forall|x: State| x < m1.n_states() ==> #[trigger] reach_set(m1).contains(x),
        f == Seq::new(d1.n_states(), |i: int| g1[h2[i] as int]),
        q < d1.n_states(),
    ensures
        match d1.delta(q, c) {
            Some(p) => match d1.delta(pulled_back(d1.n_states(), cls2, f)[q as int] as State, c) {
                Some(p2) => pulled_back(d1.n_states(), cls2, f)[p2 as int] == pulled_back(d1.n_states(), cls2, f)[p as int],
                None => false,
            },
            None => d1.delta(pulled_back(d1.n_states(), cls2, f)[q as int] as State, c) is None,
        },
{
    let pp = pulled_back(d1.n_states(), cls2, f);
    lemma_least(cls2, f, q as int);
    let r = pp[q as int] as State;
    assert(all_states(d1).contains(q) && all_states(d1).contains(r));
    let x = f[q as int];
    let xr = f[r as int];
    let z = cls2[x as int];
    assert(cls2[xr as int] == z);
    assert(reach_set(m1).contains(h2[q as int]));
    assert(reach_set(m1).contains(h2[r as int]));
    match d1.delta(q, c) {
        Some(p) => {
            assert(all_states(d1).contains(p));
            assert(reach_set(m1).contains(h2[p as int]));
            assert(e1.delta(x, c) == Some(f[p as int]));
            match d1.delta(r, c) {
                Some(p2) => {
                    assert(all_states(d1).contains(p2));
                    assert(reach_set(m1).contains(h2[p2 as int]));
                    assert(e1.delta(xr, c) == Some(f[p2 as int]));
                    let zz = e1.delta(z as State, c)->Some_0;
                    assert(cls2[zz as int] == cls2[f[p as int] as int]);
                    assert(cls2[zz as int] == cls2[f[p2 as int] as int]);
                    lemma_least_same(cls2, f, p2 as int, p as int);
                },
                None => {
                    assert(e1.delta(xr, c) is None);
                },
            }
        },
        None => {
            assert(e1.delta(x, c) is None);
            if let Some(p2) = d1.delta(r, c) {
                assert(all_states(d1).contains(p2));
                assert(e1.delta(xr, c) == Some(f[p2 as int]));
            }
        },
    }
}

/// Minimizing a minimized automaton gives the same number of states, and
/// the same acceptance on every input.
pub proof fn lemma_minimize_idempotent(d: &DFA, m1: &DFA, m2: &DFA)
    requires
        d.wf(),
        d.n_states() <= usize::MAX,
        minimized_from(d, m1),
        minimized_from(m1, m2),
    ensures
        m2.n_states() == m1.n_states(),
        forall|t: Seq<char>| #[trigger] m2.accepts_prefix(t) == m1.accepts_prefix(t),
        forall|t: Seq<char>| #[trigger] m2.accepts_prefix(t) == d.accepts_prefix(t),
{
    assert forall|t: Seq<char>| #[trigger] m2.accepts_prefix(t) == d.accepts_prefix(t) by {
        assert(m2.accepts_prefix(t) == m1.accepts_prefix(t));
        assert(m1.accepts_prefix(t) == d.accepts_prefix(t));
    }
    let (d1, h1, cls, h2) = choose|d1: DFA, h1: Seq<State>, cls: Seq<usize>, h2: Seq<State>|
        renumbers(d, &d1, h1) && d1.wf() && is_partition(&d1, cls) && is_stable(&d1, cls) && coarsest(&d1, cls)
            && quotient_by(&d1, m1, cls, h2);
    let (e1, g1, cls2, g2) = choose|e1: DFA, g1: Seq<State>, cls2: Seq<usize>, g2: Seq<State>|
        renumbers(m1, &e1, g1) && e1.wf() && is_partition(&e1, cls2) && is_stable(&e1, cls2) && coarsest(&e1, cls2)
            && quotient_by(&e1, m2, cls2, g2);
    assert(min_parts(d, m1, &d1, h1, cls, h2));
    lemma_all_reachable(d, m1, &d1, h1, cls, h2);
    lemma_renumber_count(m1, &e1, g1);
    let n1 = d1.n_states();
    let f = Seq::new(n1, |q: int| g1[h2[q] as int]);
    lemma_pullback(&d1, m1, &e1, h2, g1, cls, cls2, f);
    let pp = pulled_back(n1, cls2, f);
    assert forall|x1: State, x2: State| x1 < e1.n_states() && x2 < e1.n_states() && #[trigger] g2[x1 as int] == #[trigger] g2[x2 as int] implies x1 == x2 by {
        assert(cls2[x1 as int] == cls2[x2 as int]);
        assert(hit_below(g1, m1.n_states(), x1));
        assert(hit_below(g1, m1.n_states(), x2));
        let y1 = choose|i: State| i < m1.n_states() && #[trigger] g1[i as int] == x1;
        let y2 = choose|i: State| i < m1.n_states() && #[trigger] g1[i as int] == x2;
        assert(hits(all_states(&d1), h2, y1));
        assert(hits(all_states(&d1), h2, y2));
        let q1 = choose|q: State| #[trigger] all_states(&d1).contains(q) && h2[q as int] == y1;
        let q2 = choose|q: State| #[trigger] all_states(&d1).contains(q) && h2[q as int] == y2;
        assert(f[q1 as int] == x1 && f[q2 as int] == x2);
        lemma_least_same(cls2, f, q1 as int, q2 as int);
        assert(pp[q1 as int] == pp[q2 as int]);
        assert(cls[q1 as int] == cls[q2 as int]);
        assert(h2[q1 as int] == h2[q2 as int]);
    }
    assert forall|x: State| x < e1.n_states() implies #[trigger] g2[x as int] < m2.n_states() by {
        assert(all_states(&e1).contains(x));
    }
    assert forall|x: State| x < m2.n_states() implies #[trigger] hit_below(g2, e1.n_states(), x) by {
        assert(hits(all_states(&e1), g2, x));
        let y = choose|y: State| #[trigger] all_states(&e1).contains(y) && g2[y as int] == x;
    }
    lemma_bijection_count(e1.n_states(), m2.n_states(), g2);
}

} // verus!
