use vstd::prelude::*;
use crate::efa::EFA;
use crate::graph::{lemma_push_contains, reach, reach_in};
use crate::matcher::{
    EpsStep, StepAutomaton, as_pos, chars_of, direct_step, eps_reach, find_result, leftmost_from,
};
use crate::state_generator::{State, StateGeneration, StateGenerator};

verus! {

/// The states marked in `m`.
pub open spec fn marked(m: Seq<bool>) -> Set<State> {
    Set::new(|s: State| s < m.len() && m[s as int])
}

/// `recorded` maps the `i`-th set of `sets` to `i`.
pub open spec fn registered(recorded: Map<Seq<bool>, State>, sets: Seq<Seq<bool>>) -> bool {
    forall|i: int| 0 <= i < sets.len() ==> recorded.contains_key(#[trigger] sets[i]) && recorded[sets[i]] == i
}

/// Each set after the first is the move of an earlier one on some symbol.
pub open spec fn derived(efa: &EFA, sets: Seq<Seq<bool>>) -> bool {
    forall|i: int| 0 < i < sets.len() ==> exists|j: int, c: char|
        0 <= j < i && #[trigger] marked(sets[i]) == subset_move(efa, marked(sets[j]), c)
}

/// `efa`'s subset construction reaches at least `usize::MAX` distinct sets
/// of states, so that its states cannot all get an identifier.
pub open spec fn too_many_subsets(efa: &EFA) -> bool {
    exists|sets: Seq<Seq<bool>>| {
        &&& sets.len() == usize::MAX
        &&& efa.start_state() matches Some(s) && marked(sets[0]) == eps_reach(efa, set![s], None)
        &&& derived(efa, sets)
        &&& forall|i: int| 0 <= i < sets.len() ==> (#[trigger] sets[i]).len() == efa.n_states()
        &&& forall|i: int, j: int| 0 <= i < sets.len() && 0 <= j < sets.len() && i != j ==> sets[i] != sets[j]
    }
}

/// The views of a sequence of mark vectors.
pub open spec fn marks_view(m: Seq<Vec<bool>>) -> Seq<Seq<bool>> {
    Seq::new(m.len(), |i: int| m[i]@)
}

/// Subset construction's move: the epsilon closure of the targets of the
/// moves on `c` from the states of `states`.
pub open spec fn subset_move(efa: &EFA, states: Set<State>, c: char) -> Set<State> {
    eps_reach(efa, direct_step(efa, states, c), None)
}

/// A deterministic automaton: state `q` owns row `q` of the table, at most
/// one move per symbol, and is accepting when `accepting[q]` holds.
pub struct DFA {
    pub(crate) automaton: Vec<Vec<(char, State)>>,
    pub(crate) start: Option<State>,
    pub(crate) accepting: Vec<bool>,
}

impl DFA {
    pub open(crate) spec fn n_states(&self) -> nat {
        self.automaton@.len()
    }

    pub open(crate) spec fn row(&self, q: int) -> Seq<(char, State)> {
        if 0 <= q < self.automaton@.len() {
            self.automaton@[q]@
        } else {
            seq![]
        }
    }

    pub open(crate) spec fn start_state(&self) -> Option<State> {
        self.start
    }

    pub open(crate) spec fn is_accepting(&self, q: State) -> bool {
        q < self.accepting@.len() && self.accepting@[q as int]
    }

    /// `q` moves on `c` to `p`.
    pub open(crate) spec fn has_trans(&self, q: State, c: char, p: State) -> bool {
        self.row(q as int).contains((c, p))
    }

    /// The state that `q` moves to on `c`, if any.
    pub open(crate) spec fn delta(&self, q: State, c: char) -> Option<State> {
        if exists|p: State| self.has_trans(q, c, p) {
            Some(choose|p: State| self.has_trans(q, c, p))
        } else {
            None
        }
    }

    /// No state has two moves on one symbol.
    pub open(crate) spec fn deterministic(&self) -> bool {
        forall|q: int, i: int, j: int|
            0 <= q < self.n_states() && 0 <= i < self.row(q).len() && 0 <= j < self.row(q).len() && i
                != j ==> (#[trigger] self.row(q)[i]).0 != (#[trigger] self.row(q)[j]).0
    }

    pub open(crate) spec fn wf(&self) -> bool {
        &&& self.deterministic()
        &&& self.accepting@.len() == self.n_states()
        &&& forall|q: int, k: int|
            0 <= q < self.n_states() && 0 <= k < self.row(q).len() ==> (#[trigger] self.row(q)[k]).1
                < self.n_states()
        &&& self.start matches Some(s) ==> s < self.n_states()
    }

    /// From `q`, reading `text` symbol by symbol, an accepting state comes
    /// before the automaton gets stuck.
    pub open(crate) spec fn run_accepts(&self, q: State, text: Seq<char>) -> bool
        decreases text.len(),
    {
        if self.is_accepting(q) {
            true
        } else if text.len() == 0 {
            false
        } else {
            match self.delta(q, text[0]) {
                Some(p) => self.run_accepts(p, text.drop_first()),
                None => false,
            }
        }
    }

    /// The automaton matches a prefix of `text` from its start state.
    pub open(crate) spec fn accepts_prefix(&self, text: Seq<char>) -> bool {
        match self.start {
            Some(s) => self.run_accepts(s, text),
            None => false,
        }
    }

    /// `sets[q]` marks the EFA states that DFA state `q` stands for, and the
    /// DFA is the subset construction over `efa`: its start is the closure
    /// of the EFA's start, a state accepts when its set holds the EFA's end,
    /// and a move on `c` leads to the closure of the moves on `c` (no move
    /// when that is empty). Distinct states stand for distinct sets.
    pub open(crate) spec fn is_subset_dfa(efa: &EFA, d: &DFA, sets: Seq<Seq<bool>>) -> bool {
        &&& d.wf()
        &&& sets.len() == d.n_states()
        &&& d.n_states() > 0
        &&& d.start == Some(0usize)
        &&& efa.start_state() is Some && efa.end_state() is Some
        &&& marked(sets[0]) == eps_reach(efa, set![efa.start_state()->Some_0], None)
        &&& forall|q: int| 0 <= q < sets.len() ==> (#[trigger] sets[q]).len() == efa.n_states()
        &&& forall|q: State| q < d.n_states() ==> (#[trigger] d.is_accepting(q) <==> marked(sets[q as int]).contains(
            efa.end_state()->Some_0,
        ))
        &&& forall|q: State, c: char|
            q < d.n_states() ==> match #[trigger] d.delta(q, c) {
                Some(p) => marked(sets[p as int]) == subset_move(efa, marked(sets[q as int]), c),
                None => subset_move(efa, marked(sets[q as int]), c) == Set::<State>::empty(),
            }
        &&& forall|p: int, q: int| 0 <= p < sets.len() && 0 <= q < sets.len() && p != q ==> sets[p] != sets[q]
    }
}

pub proof fn lemma_nothing_from_empty<G: crate::graph::Digraph>(g: &G, v: State, k: nat)
    ensures
        !reach_in(g, Set::<State>::empty(), v, k),
    decreases k,
{
    if k > 0 {
        lemma_nothing_from_empty(g, v, (k - 1) as nat);
        assert forall|u: State| !(#[trigger] g.spec_edge(u, v) && reach_in(g, Set::<State>::empty(), u, (k - 1) as nat)) by {
            lemma_nothing_from_empty(g, u, (k - 1) as nat);
        }
    }
}

/// Some state below `s` marked in `marks` has a direct move on `c`.
pub open spec fn direct_below(efa: &EFA, marks: Seq<bool>, s: int, c: char) -> bool {
    exists|x: State, t: State| x < s && marked(marks).contains(x) && #[trigger] efa.spec_direct(x, c, t)
}

/// The symbols of the direct moves from the states marked in `marks`, each
/// once.
fn alphabet_of(efa: &EFA, marks: &Vec<bool>) -> (r: Vec<char>)
    requires
        efa.wf(),
        marks@.len() == efa.n_states(),
    ensures
        forall|c: char| #[trigger] r@.contains(c) <==> direct_below(efa, marks@, marks@.len() as int, c),
        r@.no_duplicates(),
{
    let mut r: Vec<char> = Vec::new();
    let mut s: usize = 0;
    while s < marks.len()
        invariant
            efa.wf(),
            marks@.len() == efa.n_states(),
            s <= marks@.len(),
            r@.no_duplicates(),
            forall|c: char| #[trigger] r@.contains(c) <==> direct_below(efa, marks@, s as int, c),
        decreases marks@.len() - s,
    {
        let ghost r0 = r@;
        if marks[s] {
            let row = &efa.automaton[s];
            let mut k: usize = 0;
            while k < row.len()
                invariant
                    efa.wf(),
                    marks@.len() == efa.n_states(),
                    s < marks@.len(),
                    row@ == efa.row(s as int),
                    k <= row@.len(),
                    r@.no_duplicates(),
                    forall|c: char| #[trigger] r@.contains(c) <==> (r0.contains(c) || exists|i: int|
                        0 <= i < k && row@[i].0 == Some(c)),
                decreases row@.len() - k,
            {
                if let Some(c) = row[k].0 {
                    let mut found = false;
                    let mut j: usize = 0;
                    while j < r.len()
                        invariant
                            j <= r@.len(),
                            found == exists|i: int| 0 <= i < j && r@[i] == c,
                        decreases r@.len() - j,
                    {
                        if r[j] == c {
                            found = true;
                        }
                        j = j + 1;
                    }
                    proof {
                        lemma_push_contains(r@, c);
                    }
                    if !found {
                        r.push(c);
                    }
                    proof {
                        assert forall|d: char| #[trigger] r@.contains(d) <==> (r0.contains(d) || exists|i: int|
                            0 <= i < k + 1 && row@[i].0 == Some(d)) by {
                            if exists|i: int| 0 <= i < k + 1 && row@[i].0 == Some(d) {
                                let i = choose|i: int| 0 <= i < k + 1 && row@[i].0 == Some(d);
                                if i < k {
                                } else {
                                    assert(d == c);
                                    if found {
                                        let ii = choose|ii: int| 0 <= ii < r@.len() && r@[ii] == c;
                                        assert(r@.contains(c));
                                    }
                                }
                            }
                        }
                    }
                } else {
                    proof {
                        assert forall|d: char| #[trigger] r@.contains(d) <==> (r0.contains(d) || exists|i: int|
                            0 <= i < k + 1 && row@[i].0 == Some(d)) by {
                            if exists|i: int| 0 <= i < k + 1 && row@[i].0 == Some(d) {
                                let i = choose|i: int| 0 <= i < k + 1 && row@[i].0 == Some(d);
                                assert(i < k);
                            }
                        }
                    }
                }
                k = k + 1;
            }
            proof {
                assert forall|c: char| #[trigger] r@.contains(c) <==> direct_below(efa, marks@, s + 1, c) by {
                    if exists|i: int| 0 <= i < row@.len() && row@[i].0 == Some(c) {
                        let i = choose|i: int| 0 <= i < row@.len() && row@[i].0 == Some(c);
                        let t = row@[i].1;
                        assert(efa.row(s as int)[i] == row@[i]);
                        assert(row@.contains((Some(c), t)));
                        assert(marked(marks@).contains(s));
                        assert(efa.spec_direct(s, c, t));
                    }
                    if direct_below(efa, marks@, s + 1, c) && !direct_below(efa, marks@, s as int, c) {
                        let (x, t) = choose|x: State, t: State| x < s + 1 && marked(marks@).contains(x) && #[trigger] efa.spec_direct(x, c, t);
                        assert(x == s);
                        let i = choose|i: int| 0 <= i < row@.len() && row@[i] == (Some(c), t);
                    }
                }
            }
        } else {
            proof {
                assert forall|c: char| #[trigger] r@.contains(c) <==> direct_below(efa, marks@, s + 1, c) by {
                    if direct_below(efa, marks@, s + 1, c) && !direct_below(efa, marks@, s as int, c) {
                        let (x, t) = choose|x: State, t: State| x < s + 1 && marked(marks@).contains(x) && #[trigger] efa.spec_direct(x, c, t);
                        assert(x == s);
                    }
                }
            }
        }
        s = s + 1;
    }
    r
}

/// The marks of `subset_move` from the states marked in `marks` on `c`.
fn subset_step(efa: &EFA, marks: &Vec<bool>, c: char) -> (r: Vec<bool>)
    requires
        efa.wf(),
        marks@.len() == efa.n_states(),
    ensures
        r@.len() == efa.n_states(),
        marked(r@) == subset_move(efa, marked(marks@), c),
{
    let n = efa.automaton.len();
    let mut seeds: Vec<State> = Vec::new();
    let mut s: usize = 0;
    while s < n
        invariant
            n == efa.n_states(),
            marks@.len() == n,
            s <= n,
            forall|i: int| 0 <= i < seeds@.len() ==> seeds@[i] < n,
            forall|t: State| #[trigger] seeds@.contains(t) <==> exists|x: State|
                x < s && marked(marks@).contains(x) && efa.spec_direct(x, c, t),
        decreases n - s,
    {
        if marks[s] {
            let d = efa.direct_targets(s, c);
            let ghost seeds0 = seeds@;
            let mut k: usize = 0;
            while k < d.len()
                invariant
                    n == efa.n_states(),
                    k <= d@.len(),
                    forall|i: int| 0 <= i < d@.len() ==> d@[i] < n,
                    forall|i: int| 0 <= i < seeds@.len() ==> seeds@[i] < n,
                    forall|t: State| #[trigger] seeds@.contains(t) <==> (seeds0.contains(t) || d@.take(k as int).contains(t)),
                decreases d@.len() - k,
            {
                proof {
                    assert(d@.take(k + 1) =~= d@.take(k as int).push(d@[k as int]));
                    lemma_push_contains(d@.take(k as int), d@[k as int]);
                    lemma_push_contains(seeds@, d@[k as int]);
                }
                seeds.push(d[k]);
                k = k + 1;
            }
            proof {
                assert(d@.take(k as int) =~= d@);
                assert forall|t: State| #[trigger] seeds@.contains(t) <==> exists|x: State|
                    x < s + 1 && marked(marks@).contains(x) && efa.spec_direct(x, c, t) by {
                    if d@.contains(t) {
                        assert(marked(marks@).contains(s));
                    }
                }
            }
        }
        s = s + 1;
    }
    proof {
        assert forall|t: State| #[trigger] seeds@.to_set().contains(t) == direct_step(efa, marked(marks@), c).contains(t) by {
            if direct_step(efa, marked(marks@), c).contains(t) {
                let x = choose|x: State| #[trigger] marked(marks@).contains(x) && efa.spec_direct(x, c, t);
                assert(seeds@.contains(t));
            }
        }
        assert(seeds@.to_set() =~= direct_step(efa, marked(marks@), c));
    }
    let g = EpsStep { aut: efa, blocked_by: None };
    let r = reach(&g, n, &seeds);
    proof {
        assert(marked(r@) =~= subset_move(efa, marked(marks@), c));
    }
    r
}

impl DFA {
    /// Subset construction, with the set of EFA states that each DFA state
    /// stands for, as membership marks.
    pub(crate) fn subset_construction(efa: &EFA) -> (r: Option<(DFA, Vec<Vec<bool>>)>)
        requires
            efa.wf(),
        ensures
            efa.start_state() is None || efa.end_state() is None ==> r is None,
            r is None ==> efa.start_state() is None || efa.end_state() is None || too_many_subsets(efa),
            r matches Some((d, m)) ==> Self::is_subset_dfa(efa, &d, marks_view(m@)),
    {
        let start = match efa.get_start() {
            Some(s) => s,
            None => return None,
        };
        let end = match efa.get_end() {
            Some(s) => s,
            None => return None,
        };
        let n = efa.automaton.len();
        let mut seeds: Vec<State> = Vec::new();
        seeds.push(start);
        proof {
            assert forall|x: State| seeds@.to_set().contains(x) <==> set![start].contains(x) by {
                if x == start {
                    assert(seeds@[0] == x);
                }
            }
            assert(seeds@.to_set() =~= set![start]);
        }
        let first = reach(&EpsStep { aut: efa, blocked_by: None }, n, &seeds);
        let ghost first_set = first@;
        proof {
            assert(marked(first_set) =~= eps_reach(efa, set![start], None));
        }
        let mut reg: StateGenerator<Vec<bool>, State> = StateGenerator::new();
        let s0 = reg.generate_for(&first);
        let ghost mut sets: Seq<Seq<bool>> = seq![first_set];
        let mut count: usize = 1;
        let mut automaton: Vec<Vec<(char, State)>> = Vec::new();
        let mut accepting: Vec<bool> = Vec::new();
        let mut q: usize = 0;
        while q < count
            invariant
                efa.wf(),
                n == efa.n_states(),
                efa.start_state() == Some(start),
                efa.end_state() == Some(end),
                start < n,
                end < n,
                reg.wf(),
                reg.counter() == count,
                1 <= count,
                sets.len() == count,
                q <= count,
                sets[0] == first_set,
                marked(first_set) == eps_reach(efa, set![start], None),
                forall|i: int| 0 <= i < count ==> (#[trigger] sets[i]).len() == n,
                registered(reg.states(), sets),
                derived(efa, sets),
                automaton@.len() == q,
                accepting@.len() == q,
                forall|i: int| 0 <= i < q ==> #[trigger] accepting@[i] == sets[i][end as int],
                forall|i: int, a: int, b: int|
                    0 <= i < q && 0 <= a < automaton@[i]@.len() && 0 <= b < automaton@[i]@.len() && a != b
                        ==> (#[trigger] automaton@[i]@[a]).0 != (#[trigger] automaton@[i]@[b]).0,
                forall|i: int, a: int|
                    0 <= i < q && 0 <= a < automaton@[i]@.len() ==> (#[trigger] automaton@[i]@[a]).1 < count
                        && marked(sets[automaton@[i]@[a].1 as int]) == subset_move(
                        efa,
                        marked(sets[i]),
                        automaton@[i]@[a].0,
                    ),
                forall|i: int, c: char|
                    0 <= i < q && !(exists|a: int| 0 <= a < automaton@[i]@.len() && automaton@[i]@[a].0 == c)
                        ==> #[trigger] subset_move(efa, marked(sets[i]), c) == Set::<State>::empty(),
            decreases usize::MAX - q, usize::MAX - count,
        {
            let marks = match reg.get_value(&q) {
                Some(m) => m,
                None => {
                    proof {
                        assert(reg.states().contains_key(sets[q as int]));
                        assert(reg.has_state(q));
                    }
                    return None;
                },
            };
            proof {
                reg.lemma_wf();
                assert(reg.states().contains_key(sets[q as int]));
                assert(marks@ == sets[q as int]);
            }
            accepting.push(marks[end]);
            let alphabet = alphabet_of(efa, &marks);
            assert(registered(reg.states(), sets));
            let mut row: Vec<(char, State)> = Vec::new();
            let mut j: usize = 0;
            while j < alphabet.len()
                invariant
                    efa.wf(),
                    n == efa.n_states(),
                    marks@ == sets[q as int],
                    marks@.len() == n,
                    alphabet@.no_duplicates(),
                    reg.wf(),
                    reg.counter() == count,
                    1 <= count,
                    sets.len() == count,
                    q < count,
                    sets[0] == first_set,
                    forall|i: int| 0 <= i < count ==> (#[trigger] sets[i]).len() == n,
                    registered(reg.states(), sets),
                    derived(efa, sets),
                    marked(first_set) == eps_reach(efa, set![start], None),
                    efa.start_state() == Some(start),
                    j <= alphabet@.len(),
                    row@.len() == j,
                    forall|a: int| 0 <= a < j ==> (#[trigger] row@[a]).0 == alphabet@[a],
                    forall|a: int|
                        0 <= a < j ==> (#[trigger] row@[a]).1 < count && marked(sets[row@[a].1 as int])
                            == subset_move(efa, marked(sets[q as int]), row@[a].0),
                    forall|i: int| 0 <= i < q ==> #[trigger] accepting@[i] == sets[i][end as int],
                    forall|i: int, c: char|
                        0 <= i < q && !(exists|a: int| 0 <= a < automaton@[i]@.len() && automaton@[i]@[a].0 == c)
                            ==> #[trigger] subset_move(efa, marked(sets[i]), c) == Set::<State>::empty(),
                    forall|i: int, a: int|
                        0 <= i < q && 0 <= a < automaton@[i]@.len() ==> (#[trigger] automaton@[i]@[a]).1 < count
                            && marked(sets[automaton@[i]@[a].1 as int]) == subset_move(
                            efa,
                            marked(sets[i]),
                            automaton@[i]@[a].0,
                        ),
                decreases alphabet@.len() - j,
            {
                let c = alphabet[j];
                let t = subset_step(efa, &marks, c);
                if count == usize::MAX {
                    proof {
                        reg.lemma_wf();
                        assert forall|a: int, b: int| 0 <= a < sets.len() && 0 <= b < sets.len() && a != b implies sets[a] != sets[b] by {
                            assert(reg.states().contains_key(sets[a]));
                            assert(reg.states().contains_key(sets[b]));
                        }
                        assert(too_many_subsets(efa));
                    }
                    return None;
                }
                let ghost before = reg.states();
                let p = reg.generate_for(&t);
                proof {
                    reg.lemma_wf();
                }
                if p == count {
                    proof {
                        if before.contains_key(t@) {
                            assert(reg.states()[t@].below(reg.counter()));
                            assert(p < count);
                        }
                        let old_sets = sets;
                        sets = sets.push(t@);
                        assert forall|i: int| 0 < i < sets.len() implies exists|jj: int, cc: char|
                            0 <= jj < i && #[trigger] marked(sets[i]) == subset_move(efa, marked(sets[jj]), cc) by {
                            if i < count {
                                let (jj, cc) = choose|jj: int, cc: char|
                                    0 <= jj < i && #[trigger] marked(old_sets[i]) == subset_move(efa, marked(old_sets[jj]), cc);
                                assert(sets[i] == old_sets[i] && sets[jj] == old_sets[jj]);
                            } else {
                                assert(sets[i] == t@);
                                assert(sets[q as int] == old_sets[q as int]);
                                assert(marked(sets[i]) == subset_move(efa, marked(sets[q as int]), c));
                            }
                        }
                        assert forall|i: int| 0 <= i < count + 1 implies #[trigger] reg.states().contains_key(sets[i])
                            && reg.states()[sets[i]] == i by {
                            if i < count {
                                assert(before.contains_key(sets[i]));
                            }
                        }
                    }
                    count = count + 1;
                } else {
                    proof {
                        assert(before.contains_key(t@));
                        assert(reg.states()[t@].below(reg.counter()));
                        assert(p < count);
                        assert(reg.states().contains_key(sets[p as int]));
                        assert(reg.states()[sets[p as int]] == p);
                        if sets[p as int] != t@ {
                            assert(reg.states()[sets[p as int]] != reg.states()[t@]);
                        }
                    }
                }
                row.push((c, p));
                proof {
                    assert(row@[j as int] == (c, p));
                    assert(marked(sets[p as int]) == subset_move(efa, marked(sets[q as int]), c));
                }
                j = j + 1;
            }
            proof {
                assert forall|c: char| !(exists|a: int| 0 <= a < row@.len() && row@[a].0 == c)
                    implies #[trigger] subset_move(efa, marked(sets[q as int]), c) == Set::<State>::empty() by {
                    if alphabet@.contains(c) {
                        let a = choose|a: int| 0 <= a < alphabet@.len() && alphabet@[a] == c;
                        assert(row@[a].0 == c);
                    }
                    assert(!direct_below(efa, marks@, marks@.len() as int, c));
                    assert(direct_step(efa, marked(marks@), c) =~= Set::<State>::empty()) by {
                        assert forall|t: State| !direct_step(efa, marked(marks@), c).contains(t) by {
                            if direct_step(efa, marked(marks@), c).contains(t) {
                                let x = choose|x: State| #[trigger] marked(marks@).contains(x) && efa.spec_direct(x, c, t);
                                assert(x < marks@.len());
                            }
                        }
                    }
                    let g = EpsStep { aut: efa, blocked_by: None };
                    assert forall|v: State| !subset_move(efa, marked(sets[q as int]), c).contains(v) by {
                        assert forall|k: nat| !reach_in(&g, Set::<State>::empty(), v, k) by {
                            lemma_nothing_from_empty(&g, v, k);
                        }
                    }
                    assert(subset_move(efa, marked(sets[q as int]), c) =~= Set::<State>::empty());
                }
                assert forall|a: int, b: int| 0 <= a < row@.len() && 0 <= b < row@.len() && a != b
                    implies (#[trigger] row@[a]).0 != (#[trigger] row@[b]).0 by {
                    assert(alphabet@[a] != alphabet@[b]);
                }
            }
            let ghost prev_rows = automaton@;
            automaton.push(row);
            proof {
                assert forall|i: int| 0 <= i < q ==> automaton@[i] == prev_rows[i] by {}
                assert(automaton@[q as int] == row);
            }
            q = q + 1;
        }
        let d = DFA { automaton, start: Some(s0), accepting };
        proof {
            assert(s0 == 0);
            assert forall|qq: int, k: int|
                0 <= qq < d.n_states() && 0 <= k < d.row(qq).len() implies (#[trigger] d.row(qq)[k]).1
                    < d.n_states() by {
                assert(d.row(qq)[k] == d.automaton@[qq]@[k]);
            }
            assert forall|qq: int, a: int, b: int|
                0 <= qq < d.n_states() && 0 <= a < d.row(qq).len() && 0 <= b < d.row(qq).len() && a
                    != b implies (#[trigger] d.row(qq)[a]).0 != (#[trigger] d.row(qq)[b]).0 by {
                assert(d.row(qq)[a] == d.automaton@[qq]@[a]);
                assert(d.row(qq)[b] == d.automaton@[qq]@[b]);
            }
            assert(d.wf());
            assert forall|qq: State| qq < d.n_states() implies (#[trigger] d.is_accepting(qq) <==> marked(
                sets[qq as int],
            ).contains(end)) by {
                assert(d.accepting@[qq as int] == sets[qq as int][end as int]);
            }
            assert forall|qq: State, c: char| qq < d.n_states() implies match #[trigger] d.delta(qq, c) {
                Some(p) => marked(sets[p as int]) == subset_move(efa, marked(sets[qq as int]), c),
                None => subset_move(efa, marked(sets[qq as int]), c) == Set::<State>::empty(),
            } by {
                if exists|p: State| d.has_trans(qq, c, p) {
                    let p = choose|p: State| d.has_trans(qq, c, p);
                    let a = choose|a: int| 0 <= a < d.row(qq as int).len() && d.row(qq as int)[a] == (c, p);
                    assert(d.automaton@[qq as int]@[a] == (c, p));
                } else {
                    if exists|a: int| 0 <= a < d.automaton@[qq as int]@.len() && d.automaton@[qq as int]@[a].0 == c {
                        let a = choose|a: int| 0 <= a < d.automaton@[qq as int]@.len() && d.automaton@[qq as int]@[a].0 == c;
                        assert(d.row(qq as int).contains((c, d.automaton@[qq as int]@[a].1)));
                        assert(d.has_trans(qq, c, d.automaton@[qq as int]@[a].1));
                    }
                }
            }
            reg.lemma_wf();
            assert forall|p: int, qq: int| 0 <= p < sets.len() && 0 <= qq < sets.len() && p != qq implies sets[p] != sets[qq] by {
                assert(reg.states().contains_key(sets[p]));
                assert(reg.states().contains_key(sets[qq]));
                assert(reg.states()[sets[p]] == p);
                assert(reg.states()[sets[qq]] == qq);
            }
            assert(Self::is_subset_dfa(efa, &d, sets));
        }
        let mut all: Vec<Vec<bool>> = Vec::new();
        let mut i: usize = 0;
        while i < count
            invariant
                i <= count,
                sets.len() == count,
                reg.wf(),
                registered(reg.states(), sets),
                all@.len() == i,
                forall|j: int| 0 <= j < i ==> (#[trigger] all@[j])@ == sets[j],
            decreases count - i,
        {
            proof {
                reg.lemma_wf();
                assert(reg.states().contains_key(sets[i as int]));
            }
            match reg.get_value(&i) {
                Some(m) => {
                    all.push(m);
                },
                None => {
                    proof {
                        assert(reg.has_state(i));
                    }
                    return None;
                },
            }
            i = i + 1;
        }
        proof {
            assert(marks_view(all@) =~= sets);
        }
        Some((d, all))
    }

    /// Subset construction: the deterministic automaton whose states stand
    /// for the sets of EFA states reached, breadth first from the closure
    /// of the EFA's start. `None` when the EFA has no start or no end, or
    /// when it reaches more sets than a `State` can number.
    pub fn from_efa(efa: &EFA) -> (r: Option<DFA>)
        requires
            efa.wf(),
        ensures
            efa.start_state() is None || efa.end_state() is None ==> r is None,
            r is None ==> efa.start_state() is None || efa.end_state() is None || too_many_subsets(efa),
            r matches Some(d) ==> d.deterministic(),
            r matches Some(d) ==> exists|sets: Seq<Seq<bool>>| Self::is_subset_dfa(efa, &d, sets),
    {
        match Self::subset_construction(efa) {
            Some((d, m)) => Some(d),
            None => None,
        }
    }
}

impl DFA {
    /// The state that `q` moves to on `c`, if any.
    pub fn next_state(&self, q: State, c: char) -> (r: Option<State>)
        requires
            self.wf(),
            q < self.n_states(),
        ensures
            r == self.delta(q, c),
            r matches Some(p) ==> p < self.n_states(),
    {
        let row = &self.automaton[q];
        let mut k: usize = 0;
        while k < row.len()
            invariant
                self.wf(),
                q < self.n_states(),
                row@ == self.row(q as int),
                k <= row@.len(),
                forall|a: int| 0 <= a < k ==> row@[a].0 != c,
            decreases row@.len() - k,
        {
            if row[k].0 == c {
                let p = row[k].1;
                proof {
                    assert(row@[k as int] == (c, p));
                    assert(self.has_trans(q, c, p));
                    assert forall|pr: State| self.has_trans(q, c, pr) implies pr == p by {
                        let b = choose|b: int| 0 <= b < row@.len() && row@[b] == (c, pr);
                        assert(self.row(q as int)[b].0 == self.row(q as int)[k as int].0);
                    }
                    assert(self.row(q as int)[k as int].1 < self.n_states());
                }
                return Some(p);
            }
            k = k + 1;
        }
        proof {
            assert forall|pr: State| !self.has_trans(q, c, pr) by {
                if self.has_trans(q, c, pr) {
                    let b = choose|b: int| 0 <= b < row@.len() && row@[b] == (c, pr);
                }
            }
        }
        None
    }

    /// Walks the automaton from the start state over `text[from..]`,
    /// succeeding as soon as an accepting state is reached.
    fn recursive_parse(&self, text: &Vec<char>, from: usize) -> (r: bool)
        requires
            self.wf(),
            from <= text@.len(),
        ensures
            r == self.accepts_prefix(text@.skip(from as int)),
    {
        let mut q = match self.start {
            Some(s) => s,
            None => return false,
        };
        let mut i: usize = from;
        while i <= text.len()
            invariant
                self.wf(),
                from <= i <= text@.len(),
                q < self.n_states(),
                self.accepts_prefix(text@.skip(from as int)) == self.run_accepts(q, text@.skip(i as int)),
            decreases text@.len() - i,
        {
            if self.accepting[q] {
                return true;
            }
            if i == text.len() {
                return false;
            }
            let c = text[i];
            proof {
                assert(text@.skip(i as int)[0] == c);
                assert(text@.skip(i as int).drop_first() =~= text@.skip(i + 1));
            }
            match self.next_state(q, c) {
                Some(p) => {
                    q = p;
                },
                None => {
                    return false;
                },
            }
            i = i + 1;
        }
        false
    }

    /// The leftmost offset of `text` at which the automaton matches a
    /// prefix of the rest; on an empty text, 0 when it accepts the empty
    /// input.
    pub fn parse(&self, text: &str) -> (r: Option<usize>)
        requires
            self.wf(),
        ensures
            as_pos(r) == find_result(|t: Seq<char>| self.accepts_prefix(t), text@),
    {
        let chars = chars_of(text);
        let ghost m = |t: Seq<char>| self.accepts_prefix(t);
        let mut pos: usize = 0;
        while pos < chars.len()
            invariant
                self.wf(),
                pos <= chars@.len(),
                chars@ == text@,
                m == (|t: Seq<char>| self.accepts_prefix(t)),
                chars@.len() > 0 ==> leftmost_from(m, chars@, 0) == leftmost_from(m, chars@, pos as nat),
            decreases chars@.len() - pos,
        {
            if self.recursive_parse(&chars, pos) {
                return Some(pos);
            }
            pos = pos + 1;
        }
        proof {
            assert(chars@.skip(0) =~= chars@);
        }
        if chars.len() == 0 && self.recursive_parse(&chars, 0) {
            return Some(0);
        }
        None
    }
}

} // verus!
