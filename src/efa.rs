use vstd::prelude::*;
use crate::graph::{lemma_push_contains, reach};
use crate::matcher::{
    EpsStep, StepAutomaton, chars_of, eps_reach, find_in, find_result, matches_prefix, as_pos,
};

verus! {

/// A state identifier.
pub type State = usize;

/// An automaton with epsilon moves, as Thompson's construction builds it.
/// State `s` owns row `s` of the table: its moves in insertion order, each a
/// symbol (`None` for an epsilon move) and a target state.
pub struct EFA {
    pub(crate) automaton: Vec<Vec<(Option<char>, State)>>,
    pub(crate) start: Option<State>,
    pub(crate) end: Option<State>,
}

impl EFA {
    /// Number of states with a row in the table.
    pub open(crate) spec fn n_states(&self) -> nat {
        self.automaton@.len()
    }

    /// The moves of state `s`; empty for a state without a row.
    pub open(crate) spec fn row(&self, s: int) -> Seq<(Option<char>, State)> {
        if 0 <= s < self.automaton@.len() {
            self.automaton@[s]@
        } else {
            seq![]
        }
    }

    pub open(crate) spec fn start_state(&self) -> Option<State> {
        self.start
    }

    pub open(crate) spec fn end_state(&self) -> Option<State> {
        self.end
    }

    /// `s` has a move on `sym` (`None`: an epsilon move) to `t`.
    pub open(crate) spec fn has_move(&self, s: State, sym: Option<char>, t: State) -> bool {
        self.row(s as int).contains((sym, t))
    }

    /// Every state that the table or the start and end name has a row.
    pub open(crate) spec fn wf(&self) -> bool {
        &&& forall|s: int, k: int|
            0 <= s < self.n_states() && 0 <= k < self.row(s).len() ==> (#[trigger] self.row(s)[k]).1
                < self.n_states()
        &&& self.start matches Some(s) ==> s < self.n_states()
        &&& self.end matches Some(s) ==> s < self.n_states()
    }

    /// The epsilon closure of `s`: the states reached from `s` by epsilon
    /// moves alone, together with `s` itself.
    pub open(crate) spec fn closure_of(&self, s: State) -> Set<State> {
        if s < self.n_states() {
            eps_reach(self, set![s], None)
        } else {
            set![s]
        }
    }

    pub fn new() -> (r: Self)
        ensures
            r.wf(),
            r.n_states() == 0,
            r.start_state().is_none(),
            r.end_state().is_none(),
    {
        EFA { automaton: Vec::new(), start: None, end: None }
    }

    /// Gives every state up to `s` a row; new rows are empty.
    fn cover(&mut self, s: State)
        requires
            old(self).wf(),
            s < usize::MAX,
        ensures
            final(self).wf(),
            final(self).n_states() == if s + 1 > old(self).n_states() {
                (s + 1) as nat
            } else {
                old(self).n_states()
            },
            forall|q: int| #[trigger] final(self).row(q) == old(self).row(q),
            final(self).start == old(self).start,
            final(self).end == old(self).end,
    {
        while self.automaton.len() <= s
            invariant
                self.wf(),
                s < usize::MAX,
                self.n_states() <= if s + 1 > old(self).n_states() {
                    (s + 1) as nat
                } else {
                    old(self).n_states()
                },
                self.n_states() >= old(self).n_states(),
                forall|q: int| #[trigger] self.row(q) == old(self).row(q),
                self.start == old(self).start,
                self.end == old(self).end,
            decreases s + 1 - self.automaton@.len(),
        {
            let ghost prev = *self;
            self.automaton.push(Vec::new());
            proof {
                assert forall|q: int| #[trigger] self.row(q) == prev.row(q) by {
                    if 0 <= q < prev.n_states() {
                        assert(self.automaton@[q] == prev.automaton@[q]);
                    } else if q == prev.n_states() {
                        assert(self.automaton@[q]@ =~= seq![]);
                    }
                }
                assert forall|s: int, k: int|
                    0 <= s < self.n_states() && 0 <= k < self.row(s).len() implies (#[trigger] self.row(s)[k]).1
                        < self.n_states() by {
                    assert(self.row(s) == prev.row(s));
                }
            }
        }
    }

    /// Adds a move from `i_state` on `input` (`None`: epsilon) to `f_state`,
    /// after the moves that `i_state` already has.
    pub fn transition(&mut self, i_state: State, input: Option<char>, f_state: State)
        requires
            old(self).wf(),
            i_state < usize::MAX,
            f_state < usize::MAX,
        ensures
            final(self).wf(),
            final(self).n_states() == vstd::math::max(
                old(self).n_states() as int,
                vstd::math::max(i_state + 1, f_state + 1),
            ),
            forall|q: int| #[trigger] final(self).row(q) == if q == i_state {
                old(self).row(q).push((input, f_state))
            } else {
                old(self).row(q)
            },
            final(self).start_state() == old(self).start_state(),
            final(self).end_state() == old(self).end_state(),
    {
        self.cover(i_state);
        self.cover(f_state);
        let ghost mid = *self;
        let mut row = copy_row(&self.automaton[i_state]);
        row.push((input, f_state));
        self.automaton.set(i_state, row);
        proof {
            assert forall|q: int| #[trigger] self.row(q) == if q == i_state {
                old(self).row(q).push((input, f_state))
            } else {
                old(self).row(q)
            } by {
                assert(mid.row(q) == old(self).row(q));
            }
            assert forall|s: int, k: int|
                0 <= s < self.n_states() && 0 <= k < self.row(s).len() implies (#[trigger] self.row(s)[k]).1
                    < self.n_states() by {
                if s == i_state && k == self.row(s).len() - 1 {
                } else {
                    assert(self.row(s)[k] == mid.row(s)[k]);
                }
            }
        }
    }

    /// Gives `i_state` a row with no moves, replacing any it had.
    pub fn empty_transition(&mut self, i_state: State)
        requires
            old(self).wf(),
            i_state < usize::MAX,
        ensures
            final(self).wf(),
            final(self).n_states() == vstd::math::max(old(self).n_states() as int, i_state + 1),
            forall|q: int| #[trigger] final(self).row(q) == if q == i_state {
                seq![]
            } else {
                old(self).row(q)
            },
            final(self).start_state() == old(self).start_state(),
            final(self).end_state() == old(self).end_state(),
    {
        self.cover(i_state);
        let ghost mid = *self;
        self.automaton.set(i_state, Vec::new());
        proof {
            assert forall|q: int| #[trigger] self.row(q) == if q == i_state {
                seq![]
            } else {
                old(self).row(q)
            } by {
                assert(mid.row(q) == old(self).row(q));
                if q == i_state {
                    assert(self.row(q) =~= seq![]);
                }
            }
            assert forall|s: int, k: int|
                0 <= s < self.n_states() && 0 <= k < self.row(s).len() implies (#[trigger] self.row(s)[k]).1
                    < self.n_states() by {
                assert(self.row(s)[k] == mid.row(s)[k]);
            }
        }
    }

    /// Makes `start` the start state.
    pub fn set_start(&mut self, start: State)
        requires
            old(self).wf(),
            start < usize::MAX,
        ensures
            final(self).wf(),
            final(self).n_states() == vstd::math::max(old(self).n_states() as int, start + 1),
            forall|q: int| #[trigger] final(self).row(q) == old(self).row(q),
            final(self).start_state() == Some(start),
            final(self).end_state() == old(self).end_state(),
    {
        self.cover(start);
        let ghost mid = *self;
        self.start = Some(start);
        proof {
            assert(self.automaton@ == mid.automaton@);
            assert forall|q: int| #[trigger] self.row(q) == mid.row(q) by {}
            assert forall|s: int, k: int|
                0 <= s < self.n_states() && 0 <= k < self.row(s).len() implies (#[trigger] self.row(s)[k]).1
                    < self.n_states() by {
                assert(self.row(s) == mid.row(s));
            }
        }
    }

    /// Makes `end` the end (accepting) state.
    pub fn set_end(&mut self, end: State)
        requires
            old(self).wf(),
            end < usize::MAX,
        ensures
            final(self).wf(),
            final(self).n_states() == vstd::math::max(old(self).n_states() as int, end + 1),
            forall|q: int| #[trigger] final(self).row(q) == old(self).row(q),
            final(self).start_state() == old(self).start_state(),
            final(self).end_state() == Some(end),
    {
        self.cover(end);
        let ghost mid = *self;
        self.end = Some(end);
        proof {
            assert(self.automaton@ == mid.automaton@);
            assert forall|q: int| #[trigger] self.row(q) == mid.row(q) by {}
            assert forall|s: int, k: int|
                0 <= s < self.n_states() && 0 <= k < self.row(s).len() implies (#[trigger] self.row(s)[k]).1
                    < self.n_states() by {
                assert(self.row(s) == mid.row(s));
            }
        }
    }

    pub fn get_start(&self) -> (r: Option<State>)
        ensures
            r == self.start_state(),
    {
        self.start
    }

    pub fn get_end(&self) -> (r: Option<State>)
        ensures
            r == self.end_state(),
    {
        self.end
    }

    /// The moves of `state`, or `None` when it has no row.
    pub fn get_possible_transitions(&self, state: &State) -> (r: Option<&Vec<(Option<char>, State)>>)
        ensures
            match r {
                Some(v) => *state < self.n_states() && v@ == self.row(*state as int),
                None => *state >= self.n_states(),
            },
    {
        if *state < self.automaton.len() {
            Some(&self.automaton[*state])
        } else {
            None
        }
    }

    /// The targets of the moves of `s` on `sym`, in insertion order.
    fn targets_on(&self, s: State, sym: Option<char>) -> (r: Vec<State>)
        requires
            s < self.n_states(),
        ensures
            forall|t: State| (self.has_move(s, sym, t) && t < self.n_states()) <==> r@.contains(t),
            forall|i: int| 0 <= i < r@.len() ==> r@[i] < self.n_states(),
    {
        let row = &self.automaton[s];
        let mut r: Vec<State> = Vec::new();
        let mut k: usize = 0;
        while k < row.len()
            invariant
                row@ == self.row(s as int),
                k <= row@.len(),
                forall|t: State| (row@.take(k as int).contains((sym, t)) && t < self.n_states()) <==> r@.contains(t),
                forall|i: int| 0 <= i < r@.len() ==> r@[i] < self.n_states(),
            decreases row@.len() - k,
        {
            let (label, t) = row[k];
            proof {
                assert(row@.take(k + 1) =~= row@.take(k as int).push(row@[k as int]));
                lemma_push_contains(row@.take(k as int), row@[k as int]);
            }
            if label == sym && t < self.automaton.len() {
                proof {
                    lemma_push_contains(r@, t);
                }
                r.push(t);
            } else {
                proof {
                    if label == sym {
                        assert(t >= self.n_states());
                    }
                }
            }
            k = k + 1;
        }
        proof {
            assert(row@.take(row@.len() as int) =~= row@);
        }
        r
    }

    /// The epsilon closure of `state`, in increasing order.
    pub fn closure(&self, state: State) -> (r: Vec<State>)
        requires
            self.wf(),
        ensures
            forall|t: State| r@.contains(t) <==> self.closure_of(state).contains(t),
            forall|a: int, b: int| 0 <= a < b < r@.len() ==> r@[a] < r@[b],
    {
        if state >= self.automaton.len() {
            let mut r = Vec::new();
            r.push(state);
            proof {
                assert forall|t: State| r@.contains(t) <==> self.closure_of(state).contains(t) by {
                    if t == state {
                        assert(r@[0] == t);
                    }
                }
            }
            return r;
        }
        let mut seeds: Vec<State> = Vec::new();
        seeds.push(state);
        proof {
            assert forall|x: usize| seeds@.to_set().contains(x) <==> set![state].contains(x) by {
                if x == state {
                    assert(seeds@[0] == x);
                }
            }
            assert(seeds@.to_set() =~= set![state]);
        }
        let g = EpsStep { aut: self, blocked_by: None };
        let marks = reach(&g, self.automaton.len(), &seeds);
        let mut r: Vec<State> = Vec::new();
        let mut i: usize = 0;
        while i < marks.len()
            invariant
                marks@.len() == self.n_states(),
                i <= marks@.len(),
                forall|v: usize| r@.contains(v) <==> v < i && marks@[v as int],
                forall|a: int| 0 <= a < r@.len() ==> r@[a] < i,
                forall|a: int, b: int| 0 <= a < b < r@.len() ==> r@[a] < r@[b],
            decreases marks@.len() - i,
        {
            if marks[i] {
                proof {
                    lemma_push_contains(r@, i);
                }
                r.push(i);
            }
            i = i + 1;
        }
        r
    }

    /// The leftmost offset of `text` at which the automaton matches a prefix
    /// of the rest (see `find_in`).
    pub fn parse(&self, text: &str) -> (r: Option<usize>)
        requires
            self.wf(),
            self.start_state().is_some(),
            self.end_state().is_some(),
        ensures
            as_pos(r) == find_result(|t: Seq<char>| matches_prefix(self, t), text@),
    {
        let chars = chars_of(text);
        let start = self.start.unwrap();
        let end = self.end.unwrap();
        find_in(self, self.automaton.len(), start, end, &chars)
    }
}

fn copy_row(v: &Vec<(Option<char>, State)>) -> (r: Vec<(Option<char>, State)>)
    ensures
        r@ == v@,
{
    let mut r: Vec<(Option<char>, State)> = Vec::new();
    let mut i: usize = 0;
    while i < v.len()
        invariant
            i <= v@.len(),
            r@ == v@.take(i as int),
        decreases v@.len() - i,
    {
        r.push(v[i]);
        i = i + 1;
        proof {
            assert(r@ =~= v@.take(i as int));
        }
    }
    proof {
        assert(v@.take(i as int) =~= v@);
    }
    r
}

impl StepAutomaton for EFA {
    open spec fn spec_n(&self) -> nat {
        self.n_states()
    }

    open spec fn spec_start(&self) -> usize {
        match self.start_state() {
            Some(s) => s,
            None => 0,
        }
    }

    open spec fn spec_end(&self) -> usize {
        match self.end_state() {
            Some(s) => s,
            None => 0,
        }
    }

    open spec fn spec_direct(&self, s: usize, c: char, t: usize) -> bool {
        s < self.n_states() && t < self.n_states() && self.has_move(s, Some(c), t)
    }

    open spec fn spec_eps(&self, s: usize, t: usize) -> bool {
        s < self.n_states() && t < self.n_states() && self.has_move(s, None, t)
    }

    proof fn lemma_moves_bounded(&self, s: usize, c: char, t: usize) {
    }

    fn direct_targets(&self, s: usize, c: char) -> (r: Vec<usize>) {
        self.targets_on(s, Some(c))
    }

    fn eps_targets(&self, s: usize) -> (r: Vec<usize>) {
        self.targets_on(s, None)
    }
}

} // verus!
