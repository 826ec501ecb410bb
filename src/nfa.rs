use vstd::prelude::*;
use crate::dfa::{DFA, marked, marks_view, too_many_subsets};
use crate::efa::EFA;
use crate::matcher::set_of_marks;
use crate::state_generator::State;

verus! {

/// The subset construction with each state named by its set of EFA states,
/// listed in increasing order: entry `q` holds the set and its moves, each
/// a symbol and the set it leads to.
pub struct NFA {
    pub(crate) automaton: Vec<(Vec<State>, Vec<(char, Vec<State>)>)>,
    pub(crate) start: Option<Vec<State>>,
    pub(crate) end: Option<State>,
}

impl NFA {
    pub open(crate) spec fn end_state(&self) -> Option<State> {
        self.end
    }

    /// The entries list the states of `d` by the sets in `sets`, with the
    /// moves of `d`, in order.
    pub open(crate) spec fn lists(&self, d: &DFA, sets: Seq<Seq<bool>>) -> bool {
        &&& self.automaton@.len() == d.n_states()
        &&& forall|q: int| 0 <= q < d.n_states() ==> (#[trigger] self.automaton@[q]).0@.to_set() == marked(sets[q])
        &&& forall|q: int| 0 <= q < d.n_states() ==> (#[trigger] self.automaton@[q]).1@.len() == d.row(q).len()
        &&& forall|q: int, k: int|
            0 <= q < d.n_states() && 0 <= k < d.row(q).len() ==> (#[trigger] self.automaton@[q].1@[k]).0 == d.row(q)[k].0
                && self.automaton@[q].1@[k].1@.to_set() == marked(sets[d.row(q)[k].1 as int])
        &&& self.start matches Some(l) && l@.to_set() == marked(sets[0])
    }

    /// Subset construction from `efa`, naming each state by its set.
    /// `None` when the EFA has no start or no end, or when it reaches more
    /// sets than a `State` can number.
    pub fn from_efa(efa: &EFA) -> (r: Option<NFA>)
        requires
            efa.wf(),
        ensures
            efa.start_state() is None || efa.end_state() is None ==> r is None,
            r is None ==> efa.start_state() is None || efa.end_state() is None || too_many_subsets(efa),
            r matches Some(nfa) ==> nfa.end_state() == efa.end_state() && exists|d: DFA, sets: Seq<Seq<bool>>|
                DFA::is_subset_dfa(efa, &d, sets) && nfa.lists(&d, sets),
    {
        let (d, m) = match DFA::subset_construction(efa) {
            Some(x) => x,
            None => return None,
        };
        let ghost sets = marks_view(m@);
        let n = d.automaton.len();
        let mut automaton: Vec<(Vec<State>, Vec<(char, Vec<State>)>)> = Vec::new();
        let mut q: usize = 0;
        while q < n
            invariant
                DFA::is_subset_dfa(efa, &d, sets),
                sets == marks_view(m@),
                n == d.n_states(),
                q <= n,
                automaton@.len() == q,
                forall|x: int| 0 <= x < q ==> (#[trigger] automaton@[x]).0@.to_set() == marked(sets[x]),
                forall|x: int| 0 <= x < q ==> (#[trigger] automaton@[x]).1@.len() == d.row(x).len(),
                forall|x: int, k: int|
                    0 <= x < q && 0 <= k < d.row(x).len() ==> (#[trigger] automaton@[x].1@[k]).0 == d.row(x)[k].0
                        && automaton@[x].1@[k].1@.to_set() == marked(sets[d.row(x)[k].1 as int]),
            decreases n - q,
        {
            let states = set_of_marks(&m[q]);
            proof {
                assert(states@.to_set() =~= marked(sets[q as int]));
            }
            let row = &d.automaton[q];
            let mut moves: Vec<(char, Vec<State>)> = Vec::new();
            let mut k: usize = 0;
            while k < row.len()
                invariant
                    DFA::is_subset_dfa(efa, &d, sets),
                    sets == marks_view(m@),
                    n == d.n_states(),
                    q < n,
                    row@ == d.row(q as int),
                    k <= row@.len(),
                    moves@.len() == k,
                    forall|kk: int| 0 <= kk < k ==> (#[trigger] moves@[kk]).0 == row@[kk].0
                        && moves@[kk].1@.to_set() == marked(sets[row@[kk].1 as int]),
                decreases row@.len() - k,
            {
                let (c, p) = row[k];
                proof {
                    assert(d.row(q as int)[k as int].1 < n);
                }
                let target = set_of_marks(&m[p]);
                proof {
                    assert(target@.to_set() =~= marked(sets[p as int]));
                }
                moves.push((c, target));
                k = k + 1;
            }
            automaton.push((states, moves));
            q = q + 1;
        }
        let start = set_of_marks(&m[0]);
        proof {
            assert(start@.to_set() =~= marked(sets[0]));
        }
        let r = NFA { automaton, start: Some(start), end: efa.get_end() };
        proof {
            assert(r.lists(&d, sets));
        }
        Some(r)
    }
}

} // verus!
