use vstd::prelude::*;
use crate::dfa::DFA;
use crate::graph::{Digraph, lemma_push_contains, lemma_reachable_step, lemma_seed_reachable, reach, reachable};
use crate::matcher::find_result;
use crate::state_generator::State;

verus! {

impl Digraph for DFA {
    open spec fn spec_size(&self) -> nat {
        self.n_states()
    }

    open spec fn spec_edge(&self, u: usize, v: usize) -> bool {
        u < self.n_states() && v < self.n_states() && exists|c: char| self.has_trans(u, c, v)
    }

    fn successors(&self, u: usize) -> (r: Vec<usize>) {
        let row = &self.automaton[u];
        let n = self.automaton.len();
        let mut r: Vec<usize> = Vec::new();
        let mut k: usize = 0;
        while k < row.len()
            invariant
                n == self.n_states(),
                u < n,
                row@ == self.row(u as int),
                k <= row@.len(),
                forall|i: int| 0 <= i < r@.len() ==> r@[i] < n,
                forall|v: usize| #[trigger] r@.contains(v) <==> v < n && exists|i: int| 0 <= i < k && row@[i].1 == v,
            decreases row@.len() - k,
        {
            let t = row[k].1;
            proof {
                lemma_push_contains(r@, t);
            }
            if t < n {
                r.push(t);
            }
            k = k + 1;
        }
        proof {
            assert forall|v: usize| self.spec_edge(u, v) <==> r@.contains(v) by {
                if self.spec_edge(u, v) {
                    let c = choose|c: char| self.has_trans(u, c, v);
                    let i = choose|i: int| 0 <= i < row@.len() && row@[i] == (c, v);
                }
                if r@.contains(v) {
                    let i = choose|i: int| 0 <= i < row@.len() && row@[i].1 == v;
                    assert(self.has_trans(u, row@[i].0, v));
                }
            }
        }
        r
    }
}

/// `h` maps the states of `dom` in `a` to states of `b` so that acceptance
/// and moves agree: a state accepts when its image does, and its move on
/// each symbol goes, through `h`, where the image's move goes.
pub open spec fn is_hom(a: &DFA, b: &DFA, h: Seq<State>, dom: Set<State>) -> bool {
    &&& forall|q: State| #[trigger] dom.contains(q) ==> q < a.n_states() && q < h.len() && h[q as int] < b.n_states()
    &&& forall|q: State| #[trigger] dom.contains(q) ==> b.is_accepting(h[q as int]) == a.is_accepting(q)
    &&& forall|q: State, c: char|
        #[trigger] dom.contains(q) ==> match #[trigger] a.delta(q, c) {
            Some(p) => dom.contains(p) && b.delta(h[q as int], c) == Some(h[p as int]),
            None => b.delta(h[q as int], c) is None,
        }
}

/// The states of `d` reachable from its start state.
pub open spec fn reach_set(d: &DFA) -> Set<State> {
    Set::new(|q: State| q < d.n_states() && reachable(d, set![d.start_state()->Some_0], q))
}

/// `h` numbers the reachable states of `a` one to one as the states of
/// `b`, keeping moves, acceptance and the start state.
pub open spec fn renumbers(a: &DFA, b: &DFA, h: Seq<State>) -> bool {
    &&& a.start_state() is Some
    &&& b.n_states() <= a.n_states()
    &&& is_hom(a, b, h, reach_set(a))
    &&& b.start_state() == Some(h[a.start_state()->Some_0 as int])
    &&& forall|q1: State, q2: State|
        reach_set(a).contains(q1) && reach_set(a).contains(q2) && #[trigger] h[q1 as int] == #[trigger] h[q2 as int]
            ==> q1 == q2
    &&& forall|x: State| x < b.n_states() ==> #[trigger] hits(reach_set(a), h, x)
}

/// Some state of `dom` is mapped to `x`.
pub open spec fn hits(dom: Set<State>, h: Seq<State>, x: State) -> bool {
    exists|q: State| #[trigger] dom.contains(q) && h[q as int] == x
}

/// Runs agree along a homomorphism.
pub proof fn lemma_hom_runs(a: &DFA, b: &DFA, h: Seq<State>, dom: Set<State>, q: State, t: Seq<char>)
    requires
        is_hom(a, b, h, dom),
        dom.contains(q),
    ensures
        b.run_accepts(h[q as int], t) == a.run_accepts(q, t),
    decreases t.len(),
{
    if !a.is_accepting(q) && t.len() > 0 {
        match a.delta(q, t[0]) {
            Some(p) => {
                lemma_hom_runs(a, b, h, dom, p, t.drop_first());
            },
            None => {},
        }
    }
}

/// The move of a state whose row is found at index `k`.
pub proof fn lemma_delta_at(d: &DFA, q: State, k: int)
    requires
        d.wf(),
        q < d.n_states(),
        0 <= k < d.row(q as int).len(),
    ensures
        d.delta(q, d.row(q as int)[k].0) == Some(d.row(q as int)[k].1),
{
    let (c, p) = d.row(q as int)[k];
    assert(d.has_trans(q, c, p));
    let pr = choose|pr: State| d.has_trans(q, c, pr);
    let kb = choose|kb: int| 0 <= kb < d.row(q as int).len() && d.row(q as int)[kb] == (c, pr);
    assert(d.row(q as int)[k].0 == d.row(q as int)[kb].0);
}

/// A row that is row `q` of `a` with each target mapped through `h` moves
/// as row `q` does, through `h`.
pub proof fn lemma_mapped_row(a: &DFA, b: &DFA, q: State, x: State, h: Seq<State>)
    requires
        a.wf(),
        b.wf(),
        q < a.n_states(),
        x < b.n_states(),
        b.row(x as int).len() == a.row(q as int).len(),
        forall|k: int| 0 <= k < a.row(q as int).len() ==> a.row(q as int)[k].1 < h.len() && #[trigger] b.row(x as int)[k] == (
            a.row(q as int)[k].0,
            h[a.row(q as int)[k].1 as int],
        ),
    ensures
        forall|c: char| match #[trigger] a.delta(q, c) {
            Some(p) => b.delta(x, c) == Some(h[p as int]),
            None => b.delta(x, c) is None,
        },
{
    assert forall|c: char| match #[trigger] a.delta(q, c) {
        Some(p) => b.delta(x, c) == Some(h[p as int]),
        None => b.delta(x, c) is None,
    } by {
        if exists|k: int| 0 <= k < a.row(q as int).len() && a.row(q as int)[k].0 == c {
            let k = choose|k: int| 0 <= k < a.row(q as int).len() && a.row(q as int)[k].0 == c;
            lemma_delta_at(a, q, k);
            assert(b.row(x as int)[k] == (c, h[a.row(q as int)[k].1 as int]));
            lemma_delta_at(b, x, k);
        } else {
            assert forall|p: State| !a.has_trans(q, c, p) by {
                if a.has_trans(q, c, p) {
                    let k = choose|k: int| 0 <= k < a.row(q as int).len() && a.row(q as int)[k] == (c, p);
                }
            }
            assert forall|p: State| !b.has_trans(x, c, p) by {
                if b.has_trans(x, c, p) {
                    let k = choose|k: int| 0 <= k < b.row(x as int).len() && b.row(x as int)[k] == (c, p);
                    assert(b.row(x as int)[k] == (a.row(q as int)[k].0, h[a.row(q as int)[k].1 as int]));
                }
            }
        }
    }
}

impl DFA {
    /// Drops the states that cannot be reached from the start state and
    /// numbers the others in their old order; the moves and the accepting
    /// states of those that stay are kept.
    pub fn remove_unreachable(&mut self)
        requires
            old(self).wf(),
            old(self).start_state() is Some,
        ensures
            final(self).wf(),
            final(self).start_state() is Some,
            final(self).n_states() <= old(self).n_states(),
            forall|t: Seq<char>| #[trigger] final(self).accepts_prefix(t) == old(self).accepts_prefix(t),
            exists|h: Seq<State>| renumbers(old(self), final(self), h),
    {
        let n = self.automaton.len();
        let start = self.start.unwrap();
        let mut seeds: Vec<State> = Vec::new();
        seeds.push(start);
        let marks = reach(self, n, &seeds);
        let ghost dom = Set::new(|q: State| q < n && marks@[q as int]);
        let mut new_id: Vec<State> = Vec::new();
        let mut old_of: Vec<State> = Vec::new();
        let mut q: usize = 0;
        while q < n
            invariant
                marks@.len() == n,
                q <= n,
                new_id@.len() == q,
                old_of@.len() <= q,
                forall|x: int| 0 <= x < q && marks@[x] ==> new_id@[x] < old_of@.len() && old_of@[new_id@[x] as int] == x,
                forall|i: int| 0 <= i < old_of@.len() ==> old_of@[i] < q && marks@[old_of@[i] as int] && new_id@[old_of@[i] as int] == i,
            decreases n - q,
        {
            new_id.push(old_of.len());
            if marks[q] {
                old_of.push(q);
            }
            q = q + 1;
        }
        let m = old_of.len();
        let mut automaton: Vec<Vec<(char, State)>> = Vec::new();
        let mut accepting: Vec<bool> = Vec::new();
        let mut i: usize = 0;
        while i < m
            invariant
                self.wf(),
                n == self.n_states(),
                *self == *old(self),
                marks@.len() == n,
                m == old_of@.len(),
                m <= n,
                new_id@.len() == n,
                forall|x: int| 0 <= x < n && marks@[x] ==> new_id@[x] < m && old_of@[new_id@[x] as int] == x,
                forall|j: int| 0 <= j < m ==> old_of@[j] < n && marks@[old_of@[j] as int] && new_id@[old_of@[j] as int] == j,
                forall|v: usize| v < n ==> (marks@[v as int] <==> reachable(self, seeds@.to_set(), v)),
                i <= m,
                automaton@.len() == i,
                accepting@.len() == i,
                forall|j: int| 0 <= j < i ==> accepting@[j] == self.accepting@[old_of@[j] as int],
                forall|j: int| 0 <= j < i ==> (#[trigger] automaton@[j])@.len() == self.row(old_of@[j] as int).len(),
                forall|j: int, k: int| 0 <= j < i && 0 <= k < self.row(old_of@[j] as int).len() ==> #[trigger] automaton@[j]@[k] == (
                    self.row(old_of@[j] as int)[k].0,
                    new_id@[self.row(old_of@[j] as int)[k].1 as int],
                ),
            decreases m - i,
        {
            let qq = old_of[i];
            let row = &self.automaton[qq];
            let mut new_row: Vec<(char, State)> = Vec::new();
            let mut k: usize = 0;
            while k < row.len()
                invariant
                    self.wf(),
                    n == self.n_states(),
                    qq < n,
                    marks@[qq as int],
                    marks@.len() == n,
                    new_id@.len() == n,
                    row@ == self.row(qq as int),
                    k <= row@.len(),
                    new_row@.len() == k,
                    forall|kk: int| 0 <= kk < k ==> #[trigger] new_row@[kk] == (row@[kk].0, new_id@[row@[kk].1 as int]),
                decreases row@.len() - k,
            {
                let (c, p) = row[k];
                proof {
                    assert(self.row(qq as int)[k as int].1 < n);
                }
                new_row.push((c, new_id[p]));
                k = k + 1;
            }
            automaton.push(new_row);
            accepting.push(self.accepting[qq]);
            i = i + 1;
        }
        let ghost h = new_id@;
        let new_start = new_id[start];
        let d = DFA { automaton, start: Some(new_start), accepting };
        proof {
            let sd = seeds@.to_set();
            assert(sd.contains(start)) by {
                assert(seeds@[0] == start);
            }
            lemma_seed_reachable(self, sd, start);
            assert forall|x: int, k: int| 0 <= x < m && 0 <= k < d.row(x).len() implies (#[trigger] d.row(x)[k]).1 < m by {
                let qq = old_of@[x];
                assert(d.row(x)[k] == d.automaton@[x]@[k]);
                let p = self.row(qq as int)[k].1;
                assert(self.has_trans(qq, self.row(qq as int)[k].0, p));
                assert(self.row(qq as int)[k].1 < n);
                assert(self.spec_edge(qq, p));
                lemma_reachable_step(self, sd, qq, p);
                assert(marks@[p as int]);
                assert(d.automaton@[x]@[k] == (self.row(qq as int)[k].0, new_id@[p as int]));
            }
            assert(marks@[start as int]);
            assert forall|x: int, a: int, b: int|
                0 <= x < m && 0 <= a < d.row(x).len() && 0 <= b < d.row(x).len() && a != b implies (#[trigger] d.row(x)[a]).0
                    != (#[trigger] d.row(x)[b]).0 by {
                assert(d.row(x)[a] == d.automaton@[x]@[a]);
                assert(d.row(x)[b] == d.automaton@[x]@[b]);
                assert(self.row(old_of@[x] as int)[a].0 != self.row(old_of@[x] as int)[b].0);
            }
            assert(d.wf());
            assert forall|qq: State| #[trigger] dom.contains(qq) implies qq < self.n_states() && qq < h.len() && h[qq as int] < d.n_states() by {}
            assert forall|qq: State| #[trigger] dom.contains(qq) implies d.is_accepting(h[qq as int]) == self.is_accepting(qq) by {}
            assert forall|qq: State, c: char| #[trigger] dom.contains(qq) implies match #[trigger] self.delta(qq, c) {
                Some(p) => dom.contains(p) && d.delta(h[qq as int], c) == Some(h[p as int]),
                None => d.delta(h[qq as int], c) is None,
            } by {
                let x = h[qq as int];
                assert(old_of@[x as int] == qq);
                assert forall|k: int| 0 <= k < self.row(qq as int).len() implies self.row(qq as int)[k].1 < h.len() && #[trigger] d.row(x as int)[k] == (
                    self.row(qq as int)[k].0,
                    h[self.row(qq as int)[k].1 as int],
                ) by {
                    assert(d.row(x as int)[k] == d.automaton@[x as int]@[k]);
                }
                lemma_mapped_row(self, &d, qq, x, h);
                if let Some(p) = self.delta(qq, c) {
                    assert(self.has_trans(qq, c, p));
                    let k = choose|k: int| 0 <= k < self.row(qq as int).len() && self.row(qq as int)[k] == (c, p);
                    assert(self.spec_edge(qq, p));
                    lemma_reachable_step(self, sd, qq, p);
                    assert(marks@[p as int]);
                }
            }
            assert(dom.contains(start));
            assert forall|t: Seq<char>| #[trigger] d.accepts_prefix(t) == self.accepts_prefix(t) by {
                lemma_hom_runs(self, &d, h, dom, start, t);
            }
            assert(sd =~= set![start]);
            assert(reach_set(self) =~= dom);
            assert forall|q1: State, q2: State|
                reach_set(self).contains(q1) && reach_set(self).contains(q2) && #[trigger] h[q1 as int] == #[trigger] h[q2 as int]
                    implies q1 == q2 by {
                assert(old_of@[h[q1 as int] as int] == q1);
                assert(old_of@[h[q2 as int] as int] == q2);
            }
            assert forall|x: State| x < d.n_states() implies #[trigger] hits(reach_set(self), h, x) by {
                let q = old_of@[x as int];
                assert(dom.contains(q));
            }
            assert(renumbers(self, &d, h));
        }
        *self = d;
    }
}

/// `m` is what minimizing `d` gives: a minimization of `d` that merges the
/// classes of the coarsest stable partition of the reachable part of `d`.
pub open spec fn minimized_from(d: &DFA, m: &DFA) -> bool {
    &&& minimizes(d, m)
    &&& exists|d1: DFA, h1: Seq<State>, cls: Seq<usize>, h2: Seq<State>|
        renumbers(d, &d1, h1) && d1.wf() && is_partition(&d1, cls) && is_stable(&d1, cls) && coarsest(&d1, cls)
            && quotient_by(&d1, m, cls, h2)
}

/// `m` is a minimization of `d`: a well-formed automaton with a start
/// state and no more states than `d`, that accepts a prefix of exactly the
/// texts that `d` does.
pub open spec fn minimizes(d: &DFA, m: &DFA) -> bool {
    &&& m.wf()
    &&& m.start_state() is Some
    &&& m.n_states() <= d.n_states()
    &&& forall|t: Seq<char>| #[trigger] m.accepts_prefix(t) == d.accepts_prefix(t)
}

/// Where a search with `d` reports a match in `text`.
pub open spec fn dfa_find(d: &DFA, text: Seq<char>) -> Option<nat> {
    find_result(|t: Seq<char>| d.accepts_prefix(t), text)
}

/// An automaton that matches the empty input matches at offset 0 of every
/// text, so an empty match at the end of a text never needs a probe of its
/// own.
pub proof fn lemma_empty_match_at_start(d: &DFA, text: Seq<char>)
    requires
        d.accepts_prefix(Seq::<char>::empty()),
    ensures
        dfa_find(d, text) == Some(0nat),
{
    let s = d.start_state()->Some_0;
    assert(d.is_accepting(s));
    assert(d.accepts_prefix(text.skip(0)));
}

/// A search reports the same offset on every text with an automaton and
/// with its minimization.
pub proof fn lemma_minimized_find_agrees(d: &DFA, m: &DFA)
    requires
        minimizes(d, m),
    ensures
        forall|text: Seq<char>| #[trigger] dfa_find(m, text) == dfa_find(d, text),
{
    assert((|t: Seq<char>| m.accepts_prefix(t)) =~= (|t: Seq<char>| d.accepts_prefix(t)));
}

/// From `q`, the move on `c` lands in the class whose representative is
/// `a`.
pub open spec fn lands_in(d: &DFA, cls: Seq<usize>, a: usize, c: char, q: State) -> bool {
    match d.delta(q, c) {
        Some(p) => cls[p as int] == a,
        None => false,
    }
}

/// `cls` maps each state to the least state of its class, and a class never
/// mixes accepting and non-accepting states.
pub open spec fn is_partition(d: &DFA, cls: Seq<usize>) -> bool {
    &&& cls.len() == d.n_states()
    &&& forall|q: int| 0 <= q < cls.len() ==> #[trigger] cls[q] <= q && cls[cls[q] as int] == cls[q]
    &&& forall|q: State| q < cls.len() ==> #[trigger] d.is_accepting(q) == d.is_accepting(cls[q as int])
}

/// No symbol tells two states of a class apart: each moves where its
/// class's representative moves, up to the class of the target.
pub open spec fn is_stable(d: &DFA, cls: Seq<usize>) -> bool {
    forall|q: State, c: char|
        q < cls.len() ==> match #[trigger] d.delta(q, c) {
            Some(p) => match d.delta(cls[q as int], c) {
                Some(pr) => cls[pr as int] == cls[p as int],
                None => false,
            },
            None => d.delta(cls[q as int], c) is None,
        }
}

/// Every stable partition of `d` that never mixes accepting and other
/// states puts together only states that `cls` puts together: `cls` is the
/// coarsest such partition.
pub open spec fn coarsest(d: &DFA, cls: Seq<usize>) -> bool {
    forall|pp: Seq<usize>, q1: State, q2: State|
        is_partition(d, pp) && is_stable(d, pp) && q1 < d.n_states() && q2 < d.n_states() && #[trigger] pp[q1 as int]
            == #[trigger] pp[q2 as int] ==> cls[q1 as int] == cls[q2 as int]
}

/// `x` marks the states whose move on `c` lands in the class of `a`.
pub open spec fn marks_landing(d: &DFA, cls: Seq<usize>, x: Seq<bool>, a: usize, c: char) -> bool {
    forall|q: State| q < d.n_states() ==> x[q as int] == #[trigger] lands_in(d, cls, a, c, q)
}

/// The states of `d`.
pub open spec fn all_states(d: &DFA) -> Set<State> {
    Set::new(|q: State| q < d.n_states())
}

/// `r` is `d` with the classes of `cls` merged: `h` maps each state of `d`
/// to the state of its class, keeping moves, acceptance and the start.
pub open spec fn quotient_by(d: &DFA, r: &DFA, cls: Seq<usize>, h: Seq<State>) -> bool {
    &&& d.start_state() is Some
    &&& is_hom(d, r, h, all_states(d))
    &&& r.start_state() == Some(h[d.start_state()->Some_0 as int])
    &&& forall|q1: State, q2: State|
        q1 < d.n_states() && q2 < d.n_states() ==> (#[trigger] h[q1 as int] == #[trigger] h[q2 as int] <==> cls[q1 as int]
            == cls[q2 as int])
    &&& forall|x: State| x < r.n_states() ==> #[trigger] hits(all_states(d), h, x)
}

/// In a stable partition, two states of one class land in the same class
/// of a coarsest partition on every symbol.
proof fn lemma_lands_agree(d: &DFA, cls: Seq<usize>, pp: Seq<usize>, a: usize, c: char, q1: State, q2: State)
    requires
        d.wf(),
        coarsest(d, cls),
        is_partition(d, pp),
        is_stable(d, pp),
        q1 < d.n_states(),
        q2 < d.n_states(),
        pp[q1 as int] == pp[q2 as int],
    ensures
        lands_in(d, cls, a, c, q1) == lands_in(d, cls, a, c, q2),
{
    let r = pp[q1 as int];
    let d1 = d.delta(q1, c);
    let d2 = d.delta(q2, c);
    if let Some(p1) = d1 {
        assert(d.has_trans(q1, c, p1));
        let k = choose|k: int| 0 <= k < d.row(q1 as int).len() && d.row(q1 as int)[k] == (c, p1);
        assert(d.row(q1 as int)[k].1 < d.n_states());
    }
    if let Some(p2) = d2 {
        assert(d.has_trans(q2, c, p2));
        let k = choose|k: int| 0 <= k < d.row(q2 as int).len() && d.row(q2 as int)[k] == (c, p2);
        assert(d.row(q2 as int)[k].1 < d.n_states());
    }
    match (d1, d2) {
        (Some(p1), Some(p2)) => {
            let rr = d.delta(r as State, c)->Some_0;
            assert(pp[rr as int] == pp[p1 as int]);
            assert(pp[rr as int] == pp[p2 as int]);
            assert(cls[p1 as int] == cls[p2 as int]);
        },
        (Some(p1), None) => {
            assert(d.delta(r as State, c) is None);
        },
        (None, Some(p2)) => {
            assert(d.delta(r as State, c) is None);
        },
        (None, None) => {},
    }
}

/// Number of class representatives among the first `k` states.
pub open spec fn count_reps(cls: Seq<usize>, k: int) -> nat
    decreases k,
{
    if k <= 0 {
        0
    } else {
        count_reps(cls, k - 1) + if cls[k - 1] == (k - 1) as usize {
            1nat
        } else {
            0nat
        }
    }
}

proof fn lemma_count_reps_bound(cls: Seq<usize>, k: int)
    requires
        k >= 0,
    ensures
        count_reps(cls, k) <= k,
    decreases k,
{
    if k > 0 {
        lemma_count_reps_bound(cls, k - 1);
    }
}

proof fn lemma_count_reps_grows(old_cls: Seq<usize>, new_cls: Seq<usize>, k: int, m: int)
    requires
        0 <= k,
        forall|q: int| 0 <= q < k && old_cls[q] == q as usize ==> new_cls[q] == q as usize,
    ensures
        count_reps(new_cls, k) >= count_reps(old_cls, k),
        0 <= m < k && new_cls[m] == m as usize && old_cls[m] != m as usize ==> count_reps(new_cls, k)
            > count_reps(old_cls, k),
    decreases k,
{
    if k > 0 {
        lemma_count_reps_grows(old_cls, new_cls, k - 1, m);
    }
}

impl DFA {
    /// Every symbol on some move, each once.
    fn get_alphabet(&self) -> (r: Vec<char>)
        requires
            self.wf(),
        ensures
            forall|c: char| #[trigger] r@.contains(c) <==> exists|q: State, p: State|
                q < self.n_states() && self.has_trans(q, c, p),
            r@.no_duplicates(),
    {
        let mut r: Vec<char> = Vec::new();
        let mut q: usize = 0;
        while q < self.automaton.len()
            invariant
                self.wf(),
                q <= self.n_states(),
                r@.no_duplicates(),
                forall|c: char| #[trigger] r@.contains(c) <==> exists|x: State, p: State|
                    x < q && self.has_trans(x, c, p),
            decreases self.n_states() - q,
        {
            let row = &self.automaton[q];
            let ghost r0 = r@;
            let mut k: usize = 0;
            while k < row.len()
                invariant
                    q < self.n_states(),
                    row@ == self.row(q as int),
                    k <= row@.len(),
                    r@.no_duplicates(),
                    forall|c: char| #[trigger] r@.contains(c) <==> (r0.contains(c) || exists|i: int|
                        0 <= i < k && row@[i].0 == c),
                decreases row@.len() - k,
            {
                let c = row[k].0;
                let mut found = false;
                let mut j: usize = 0;
                while j < r.len()
                    invariant
                        j <= r@.len(),
                        found == exists|i: int| 0 <= i < j && r@[i] == c,
                    decreases r@.len() - j,
                {
                    if r[j] == c {
                        found = true;
                    }
                    j = j + 1;
                }
                proof {
                    lemma_push_contains(r@, c);
                }
                if !found {
                    r.push(c);
                }
                proof {
                    assert forall|d: char| #[trigger] r@.contains(d) <==> (r0.contains(d) || exists|i: int|
                        0 <= i < k + 1 && row@[i].0 == d) by {
                        if exists|i: int| 0 <= i < k + 1 && row@[i].0 == d {
                            let i = choose|i: int| 0 <= i < k + 1 && row@[i].0 == d;
                            if i == k && found {
                                let ii = choose|ii: int| 0 <= ii < r@.len() && r@[ii] == c;
                                assert(r@.contains(c));
                            }
                        }
                    }
                }
                k = k + 1;
            }
            proof {
                assert forall|c: char| #[trigger] r@.contains(c) <==> exists|x: State, p: State|
                    x < q + 1 && self.has_trans(x, c, p) by {
                    if exists|i: int| 0 <= i < row@.len() && row@[i].0 == c {
                        let i = choose|i: int| 0 <= i < row@.len() && row@[i].0 == c;
                        assert(self.has_trans(q, c, row@[i].1));
                    }
                    if exists|x: State, p: State| x < q + 1 && self.has_trans(x, c, p) {
                        let (x, p) = choose|x: State, p: State| x < q + 1 && self.has_trans(x, c, p);
                        if x == q {
                            let i = choose|i: int| 0 <= i < row@.len() && row@[i] == (c, p);
                        }
                    }
                }
            }
            q = q + 1;
        }
        r
    }

    /// Every move on `token`, as (from, to) pairs.
    fn get_transitions_with(&self, token: char) -> (r: Vec<(State, State)>)
        requires
            self.wf(),
        ensures
            forall|q: State, p: State| #[trigger] r@.contains((q, p)) <==> q < self.n_states() && self.has_trans(q, token, p),
    {
        let mut r: Vec<(State, State)> = Vec::new();
        let mut q: usize = 0;
        while q < self.automaton.len()
            invariant
                self.wf(),
                q <= self.n_states(),
                forall|x: State, p: State| #[trigger] r@.contains((x, p)) <==> x < q && self.has_trans(x, token, p),
            decreases self.n_states() - q,
        {
            let row = &self.automaton[q];
            let ghost r0 = r@;
            let mut k: usize = 0;
            while k < row.len()
                invariant
                    q < self.n_states(),
                    row@ == self.row(q as int),
                    k <= row@.len(),
                    forall|x: State, p: State| #[trigger] r@.contains((x, p)) <==> (r0.contains((x, p)) || (x == q
                        && row@.take(k as int).contains((token, p)))),
                decreases row@.len() - k,
            {
                proof {
                    assert(row@.take(k + 1) =~= row@.take(k as int).push(row@[k as int]));
                    lemma_push_contains(row@.take(k as int), row@[k as int]);
                    lemma_push_contains(r@, (q, row@[k as int].1));
                }
                if row[k].0 == token {
                    r.push((q, row[k].1));
                }
                k = k + 1;
            }
            proof {
                assert(row@.take(k as int) =~= row@);
            }
            q = q + 1;
        }
        r
    }

    /// Marks the states whose move on `c` lands in the class of `a`.
    fn lands_marks(&self, cls: &Vec<usize>, a: usize, c: char) -> (r: Vec<bool>)
        requires
            self.wf(),
            is_partition(self, cls@),
        ensures
            r@.len() == self.n_states(),
            forall|q: State| q < self.n_states() ==> r@[q as int] == lands_in(self, cls@, a, c, q),
    {
        let n = self.automaton.len();
        let pairs = self.get_transitions_with(c);
        let mut r: Vec<bool> = Vec::new();
        let mut q: usize = 0;
        while q < n
            invariant
                q <= n,
                r@.len() == q,
                forall|x: int| 0 <= x < q ==> !r@[x],
            decreases n - q,
        {
            r.push(false);
            q = q + 1;
        }
        let mut i: usize = 0;
        while i < pairs.len()
            invariant
                self.wf(),
                is_partition(self, cls@),
                n == self.n_states(),
                r@.len() == n,
                i <= pairs@.len(),
                forall|x: State, p: State| #[trigger] pairs@.contains((x, p)) <==> x < n && self.has_trans(x, c, p),
                forall|x: State| x < n ==> (r@[x as int] <==> exists|j: int|
                    0 <= j < i && (#[trigger] pairs@[j]).0 == x && cls@[pairs@[j].1 as int] == a),
            decreases pairs@.len() - i,
        {
            let (x, p) = pairs[i];
            proof {
                assert(pairs@.contains((x, p)));
                let k = choose|k: int| 0 <= k < self.row(x as int).len() && self.row(x as int)[k] == (c, p);
                assert(self.row(x as int)[k].1 < n);
            }
            if cls[p] == a {
                r.set(x, true);
            }
            i = i + 1;
        }
        proof {
            assert forall|q: State| q < n implies r@[q as int] == lands_in(self, cls@, a, c, q) by {
                if r@[q as int] {
                    let j = choose|j: int| 0 <= j < pairs@.len() && (#[trigger] pairs@[j]).0 == q && cls@[pairs@[j].1 as int] == a;
                    assert(pairs@.contains(pairs@[j]));
                    let k = choose|k: int| 0 <= k < self.row(q as int).len() && self.row(q as int)[k] == (c, pairs@[j].1);
                    lemma_delta_at(self, q, k);
                }
                if lands_in(self, cls@, a, c, q) {
                    let p = self.delta(q, c)->Some_0;
                    assert(self.has_trans(q, c, p));
                    assert(pairs@.contains((q, p)));
                    let j = choose|j: int| 0 <= j < pairs@.len() && pairs@[j] == (q, p);
                }
            }
        }
        r
    }
}

impl DFA {
    /// The two starting classes: accepting states, and the others.
    fn initial_partition(&self) -> (cls: Vec<usize>)
        requires
            self.wf(),
        ensures
            is_partition(self, cls@),
            coarsest(self, cls@),
    {
        let n = self.automaton.len();
        let mut first_acc: usize = n;
        let mut first_rej: usize = n;
        let mut cls: Vec<usize> = Vec::new();
        let mut q: usize = 0;
        while q < n
            invariant
                self.wf(),
                n == self.n_states(),
                q <= n,
                cls@.len() == q,
                first_acc == n || (first_acc < q && self.is_accepting(first_acc)),
                first_rej == n || (first_rej < q && !self.is_accepting(first_rej)),
                forall|x: State| x < q && self.is_accepting(x) ==> first_acc <= x,
                forall|x: State| x < q && !self.is_accepting(x) ==> first_rej <= x,
                forall|x: int| 0 <= x < q ==> #[trigger] cls@[x] == if self.is_accepting(x as State) {
                    first_acc
                } else {
                    first_rej
                },
            decreases n - q,
        {
            if self.accepting[q] {
                if first_acc == n {
                    first_acc = q;
                }
                cls.push(first_acc);
            } else {
                if first_rej == n {
                    first_rej = q;
                }
                cls.push(first_rej);
            }
            q = q + 1;
        }
        proof {
            assert forall|x: int| 0 <= x < cls@.len() implies #[trigger] cls@[x] <= x && cls@[cls@[x] as int] == cls@[x] by {
                if self.is_accepting(x as State) {
                    assert(self.is_accepting(first_acc));
                } else {
                    assert(!self.is_accepting(first_rej));
                }
            }
            assert forall|x: State| x < cls@.len() implies #[trigger] self.is_accepting(x) == self.is_accepting(cls@[x as int] as State) by {
                if self.is_accepting(x) {
                    assert(self.is_accepting(first_acc));
                } else {
                    assert(!self.is_accepting(first_rej));
                }
            }
            assert forall|pp: Seq<usize>, q1: State, q2: State|
                is_partition(self, pp) && is_stable(self, pp) && q1 < self.n_states() && q2 < self.n_states() && #[trigger] pp[q1 as int]
                    == #[trigger] pp[q2 as int] implies cls@[q1 as int] == cls@[q2 as int] by {
                assert(self.is_accepting(q1) == self.is_accepting(pp[q1 as int] as State));
                assert(self.is_accepting(q2) == self.is_accepting(pp[q2 as int] as State));
            }
        }
        cls
    }

    /// Looks for a class that the states landing in one class on one symbol
    /// split: returns the class and those marks, or `None` when the
    /// partition is stable.
    fn find_split(&self, cls: &Vec<usize>, alphabet: &Vec<char>) -> (r: Option<(usize, Vec<bool>)>)
        requires
            self.wf(),
            is_partition(self, cls@),
            forall|c: char| #[trigger] alphabet@.contains(c) <==> exists|q: State, p: State|
                q < self.n_states() && self.has_trans(q, c, p),
        ensures
            match r {
                Some((y, x)) => x@.len() == self.n_states() && y < self.n_states() && cls@[y as int] == y
                    && (exists|q: int| 0 <= q < self.n_states() && cls@[q] == y && x@[q] != x@[y as int])
                    && exists|a: usize, c: char| #[trigger] marks_landing(self, cls@, x@, a, c),
                None => is_stable(self, cls@),
            },
    {
        let n = self.automaton.len();
        let mut a: usize = 0;
        while a < n
            invariant
                self.wf(),
                is_partition(self, cls@),
                n == self.n_states(),
                a <= n,
                forall|c: char| #[trigger] alphabet@.contains(c) <==> exists|q: State, p: State|
                    q < self.n_states() && self.has_trans(q, c, p),
                forall|ar: usize, c: char, q: State|
                    ar < a && cls@[ar as int] == ar && alphabet@.contains(c) && q < n ==> #[trigger] lands_in(
                        self,
                        cls@,
                        ar,
                        c,
                        q,
                    ) == lands_in(self, cls@, ar, c, cls@[q as int]),
            decreases n - a,
        {
            if cls[a] == a {
                let mut j: usize = 0;
                while j < alphabet.len()
                    invariant
                        self.wf(),
                        is_partition(self, cls@),
                        n == self.n_states(),
                        a < n,
                        cls@[a as int] == a,
                        j <= alphabet@.len(),
                        forall|ar: usize, c: char, q: State|
                            ar < a && cls@[ar as int] == ar && alphabet@.contains(c) && q < n ==> #[trigger] lands_in(
                                self,
                                cls@,
                                ar,
                                c,
                                q,
                            ) == lands_in(self, cls@, ar, c, cls@[q as int]),
                        forall|jj: int, q: State|
                            0 <= jj < j && q < n ==> #[trigger] lands_in(self, cls@, a, alphabet@[jj], q)
                                == lands_in(self, cls@, a, alphabet@[jj], cls@[q as int]),
                    decreases alphabet@.len() - j,
                {
                    let c = alphabet[j];
                    let x = self.lands_marks(cls, a, c);
                    let mut q: usize = 0;
                    while q < n
                        invariant
                            n == self.n_states(),
                            is_partition(self, cls@),
                            x@.len() == n,
                            forall|q2: State| q2 < n ==> x@[q2 as int] == #[trigger] lands_in(self, cls@, a, c, q2),
                            q <= n,
                            forall|q2: int| 0 <= q2 < q ==> x@[q2] == x@[cls@[q2] as int],
                        decreases n - q,
                    {
                        let y = cls[q];
                        if x[q] != x[y] {
                            proof {
                                assert(cls@[y as int] == y);
                                assert(marks_landing(self, cls@, x@, a, c));
                            }
                            return Some((y, x));
                        }
                        q = q + 1;
                    }
                    proof {
                        assert forall|q2: State| q2 < n implies #[trigger] lands_in(self, cls@, a, c, q2)
                            == lands_in(self, cls@, a, c, cls@[q2 as int]) by {
                            assert(x@[q2 as int] == x@[cls@[q2 as int] as int]);
                            assert(cls@[q2 as int] <= q2);
                        }
                    }
                    j = j + 1;
                }
                proof {
                    assert forall|ar: usize, c: char, q: State|
                        ar < a + 1 && cls@[ar as int] == ar && alphabet@.contains(c) && q < n implies #[trigger] lands_in(
                            self,
                            cls@,
                            ar,
                            c,
                            q,
                        ) == lands_in(self, cls@, ar, c, cls@[q as int]) by {
                        if ar == a {
                            let jj = choose|jj: int| 0 <= jj < alphabet@.len() && alphabet@[jj] == c;
                            assert(lands_in(self, cls@, a, alphabet@[jj], q) == lands_in(self, cls@, a, alphabet@[jj], cls@[q as int]));
                        }
                    }
                }
            }
            a = a + 1;
        }
        proof {
            assert forall|q: State, c: char| q < cls@.len() implies match #[trigger] self.delta(q, c) {
                Some(p) => match self.delta(cls@[q as int], c) {
                    Some(pr) => cls@[pr as int] == cls@[p as int],
                    None => false,
                },
                None => self.delta(cls@[q as int], c) is None,
            } by {
                let y = cls@[q as int];
                assert(y <= q);
                match self.delta(q, c) {
                    Some(p) => {
                        assert(self.has_trans(q, c, p));
                        let k = choose|k: int| 0 <= k < self.row(q as int).len() && self.row(q as int)[k] == (c, p);
                        assert(self.row(q as int)[k].1 < n);
                        assert(alphabet@.contains(c));
                        let ar = cls@[p as int];
                        assert(cls@[ar as int] == ar);
                        assert(ar <= p);
                        assert(lands_in(self, cls@, ar, c, q));
                        assert(lands_in(self, cls@, ar, c, y));
                    },
                    None => {
                        if let Some(pr) = self.delta(y, c) {
                            assert(self.has_trans(y, c, pr));
                            let k = choose|k: int| 0 <= k < self.row(y as int).len() && self.row(y as int)[k] == (c, pr);
                            assert(self.row(y as int)[k].1 < n);
                            assert(alphabet@.contains(c));
                            let ar = cls@[pr as int];
                            assert(cls@[ar as int] == ar);
                            assert(ar <= pr);
                            assert(lands_in(self, cls@, ar, c, y));
                            assert(lands_in(self, cls@, ar, c, q));
                        }
                    },
                }
            }
        }
        None
    }
}

/// Splits class `y` into the states that `x` marks as its representative
/// is marked and the others; the least of the others represents them.
fn split(d: &DFA, cls: &mut Vec<usize>, y: usize, x: &Vec<bool>)
    requires
        d.wf(),
        is_partition(d, old(cls)@),
        x@.len() == d.n_states(),
        y < d.n_states(),
        old(cls)@[y as int] == y,
        exists|q: int| 0 <= q < d.n_states() && old(cls)@[q] == y && x@[q] != x@[y as int],
    ensures
        is_partition(d, final(cls)@),
        count_reps(final(cls)@, d.n_states() as int) > count_reps(old(cls)@, d.n_states() as int),
        forall|z1: int, z2: int|
            0 <= z1 < d.n_states() && 0 <= z2 < d.n_states() && old(cls)@[z1] == old(cls)@[z2] && x@[z1] == x@[z2]
                ==> #[trigger] final(cls)@[z1] == #[trigger] final(cls)@[z2],
{
    let n = cls.len();
    let ghost old_cls = cls@;
    let xy = x[y];
    let mut m: usize = n;
    let mut q: usize = 0;
    while q < n
        invariant
            n == d.n_states(),
            old_cls == old(cls)@,
            old_cls.len() == n,
            cls@.len() == n,
            x@.len() == n,
            y < n,
            xy == x@[y as int],
            q <= n,
            m <= n,
            forall|z: int| 0 <= z < q ==> #[trigger] cls@[z] == if old_cls[z] == y && x@[z] != xy {
                m
            } else {
                old_cls[z]
            },
            forall|z: int| q <= z < n ==> #[trigger] cls@[z] == old_cls[z],
            m == n ==> forall|z: int| 0 <= z < q ==> !(old_cls[z] == y && x@[z] != xy),
            m < n ==> m < q && old_cls[m as int] == y && x@[m as int] != xy && forall|z: int|
                0 <= z < m ==> !(old_cls[z] == y && x@[z] != xy),
        decreases n - q,
    {
        if cls[q] == y && x[q] != xy {
            if m == n {
                m = q;
            }
            cls.set(q, m);
        }
        q = q + 1;
    }
    proof {
        let new_cls = cls@;
        let mv = |z: int| old_cls[z] == y && x@[z] != xy;
        let wq = choose|wq: int| 0 <= wq < n && old_cls[wq] == y && x@[wq] != x@[y as int];
        if m == n {
            assert(!(old_cls[wq] == y && x@[wq] != xy));
        }
        assert(m < n);
        assert(!mv(y as int));
        assert forall|z: int| 0 <= z < new_cls.len() implies #[trigger] new_cls[z] <= z && new_cls[new_cls[z] as int] == new_cls[z] by {
            if mv(z) {
                assert(new_cls[m as int] == m);
            } else {
                let w = old_cls[z];
                assert(old_cls[w as int] == w);
                if w != y {
                    assert(!mv(w as int));
                }
            }
        }
        assert forall|z: State| z < new_cls.len() implies #[trigger] d.is_accepting(z) == d.is_accepting(new_cls[z as int] as State) by {
            assert(d.is_accepting(z) == d.is_accepting(old_cls[z as int] as State));
            assert(d.is_accepting(m) == d.is_accepting(old_cls[m as int] as State));
        }
        assert forall|z: int| 0 <= z < n && old_cls[z] == z as usize implies new_cls[z] == z as usize by {
            if mv(z) {
                assert(z == y);
            }
        }
        lemma_count_reps_grows(old_cls, new_cls, n as int, m as int);
    }
}

/// The automaton whose states are the classes of a stable partition `cls`
/// of `d`, numbered in the order of their least states.
#[verifier::rlimit(40)]
fn quotient(d: &DFA, cls: &Vec<usize>) -> (r: DFA)
    requires
        d.wf(),
        d.start_state() is Some,
        is_partition(d, cls@),
        is_stable(d, cls@),
    ensures
        r.wf(),
        r.start_state() is Some,
        r.n_states() <= d.n_states(),
        forall|t: Seq<char>| #[trigger] r.accepts_prefix(t) == d.accepts_prefix(t),
        exists|h: Seq<State>| quotient_by(d, &r, cls@, h),
{
    let n = d.automaton.len();
        let mut new_id: Vec<State> = Vec::new();
        let mut old_of: Vec<State> = Vec::new();
        let mut q: usize = 0;
        while q < n
            invariant
                cls@.len() == n,
                q <= n,
                new_id@.len() == q,
                old_of@.len() <= q,
                forall|z: int| 0 <= z < q && cls@[z] == z ==> new_id@[z] < old_of@.len() && old_of@[new_id@[z] as int] == z,
                forall|i: int| 0 <= i < old_of@.len() ==> old_of@[i] < q && cls@[old_of@[i] as int] == old_of@[i] && new_id@[old_of@[i] as int] == i,
            decreases n - q,
        {
            new_id.push(old_of.len());
            if cls[q] == q {
                old_of.push(q);
            }
            q = q + 1;
        }
        let m = old_of.len();
        let mut automaton: Vec<Vec<(char, State)>> = Vec::new();
        let mut accepting: Vec<bool> = Vec::new();
        let mut i: usize = 0;
        while i < m
            invariant
                d.wf(),
                n == d.n_states(),
                is_partition(d, cls@),
                m == old_of@.len(),
                m <= n,
                new_id@.len() == n,
                forall|z: int| 0 <= z < n && cls@[z] == z ==> new_id@[z] < m && old_of@[new_id@[z] as int] == z,
                forall|j: int| 0 <= j < m ==> old_of@[j] < n && cls@[old_of@[j] as int] == old_of@[j] && new_id@[old_of@[j] as int] == j,
                i <= m,
                automaton@.len() == i,
                accepting@.len() == i,
                forall|j: int| 0 <= j < i ==> accepting@[j] == d.accepting@[old_of@[j] as int],
                forall|j: int| 0 <= j < i ==> (#[trigger] automaton@[j])@.len() == d.row(old_of@[j] as int).len(),
                forall|j: int, k: int| 0 <= j < i && 0 <= k < d.row(old_of@[j] as int).len() ==> #[trigger] automaton@[j]@[k] == (
                    d.row(old_of@[j] as int)[k].0,
                    new_id@[cls@[d.row(old_of@[j] as int)[k].1 as int] as int],
                ),
            decreases m - i,
        {
            let y = old_of[i];
            let row = &d.automaton[y];
            let mut new_row: Vec<(char, State)> = Vec::new();
            let mut k: usize = 0;
            while k < row.len()
                invariant
                    d.wf(),
                    n == d.n_states(),
                    is_partition(d, cls@),
                    y < n,
                    new_id@.len() == n,
                    row@ == d.row(y as int),
                    k <= row@.len(),
                    new_row@.len() == k,
                    forall|kk: int| 0 <= kk < k ==> #[trigger] new_row@[kk] == (row@[kk].0, new_id@[cls@[row@[kk].1 as int] as int]),
                decreases row@.len() - k,
            {
                let (c, p) = row[k];
                proof {
                    assert(d.row(y as int)[k as int].1 < n);
                    assert(cls@[p as int] <= p);
                }
                new_row.push((c, new_id[cls[p]]));
                k = k + 1;
            }
            automaton.push(new_row);
            accepting.push(d.accepting[y]);
            i = i + 1;
        }
        let start = d.start.unwrap();
        let ghost h = Seq::new(n as nat, |z: int| new_id@[cls@[z] as int]);
        proof {
            assert(cls@[start as int] <= start);
            assert(cls@[cls@[start as int] as int] == cls@[start as int]);
        }
        let new_start = new_id[cls[start]];
        let r = DFA { automaton, start: Some(new_start), accepting };
        proof {
            let dom = Set::new(|z: State| z < n);
            assert forall|x: int, k: int| 0 <= x < m && 0 <= k < r.row(x).len() implies (#[trigger] r.row(x)[k]).1 < m by {
                let y = old_of@[x];
                assert(r.row(x)[k] == r.automaton@[x]@[k]);
                let p = d.row(y as int)[k].1;
                assert(p < n);
                assert(cls@[p as int] <= p);
                assert(cls@[cls@[p as int] as int] == cls@[p as int]);
            }
            assert forall|x: int, a: int, b: int|
                0 <= x < m && 0 <= a < r.row(x).len() && 0 <= b < r.row(x).len() && a != b implies (#[trigger] r.row(x)[a]).0
                    != (#[trigger] r.row(x)[b]).0 by {
                assert(r.row(x)[a] == r.automaton@[x]@[a]);
                assert(r.row(x)[b] == r.automaton@[x]@[b]);
                assert(d.row(old_of@[x] as int)[a].0 != d.row(old_of@[x] as int)[b].0);
            }
            assert(r.wf());
            assert forall|z: State| #[trigger] dom.contains(z) implies z < d.n_states() && z < h.len() && h[z as int] < r.n_states() by {
                assert(cls@[z as int] <= z);
                assert(cls@[cls@[z as int] as int] == cls@[z as int]);
            }
            assert forall|z: State| #[trigger] dom.contains(z) implies r.is_accepting(h[z as int]) == d.is_accepting(z) by {
                let y = cls@[z as int];
                assert(y <= z);
                assert(cls@[y as int] == y);
                assert(old_of@[h[z as int] as int] == y);
                assert(d.is_accepting(z) == d.is_accepting(y as State));
            }
            assert forall|z: State, c: char| #[trigger] dom.contains(z) implies match #[trigger] d.delta(z, c) {
                Some(p) => dom.contains(p) && r.delta(h[z as int], c) == Some(h[p as int]),
                None => r.delta(h[z as int], c) is None,
            } by {
                let y = cls@[z as int];
                assert(y <= z);
                assert(cls@[y as int] == y);
                let x = h[z as int];
                assert(old_of@[x as int] == y);
                assert forall|k: int| 0 <= k < d.row(y as int).len() implies d.row(y as int)[k].1 < h.len() && #[trigger] r.row(x as int)[k] == (
                    d.row(y as int)[k].0,
                    h[d.row(y as int)[k].1 as int],
                ) by {
                    assert(r.row(x as int)[k] == r.automaton@[x as int]@[k]);
                    assert(d.row(y as int)[k].1 < n);
                }
                lemma_mapped_row(d, &r, y, x, h);
                assert(is_stable(d, cls@));
                match d.delta(z, c) {
                    Some(p) => {
                        assert(d.has_trans(z, c, p));
                        let k = choose|k: int| 0 <= k < d.row(z as int).len() && d.row(z as int)[k] == (c, p);
                        assert(d.row(z as int)[k].1 < n);
                        let pr = d.delta(y, c)->Some_0;
                        assert(cls@[pr as int] == cls@[p as int]);
                    },
                    None => {},
                }
            }
            assert(dom.contains(start));
            assert forall|t: Seq<char>| #[trigger] r.accepts_prefix(t) == d.accepts_prefix(t) by {
                lemma_hom_runs(d, &r, h, dom, start, t);
            }
            assert(dom =~= all_states(d));
            assert forall|q1: State, q2: State|
                q1 < d.n_states() && q2 < d.n_states() implies (#[trigger] h[q1 as int] == #[trigger] h[q2 as int] <==> cls@[q1 as int]
                    == cls@[q2 as int]) by {
                let y1 = cls@[q1 as int];
                let y2 = cls@[q2 as int];
                assert(y1 <= q1 && cls@[y1 as int] == y1);
                assert(y2 <= q2 && cls@[y2 as int] == y2);
                assert(old_of@[h[q1 as int] as int] == y1);
                assert(old_of@[h[q2 as int] as int] == y2);
            }
            assert forall|x: State| x < r.n_states() implies #[trigger] hits(all_states(d), h, x) by {
                let y = old_of@[x as int];
                assert(cls@[y as int] == y);
                assert(all_states(d).contains(y));
                assert(h[y as int] == x);
            }
            assert(quotient_by(d, &r, cls@, h));
        }
    r
}

impl DFA {
    /// Partition refinement: the reachable part of `dfa`, with each class
    /// of states that no symbol tells apart merged into one state. `None`
    /// when `dfa` has no start state.
    pub fn minimize_from(dfa: DFA) -> (r: Option<DFA>)
        requires
            dfa.wf(),
        ensures
            dfa.start_state() is None <==> r is None,
            r matches Some(m) ==> minimized_from(&dfa, &m),
    {
        if dfa.start.is_none() {
            return None;
        }
        let mut d = dfa;
        d.remove_unreachable();
        let n = d.automaton.len();
        let alphabet = d.get_alphabet();
        let mut cls = d.initial_partition();
        proof {
            lemma_count_reps_bound(cls@, n as int);
        }
        loop
            invariant
                d.wf(),
                n == d.n_states(),
                is_partition(&d, cls@),
                coarsest(&d, cls@),
                count_reps(cls@, n as int) <= n,
                forall|c: char| #[trigger] alphabet@.contains(c) <==> exists|q: State, p: State|
                    q < d.n_states() && d.has_trans(q, c, p),
            ensures
                is_partition(&d, cls@),
                is_stable(&d, cls@),
                coarsest(&d, cls@),
            decreases n - count_reps(cls@, n as int),
        {
            match d.find_split(&cls, &alphabet) {
                None => break,
                Some((y, x)) => {
                    let ghost before = cls@;
                    split(&d, &mut cls, y, &x);
                    proof {
                        lemma_count_reps_bound(cls@, n as int);
                        let (a, c) = choose|a: usize, c: char| #[trigger] marks_landing(&d, before, x@, a, c);
                        assert forall|pp: Seq<usize>, q1: State, q2: State|
                            is_partition(&d, pp) && is_stable(&d, pp) && q1 < d.n_states() && q2 < d.n_states() && #[trigger] pp[q1 as int]
                                == #[trigger] pp[q2 as int] implies cls@[q1 as int] == cls@[q2 as int] by {
                            lemma_lands_agree(&d, before, pp, a, c, q1, q2);
                            assert(x@[q1 as int] == x@[q2 as int]);
                            assert(before[q1 as int] == before[q2 as int]);
                        }
                    }
                },
            }
        }
        let r = quotient(&d, &cls);
        proof {
            let h1 = choose|h1: Seq<State>| renumbers(&dfa, &d, h1);
            let h2 = choose|h2: Seq<State>| quotient_by(&d, &r, cls@, h2);
            assert(renumbers(&dfa, &d, h1) && d.wf() && is_partition(&d, cls@) && is_stable(&d, cls@) && coarsest(&d, cls@)
                && quotient_by(&d, &r, cls@, h2));
            assert forall|t: Seq<char>| #[trigger] r.accepts_prefix(t) == dfa.accepts_prefix(t) by {
                assert(r.accepts_prefix(t) == d.accepts_prefix(t));
            }
        }
        Some(r)
    }
}

impl DFA {
    /// A copy: the same table, start and accepting states.
    pub fn copy(&self) -> (r: DFA)
        requires
            self.wf(),
        ensures
            r.wf(),
            r.start_state() == self.start_state(),
            r.n_states() == self.n_states(),
            forall|q: int| #[trigger] r.row(q) == self.row(q),
            forall|t: Seq<char>| #[trigger] r.accepts_prefix(t) == self.accepts_prefix(t),
    {
        let mut automaton: Vec<Vec<(char, State)>> = Vec::new();
        let mut accepting: Vec<bool> = Vec::new();
        let mut q: usize = 0;
        while q < self.automaton.len()
            invariant
                q <= self.n_states(),
                self.accepting@.len() == self.n_states(),
                automaton@.len() == q,
                accepting@ == self.accepting@.take(q as int),
                forall|x: int| 0 <= x < q ==> (#[trigger] automaton@[x])@ == self.row(x),
            decreases self.n_states() - q,
        {
            let row = &self.automaton[q];
            let mut new_row: Vec<(char, State)> = Vec::new();
            let mut k: usize = 0;
            while k < row.len()
                invariant
                    k <= row@.len(),
                    new_row@ == row@.take(k as int),
                decreases row@.len() - k,
            {
                new_row.push(row[k]);
                k = k + 1;
                proof {
                    assert(new_row@ =~= row@.take(k as int));
                }
            }
            proof {
                assert(row@.take(k as int) =~= row@);
            }
            automaton.push(new_row);
            accepting.push(self.accepting[q]);
            proof {
                assert(accepting@ =~= self.accepting@.take(q + 1));
            }
            q = q + 1;
        }
        proof {
            assert(accepting@ =~= self.accepting@);
        }
        let r = DFA { automaton, start: self.start, accepting };
        proof {
            assert forall|x: int| #[trigger] r.row(x) == self.row(x) by {}
            let n = self.n_states();
            let h = Seq::new(n, |i: int| i as State);
            let dom = Set::new(|z: State| z < n);
            assert forall|z: State, c: char| #[trigger] dom.contains(z) implies match #[trigger] self.delta(z, c) {
                Some(p) => dom.contains(p) && r.delta(h[z as int], c) == Some(h[p as int]),
                None => r.delta(h[z as int], c) is None,
            } by {
                assert forall|k: int| 0 <= k < self.row(z as int).len() implies self.row(z as int)[k].1 < h.len() && #[trigger] r.row(z as int)[k] == (
                    self.row(z as int)[k].0,
                    h[self.row(z as int)[k].1 as int],
                ) by {}
                lemma_mapped_row(self, &r, z, z, h);
                if let Some(p) = self.delta(z, c) {
                    assert(self.has_trans(z, c, p));
                    let k = choose|k: int| 0 <= k < self.row(z as int).len() && self.row(z as int)[k] == (c, p);
                }
            }
            assert forall|t: Seq<char>| #[trigger] r.accepts_prefix(t) == self.accepts_prefix(t) by {
                if let Some(s) = self.start {
                    lemma_hom_runs(self, &r, h, dom, s, t);
                }
            }
        }
        r
    }
}

} // verus!
