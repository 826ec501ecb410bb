use vstd::prelude::*;
use crate::graph::{Digraph, lemma_push_contains, reach, reachable};

verus! {

/// An automaton over the states `0 .. spec_n()` whose moves either read one
/// symbol (direct moves) or read nothing (epsilon moves).
pub trait StepAutomaton {
    spec fn spec_n(&self) -> nat;

    spec fn spec_start(&self) -> usize;

    spec fn spec_end(&self) -> usize;

    spec fn spec_direct(&self, s: usize, c: char, t: usize) -> bool;

    spec fn spec_eps(&self, s: usize, t: usize) -> bool;

    /// Moves stay among the automaton's states.
    proof fn lemma_moves_bounded(&self, s: usize, c: char, t: usize)
        ensures
            self.spec_direct(s, c, t) ==> s < self.spec_n() && t < self.spec_n(),
            self.spec_eps(s, t) ==> s < self.spec_n() && t < self.spec_n(),
    ;

    fn direct_targets(&self, s: usize, c: char) -> (r: Vec<usize>)
        requires
            s < self.spec_n(),
        ensures
            forall|t: usize| self.spec_direct(s, c, t) <==> r@.contains(t),
            forall|i: int| 0 <= i < r@.len() ==> r@[i] < self.spec_n(),
    ;

    fn eps_targets(&self, s: usize) -> (r: Vec<usize>)
        requires
            s < self.spec_n(),
        ensures
            forall|t: usize| self.spec_eps(s, t) <==> r@.contains(t),
            forall|i: int| 0 <= i < r@.len() ==> r@[i] < self.spec_n(),
    ;
}

/// The epsilon moves that may be taken while `blocked_by` is the next
/// symbol of the input: none from a state with a direct move on it. With
/// `None` (input exhausted, or a plain closure) every epsilon move counts.
pub struct EpsStep<'a, A> {
    pub aut: &'a A,
    pub blocked_by: Option<char>,
}

pub open spec fn has_direct<A: StepAutomaton>(a: &A, s: usize, c: char) -> bool {
    exists|t: usize| a.spec_direct(s, c, t)
}

impl<'a, A: StepAutomaton> Digraph for EpsStep<'a, A> {
    open spec fn spec_size(&self) -> nat {
        self.aut.spec_n()
    }

    open spec fn spec_edge(&self, u: usize, v: usize) -> bool {
        &&& u < self.aut.spec_n()
        &&& v < self.aut.spec_n()
        &&& self.aut.spec_eps(u, v)
        &&& match self.blocked_by {
            Some(c) => !has_direct(self.aut, u, c),
            None => true,
        }
    }

    fn successors(&self, u: usize) -> (r: Vec<usize>) {
        if let Some(c) = self.blocked_by {
            let d = self.aut.direct_targets(u, c);
            if d.len() > 0 {
                proof {
                    assert(d@.contains(d@[0]));
                    assert(self.aut.spec_direct(u, c, d@[0]));
                }
                return Vec::new();
            }
            proof {
                assert forall|t: usize| !self.aut.spec_direct(u, c, t) by {
                    if self.aut.spec_direct(u, c, t) {
                        assert(d@.contains(t));
                    }
                }
            }
        }
        let r = self.aut.eps_targets(u);
        proof {
            assert forall|v: usize| self.spec_edge(u, v) <==> r@.contains(v) by {
                if r@.contains(v) {
                    let i = choose|i: int| 0 <= i < r@.len() && r@[i] == v;
                }
            }
        }
        r
    }
}

/// The states reached from `seeds` by the epsilon moves that `blocked_by`
/// allows.
pub open spec fn eps_reach<A: StepAutomaton>(a: &A, seeds: Set<usize>, blocked_by: Option<char>) -> Set<usize> {
    Set::new(|v: usize| v < a.spec_n() && reachable(&EpsStep { aut: a, blocked_by }, seeds, v))
}

/// The targets of the direct moves on `c` from the states of `states`.
pub open spec fn direct_step<A: StepAutomaton>(a: &A, states: Set<usize>, c: char) -> Set<usize> {
    Set::new(|t: usize| exists|s: usize| #[trigger] states.contains(s) && a.spec_direct(s, c, t))
}

pub open spec fn next_symbol(text: Seq<char>, i: nat) -> Option<char> {
    if i < text.len() {
        Some(text[i as int])
    } else {
        None
    }
}

/// The states in which the automaton may stand after reading the first `i`
/// symbols of `text` from its start state.
pub open spec fn layer<A: StepAutomaton>(a: &A, text: Seq<char>, i: nat) -> Set<usize>
    decreases i,
{
    let seeds = if i == 0 {
        set![a.spec_start()]
    } else {
        direct_step(a, layer(a, text, (i - 1) as nat), text[i - 1])
    };
    eps_reach(a, seeds, next_symbol(text, i))
}

/// Some prefix of `text` leads the automaton from its start state to its end
/// state.
pub open spec fn matches_prefix<A: StepAutomaton>(a: &A, text: Seq<char>) -> bool {
    exists|i: nat| i <= text.len() && #[trigger] layer(a, text, i).contains(a.spec_end())
}

/// The first offset `i < text.len()` at or after `from` whose suffix
/// `m` accepts.
pub open spec fn leftmost_from(m: spec_fn(Seq<char>) -> bool, text: Seq<char>, from: nat) -> Option<nat>
    decreases text.len() - from,
{
    if from >= text.len() {
        None
    } else if m(text.skip(from as int)) {
        Some(from)
    } else {
        leftmost_from(m, text, from + 1)
    }
}

/// Where a search with the acceptance test `m` reports a match in `text`:
/// the leftmost offset whose suffix `m` accepts; on an empty text, offset 0
/// when `m` accepts the empty text.
pub open spec fn find_result(m: spec_fn(Seq<char>) -> bool, text: Seq<char>) -> Option<nat> {
    if text.len() == 0 {
        if m(text) {
            Some(0)
        } else {
            None
        }
    } else {
        leftmost_from(m, text, 0)
    }
}

/// The symbols of `s`, one by one.
pub fn chars_of(s: &str) -> (r: Vec<char>)
    ensures
        r@ == s@,
{
    let n = s.unicode_len();
    let mut r: Vec<char> = Vec::new();
    let mut i: usize = 0;
    while i < n
        invariant
            n == s@.len(),
            i <= n,
            r@ == s@.subrange(0, i as int),
        decreases n - i,
    {
        r.push(s.get_char(i));
        i = i + 1;
        proof {
            assert(r@ =~= s@.subrange(0, i as int));
        }
    }
    proof {
        assert(r@ =~= s@);
    }
    r
}

pub(crate) fn set_of_marks(marks: &Vec<bool>) -> (r: Vec<usize>)
    ensures
        forall|v: usize| r@.contains(v) <==> v < marks@.len() && marks@[v as int],
        forall|i: int| 0 <= i < r@.len() ==> r@[i] < marks@.len(),
{
    let mut r: Vec<usize> = Vec::new();
    let mut i: usize = 0;
    while i < marks.len()
        invariant
            i <= marks@.len(),
            forall|v: usize| r@.contains(v) <==> v < i && marks@[v as int],
            forall|j: int| 0 <= j < r@.len() ==> r@[j] < i,
        decreases marks@.len() - i,
    {
        if marks[i] {
            proof {
                assert forall|v: usize| r@.push(i).contains(v) <==> v < i + 1 && marks@[v as int] by {
                    if v == i {
                        assert(r@.push(i)[r@.len() as int] == v);
                    } else if r@.push(i).contains(v) {
                        let j = choose|j: int| 0 <= j < r@.len() + 1 && r@.push(i)[j] == v;
                        assert(r@[j] == v);
                    } else if v < i && marks@[v as int] {
                        let j = choose|j: int| 0 <= j < r@.len() && r@[j] == v;
                        assert(r@.push(i)[j] == v);
                    }
                }
            }
            r.push(i);
        }
        i = i + 1;
    }
    r
}

/// Runs the automaton over `text[from..]`: true exactly when some prefix of
/// that suffix leads from the start state to the end state.
pub fn run_from<A: StepAutomaton>(a: &A, n: usize, start: usize, end: usize, text: &Vec<char>, from: usize) -> (r: bool)
    requires
        n == a.spec_n(),
        start == a.spec_start(),
        end == a.spec_end(),
        start < n,
        end < n,
        from <= text@.len(),
    ensures
        r == matches_prefix(a, text@.skip(from as int)),
{
    let ghost t = text@.skip(from as int);
    let mut seeds: Vec<usize> = Vec::new();
    seeds.push(start);
    proof {
        assert forall|x: usize| seeds@.to_set().contains(x) <==> set![start].contains(x) by {
            if x == start {
                assert(seeds@[0] == x);
            }
        }
        assert(seeds@.to_set() =~= set![start]);
    }
    let mut i: usize = from;
    loop
        invariant
            n == a.spec_n(),
            start == a.spec_start(),
            end == a.spec_end(),
            start < n,
            end < n,
            from <= i <= text@.len(),
            t == text@.skip(from as int),
            forall|j: int| 0 <= j < seeds@.len() ==> seeds@[j] < n,
            seeds@.to_set() == if i == from {
                set![start]
            } else {
                direct_step(a, layer(a, t, (i - from - 1) as nat), t[i - from - 1])
            },
            forall|j: nat| j < i - from ==> !(#[trigger] layer(a, t, j)).contains(end),
        decreases text@.len() - i,
    {
        let blocked_by = if i < text.len() {
            Some(text[i])
        } else {
            None
        };
        let g = EpsStep { aut: a, blocked_by };
        let cur = reach(&g, n, &seeds);
        let ghost k = (i - from) as nat;
        proof {
            assert(next_symbol(t, k) == blocked_by);
            assert forall|v: usize| layer(a, t, k).contains(v) <==> v < n && cur@[v as int] by {}
        }
        if cur[end] {
            proof {
                assert(layer(a, t, k).contains(end));
            }
            return true;
        }
        if i == text.len() {
            proof {
                assert forall|j: nat| j <= t.len() implies !(#[trigger] layer(a, t, j)).contains(end) by {
                    if j < k {
                    }
                }
            }
            return false;
        }
        let c = text[i];
        let states = set_of_marks(&cur);
        let mut next: Vec<bool> = Vec::new();
        let mut v: usize = 0;
        while v < n
            invariant
                v <= n,
                next@.len() == v,
                forall|j: int| 0 <= j < v ==> !next@[j],
            decreases n - v,
        {
            next.push(false);
            v = v + 1;
        }
        let mut j: usize = 0;
        while j < states.len()
            invariant
                n == a.spec_n(),
                next@.len() == n,
                cur@.len() == n,
                j <= states@.len(),
                forall|q: usize| states@.contains(q) <==> q < n && cur@[q as int],
                forall|q: int| 0 <= q < states@.len() ==> states@[q] < n,
                forall|x: usize| x < n ==> (next@[x as int] <==> exists|q: int|
                    0 <= q < j && a.spec_direct(#[trigger] states@[q], c, x)),
            decreases states@.len() - j,
        {
            let s = states[j];
            let d = a.direct_targets(s, c);
            let mut m: usize = 0;
            let ghost next0 = next@;
            while m < d.len()
                invariant
                    n == a.spec_n(),
                    next@.len() == n,
                    next0.len() == n,
                    m <= d@.len(),
                    forall|q: int| 0 <= q < d@.len() ==> d@[q] < n,
                    forall|x: usize| x < n ==> (#[trigger] next@[x as int] <==> next0[x as int] || d@.take(m as int).contains(x)),
                decreases d@.len() - m,
            {
                let ghost before = next@;
                next.set(d[m], true);
                proof {
                    assert(d@.take(m + 1) =~= d@.take(m as int).push(d@[m as int]));
                    lemma_push_contains(d@.take(m as int), d@[m as int]);
                    assert forall|x: usize| x < n implies (next@[x as int] <==> next0[x as int] || d@.take(m + 1).contains(x)) by {
                        assert(d@.take(m + 1).contains(x) <==> (d@.take(m as int).contains(x) || x == d@[m as int]));
                        if x != d@[m as int] {
                            assert(next@[x as int] == before[x as int]);
                            assert(before[x as int] <==> next0[x as int] || d@.take(m as int).contains(x));
                        } else {
                            assert(next@[x as int]);
                        }
                    }
                }
                m = m + 1;
            }
            proof {
                assert forall|x: usize| x < n implies (next@[x as int] <==> exists|q: int|
                    0 <= q < j + 1 && a.spec_direct(#[trigger] states@[q], c, x)) by {
                    if next@[x as int] && !next0[x as int] {
                        assert(d@.take(m as int) =~= d@);
                        assert(d@.contains(x));
                        assert(a.spec_direct(states@[j as int], c, x));
                    }
                    if next0[x as int] {
                        let q = choose|q: int| 0 <= q < j && a.spec_direct(#[trigger] states@[q], c, x);
                        assert(0 <= q < j + 1 && a.spec_direct(states@[q], c, x));
                    }
                    if exists|q: int| 0 <= q < j + 1 && a.spec_direct(#[trigger] states@[q], c, x) {
                        let q = choose|q: int| 0 <= q < j + 1 && a.spec_direct(#[trigger] states@[q], c, x);
                        if q == j {
                            assert(d@.take(m as int) =~= d@);
                            assert(d@.contains(x));
                        } else {
                            assert(next0[x as int]);
                        }
                    }
                }
            }
            j = j + 1;
        }
        seeds = set_of_marks(&next);
        proof {
            assert(t[k as int] == c);
            assert forall|x: usize| #[trigger] seeds@.to_set().contains(x) == direct_step(a, layer(a, t, k), c).contains(x) by {
                if direct_step(a, layer(a, t, k), c).contains(x) {
                    let s = choose|s: usize| #[trigger] layer(a, t, k).contains(s) && a.spec_direct(s, c, x);
                    assert(states@.contains(s));
                    let q = choose|q: int| 0 <= q < states@.len() && states@[q] == s;
                    a.lemma_moves_bounded(s, c, x);
                    assert(x < n);
                    assert(next@[x as int]);
                }
                if seeds@.contains(x) {
                    let q = choose|q: int| 0 <= q < j && a.spec_direct(#[trigger] states@[q], c, x);
                    assert(states@.contains(states@[q]));
                }
            }
            assert(seeds@.to_set() =~= direct_step(a, layer(a, t, k), c));
        }
        i = i + 1;
    }
}

/// An optional offset seen as a natural number.
pub open spec fn as_pos(r: Option<usize>) -> Option<nat> {
    match r {
        Some(i) => Some(i as nat),
        None => None,
    }
}

/// Searches `text` for the leftmost offset at which some prefix of the rest
/// leads the automaton from its start state to its end state. Offsets are
/// tried left to right; on an empty text the empty input is tried.
pub fn find_in<A: StepAutomaton>(a: &A, n: usize, start: usize, end: usize, text: &Vec<char>) -> (r: Option<usize>)
    requires
        n == a.spec_n(),
        start == a.spec_start(),
        end == a.spec_end(),
        start < n,
        end < n,
    ensures
        as_pos(r) == find_result(|t: Seq<char>| matches_prefix(a, t), text@),
{
    let ghost m = |t: Seq<char>| matches_prefix(a, t);
    let mut pos: usize = 0;
    while pos < text.len()
        invariant
            n == a.spec_n(),
            start == a.spec_start(),
            end == a.spec_end(),
            start < n,
            end < n,
            pos <= text@.len(),
            m == (|t: Seq<char>| matches_prefix(a, t)),
            text@.len() > 0 ==> leftmost_from(m, text@, 0) == leftmost_from(m, text@, pos as nat),
        decreases text@.len() - pos,
    {
        if run_from(a, n, start, end, text, pos) {
            return Some(pos);
        }
        pos = pos + 1;
    }
    if text.len() == 0 && run_from(a, n, start, end, text, 0) {
        proof {
            assert(text@.skip(0) =~= text@);
        }
        return Some(0);
    }
    proof {
        assert(text@.skip(0) =~= text@);
    }
    None
}

} // verus!
