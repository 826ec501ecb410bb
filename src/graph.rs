use vstd::prelude::*;

verus! {

/// A finite directed graph whose nodes are `0 .. spec_size()`.
pub trait Digraph {
    spec fn spec_size(&self) -> nat;

    spec fn spec_edge(&self, u: usize, v: usize) -> bool;

    /// Every node with an edge from `u`.
    fn successors(&self, u: usize) -> (r: Vec<usize>)
        requires
            u < self.spec_size(),
        ensures
            forall|v: usize| self.spec_edge(u, v) <==> r@.contains(v),
            forall|i: int| 0 <= i < r@.len() ==> r@[i] < self.spec_size(),
    ;
}

/// `v` is reached from one of `seeds` by a path of at most `k` edges.
pub open spec fn reach_in<G: Digraph>(g: &G, seeds: Set<usize>, v: usize, k: nat) -> bool
    decreases k,
{
    if k == 0 {
        seeds.contains(v)
    } else {
        reach_in(g, seeds, v, (k - 1) as nat) || exists|u: usize|
            #[trigger] g.spec_edge(u, v) && reach_in(g, seeds, u, (k - 1) as nat)
    }
}

/// `v` is reached from one of `seeds` by a path of edges.
pub open spec fn reachable<G: Digraph>(g: &G, seeds: Set<usize>, v: usize) -> bool {
    exists|k: nat| reach_in(g, seeds, v, k)
}

pub proof fn lemma_reachable_step<G: Digraph>(g: &G, seeds: Set<usize>, u: usize, v: usize)
    requires
        reachable(g, seeds, u),
        g.spec_edge(u, v),
    ensures
        reachable(g, seeds, v),
{
    let k = choose|k: nat| reach_in(g, seeds, u, k);
    assert(reach_in(g, seeds, v, k + 1));
}

pub proof fn lemma_seed_reachable<G: Digraph>(g: &G, seeds: Set<usize>, v: usize)
    requires
        seeds.contains(v),
    ensures
        reachable(g, seeds, v),
{
    assert(reach_in(g, seeds, v, 0));
}

/// A set that holds the seeds and is closed under edges holds every node
/// reached from the seeds.
pub proof fn lemma_closed_holds_reach<G: Digraph>(
    g: &G,
    seeds: Set<usize>,
    vis: Seq<bool>,
    v: usize,
    k: nat,
)
    requires
        forall|s: usize| seeds.contains(s) ==> s < vis.len() && vis[s as int],
        forall|w: usize, x: usize|
            w < vis.len() && vis[w as int] && #[trigger] g.spec_edge(w, x) ==> x < vis.len()
                && vis[x as int],
        reach_in(g, seeds, v, k),
    ensures
        v < vis.len() && vis[v as int],
    decreases k,
{
    if k > 0 {
        if !reach_in(g, seeds, v, (k - 1) as nat) {
            let u = choose|u: usize| #[trigger]
                g.spec_edge(u, v) && reach_in(g, seeds, u, (k - 1) as nat);
            lemma_closed_holds_reach(g, seeds, vis, u, (k - 1) as nat);
        } else {
            lemma_closed_holds_reach(g, seeds, vis, v, (k - 1) as nat);
        }
    }
}

pub proof fn lemma_push_contains<T>(s: Seq<T>, x: T)
    ensures
        forall|w: T| #[trigger] s.push(x).contains(w) <==> (s.contains(w) || w == x),
{
    assert forall|w: T| #[trigger] s.push(x).contains(w) <==> (s.contains(w) || w == x) by {
        if s.contains(w) {
            let i = choose|i: int| 0 <= i < s.len() && s[i] == w;
            assert(s.push(x)[i] == w);
        }
        if w == x {
            assert(s.push(x)[s.len() as int] == w);
        }
        if s.push(x).contains(w) && w != x {
            let i = choose|i: int| 0 <= i < s.len() + 1 && s.push(x)[i] == w;
            assert(s[i] == w);
        }
    }
}

pub open spec fn count_false(s: Seq<bool>) -> nat
    decreases s.len(),
{
    if s.len() == 0 {
        0
    } else {
        count_false(s.drop_last()) + if s.last() {
            0nat
        } else {
            1nat
        }
    }
}

proof fn lemma_count_false_update(s: Seq<bool>, i: int)
    requires
        0 <= i < s.len(),
        !s[i],
    ensures
        count_false(s.update(i, true)) + 1 == count_false(s),
    decreases s.len(),
{
    let t = s.update(i, true);
    if i == s.len() - 1 {
        assert(t.drop_last() =~= s.drop_last());
    } else {
        assert(t.drop_last() =~= s.drop_last().update(i, true));
        lemma_count_false_update(s.drop_last(), i);
    }
}

/// Marks every node of `g` reached from `seeds`: `r[v]` holds exactly when
/// `v` is reachable. A work-list search, so its stack depth does not grow
/// with the graph.
pub fn reach<G: Digraph>(g: &G, n: usize, seeds: &Vec<usize>) -> (r: Vec<bool>)
    requires
        n == g.spec_size(),
        forall|i: int| 0 <= i < seeds@.len() ==> seeds@[i] < n,
    ensures
        r@.len() == n,
        forall|v: usize| v < n ==> (r@[v as int] <==> reachable(g, seeds@.to_set(), v)),
{
    let ghost sd = seeds@.to_set();
    let mut visited: Vec<bool> = Vec::new();
    let mut i: usize = 0;
    while i < n
        invariant
            i <= n,
            visited@.len() == i,
            forall|j: int| 0 <= j < i ==> !visited@[j],
        decreases n - i,
    {
        visited.push(false);
        i = i + 1;
    }
    let mut stack: Vec<usize> = Vec::new();
    let mut i: usize = 0;
    while i < seeds.len()
        invariant
            i <= seeds@.len(),
            sd == seeds@.to_set(),
            forall|j: int| 0 <= j < seeds@.len() ==> seeds@[j] < n,
            visited@.len() == n,
            forall|j: int| 0 <= j < i ==> visited@[seeds@[j] as int],
            forall|j: int| 0 <= j < stack@.len() ==> stack@[j] < n && visited@[stack@[j] as int],
            forall|v: usize| v < n && visited@[v as int] ==> reachable(g, sd, v),
            forall|w: usize| w < n && visited@[w as int] ==> stack@.contains(w),
        decreases seeds@.len() - i,
    {
        let s = seeds[i];
        if !visited[s] {
            proof {
                assert(sd.contains(s));
                lemma_seed_reachable(g, sd, s);
                lemma_push_contains(stack@, s);
            }
            visited.set(s, true);
            stack.push(s);
        }
        i = i + 1;
    }
    while stack.len() > 0
        invariant
            n == g.spec_size(),
            visited@.len() == n,
            forall|s: usize| sd.contains(s) ==> s < n && visited@[s as int],
            forall|j: int| 0 <= j < stack@.len() ==> stack@[j] < n && visited@[stack@[j] as int],
            forall|v: usize| v < n && visited@[v as int] ==> reachable(g, sd, v),
            forall|w: usize, x: usize|
                w < n && visited@[w as int] && !stack@.contains(w) && #[trigger] g.spec_edge(w, x)
                    ==> x < n && visited@[x as int],
        decreases 2 * count_false(visited@) + stack@.len(),
    {
        let ghost stack0 = stack@;
        let u = stack.pop().unwrap();
        let ghost stack1 = stack@;
        proof {
            assert(stack0 =~= stack1.push(u));
            lemma_push_contains(stack1, u);
        }
        let ghost cf1 = count_false(visited@);
        let succs = g.successors(u);
        let mut j: usize = 0;
        while j < succs.len()
            invariant
                n == g.spec_size(),
                u < n,
                visited@[u as int],
                j <= succs@.len(),
                forall|v: usize| g.spec_edge(u, v) <==> succs@.contains(v),
                forall|i: int| 0 <= i < succs@.len() ==> succs@[i] < n,
                visited@.len() == n,
                forall|s: usize| sd.contains(s) ==> s < n && visited@[s as int],
                forall|i: int| 0 <= i < stack@.len() ==> stack@[i] < n && visited@[stack@[i] as int],
                forall|v: usize| v < n && visited@[v as int] ==> reachable(g, sd, v),
                forall|w: usize, x: usize|
                    w < n && w != u && visited@[w as int] && !stack@.contains(w) && #[trigger] g.spec_edge(w, x)
                        ==> x < n && visited@[x as int],
                forall|i: int| 0 <= i < j ==> visited@[succs@[i] as int],
                stack@.len() >= stack1.len(),
                2 * count_false(visited@) + stack@.len() <= 2 * cf1 + stack1.len(),
            decreases succs@.len() - j,
        {
            let v = succs[j];
            if !visited[v] {
                proof {
                    assert(succs@.contains(v));
                    lemma_reachable_step(g, sd, u, v);
                    lemma_count_false_update(visited@, v as int);
                    lemma_push_contains(stack@, v);
                }
                visited.set(v, true);
                stack.push(v);
            }
            j = j + 1;
        }
        proof {
            assert forall|x: usize| #[trigger] g.spec_edge(u, x) implies x < n && visited@[x as int] by {
                assert(succs@.contains(x));
                let i = choose|i: int| 0 <= i < succs@.len() && succs@[i] == x;
            }
        }
    }
    proof {
        assert forall|v: usize| v < n implies (visited@[v as int] <==> reachable(g, sd, v)) by {
            if reachable(g, sd, v) {
                let k = choose|k: nat| reach_in(g, sd, v, k);
                lemma_closed_holds_reach(g, sd, visited@, v, k);
            }
        }
    }
    visited
}

} // verus!
