use vstd::prelude::*;
use crate::regex_parser::{
    CONCAT, ParseState, SyntaxError, spec_combine, spec_finish, spec_is_operator, spec_parse_regex,
    spec_reduce, spec_run, spec_step, with_concat,
};
use crate::efa::EFA;
use crate::equivalence::{efa_find, efa_unmixed, lemma_compiled_stages_agree, lemma_unblocked};
use crate::graph::{Digraph, lemma_reachable_step, lemma_seed_reachable};
use crate::matcher::{EpsStep, StepAutomaton, direct_step, layer, matches_prefix, next_symbol};
use crate::minimize::dfa_find;
use crate::regex_parser::{GenericRegexParser, built_from, compiles_to};
use crate::state_generator::State;
use crate::thompson::{
    Build, Rows, add_move, clear_row, holds_rows, lemma_from_concat, lemma_from_single, lemma_row_at_add_move,
    lemma_row_at_clear, lemma_run_is_from, lemma_thompson_unmixed, row_at, thompson_from, thompson_run,
    thompson_step,
};
use crate::tree::Node;

verus! {

/// A non-empty pattern made of literal symbols alone.
pub open spec fn is_literal_pattern(p: Seq<char>) -> bool {
    p.len() > 0 && forall|i: int| 0 <= i < p.len() ==> !spec_is_operator(#[trigger] p[i])
}

pub open spec fn leaf(c: char) -> Node<char> {
    Node { value: c, left: None, right: None }
}

/// The left-nested concatenation of the symbols of `p`.
pub open spec fn chain(p: Seq<char>) -> Node<char>
    decreases p.len(),
{
    if p.len() <= 1 {
        leaf(p[0])
    } else {
        Node { value: CONCAT, left: Some(Box::new(chain(p.drop_last()))), right: Some(Box::new(leaf(p.last()))) }
    }
}

/// The symbols of `p` with a concatenation operator between each two.
pub open spec fn interleaved(p: Seq<char>) -> Seq<char>
    decreases p.len(),
{
    if p.len() <= 1 {
        p
    } else {
        interleaved(p.drop_last()) + seq![CONCAT, p.last()]
    }
}

proof fn lemma_interleaved_front(p: Seq<char>)
    requires
        p.len() >= 2,
    ensures
        interleaved(p) == seq![p[0], CONCAT] + interleaved(p.drop_first()),
    decreases p.len(),
{
    if p.len() == 2 {
        assert(p.drop_last() =~= seq![p[0]]);
        assert(p.drop_first() =~= seq![p[1]]);
        assert(interleaved(p) =~= seq![p[0], CONCAT] + interleaved(p.drop_first()));
    } else {
        lemma_interleaved_front(p.drop_last());
        assert(p.drop_last()[0] == p[0]);
        assert(p.drop_last().drop_first() =~= p.drop_first().drop_last());
        assert(p.drop_first().last() == p.last());
        let q = p.drop_first();
        assert(interleaved(q) == interleaved(q.drop_last()) + seq![CONCAT, q.last()]);
        assert(interleaved(p) == interleaved(p.drop_last()) + seq![CONCAT, p.last()]);
        assert(interleaved(p) =~= seq![p[0], CONCAT] + interleaved(p.drop_first()));
    }
}

proof fn lemma_with_concat_literal(p: Seq<char>)
    requires
        is_literal_pattern(p),
    ensures
        with_concat(p) == interleaved(p),
    decreases p.len(),
{
    if p.len() >= 2 {
        assert(!spec_is_operator(p[0]) && !spec_is_operator(p[1]));
        assert(is_literal_pattern(p.drop_first())) by {
            assert forall|i: int| 0 <= i < p.drop_first().len() implies !spec_is_operator(#[trigger] p.drop_first()[i]) by {
                assert(p.drop_first()[i] == p[i + 1]);
            }
        }
        lemma_with_concat_literal(p.drop_first());
        lemma_interleaved_front(p);
    }
}

/// The parsing state after the first `k` symbols of a literal pattern.
pub open spec fn chain_state(p: Seq<char>, k: int) -> ParseState {
    if k == 1 {
        (seq![], seq![leaf(p[0])])
    } else {
        (seq![CONCAT], seq![chain(p.take(k - 1)), leaf(p[k - 1])])
    }
}

proof fn lemma_run_chain(p: Seq<char>, k: int)
    requires
        is_literal_pattern(p),
        1 <= k <= p.len(),
    ensures
        spec_run(interleaved(p.take(k))) == Ok::<ParseState, SyntaxError>(chain_state(p, k)),
    decreases k,
{
    assert(!spec_is_operator(p[k - 1]));
    if k == 1 {
        let one = p.take(1);
        assert(one =~= seq![p[0]]);
        assert(interleaved(one) == one);
        assert(one.drop_last() =~= Seq::<char>::empty());
        assert(spec_run(one.drop_last()) == Ok::<ParseState, SyntaxError>((seq![], seq![])));
        assert(one.last() == p[0]);
        let st0: ParseState = (seq![], seq![]);
        assert(spec_step(st0, p[0]) == Ok::<ParseState, SyntaxError>((st0.0, st0.1.push(leaf(p[0])))));
        assert(st0.1.push(leaf(p[0])) =~= seq![leaf(p[0])]);
    } else {
        lemma_run_chain(p, k - 1);
        let prev = interleaved(p.take(k - 1));
        assert(p.take(k).drop_last() =~= p.take(k - 1));
        assert(p.take(k).last() == p[k - 1]);
        let s = interleaved(p.take(k));
        assert(s == prev + seq![CONCAT, p[k - 1]]);
        let s1 = prev + seq![CONCAT];
        assert(s.drop_last() =~= s1);
        assert(s.last() == p[k - 1]);
        assert(s1.drop_last() =~= prev);
        assert(s1.last() == CONCAT);
        let st = chain_state(p, k - 1);
        assert(spec_run(s1) == spec_step(st, CONCAT));
        let red = if k == 2 {
            st
        } else {
            spec_combine(st)->Ok_0
        };
        if k == 2 {
            assert(spec_reduce(st, 3) == Ok::<ParseState, SyntaxError>(st));
        } else {
            assert(p.take(k - 1).drop_last() =~= p.take(k - 2));
            assert(p.take(k - 1).last() == p[k - 2]);
            assert(st.1.last() == leaf(p[k - 2]));
            assert(st.1.drop_last().last() == chain(p.take(k - 2)));
            assert(chain(p.take(k - 1)) == Node {
                value: CONCAT,
                left: Some(Box::new(chain(p.take(k - 2)))),
                right: Some(Box::new(leaf(p[k - 2]))),
            });
            assert(red.1 =~= seq![chain(p.take(k - 1))]);
            assert(red.0 =~= Seq::<char>::empty());
            assert(spec_reduce(red, 3) == Ok::<ParseState, SyntaxError>(red));
            assert(spec_reduce(st, 3) == Ok::<ParseState, SyntaxError>(red));
        }
        let mid: ParseState = (red.0.push(CONCAT), red.1);
        assert(spec_step(st, CONCAT) == Ok::<ParseState, SyntaxError>(mid));
        assert(spec_run(s) == spec_step(mid, p[k - 1]));
        let fin: ParseState = (mid.0, mid.1.push(leaf(p[k - 1])));
        assert(spec_step(mid, p[k - 1]) == Ok::<ParseState, SyntaxError>(fin));
        assert(fin.0 =~= chain_state(p, k).0);
        assert(fin.1 =~= chain_state(p, k).1);
    }
}

/// A pattern of literals parses to the left-nested chain of its symbols.
pub proof fn lemma_parse_literal(p: Seq<char>)
    requires
        is_literal_pattern(p),
    ensures
        spec_parse_regex(with_concat(p)) == Ok::<Node<char>, SyntaxError>(chain(p)),
{
    lemma_with_concat_literal(p);
    lemma_run_chain(p, p.len() as int);
    assert(p.take(p.len() as int) =~= p);
    let st = chain_state(p, p.len() as int);
    if p.len() >= 2 {
        let next = spec_combine(st)->Ok_0;
        assert(p.drop_last() =~= p.take(p.len() - 1));
        assert(st.1.last() == leaf(p.last()));
        assert(st.1.drop_last().last() == chain(p.drop_last()));
        assert(next.1 =~= seq![chain(p)]);
        assert(next.0 =~= Seq::<char>::empty());
        assert(spec_finish(next) == Ok::<Node<char>, SyntaxError>(chain(p)));
        assert(spec_finish(st) == Ok::<Node<char>, SyntaxError>(chain(p)));
    } else {
        assert(spec_finish(st) == Ok::<Node<char>, SyntaxError>(leaf(p[0])));
    }
}

/// Row `2i` moves on the `i`-th symbol to `2i + 1`.
pub open spec fn lit_move(p: Seq<char>, rows: Rows, i: int) -> bool {
    row_at(rows, 2 * i).contains((Some(p[i]), (2 * i + 1) as State))
}

/// Row `2i + 1` moves by epsilon to `2i + 2`.
pub open spec fn link_move(rows: Rows, i: int) -> bool {
    row_at(rows, 2 * i + 1).contains((None::<char>, (2 * i + 2) as State))
}

/// The table for a chain of the first `k` symbols of `p`.
pub open spec fn chain_rows(p: Seq<char>, rows: Rows, k: int) -> bool {
    &&& rows.len() == 2 * k
    &&& forall|i: int| 0 <= i < k ==> #[trigger] lit_move(p, rows, i)
    &&& forall|i: int| 0 <= i < k - 1 ==> #[trigger] link_move(rows, i)
}

proof fn lemma_chain_post(p: Seq<char>, k: int)
    requires
        1 <= k <= p.len(),
    ensures
        k >= 2 ==> chain(p.take(k)).post_order_seq() == chain(p.take(k - 1)).post_order_seq() + seq![p[k - 1], CONCAT],
        k == 1 ==> chain(p.take(k)).post_order_seq() == seq![p[0]],
        chain(p.take(k)).post_order_seq().len() == 2 * k - 1,
    decreases k,
{
    let t = chain(p.take(k));
    if k == 1 {
        assert(t == leaf(p[0]));
        assert(t.post_order_seq() =~= seq![p[0]]);
    } else {
        lemma_chain_post(p, k - 1);
        assert(p.take(k).drop_last() =~= p.take(k - 1));
        assert(p.take(k).last() == p[k - 1]);
        assert(leaf(p[k - 1]).post_order_seq() =~= seq![p[k - 1]]);
        assert(t.post_order_seq() =~= chain(p.take(k - 1)).post_order_seq() + seq![p[k - 1], CONCAT]);
    }
}

proof fn lemma_build_chain(p: Seq<char>, k: int)
    requires
        is_literal_pattern(p),
        1 <= k <= p.len(),
        2 * p.len() + 2 <= usize::MAX,
    ensures
        thompson_run(chain(p.take(k)).post_order_seq()) matches Some((rows, frags, c)) && c == 2 * k && frags
            == seq![(0usize, (2 * k - 1) as State)] && chain_rows(p, rows, k),
    decreases k,
{
    lemma_chain_post(p, k);
    let post = chain(p.take(k)).post_order_seq();
    assert(!spec_is_operator(p[k - 1]));
    if k == 1 {
        let b0: Build = (seq![], seq![], 0);
        lemma_run_is_from(post);
        lemma_from_single(b0, p[0]);
        let r1 = add_move(seq![], 0, Some(p[0]), 1);
        let rows = clear_row(r1, 1);
        lemma_row_at_add_move(seq![], 0, Some(p[0]), 1);
        lemma_row_at_clear(r1, 1);
        assert(row_at(rows, 0) =~= seq![(Some(p[0]), 1usize)]);
        assert(lit_move(p, rows, 0)) by {
            assert(row_at(rows, 0)[0] == (Some(p[0]), 1usize));
        }
        assert(seq![(0usize, 1usize)] =~= seq![].push((0usize, 1usize)));
    } else {
        lemma_build_chain(p, k - 1);
        let prev = chain(p.take(k - 1)).post_order_seq();
        let bk = thompson_run(prev)->Some_0;
        lemma_run_is_from(prev);
        lemma_run_is_from(post);
        let b0: Build = (seq![], seq![], 0);
        lemma_from_concat(b0, prev, seq![p[k - 1], CONCAT]);
        lemma_chain_extend(p, k, bk);
    }
}

#[verifier::rlimit(60)]
proof fn lemma_chain_extend(p: Seq<char>, k: int, bk: Build)
    requires
        is_literal_pattern(p),
        2 <= k <= p.len(),
        2 * p.len() + 2 <= usize::MAX,
        bk.2 == 2 * k - 2,
        bk.1 == seq![(0usize, (2 * k - 3) as State)],
        chain_rows(p, bk.0, k - 1),
    ensures
        thompson_from(bk, seq![p[k - 1], CONCAT]) matches Some((rows, frags, c)) && c == 2 * k && frags
            == seq![(0usize, (2 * k - 1) as State)] && chain_rows(p, rows, k),
{
    let (rows, frags, c) = bk;
    assert(!spec_is_operator(p[k - 1]));
    lemma_from_concat(bk, seq![p[k - 1]], seq![CONCAT]);
    assert(seq![p[k - 1]] + seq![CONCAT] =~= seq![p[k - 1], CONCAT]);
    lemma_from_single(bk, p[k - 1]);
    let i = c as State;
    let f = (c + 1) as State;
    let r1 = add_move(rows, i, Some(p[k - 1]), f);
    let r2 = clear_row(r1, f);
    let b1: Build = (r2, frags.push((i, f)), c + 2);
    assert(thompson_step(bk, p[k - 1]) == Some(b1));
    lemma_from_single(b1, CONCAT);
    let lf = (2 * k - 3) as State;
    let r3 = add_move(r2, lf, None, i);
    assert(b1.1.last() == (i, f));
    assert(b1.1.drop_last().last() == (0usize, lf));
    let b2: Build = (r3, seq![(0usize, f)], c + 2);
    assert(b1.1.drop_last().drop_last().push((0usize, f)) =~= seq![(0usize, f)]);
    assert(thompson_step(b1, CONCAT) == Some(b2));
    lemma_row_at_add_move(rows, i, Some(p[k - 1]), f);
    lemma_row_at_clear(r1, f);
    lemma_row_at_add_move(r2, lf, None, i);
    assert forall|j: int| 0 <= j < k implies #[trigger] lit_move(p, r3, j) by {
        if j < k - 1 {
            assert(lit_move(p, rows, j));
            assert(row_at(r3, 2 * j) == row_at(rows, 2 * j));
        } else {
            assert(row_at(rows, 2 * j).len() == 0);
            assert(row_at(r3, 2 * j) == seq![].push((Some(p[k - 1]), f)));
            assert(row_at(r3, 2 * j)[0] == (Some(p[k - 1]), f));
        }
    }
    assert forall|j: int| 0 <= j < k - 1 implies #[trigger] link_move(r3, j) by {
        if j < k - 2 {
            assert(link_move(rows, j));
            assert(row_at(r3, 2 * j + 1) == row_at(rows, 2 * j + 1));
        } else {
            let rr = row_at(r2, 2 * j + 1);
            assert(row_at(r3, 2 * j + 1) == rr.push((None::<char>, i)));
            assert(row_at(r3, 2 * j + 1)[rr.len() as int] == (None::<char>, i));
        }
    }
}

proof fn lemma_chain_layers(a: &EFA, p: Seq<char>, rows: Rows, i: int)
    requires
        is_literal_pattern(p),
        a.wf(),
        efa_unmixed(a),
        holds_rows(a, rows),
        chain_rows(p, rows, p.len() as int),
        a.start_state() == Some(0usize),
        0 <= i <= p.len(),
        2 * p.len() + 2 <= usize::MAX,
    ensures
        i < p.len() ==> layer(a, p, i as nat).contains((2 * i) as State),
        i >= 1 ==> layer(a, p, i as nat).contains((2 * i - 1) as State),
    decreases i,
{
    let n = p.len() as int;
    if i == 0 {
        lemma_unblocked(a, set![0usize], next_symbol(p, 0));
        lemma_seed_reachable(&EpsStep { aut: a, blocked_by: None }, set![0usize], 0usize);
    } else {
        lemma_chain_layers(a, p, rows, i - 1);
        let prev = layer(a, p, (i - 1) as nat);
        let u = (2 * i - 2) as State;
        let v = (2 * i - 1) as State;
        assert(lit_move(p, rows, i - 1));
        assert(a.row(u as int) == row_at(rows, u as int));
        assert(a.spec_direct(u, p[i - 1], v));
        let seeds = direct_step(a, prev, p[i - 1]);
        assert(seeds.contains(v));
        lemma_unblocked(a, seeds, next_symbol(p, i as nat));
        let g = EpsStep { aut: a, blocked_by: None };
        lemma_seed_reachable(&g, seeds, v);
        if i < n {
            let w = (2 * i) as State;
            assert(link_move(rows, i - 1));
            assert(a.row(v as int) == row_at(rows, v as int));
            assert(g.spec_edge(v, w));
            lemma_reachable_step(&g, seeds, v, w);
        }
    }
}

/// Every pattern made of literals alone, once compiled, matches itself at
/// offset 0.
pub proof fn lemma_literal_pattern_matches_itself(p: Seq<char>, m: GenericRegexParser)
    requires
        is_literal_pattern(p),
        compiles_to(p, Ok(m)),
    ensures
        dfa_find(&m.matcher(), p) == Some(0nat),
{
    let n = p.len() as int;
    lemma_parse_literal(p);
    assert(p.take(n) =~= p);
    lemma_chain_post(p, n);
    let post = chain(p).post_order_seq();
    assert(2 * n + 2 <= usize::MAX);
    lemma_build_chain(p, n);
    let rows = thompson_run(post)->Some_0.0;
    let a = m.epsilon_automaton();
    assert(built_from(post, &a));
    lemma_thompson_unmixed(post);
    assert forall|q: int, x: int, y: int|
        0 <= x < a.row(q).len() && 0 <= y < a.row(q).len() implies !((#[trigger] a.row(q)[x]).0 is Some
            && (#[trigger] a.row(q)[y]).0 is None) by {
        assert(a.row(q) == row_at(rows, q));
    }
    lemma_chain_layers(&a, p, rows, n);
    assert(a.spec_end() == (2 * n - 1) as State);
    assert(matches_prefix(&a, p));
    assert(p.skip(0) =~= p);
    lemma_compiled_stages_agree(p, m);
    let d = choose|d: crate::dfa::DFA|
        crate::regex_parser::is_determinization(&m.epsilon_automaton(), &d) && forall|text: Seq<char>|
            #[trigger] efa_find(&m.epsilon_automaton(), text) == dfa_find(&d, text) && dfa_find(&d, text)
                == dfa_find(&m.matcher(), text);
    assert(efa_find(&a, p) == Some(0nat));
    assert(efa_find(&m.epsilon_automaton(), p) == dfa_find(&d, p));
}

} // verus!
