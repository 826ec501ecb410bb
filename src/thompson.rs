use vstd::prelude::*;
use crate::efa::EFA;
use crate::regex_parser::{CONCAT, is_operator, shaped, spec_is_operator};
use crate::tree::Node;
use crate::state_generator::{State, StateGenerator};

verus! {

/// A table of rows, one per state.
pub type Rows = Seq<Seq<(Option<char>, State)>>;

/// Row `q` of `rows`; empty past the end.
pub open spec fn row_at(rows: Rows, q: int) -> Seq<(Option<char>, State)> {
    if 0 <= q < rows.len() {
        rows[q]
    } else {
        seq![]
    }
}

/// `rows` with the move (`sym`, `f`) added at the end of row `i`.
pub open spec fn add_move(rows: Rows, i: State, sym: Option<char>, f: State) -> Rows {
    Seq::new(
        vstd::math::max(rows.len() as int, vstd::math::max(i + 1, f + 1)) as nat,
        |q: int| if q == i {
            row_at(rows, q).push((sym, f))
        } else {
            row_at(rows, q)
        },
    )
}

/// `rows` with row `i` emptied.
pub open spec fn clear_row(rows: Rows, i: State) -> Rows {
    Seq::new(
        vstd::math::max(rows.len() as int, i + 1) as nat,
        |q: int| if q == i {
            seq![]
        } else {
            row_at(rows, q)
        },
    )
}

/// Construction state: the table so far, the stack of fragments (entry,
/// exit), and the next free state.
pub type Build = (Rows, Seq<(State, State)>, nat);

/// Thompson's construction for one postfix token.
pub open spec fn thompson_step(b: Build, tok: char) -> Option<Build> {
    let (rows, frags, c) = b;
    let i = c as State;
    let f = (c + 1) as State;
    if !spec_is_operator(tok) {
        Some((clear_row(add_move(rows, i, Some(tok), f), f), frags.push((i, f)), c + 2))
    } else if tok == '*' {
        if frags.len() < 1 {
            None
        } else {
            let (ci, cf) = frags.last();
            let r1 = add_move(rows, i, None, f);
            let r2 = add_move(r1, i, None, ci);
            let r3 = add_move(r2, cf, None, f);
            let r4 = add_move(r3, cf, None, ci);
            Some((r4, frags.drop_last().push((i, f)), c + 2))
        }
    } else if tok == '|' {
        if frags.len() < 2 {
            None
        } else {
            let (ri, rf) = frags.last();
            let (li, lf) = frags.drop_last().last();
            let r1 = add_move(rows, i, None, li);
            let r2 = add_move(r1, i, None, ri);
            let r3 = add_move(r2, lf, None, f);
            let r4 = add_move(r3, rf, None, f);
            Some((clear_row(r4, f), frags.drop_last().drop_last().push((i, f)), c + 2))
        }
    } else if tok == CONCAT {
        if frags.len() < 2 {
            None
        } else {
            let (ri, rf) = frags.last();
            let (li, lf) = frags.drop_last().last();
            Some((add_move(rows, lf, None, ri), frags.drop_last().drop_last().push((li, rf)), c))
        }
    } else {
        None
    }
}

/// The construction state after the tokens of `post`.
pub open spec fn thompson_run(post: Seq<char>) -> Option<Build>
    decreases post.len(),
{
    if post.len() == 0 {
        Some((seq![], seq![], 0))
    } else {
        match thompson_run(post.drop_last()) {
            Some(b) => thompson_step(b, post.last()),
            None => None,
        }
    }
}

/// Thompson's construction over a postfix token sequence: the table, the
/// start state and the end state, when exactly one fragment is left.
pub open spec fn thompson(post: Seq<char>) -> Option<(Rows, State, State)> {
    match thompson_run(post) {
        Some((rows, frags, c)) => if frags.len() == 1 {
            Some((rows, frags[0].0, frags[0].1))
        } else {
            None
        },
        None => None,
    }
}

/// The construction state after the tokens of `s`, from `b`.
pub open spec fn thompson_from(b: Build, s: Seq<char>) -> Option<Build>
    decreases s.len(),
{
    if s.len() == 0 {
        Some(b)
    } else {
        match thompson_from(b, s.drop_last()) {
            Some(b2) => thompson_step(b2, s.last()),
            None => None,
        }
    }
}

pub(crate) proof fn lemma_run_is_from(s: Seq<char>)
    ensures
        thompson_run(s) == thompson_from((seq![], seq![], 0), s),
    decreases s.len(),
{
    if s.len() > 0 {
        lemma_run_is_from(s.drop_last());
    }
}

pub(crate) proof fn lemma_from_concat(b: Build, s1: Seq<char>, s2: Seq<char>)
    ensures
        thompson_from(b, s1 + s2) == match thompson_from(b, s1) {
            Some(b1) => thompson_from(b1, s2),
            None => None,
        },
    decreases s2.len(),
{
    if s2.len() == 0 {
        assert(s1 + s2 =~= s1);
    } else {
        assert((s1 + s2).drop_last() =~= s1 + s2.drop_last());
        assert((s1 + s2).last() == s2.last());
        lemma_from_concat(b, s1, s2.drop_last());
    }
}

pub(crate) proof fn lemma_from_single(b: Build, tok: char)
    ensures
        thompson_from(b, seq![tok]) == thompson_step(b, tok),
{
    assert(seq![tok].drop_last() =~= Seq::<char>::empty());
    assert(thompson_from(b, Seq::<char>::empty()) == Some(b));
    assert(seq![tok].last() == tok);
}

/// Over the postfix tokens of a well-shaped tree, the construction always
/// goes through and leaves exactly one more fragment on the stack.
proof fn lemma_shaped_builds(b: Build, t: Node<char>)
    requires
        shaped(t),
    ensures
        thompson_from(b, t.post_order_seq()) is Some,
        thompson_from(b, t.post_order_seq())->Some_0.1.len() == b.1.len() + 1,
        thompson_from(b, t.post_order_seq())->Some_0.1.take(b.1.len() as int) == b.1,
    decreases t,
{
    let post = t.post_order_seq();
    if t.value == '*' {
        let l = *t.left->Some_0;
        lemma_shaped_builds(b, l);
        let b1 = thompson_from(b, l.post_order_seq())->Some_0;
        assert(post =~= l.post_order_seq() + seq!['*']);
        lemma_from_concat(b, l.post_order_seq(), seq!['*']);
        lemma_from_single(b1, '*');
        let b2 = thompson_from(b1, seq!['*'])->Some_0;
        assert(b2.1 == b1.1.drop_last().push((b1.2 as State, (b1.2 + 1) as State)));
        assert(b1.1.drop_last() =~= b1.1.take(b.1.len() as int));
        assert(b2.1.take(b.1.len() as int) =~= b.1);
    } else if t.value == '|' || t.value == CONCAT {
        let l = *t.left->Some_0;
        let r = *t.right->Some_0;
        lemma_shaped_builds(b, l);
        let b1 = thompson_from(b, l.post_order_seq())->Some_0;
        lemma_shaped_builds(b1, r);
        let b2 = thompson_from(b1, r.post_order_seq())->Some_0;
        assert(post =~= l.post_order_seq() + r.post_order_seq() + seq![t.value]);
        lemma_from_concat(b, l.post_order_seq(), r.post_order_seq());
        lemma_from_concat(b, l.post_order_seq() + r.post_order_seq(), seq![t.value]);
        lemma_from_single(b2, t.value);
        let b3 = thompson_from(b2, seq![t.value])->Some_0;
        assert(b2.1.take(b1.1.len() as int) == b1.1);
        assert(b2.1.drop_last().drop_last() =~= b.1) by {
            assert(b1.1.take(b.1.len() as int) == b.1);
        }
        assert(b3.1.take(b.1.len() as int) =~= b.1);
    } else {
        assert(post =~= seq![t.value]);
        lemma_from_single(b, t.value);
        let b1 = thompson_from(b, post)->Some_0;
        assert(b1.1.take(b.1.len() as int) =~= b.1);
    }
}

/// Thompson's construction over the postfix tokens of a well-shaped tree
/// always gives an automaton.
pub proof fn lemma_thompson_total(t: Node<char>)
    requires
        shaped(t),
    ensures
        thompson(t.post_order_seq()) is Some,
{
    lemma_run_is_from(t.post_order_seq());
    lemma_shaped_builds((seq![], seq![], 0), t);
}

proof fn lemma_run_none(post: Seq<char>, j: int)
    requires
        0 <= j <= post.len(),
        thompson_run(post.take(j)) is None,
    ensures
        thompson_run(post) is None,
    decreases post.len() - j,
{
    if j < post.len() {
        assert(post.take(j + 1).drop_last() =~= post.take(j));
        lemma_run_none(post, j + 1);
    } else {
        assert(post.take(j) =~= post);
    }
}

/// The table of `efa` is `rows`.
pub open spec fn holds_rows(efa: &EFA, rows: Rows) -> bool {
    efa.n_states() == rows.len() && forall|q: int| #[trigger] efa.row(q) == row_at(rows, q)
}

proof fn lemma_rows_after_move(before: &EFA, after: &EFA, rows: Rows, i: State, sym: Option<char>, f: State)
    requires
        holds_rows(before, rows),
        after.n_states() == vstd::math::max(before.n_states() as int, vstd::math::max(i + 1, f + 1)),
        forall|q: int| #[trigger] after.row(q) == if q == i {
            before.row(q).push((sym, f))
        } else {
            before.row(q)
        },
    ensures
        holds_rows(after, add_move(rows, i, sym, f)),
{
    let r = add_move(rows, i, sym, f);
    assert forall|q: int| #[trigger] after.row(q) == row_at(r, q) by {
        assert(before.row(q) == row_at(rows, q));
        if !(0 <= q < r.len()) {
            assert(after.row(q) == before.row(q));
            if q == i {
                assert(false);
            }
        }
    }
}

proof fn lemma_rows_after_clear(before: &EFA, after: &EFA, rows: Rows, i: State)
    requires
        holds_rows(before, rows),
        after.n_states() == vstd::math::max(before.n_states() as int, i + 1),
        forall|q: int| #[trigger] after.row(q) == if q == i {
            seq![]
        } else {
            before.row(q)
        },
    ensures
        holds_rows(after, clear_row(rows, i)),
{
    let r = clear_row(rows, i);
    assert forall|q: int| #[trigger] after.row(q) == row_at(r, q) by {
        assert(before.row(q) == row_at(rows, q));
    }
}

/// No row mixes a move on a symbol with an epsilon move.
pub open spec fn unmixed(rows: Rows) -> bool {
    forall|q: int, a: int, b: int|
        0 <= a < row_at(rows, q).len() && 0 <= b < row_at(rows, q).len() ==> !((#[trigger] row_at(rows, q)[a]).0 is Some
            && (#[trigger] row_at(rows, q)[b]).0 is None)
}

/// Row `q` has epsilon moves only.
pub open spec fn no_direct(rows: Rows, q: int) -> bool {
    forall|a: int| 0 <= a < row_at(rows, q).len() ==> (#[trigger] row_at(rows, q)[a]).0 is None
}

pub(crate) proof fn lemma_row_at_add_move(rows: Rows, i: State, sym: Option<char>, f: State)
    ensures
        forall|q: int| #[trigger] row_at(add_move(rows, i, sym, f), q) == if q == i {
            row_at(rows, q).push((sym, f))
        } else {
            row_at(rows, q)
        },
{
}

pub(crate) proof fn lemma_row_at_clear(rows: Rows, i: State)
    ensures
        forall|q: int| #[trigger] row_at(clear_row(rows, i), q) == if q == i {
            seq![]
        } else {
            row_at(rows, q)
        },
{
}

/// Adding an epsilon move to a row without direct moves keeps the table
/// unmixed and every other row as it was.
proof fn lemma_add_eps(rows: Rows, i: State, f: State)
    requires
        unmixed(rows),
        no_direct(rows, i as int),
    ensures
        unmixed(add_move(rows, i, None, f)),
        no_direct(add_move(rows, i, None, f), i as int),
        forall|q: int| q != i && no_direct(rows, q) ==> #[trigger] no_direct(add_move(rows, i, None, f), q),
{
    let r = add_move(rows, i, None, f);
    lemma_row_at_add_move(rows, i, None, f);
    assert forall|q: int, a: int, b: int|
        0 <= a < row_at(r, q).len() && 0 <= b < row_at(r, q).len() implies !((#[trigger] row_at(r, q)[a]).0 is Some
            && (#[trigger] row_at(r, q)[b]).0 is None) by {
        if q == i {
            if a < row_at(rows, q).len() {
                assert(row_at(r, q)[a] == row_at(rows, q)[a]);
            }
        } else {
            assert(row_at(r, q) == row_at(rows, q));
        }
    }
    assert forall|a: int| 0 <= a < row_at(r, i as int).len() implies (#[trigger] row_at(r, i as int)[a]).0 is None by {
        if a < row_at(rows, i as int).len() {
            assert(row_at(r, i as int)[a] == row_at(rows, i as int)[a]);
        }
    }
    assert forall|q: int| q != i && no_direct(rows, q) implies #[trigger] no_direct(r, q) by {
        assert(row_at(r, q) == row_at(rows, q));
    }
}

/// What holds after every prefix of the construction: the table has a row
/// per state used, mixes no moves, and the exits of the fragments have
/// epsilon moves only.
pub open spec fn build_ok(b: Build) -> bool {
    let (rows, frags, c) = b;
    &&& rows.len() == c
    &&& unmixed(rows)
    &&& forall|k: int| 0 <= k < frags.len() ==> (#[trigger] frags[k]).0 < c && frags[k].1 < c && no_direct(rows, frags[k].1 as int)
}

proof fn lemma_step_ok(b: Build, tok: char)
    requires
        build_ok(b),
        b.2 + 2 <= usize::MAX,
        thompson_step(b, tok) is Some,
    ensures
        build_ok(thompson_step(b, tok)->Some_0),
{
    let (rows, frags, c) = b;
    let i = c as State;
    let f = (c + 1) as State;
    let nb = thompson_step(b, tok)->Some_0;
    if !spec_is_operator(tok) {
        let r1 = add_move(rows, i, Some(tok), f);
        let r2 = clear_row(r1, f);
        lemma_row_at_add_move(rows, i, Some(tok), f);
        lemma_row_at_clear(r1, f);
        assert forall|q: int, a: int, bb: int|
            0 <= a < row_at(r2, q).len() && 0 <= bb < row_at(r2, q).len() implies !((#[trigger] row_at(r2, q)[a]).0 is Some
                && (#[trigger] row_at(r2, q)[bb]).0 is None) by {
            if q == i {
                assert(row_at(rows, q).len() == 0);
                assert(row_at(r2, q) =~= seq![(Some(tok), f)]);
            } else if q != f {
                assert(row_at(r2, q) == row_at(rows, q));
            }
        }
        assert forall|k: int| 0 <= k < nb.1.len() implies (#[trigger] nb.1[k]).0 < nb.2 && nb.1[k].1 < nb.2 && no_direct(nb.0, nb.1[k].1 as int) by {
            if k < frags.len() {
                assert(nb.1[k] == frags[k]);
                assert(no_direct(rows, frags[k].1 as int));
                assert(row_at(r2, frags[k].1 as int) == row_at(rows, frags[k].1 as int));
            }
        }
    } else if tok == '*' {
        let (ci, cf) = frags.last();
        assert(frags[frags.len() - 1] == (ci, cf));
        let r1 = add_move(rows, i, None, f);
        let r2 = add_move(r1, i, None, ci);
        let r3 = add_move(r2, cf, None, f);
        let r4 = add_move(r3, cf, None, ci);
        assert(no_direct(rows, i as int)) by {
            assert(row_at(rows, i as int).len() == 0);
        }
        lemma_add_eps(rows, i, f);
        lemma_add_eps(r1, i, ci);
        lemma_add_eps(r2, cf, f);
        lemma_add_eps(r3, cf, ci);
        lemma_row_at_add_move(rows, i, None, f);
        lemma_row_at_add_move(r1, i, None, ci);
        lemma_row_at_add_move(r2, cf, None, f);
        lemma_row_at_add_move(r3, cf, None, ci);
        assert(no_direct(r4, f as int)) by {
            assert(row_at(r4, f as int) == row_at(rows, f as int));
            assert(row_at(rows, f as int).len() == 0);
        }
        assert forall|k: int| 0 <= k < nb.1.len() implies (#[trigger] nb.1[k]).0 < nb.2 && nb.1[k].1 < nb.2 && no_direct(nb.0, nb.1[k].1 as int) by {
            if k < frags.len() - 1 {
                assert(nb.1[k] == frags[k]);
                let e = frags[k].1 as int;
                assert(no_direct(rows, e));
                if e != i && e != cf {
                    assert(no_direct(r4, e));
                }
            }
        }
    } else if tok == '|' {
        let (ri, rf) = frags.last();
        let (li, lf) = frags.drop_last().last();
        assert(frags[frags.len() - 1] == (ri, rf));
        assert(frags[frags.len() - 2] == (li, lf));
        let r1 = add_move(rows, i, None, li);
        let r2 = add_move(r1, i, None, ri);
        let r3 = add_move(r2, lf, None, f);
        let r4 = add_move(r3, rf, None, f);
        let r5 = clear_row(r4, f);
        assert(no_direct(rows, i as int)) by {
            assert(row_at(rows, i as int).len() == 0);
        }
        lemma_add_eps(rows, i, li);
        lemma_add_eps(r1, i, ri);
        assert(no_direct(r2, lf as int));
        lemma_add_eps(r2, lf, f);
        assert(no_direct(r3, rf as int)) by {
            if rf != lf {
                assert(no_direct(r2, rf as int));
            }
        }
        lemma_add_eps(r3, rf, f);
        lemma_row_at_clear(r4, f);
        assert(unmixed(r5)) by {
            assert forall|q: int, a: int, bb: int|
                0 <= a < row_at(r5, q).len() && 0 <= bb < row_at(r5, q).len() implies !((#[trigger] row_at(r5, q)[a]).0 is Some
                    && (#[trigger] row_at(r5, q)[bb]).0 is None) by {
                if q != f {
                    assert(row_at(r5, q) == row_at(r4, q));
                }
            }
        }
        assert forall|k: int| 0 <= k < nb.1.len() implies (#[trigger] nb.1[k]).0 < nb.2 && nb.1[k].1 < nb.2 && no_direct(nb.0, nb.1[k].1 as int) by {
            if k < frags.len() - 2 {
                assert(nb.1[k] == frags[k]);
                let e = frags[k].1 as int;
                assert(no_direct(rows, e));
                assert(no_direct(r4, e)) by {
                    if e != i && e != lf && e != rf {
                        assert(no_direct(r1, e));
                        assert(no_direct(r2, e));
                        assert(no_direct(r3, e));
                    } else if e == lf {
                        assert(no_direct(r3, e));
                        if e != rf {
                        }
                    } else if e == rf {
                    } else {
                        assert(no_direct(r2, e));
                        assert(no_direct(r3, e));
                    }
                }
                if e != f {
                    assert(row_at(r5, e) == row_at(r4, e));
                }
            } else {
                assert(row_at(r5, f as int) =~= seq![]);
            }
        }
    } else {
        let (ri, rf) = frags.last();
        let (li, lf) = frags.drop_last().last();
        assert(frags[frags.len() - 1] == (ri, rf));
        assert(frags[frags.len() - 2] == (li, lf));
        lemma_add_eps(rows, lf, ri);
        let r1 = add_move(rows, lf, None, ri);
        lemma_row_at_add_move(rows, lf, None, ri);
        assert forall|k: int| 0 <= k < nb.1.len() implies (#[trigger] nb.1[k]).0 < nb.2 && nb.1[k].1 < nb.2 && no_direct(nb.0, nb.1[k].1 as int) by {
            if k < frags.len() - 2 {
                assert(nb.1[k] == frags[k]);
                let e = frags[k].1 as int;
                assert(no_direct(rows, e));
                if e != lf {
                    assert(no_direct(r1, e));
                }
            } else {
                assert(no_direct(rows, rf as int));
                if rf != lf {
                    assert(no_direct(r1, rf as int));
                }
            }
        }
    }
}

/// Thompson's construction mixes no moves: a state moves either on
/// symbols only or by epsilon moves only.
pub proof fn lemma_thompson_unmixed(post: Seq<char>)
    requires
        2 * post.len() + 2 <= usize::MAX,
        thompson_run(post) is Some,
    ensures
        build_ok(thompson_run(post)->Some_0),
        thompson_run(post)->Some_0.2 <= 2 * post.len(),
    decreases post.len(),
{
    if post.len() > 0 {
        lemma_thompson_unmixed(post.drop_last());
        lemma_step_ok(thompson_run(post.drop_last())->Some_0, post.last());
    } else {
        assert forall|q: int, a: int, b: int|
            0 <= a < row_at(seq![], q).len() && 0 <= b < row_at(seq![], q).len() implies !((#[trigger] row_at(seq![], q)[a]).0 is Some
                && (#[trigger] row_at(seq![], q)[b]).0 is None) by {}
    }
}

/// The positions on the stack are keys below `pos` recorded with the
/// fragments, in order.
pub open spec fn stack_ok(stack: Seq<usize>, recorded: Map<usize, (State, State)>, frags: Seq<(State, State)>, pos: int) -> bool {
    &&& stack.len() == frags.len()
    &&& forall|k: int| 0 <= k < stack.len() ==> #[trigger] stack[k] < pos && recorded.contains_key(stack[k])
        && recorded[stack[k]] == frags[k]
}

/// Where fragment `k`'s interval of states ends: at the next fragment's
/// start, or at the counter for the last one.
pub open spec fn hi_of(los: Seq<nat>, k: int, c: nat) -> nat {
    if k + 1 < los.len() {
        los[k + 1]
    } else {
        c
    }
}

pub open spec fn in_interval(los: Seq<nat>, c: nat, k: int, v: (State, State)) -> bool {
    los[k] <= v.0 < hi_of(los, k, c) && los[k] <= v.1 < hi_of(los, k, c)
}

/// The fragments on the stack own consecutive intervals of states, and
/// every pair that the registry holds lies inside one of them.
pub open spec fn layout_ok(los: Seq<nat>, frags: Seq<(State, State)>, c: nat, recorded: Map<usize, (State, State)>) -> bool {
    &&& los.len() == frags.len()
    &&& forall|k1: int, k2: int| 0 <= k1 < k2 < los.len() ==> los[k1] < los[k2]
    &&& forall|k: int| 0 <= k < frags.len() ==> #[trigger] in_interval(los, c, k, frags[k])
    &&& forall|key: usize| #[trigger] recorded.contains_key(key) ==> exists|k: int|
        0 <= k < frags.len() && #[trigger] in_interval(los, c, k, recorded[key])
}

proof fn lemma_layout_push(
    los: Seq<nat>,
    frags: Seq<(State, State)>,
    c: nat,
    recorded: Map<usize, (State, State)>,
    pos: usize,
)
    requires
        layout_ok(los, frags, c, recorded),
        !recorded.contains_key(pos),
        c + 2 <= usize::MAX,
    ensures
        layout_ok(
            los.push(c),
            frags.push((c as State, (c + 1) as State)),
            c + 2,
            recorded.insert(pos, (c as State, (c + 1) as State)),
        ),
{
    let n = los.len() as int;
    let los2 = los.push(c);
    let frags2 = frags.push((c as State, (c + 1) as State));
    let rec2 = recorded.insert(pos, (c as State, (c + 1) as State));
    assert forall|k1: int, k2: int| 0 <= k1 < k2 < los2.len() implies los2[k1] < los2[k2] by {
        if k2 == n {
            assert(in_interval(los, c, k1, frags[k1]));
            if k1 + 1 < n {
                assert(los[k1 + 1] < los[n - 1] || k1 + 1 == n - 1);
                assert(in_interval(los, c, n - 1, frags[n - 1]));
            }
        }
    }
    assert forall|k: int| 0 <= k < frags2.len() implies #[trigger] in_interval(los2, c + 2, k, frags2[k]) by {
        if k < n {
            assert(in_interval(los, c, k, frags[k]));
        }
    }
    assert forall|key: usize| #[trigger] rec2.contains_key(key) implies exists|k: int|
        0 <= k < frags2.len() && #[trigger] in_interval(los2, c + 2, k, rec2[key]) by {
        if key == pos {
            assert(in_interval(los2, c + 2, n, rec2[key]));
        } else {
            let k = choose|k: int| 0 <= k < frags.len() && in_interval(los, c, k, recorded[key]);
            assert(in_interval(los2, c + 2, k, rec2[key]));
        }
    }
}

/// Merging the last `m` fragments into one, which takes the pair `v` and
/// the states up to `c2`.
proof fn lemma_layout_merge(
    los: Seq<nat>,
    frags: Seq<(State, State)>,
    c: nat,
    recorded: Map<usize, (State, State)>,
    m: int,
    c2: nat,
    pos: usize,
    v: (State, State),
)
    requires
        layout_ok(los, frags, c, recorded),
        1 <= m <= frags.len(),
        c <= c2,
        !recorded.contains_key(pos),
        los[frags.len() - m] <= v.0 < c2,
        los[frags.len() - m] <= v.1 < c2,
    ensures
        layout_ok(
            los.take(frags.len() - m + 1),
            frags.take(frags.len() - m).push(v),
            c2,
            recorded.insert(pos, v),
        ),
{
    let n = frags.len() as int;
    let base = n - m;
    let los2 = los.take(base + 1);
    let frags2 = frags.take(base).push(v);
    let rec2 = recorded.insert(pos, v);
    assert forall|k: int| 0 <= k < frags2.len() implies #[trigger] in_interval(los2, c2, k, frags2[k]) by {
        if k < base {
            assert(in_interval(los, c, k, frags[k]));
        }
    }
    assert forall|key: usize| #[trigger] rec2.contains_key(key) implies exists|k: int|
        0 <= k < frags2.len() && #[trigger] in_interval(los2, c2, k, rec2[key]) by {
        if key == pos {
            assert(in_interval(los2, c2, base, rec2[key]));
        } else {
            let k = choose|k: int| 0 <= k < frags.len() && in_interval(los, c, k, recorded[key]);
            if k < base {
                assert(in_interval(los2, c2, k, rec2[key]));
            } else {
                if k + 1 < n {
                    assert(in_interval(los, c, n - 1, frags[n - 1]));
                    assert(los[k + 1] <= los[n - 1]) by {
                        if k + 1 < n - 1 {
                        }
                    }
                }
                assert(in_interval(los2, c2, base, rec2[key]));
            }
        }
    }
}

/// The pair spliced by a concatenation, the left fragment's entry and the
/// right fragment's exit, is held by no key yet.
proof fn lemma_splice_fresh(
    los: Seq<nat>,
    frags: Seq<(State, State)>,
    c: nat,
    recorded: Map<usize, (State, State)>,
)
    requires
        layout_ok(los, frags, c, recorded),
        frags.len() >= 2,
    ensures
        forall|key: usize| #[trigger] recorded.contains_key(key) ==> recorded[key] != (
            frags[frags.len() - 2].0,
            frags[frags.len() - 1].1,
        ),
{
    let n = frags.len() as int;
    assert(in_interval(los, c, n - 2, frags[n - 2]));
    assert(in_interval(los, c, n - 1, frags[n - 1]));
    assert forall|key: usize| #[trigger] recorded.contains_key(key) implies recorded[key] != (
        frags[n - 2].0,
        frags[n - 1].1,
    ) by {
        let k = choose|k: int| 0 <= k < frags.len() && in_interval(los, c, k, recorded[key]);
        if k < n - 2 {
            assert(los[k + 1] <= los[n - 2]) by {
                if k + 1 < n - 2 {
                }
            }
        }
    }
}

/// Thompson's construction over the postfix tokens `post`: each literal
/// gets a fresh (entry, exit) pair joined by its symbol; `*`, `|` and
/// concatenation join the fragments of their operands by epsilon moves.
/// `None` when an operator lacks operands, on a token that is no operator
/// of the postfix form, or when more or fewer than one fragment is left.
#[verifier::rlimit(60)]
pub fn build_efa(post: &Vec<char>) -> (r: Option<EFA>)
    requires
        2 * post@.len() + 2 <= usize::MAX,
    ensures
        match thompson(post@) {
            None => r is None,
            Some((rows, s, e)) => match r {
                Some(efa) => efa.wf() && holds_rows(&efa, rows) && efa.start_state() == Some(s)
                    && efa.end_state() == Some(e),
                None => false,
            },
        },
{
    let mut efa = EFA::new();
    let mut reg: StateGenerator<usize, (State, State)> = StateGenerator::new();
    let mut stack: Vec<usize> = Vec::new();
    let ghost mut rows: Rows = seq![];
    let ghost mut frags: Seq<(State, State)> = seq![];
    let ghost mut c: nat = 0;
    let ghost mut los: Seq<nat> = seq![];
    proof {
        assert(post@.take(0) =~= seq![]);
        assert forall|q: int| #[trigger] efa.row(q) == row_at(rows, q) by {}
    }
    let mut pos: usize = 0;
    while pos < post.len()
        invariant
            2 * post@.len() + 2 <= usize::MAX,
            pos <= post@.len(),
            thompson_run(post@.take(pos as int)) == Some::<Build>((rows, frags, c)),
            efa.wf(),
            holds_rows(&efa, rows),
            efa.start_state() is None,
            efa.end_state() is None,
            reg.wf(),
            reg.counter() == c,
            c <= 2 * pos,
            rows.len() == c,
            stack_ok(stack@, reg.states(), frags, pos as int),
            forall|key: usize| #[trigger] reg.states().contains_key(key) ==> key < pos,
            layout_ok(los, frags, c, reg.states()),
        decreases post@.len() - pos,
    {
        let tok = post[pos];
        proof {
            assert(post@.take(pos + 1).drop_last() =~= post@.take(pos as int));
            assert(post@.take(pos + 1).last() == tok);
            reg.lemma_wf();
            assert(!reg.states().contains_key(pos));
        }
        let ghost st = (rows, frags, c);
        let ghost stack0 = stack@;
        let ghost frags0 = frags;
        if !is_operator(&tok) {
            let ghost rec0 = reg.states();
            let (i, f) = reg.generate_for(&pos);
            let ghost e0 = efa;
            efa.transition(i, Some(tok), f);
            let ghost e1 = efa;
            proof {
                lemma_rows_after_move(&e0, &e1, rows, i, Some(tok), f);
            }
            efa.empty_transition(f);
            proof {
                lemma_rows_after_clear(&e1, &efa, add_move(rows, i, Some(tok), f), f);
                lemma_layout_push(los, frags, c, rec0, pos);
                los = los.push(c);
                rows = clear_row(add_move(rows, i, Some(tok), f), f);
                frags = frags.push((i, f));
                c = c + 2;
            }
            stack.push(pos);
            proof {
                assert forall|k: int| 0 <= k < stack@.len() implies #[trigger] stack@[k] < pos + 1 && reg.states().contains_key(stack@[k])
                    && reg.states()[stack@[k]] == frags[k] by {
                    if k < stack@.len() - 1 {
                        assert(stack0[k] == stack@[k]);
                        assert(rec0.contains_key(stack@[k]));
                    }
                }
                assert(stack_ok(stack@, reg.states(), frags, pos + 1));
            }
        } else if tok == '*' {
            if stack.len() < 1 {
                proof {
                    lemma_run_none(post@, pos + 1);
                }
                return None;
            }
            let ghost rec0 = reg.states();
            let (i, f) = reg.generate_for(&pos);
            let child = stack.pop().unwrap();
            proof {
                assert(stack@.len() + 1 == frags.len());
                assert(stack0[stack0.len() - 1] == child);
                assert(reg.states().contains_key(child));
            }
            let (ci, cf) = match reg.get_states(&child) {
                Some(pair) => pair,
                None => {
                    return None;
                },
            };
            proof {
                assert((ci, cf) == frags.last());
                let k = frags.len() - 1;
                assert(in_interval(los, c, k, frags[k]));
            }
            let ghost e0 = efa;
            efa.transition(i, None, f);
            let ghost e1 = efa;
            efa.transition(i, None, ci);
            let ghost e2 = efa;
            efa.transition(cf, None, f);
            let ghost e3 = efa;
            efa.transition(cf, None, ci);
            proof {
                let r1 = add_move(rows, i, None, f);
                let r2 = add_move(r1, i, None, ci);
                let r3 = add_move(r2, cf, None, f);
                lemma_rows_after_move(&e0, &e1, rows, i, None, f);
                lemma_rows_after_move(&e1, &e2, r1, i, None, ci);
                lemma_rows_after_move(&e2, &e3, r2, cf, None, f);
                lemma_rows_after_move(&e3, &efa, r3, cf, None, ci);
                lemma_layout_merge(los, frags, c, rec0, 1, c + 2, pos, (i, f));
                assert(los.take(frags.len() as int) =~= los);
                assert(frags.take(frags.len() - 1) =~= frags.drop_last());
                rows = add_move(r3, cf, None, ci);
                frags = frags.drop_last().push((i, f));
                c = c + 2;
            }
            stack.push(pos);
            proof {
                assert forall|k: int| 0 <= k < stack@.len() implies #[trigger] stack@[k] < pos + 1 && reg.states().contains_key(stack@[k])
                    && reg.states()[stack@[k]] == frags[k] by {
                    if k < stack@.len() - 1 {
                        assert(stack0[k] == stack@[k]);
                        assert(rec0.contains_key(stack@[k]));
                    }
                }
                assert(stack_ok(stack@, reg.states(), frags, pos + 1));
            }
        } else if tok == '|' || tok == '·' {
            if stack.len() < 2 {
                proof {
                    lemma_run_none(post@, pos + 1);
                }
                return None;
            }
            let rpos = stack.pop().unwrap();
            let lpos = stack.pop().unwrap();
            let ghost n = frags.len() as int;
            proof {
                assert(stack0[stack0.len() - 1] == rpos);
                assert(stack0[stack0.len() - 2] == lpos);
                assert(reg.states().contains_key(rpos));
                assert(reg.states().contains_key(lpos));
            }
            let (ri, rf) = match reg.get_states(&rpos) {
                Some(pair) => pair,
                None => {
                    return None;
                },
            };
            let (li, lf) = match reg.get_states(&lpos) {
                Some(pair) => pair,
                None => {
                    return None;
                },
            };
            proof {
                assert((ri, rf) == frags.last());
                assert((li, lf) == frags.drop_last().last());
                assert(in_interval(los, c, n - 1, frags[n - 1]));
                assert(in_interval(los, c, n - 2, frags[n - 2]));
                assert(los[n - 2] < los[n - 1]);
            }
            let ghost rec0 = reg.states();
            if tok == '|' {
                let (i, f) = reg.generate_for(&pos);
                let ghost e0 = efa;
                efa.transition(i, None, li);
                let ghost e1 = efa;
                efa.transition(i, None, ri);
                let ghost e2 = efa;
                efa.transition(lf, None, f);
                let ghost e3 = efa;
                efa.transition(rf, None, f);
                let ghost e4 = efa;
                efa.empty_transition(f);
                proof {
                    let r1 = add_move(rows, i, None, li);
                    let r2 = add_move(r1, i, None, ri);
                    let r3 = add_move(r2, lf, None, f);
                    let r4 = add_move(r3, rf, None, f);
                    lemma_rows_after_move(&e0, &e1, rows, i, None, li);
                    lemma_rows_after_move(&e1, &e2, r1, i, None, ri);
                    lemma_rows_after_move(&e2, &e3, r2, lf, None, f);
                    lemma_rows_after_move(&e3, &e4, r3, rf, None, f);
                    lemma_rows_after_clear(&e4, &efa, r4, f);
                    lemma_layout_merge(los, frags, c, rec0, 2, c + 2, pos, (i, f));
                    assert(frags.take(n - 2) =~= frags.drop_last().drop_last());
                    los = los.take(n - 1);
                    rows = clear_row(r4, f);
                    frags = frags.drop_last().drop_last().push((i, f));
                    c = c + 2;
                }
            } else {
                proof {
                    lemma_splice_fresh(los, frags, c, rec0);
                    assert(!reg.has_state((li, rf)));
                    assert(in_interval(los, c, n - 1, frags[n - 1]));
                }
                let ok = reg.insert_with(&pos, &(li, rf));
                if !ok {
                    return None;
                }
                let ghost e0 = efa;
                efa.transition(lf, None, ri);
                proof {
                    lemma_rows_after_move(&e0, &efa, rows, lf, None, ri);
                    lemma_layout_merge(los, frags, c, rec0, 2, c, pos, (li, rf));
                    assert(frags.take(n - 2) =~= frags.drop_last().drop_last());
                    los = los.take(n - 1);
                    rows = add_move(rows, lf, None, ri);
                    frags = frags.drop_last().drop_last().push((li, rf));
                }
            }
            stack.push(pos);
            proof {
                assert forall|k: int| 0 <= k < stack@.len() implies #[trigger] stack@[k] < pos + 1 && reg.states().contains_key(stack@[k])
                    && reg.states()[stack@[k]] == frags[k] by {
                    if k < stack@.len() - 1 {
                        assert(stack0[k] == stack@[k]);
                        assert(rec0.contains_key(stack@[k]));
                    }
                }
                assert(stack_ok(stack@, reg.states(), frags, pos + 1));
            }
        } else {
            proof {
                lemma_run_none(post@, pos + 1);
            }
            return None;
        }
        proof {
            assert(thompson_run(post@.take(pos + 1)) == thompson_step(st, tok));
            assert(forall|k: int| 0 <= k < stack@.len() ==> stack@[k] < pos + 1 && #[trigger] reg.states().contains_key(stack@[k])
                && reg.states()[stack@[k]] == frags[k]);
        }
        pos = pos + 1;
    }
    proof {
        assert(post@.take(pos as int) =~= post@);
    }
    if stack.len() != 1 {
        return None;
    }
    proof {
        assert(stack@[0] < pos);
        assert(reg.states().contains_key(stack@[0]));
    }
    let (start, end) = match reg.get_states(&stack[0]) {
        Some(pair) => pair,
        None => {
            return None;
        },
    };
    proof {
        assert(in_interval(los, c, 0, frags[0]));
    }
    let ghost e0 = efa;
    efa.set_start(start);
    efa.set_end(end);
    proof {
        assert forall|q: int| #[trigger] efa.row(q) == row_at(rows, q) by {
            assert(e0.row(q) == row_at(rows, q));
        }
    }
    Some(efa)
}

} // verus!
