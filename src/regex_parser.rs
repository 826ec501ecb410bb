use vstd::prelude::*;
use crate::dfa::{DFA, too_many_subsets};
use crate::efa::EFA;
use crate::matcher::{as_pos, chars_of, find_result};
use crate::minimize::minimizes;
use crate::thompson::{build_efa, holds_rows, lemma_thompson_total, thompson};
use crate::tree::Node;

verus! {

/// The explicit concatenation operator.
pub const CONCAT: char = '·';

/// Why a pattern could not be parsed.
#[derive(Debug, Clone, Copy, PartialEq, Eq, Structural)]
pub enum SyntaxError {
    /// An operator lacks an operand, or the pattern holds no operand at all.
    MissingOperand,
    /// A `(` without its `)`, or a `)` without its `(`.
    UnbalancedGroup,
}

pub open spec fn spec_hierarchy(ch: char) -> u8 {
    if ch == '(' || ch == ')' {
        1
    } else if ch == '|' {
        2
    } else if ch == CONCAT {
        3
    } else if ch == '*' {
        4
    } else {
        0
    }
}

pub open spec fn spec_is_operator(ch: char) -> bool {
    ch == '|' || ch == CONCAT || ch == '*' || ch == '(' || ch == ')'
}

/// Precedence of an operator, from grouping (lowest) to star (highest); 0
/// for anything else.
pub fn hierarchy(ch: char) -> (r: u8)
    ensures
        r == spec_hierarchy(ch),
{
    match ch {
        '(' | ')' => 1,
        '|' => 2,
        '·' => 3,
        '*' => 4,
        _ => 0,
    }
}

pub fn is_operator(ch: &char) -> (r: bool)
    ensures
        r == spec_is_operator(*ch),
{
    let ch = *ch;
    ch == '|' || ch == '·' || ch == '*' || ch == '(' || ch == ')'
}

pub fn is_alphabet(ch: &char) -> (r: bool)
    ensures
        r == !spec_is_operator(*ch),
{
    !is_operator(ch)
}

/// A concatenation operator goes between `a` and the `b` that follows it.
pub open spec fn needs_concat(a: char, b: char) -> bool {
    (!spec_is_operator(a) && !spec_is_operator(b)) || (a == ')' && b == '(') || (a == '*' && (
    !spec_is_operator(b) || b == '('))
}

/// `s` with the concatenation operator made explicit.
pub open spec fn with_concat(s: Seq<char>) -> Seq<char>
    decreases s.len(),
{
    if s.len() <= 1 {
        s
    } else {
        seq![s[0]] + (if needs_concat(s[0], s[1]) {
            seq![CONCAT]
        } else {
            seq![]
        }) + with_concat(s.drop_first())
    }
}

/// Inserts the explicit concatenation operator where two tokens are
/// adjacent: two literals, `)(`, or `*` before a literal or `(`.
pub fn add_implicit_concatenation(regex: &Vec<char>) -> (r: Vec<char>)
    ensures
        r@ == with_concat(regex@),
{
    let mut result: Vec<char> = Vec::new();
    let n = regex.len();
    let mut i: usize = 0;
    proof {
        assert(regex@.skip(0) =~= regex@);
        assert(result@ + with_concat(regex@) =~= with_concat(regex@));
    }
    while i < n
        invariant
            n == regex@.len(),
            i <= n,
            result@ + with_concat(regex@.skip(i as int)) == with_concat(regex@),
        decreases n - i,
    {
        let current = regex[i];
        let ghost rest = regex@.skip(i as int);
        proof {
            assert(rest.drop_first() =~= regex@.skip(i + 1));
        }
        result.push(current);
        if i < n - 1 {
            let next = regex[i + 1];
            if is_alphabet(&current) && is_alphabet(&next) || current == ')' && next == '(' || current
                == '*' && (is_alphabet(&next) || next == '(') {
                result.push('·');
            }
            proof {
                assert(rest[0] == current && rest[1] == next);
            }
        }
        i = i + 1;
        proof {
            assert(result@ + with_concat(regex@.skip(i as int)) =~= with_concat(regex@));
        }
    }
    proof {
        assert(regex@.skip(n as int) =~= seq![]);
        assert(result@ =~= result@ + with_concat(regex@.skip(n as int)));
    }
    result
}

/// Parsing state: the pending operators and the pending subtrees.
pub type ParseState = (Seq<char>, Seq<Node<char>>);

/// Combines the top operator with the subtrees it takes: two for `|` and
/// concatenation (the left operand is the deeper one), one for `*`.
pub open spec fn spec_combine(st: ParseState) -> Result<ParseState, SyntaxError> {
    let (ops, trees) = st;
    if ops.len() == 0 {
        Err(SyntaxError::MissingOperand)
    } else {
        let op = ops.last();
        if op == '|' || op == CONCAT {
            if trees.len() < 2 {
                Err(SyntaxError::MissingOperand)
            } else {
                let t1 = trees.last();
                let t2 = trees.drop_last().last();
                Ok(
                    (
                        ops.drop_last(),
                        trees.drop_last().drop_last().push(
                            Node { value: op, left: Some(Box::new(t2)), right: Some(Box::new(t1)) },
                        ),
                    ),
                )
            }
        } else if op == '*' {
            if trees.len() < 1 {
                Err(SyntaxError::MissingOperand)
            } else {
                Ok(
                    (
                        ops.drop_last(),
                        trees.drop_last().push(
                            Node { value: op, left: Some(Box::new(trees.last())), right: None },
                        ),
                    ),
                )
            }
        } else {
            Err(SyntaxError::UnbalancedGroup)
        }
    }
}

/// Combines pending operators while the top one binds at least as tightly
/// as `h`.
pub open spec fn spec_reduce(st: ParseState, h: u8) -> Result<ParseState, SyntaxError>
    decreases st.0.len(),
{
    if st.0.len() > 0 && spec_hierarchy(st.0.last()) >= h {
        match spec_combine(st) {
            Ok(next) => if next.0.len() < st.0.len() {
                spec_reduce(next, h)
            } else {
                Ok(next)
            },
            Err(e) => Err(e),
        }
    } else {
        Ok(st)
    }
}

/// Combines pending operators down to the matching `(`, which is dropped.
pub open spec fn spec_close_group(st: ParseState) -> Result<ParseState, SyntaxError>
    decreases st.0.len(),
{
    if st.0.len() == 0 {
        Err(SyntaxError::UnbalancedGroup)
    } else if st.0.last() == '(' {
        Ok((st.0.drop_last(), st.1))
    } else {
        match spec_combine(st) {
            Ok(next) => if next.0.len() < st.0.len() {
                spec_close_group(next)
            } else {
                Ok(next)
            },
            Err(e) => Err(e),
        }
    }
}

/// The parsing state after one more token.
pub open spec fn spec_step(st: ParseState, ch: char) -> Result<ParseState, SyntaxError> {
    if ch == '(' {
        Ok((st.0.push(ch), st.1))
    } else if ch == ')' {
        spec_close_group(st)
    } else if spec_is_operator(ch) {
        match spec_reduce(st, spec_hierarchy(ch)) {
            Ok(next) => Ok((next.0.push(ch), next.1)),
            Err(e) => Err(e),
        }
    } else {
        Ok((st.0, st.1.push(Node { value: ch, left: None, right: None })))
    }
}

/// The parsing state after the tokens of `s`.
pub open spec fn spec_run(s: Seq<char>) -> Result<ParseState, SyntaxError>
    decreases s.len(),
{
    if s.len() == 0 {
        Ok((seq![], seq![]))
    } else {
        match spec_run(s.drop_last()) {
            Ok(st) => spec_step(st, s.last()),
            Err(e) => Err(e),
        }
    }
}

/// Combines what is left once the input is over; the tree is the last
/// pending subtree.
pub open spec fn spec_finish(st: ParseState) -> Result<Node<char>, SyntaxError>
    decreases st.0.len(),
{
    if st.0.len() == 0 {
        if st.1.len() == 0 {
            Err(SyntaxError::MissingOperand)
        } else {
            Ok(st.1.last())
        }
    } else if st.0.last() == '(' {
        Err(SyntaxError::UnbalancedGroup)
    } else {
        match spec_combine(st) {
            Ok(next) => if next.0.len() < st.0.len() {
                spec_finish(next)
            } else {
                Err(SyntaxError::MissingOperand)
            },
            Err(e) => Err(e),
        }
    }
}

/// The syntax tree of an expression whose concatenations are explicit.
pub open spec fn spec_parse_regex(s: Seq<char>) -> Result<Node<char>, SyntaxError> {
    match spec_run(s) {
        Ok(st) => spec_finish(st),
        Err(e) => Err(e),
    }
}

proof fn lemma_run_err(s: Seq<char>, j: int, e: SyntaxError)
    requires
        0 <= j <= s.len(),
        spec_run(s.take(j)) == Err::<ParseState, SyntaxError>(e),
    ensures
        spec_run(s) == Err::<ParseState, SyntaxError>(e),
    decreases s.len() - j,
{
    if j < s.len() {
        assert(s.take(j + 1).drop_last() =~= s.take(j));
        lemma_run_err(s, j + 1, e);
    } else {
        assert(s.take(j) =~= s);
    }
}

/// Each node carries as many children as its operator takes: none for a
/// literal, one (left) for `*`, two for `|` and concatenation.
pub open spec fn shaped(t: Node<char>) -> bool
    decreases t,
{
    if t.value == '*' {
        match t.left {
            Some(l) => t.right is None && shaped(*l),
            None => false,
        }
    } else if t.value == '|' || t.value == CONCAT {
        match t.left {
            Some(l) => match t.right {
                Some(r) => shaped(*l) && shaped(*r),
                None => false,
            },
            None => false,
        }
    } else {
        !spec_is_operator(t.value) && t.left is None && t.right is None
    }
}

pub open spec fn all_shaped(trees: Seq<Node<char>>) -> bool {
    forall|i: int| 0 <= i < trees.len() ==> shaped(#[trigger] trees[i])
}

proof fn lemma_combine_shaped(st: ParseState)
    requires
        all_shaped(st.1),
        spec_combine(st) is Ok,
    ensures
        all_shaped(spec_combine(st)->Ok_0.1),
{
    let (ops, trees) = st;
    let op = ops.last();
    let next = spec_combine(st)->Ok_0;
    if op == '|' || op == CONCAT {
        let t1 = trees.last();
        let t2 = trees.drop_last().last();
        assert(shaped(trees[trees.len() - 1]));
        assert(shaped(trees[trees.len() - 2]));
        let n = Node { value: op, left: Some(Box::new(t2)), right: Some(Box::new(t1)) };
        assert(shaped(n));
        assert forall|i: int| 0 <= i < next.1.len() implies shaped(#[trigger] next.1[i]) by {
            if i < next.1.len() - 1 {
                assert(next.1[i] == trees[i]);
            }
        }
    } else {
        let n = Node { value: op, left: Some(Box::new(trees.last())), right: None };
        assert(shaped(trees[trees.len() - 1]));
        assert(shaped(n));
        assert forall|i: int| 0 <= i < next.1.len() implies shaped(#[trigger] next.1[i]) by {
            if i < next.1.len() - 1 {
                assert(next.1[i] == trees[i]);
            }
        }
    }
}

proof fn lemma_reduce_shaped(st: ParseState, h: u8)
    requires
        all_shaped(st.1),
        spec_reduce(st, h) is Ok,
    ensures
        all_shaped(spec_reduce(st, h)->Ok_0.1),
    decreases st.0.len(),
{
    if st.0.len() > 0 && spec_hierarchy(st.0.last()) >= h {
        lemma_combine_shaped(st);
        let next = spec_combine(st)->Ok_0;
        if next.0.len() < st.0.len() {
            lemma_reduce_shaped(next, h);
        }
    }
}

proof fn lemma_close_shaped(st: ParseState)
    requires
        all_shaped(st.1),
        spec_close_group(st) is Ok,
    ensures
        all_shaped(spec_close_group(st)->Ok_0.1),
    decreases st.0.len(),
{
    if st.0.len() > 0 && st.0.last() != '(' {
        lemma_combine_shaped(st);
        let next = spec_combine(st)->Ok_0;
        if next.0.len() < st.0.len() {
            lemma_close_shaped(next);
        }
    }
}

proof fn lemma_run_shaped(s: Seq<char>)
    requires
        spec_run(s) is Ok,
    ensures
        all_shaped(spec_run(s)->Ok_0.1),
    decreases s.len(),
{
    if s.len() > 0 {
        lemma_run_shaped(s.drop_last());
        let st = spec_run(s.drop_last())->Ok_0;
        let ch = s.last();
        if ch == ')' {
            lemma_close_shaped(st);
        } else if ch != '(' && spec_is_operator(ch) {
            lemma_reduce_shaped(st, spec_hierarchy(ch));
        } else if ch != '(' {
            let leaf = Node { value: ch, left: None, right: None };
            assert(shaped(leaf));
            let trees = spec_step(st, ch)->Ok_0.1;
            assert forall|i: int| 0 <= i < trees.len() implies shaped(#[trigger] trees[i]) by {
                if i < trees.len() - 1 {
                    assert(trees[i] == st.1[i]);
                }
            }
        }
    }
}

proof fn lemma_finish_shaped(st: ParseState)
    requires
        all_shaped(st.1),
        spec_finish(st) is Ok,
    ensures
        shaped(spec_finish(st)->Ok_0),
    decreases st.0.len(),
{
    if st.0.len() == 0 {
        assert(shaped(st.1[st.1.len() - 1]));
    } else {
        lemma_combine_shaped(st);
        let next = spec_combine(st)->Ok_0;
        lemma_finish_shaped(next);
    }
}

/// The parser builds only well-shaped trees.
pub proof fn lemma_parse_shaped(s: Seq<char>)
    requires
        spec_parse_regex(s) is Ok,
    ensures
        shaped(spec_parse_regex(s)->Ok_0),
{
    lemma_run_shaped(s);
    lemma_finish_shaped(spec_run(s)->Ok_0);
}

fn build_tree(op_stack: &mut Vec<char>, tr_stack: &mut Vec<Node<char>>) -> (r: Result<(), SyntaxError>)
    ensures
        match spec_combine((old(op_stack)@, old(tr_stack)@)) {
            Ok(next) => r is Ok && final(op_stack)@ == next.0 && final(tr_stack)@ == next.1
                && next.0.len() + 1 == old(op_stack)@.len(),
            Err(e) => r == Err::<(), SyntaxError>(e),
        },
{
    if op_stack.len() == 0 {
        return Err(SyntaxError::MissingOperand);
    }
    let op = op_stack[op_stack.len() - 1];
    if op == '|' || op == '·' {
        if tr_stack.len() < 2 {
            return Err(SyntaxError::MissingOperand);
        }
        op_stack.pop();
        let t1 = tr_stack.pop().unwrap();
        let t2 = tr_stack.pop().unwrap();
        tr_stack.push(Node::with_lr(op, t2, t1));
        Ok(())
    } else if op == '*' {
        if tr_stack.len() < 1 {
            return Err(SyntaxError::MissingOperand);
        }
        op_stack.pop();
        let t1 = tr_stack.pop().unwrap();
        tr_stack.push(Node::with_l(op, t1));
        Ok(())
    } else {
        Err(SyntaxError::UnbalancedGroup)
    }
}

/// Builds the syntax tree of `r` (concatenations explicit) with an
/// operator stack and a subtree stack.
pub fn parse_regex(r: &Vec<char>) -> (res: Result<Node<char>, SyntaxError>)
    ensures
        res == spec_parse_regex(r@),
{
    let mut op_stack: Vec<char> = Vec::new();
    let mut tr_stack: Vec<Node<char>> = Vec::new();
    let mut i: usize = 0;
    while i < r.len()
        invariant
            i <= r@.len(),
            spec_run(r@.take(i as int)) == Ok::<ParseState, SyntaxError>((op_stack@, tr_stack@)),
        decreases r@.len() - i,
    {
        let ch = r[i];
        proof {
            assert(r@.take(i + 1).drop_last() =~= r@.take(i as int));
            assert(r@.take(i + 1).last() == ch);
        }
        let ghost prev = spec_run(r@.take(i as int))->Ok_0;
        if ch == '(' {
            op_stack.push(ch);
        } else if ch == ')' {
            loop
                invariant_except_break
                    spec_close_group((op_stack@, tr_stack@)) == spec_step(prev, ch),
                invariant
                    i < r@.len(),
                    spec_run(r@.take(i + 1)) == spec_step(prev, ch),
                    ch == ')',
                ensures
                    spec_step(prev, ch) == Ok::<ParseState, SyntaxError>((op_stack@, tr_stack@)),
                decreases op_stack@.len(),
            {
                if op_stack.len() == 0 {
                    proof {
                        lemma_run_err(r@, i + 1, SyntaxError::UnbalancedGroup);
                    }
                    return Err(SyntaxError::UnbalancedGroup);
                }
                if op_stack[op_stack.len() - 1] == '(' {
                    op_stack.pop();
                    break;
                }
                let b = build_tree(&mut op_stack, &mut tr_stack);
                if let Err(e) = b {
                    proof {
                        lemma_run_err(r@, i + 1, e);
                    }
                    return Err(e);
                }
            }
        } else if is_operator(&ch) {
            let h = hierarchy(ch);
            while op_stack.len() > 0 && hierarchy(op_stack[op_stack.len() - 1]) >= h
                invariant
                    h == spec_hierarchy(ch),
                    spec_is_operator(ch),
                    ch != '(' && ch != ')',
                    i < r@.len(),
                    spec_run(r@.take(i + 1)) == spec_step(prev, ch),
                    match spec_reduce((op_stack@, tr_stack@), h) {
                        Ok(next) => spec_step(prev, ch) == Ok::<ParseState, SyntaxError>((next.0.push(ch), next.1)),
                        Err(e) => spec_step(prev, ch) == Err::<ParseState, SyntaxError>(e),
                    },
                decreases op_stack@.len(),
            {
                let b = build_tree(&mut op_stack, &mut tr_stack);
                if let Err(e) = b {
                    proof {
                        lemma_run_err(r@, i + 1, e);
                    }
                    return Err(e);
                }
            }
            op_stack.push(ch);
        } else {
            tr_stack.push(Node { value: ch, left: None, right: None });
        }
        i = i + 1;
    }
    proof {
        assert(r@.take(r@.len() as int) =~= r@);
    }
    loop
        invariant
            spec_finish((op_stack@, tr_stack@)) == spec_parse_regex(r@),
        decreases op_stack@.len(),
    {
        if op_stack.len() == 0 {
            if tr_stack.len() == 0 {
                return Err(SyntaxError::MissingOperand);
            }
            return Ok(tr_stack.pop().unwrap());
        }
        if op_stack[op_stack.len() - 1] == '(' {
            return Err(SyntaxError::UnbalancedGroup);
        }
        let b = build_tree(&mut op_stack, &mut tr_stack);
        if let Err(e) = b {
            return Err(e);
        }
    }
}

/// Why a pattern could not be compiled.
#[derive(Debug, Clone, Copy, PartialEq, Eq, Structural)]
pub enum CompileError {
    /// The pattern is malformed.
    Syntax(SyntaxError),
    /// The construction could not complete: the pattern is too long for
    /// the state identifiers, or a construction step had nothing to work on.
    Internal,
}

/// A compiled pattern: the automaton with epsilon moves built from it, and
/// the minimized deterministic automaton that matching runs.
pub struct GenericRegexParser {
    pub(crate) automaton: DFA,
    pub(crate) efa: EFA,
}

/// The compiled matcher over characters.
pub type RegexParser = GenericRegexParser;

/// `d` is the subset construction over `efa`.
pub open spec fn is_determinization(efa: &EFA, d: &DFA) -> bool {
    exists|sets: Seq<Seq<bool>>| DFA::is_subset_dfa(efa, d, sets)
}

/// `a` is the automaton of Thompson's construction over `post`.
pub open spec fn built_from(post: Seq<char>, a: &EFA) -> bool {
    &&& a.wf()
    &&& thompson(post) matches Some((rows, s, e))
    &&& holds_rows(a, rows)
    &&& a.start_state() == Some(s)
    &&& a.end_state() == Some(e)
}

/// What compiling `regex` gives: for a malformed pattern its syntax error.
/// Otherwise a matcher that holds the automaton of Thompson's construction
/// over the postfix tokens, and a minimized automaton that accepts exactly
/// what that automaton's subset construction accepts, with no more states;
/// unless a machine limit is hit: the postfix form is too long to number
/// its states, or the subset construction reaches more sets than a `State`
/// can number.
pub open(crate) spec fn compiles_to(regex: Seq<char>, r: Result<GenericRegexParser, CompileError>) -> bool {
    match spec_parse_regex(with_concat(regex)) {
        Err(e) => r == Err::<GenericRegexParser, CompileError>(CompileError::Syntax(e)),
        Ok(tree) => match r {
            Err(e) => e == CompileError::Internal && (2 * tree.post_order_seq().len() + 2 > usize::MAX
                || exists|a: EFA| built_from(tree.post_order_seq(), &a) && too_many_subsets(&a)),
            Ok(p) => {
                &&& p.wf()
                &&& built_from(tree.post_order_seq(), &p.efa)
                &&& 2 * tree.post_order_seq().len() + 2 <= usize::MAX
                &&& exists|d: DFA| is_determinization(&p.efa, &d) && minimizes(&d, &p.automaton)
            },
        },
    }
}

impl GenericRegexParser {
    pub open(crate) spec fn matcher(&self) -> DFA {
        self.automaton
    }

    pub open(crate) spec fn epsilon_automaton(&self) -> EFA {
        self.efa
    }

    pub open(crate) spec fn wf(&self) -> bool {
        self.automaton.wf() && self.automaton.start_state() is Some && self.efa.wf()
    }

    /// Compiles `regex`: concatenation made explicit, syntax tree, postfix
    /// tokens, Thompson's construction, subset construction, minimization.
    /// A malformed pattern gives its syntax error. Otherwise the compiled
    /// matcher holds the automaton of Thompson's construction over the
    /// postfix tokens, and a minimized automaton that accepts exactly what
    /// that automaton's subset construction accepts.
    pub fn from(regex: &str) -> (r: Result<Self, CompileError>)
        ensures
            compiles_to(regex@, r),
    {
        let chars = chars_of(regex);
        let processed_regex = add_implicit_concatenation(&chars);
        let tree = match parse_regex(&processed_regex) {
            Ok(t) => t,
            Err(e) => return Err(CompileError::Syntax(e)),
        };
        proof {
            lemma_parse_shaped(processed_regex@);
            lemma_thompson_total(tree);
        }
        let mut post_order: Vec<char> = Vec::new();
        tree.post_order(&mut post_order);
        proof {
            assert(post_order@ =~= tree.post_order_seq());
        }
        if post_order.len() > (usize::MAX - 2) / 2 {
            return Err(CompileError::Internal);
        }
        let efa = match build_efa(&post_order) {
            Some(e) => e,
            None => return Err(CompileError::Internal),
        };
        let dfa = match DFA::from_efa(&efa) {
            Some(d) => d,
            None => {
                proof {
                    assert(built_from(tree.post_order_seq(), &efa));
                }
                return Err(CompileError::Internal);
            },
        };
        let ghost d0 = dfa;
        proof {
            let sets = choose|sets: Seq<Seq<bool>>| DFA::is_subset_dfa(&efa, &d0, sets);
        }
        let automaton = match DFA::minimize_from(dfa) {
            Some(m) => m,
            None => return Err(CompileError::Internal),
        };
        let r = GenericRegexParser { automaton, efa };
        proof {
            assert(is_determinization(&r.efa, &d0));
        }
        Ok(r)
    }

    /// The leftmost offset of `text` at which the pattern matches a prefix
    /// of the rest (see `DFA::parse`).
    pub fn parse(&self, text: &str) -> (r: Option<usize>)
        requires
            self.wf(),
        ensures
            as_pos(r) == find_result(|t: Seq<char>| self.matcher().accepts_prefix(t), text@),
    {
        self.automaton.parse(text)
    }

    /// The automaton with epsilon moves that the pattern compiled to.
    pub fn get_efa_temp(self) -> (r: EFA)
        ensures
            r == self.epsilon_automaton(),
    {
        self.efa
    }

    /// A copy of the minimized automaton that matching runs.
    pub fn get_dfa_temp(&self) -> (r: DFA)
        requires
            self.wf(),
        ensures
            r.wf(),
            r.start_state() == self.matcher().start_state(),
            r.n_states() == self.matcher().n_states(),
            forall|t: Seq<char>| #[trigger] r.accepts_prefix(t) == self.matcher().accepts_prefix(t),
    {
        self.automaton.copy()
    }
}

/// Compiles `pattern` (see `GenericRegexParser::from`).
pub fn build_automaton(pattern: &str) -> (r: Result<RegexParser, CompileError>)
    ensures
        compiles_to(pattern@, r),
{
    GenericRegexParser::from(pattern)
}

} // verus!
