use regex_engine::automaton::{Automaton, EPS};
use regex_engine::dfa::DFA;
use regex_engine::efa::EFA;
use regex_engine::nfa::NFA;
use regex_engine::regex_parser::{
    add_implicit_concatenation, build_automaton, hierarchy, is_alphabet, is_operator, parse_regex,
    CompileError, GenericRegexParser, RegexParser, SyntaxError,
};
use regex_engine::state_generator::StateGenerator;
use regex_engine::tree::Node;

fn chars(s: &str) -> Vec<char> {
    s.chars().collect()
}

#[test]
fn literal_patterns_match_themselves() {
    for p in ["a", "ab", "hello", "xyz", "abcabc"] {
        let parser = RegexParser::from(p).unwrap();
        assert_eq!(parser.parse(p), Some(0), "pattern {}", p);
    }
}

#[test]
fn stages_agree_on_find() {
    let patterns = ["a", "ab", "a|b", "a*", "(a|b)*c", "a*b|c", "xa*y", "ab|cd", "a*|b*"];
    let texts = ["", "a", "b", "c", "ab", "abc", "xay", "xaaay", "cdef", "zzab", "bbbc", "d"];
    for p in patterns {
        let parser = RegexParser::from(p).unwrap();
        let minimized = parser.get_dfa_temp();
        let efa = parser.get_efa_temp();
        let dfa = DFA::from_efa(&efa).unwrap();
        for t in texts {
            let e = efa.parse(t);
            assert_eq!(e, dfa.parse(t), "pattern {} text {}", p, t);
            assert_eq!(e, minimized.parse(t), "pattern {} text {}", p, t);
        }
    }
}

#[test]
fn minimizing_twice_keeps_behaviour() {
    let texts = ["", "a", "b", "c", "ab", "abac", "bbc", "d", "ca"];
    for p in ["(a|b)*c", "a*b|c", "a*", "ab|cd"] {
        let efa = RegexParser::from(p).unwrap().get_efa_temp();
        let dfa = DFA::from_efa(&efa).unwrap();
        let once = DFA::minimize_from(dfa).unwrap();
        let twice = DFA::minimize_from(once.copy()).unwrap();
        for t in texts {
            assert_eq!(once.parse(t), twice.parse(t), "pattern {} text {}", p, t);
        }
    }
}

#[test]
fn removing_unreachable_states_keeps_behaviour() {
    let efa = RegexParser::from("(a|b)*c").unwrap().get_efa_temp();
    let mut dfa = DFA::from_efa(&efa).unwrap();
    let before: Vec<Option<usize>> = ["c", "abac", "d", ""].iter().map(|t| dfa.parse(t)).collect();
    dfa.remove_unreachable();
    let after: Vec<Option<usize>> = ["c", "abac", "d", ""].iter().map(|t| dfa.parse(t)).collect();
    assert_eq!(before, after);
    assert_eq!(after, vec![Some(0), Some(0), None, None]);
}

#[test]
fn star_matches_empty_at_end() {
    let parser = RegexParser::from("a*").unwrap();
    assert_eq!(parser.parse(""), Some(0));
    assert_eq!(parser.parse("bcdef"), Some(0));
    assert_eq!(parser.parse("aaaabcdef"), Some(0));
}

#[test]
fn nested_groups() {
    let parser = RegexParser::from("((a))").unwrap();
    assert_eq!(parser.parse("xa"), Some(1));
    let parser = RegexParser::from("(a|b)(c|d)").unwrap();
    assert_eq!(parser.parse("xxbd"), Some(2));
    assert_eq!(parser.parse("ab"), None);
}

#[test]
fn syntax_errors() {
    assert!(matches!(
        RegexParser::from("*a"),
        Err(CompileError::Syntax(SyntaxError::MissingOperand))
    ));
    assert!(matches!(
        RegexParser::from("a|"),
        Err(CompileError::Syntax(SyntaxError::MissingOperand))
    ));
    assert!(matches!(
        build_automaton(""),
        Err(CompileError::Syntax(SyntaxError::MissingOperand))
    ));
    assert!(matches!(
        RegexParser::from("(a"),
        Err(CompileError::Syntax(SyntaxError::UnbalancedGroup))
    ));
    assert!(matches!(
        GenericRegexParser::from("a)"),
        Err(CompileError::Syntax(SyntaxError::UnbalancedGroup))
    ));
}

#[test]
fn implicit_concatenation() {
    let r = add_implicit_concatenation(&chars("ab(c)(d)*e|f"));
    let s: String = r.into_iter().collect();
    assert_eq!(s, "a·b(c)·(d)*·e|f");
}

#[test]
fn operator_classes() {
    assert_eq!(hierarchy('('), 1);
    assert_eq!(hierarchy('|'), 2);
    assert_eq!(hierarchy('·'), 3);
    assert_eq!(hierarchy('*'), 4);
    assert_eq!(hierarchy('a'), 0);
    assert!(is_operator(&'|'));
    assert!(!is_operator(&'a'));
    assert!(is_alphabet(&'a'));
}

#[test]
fn tree_and_post_order() {
    let tree = parse_regex(&chars("a·b*|c")).unwrap();
    let mut out = Vec::new();
    tree.post_order(&mut out);
    let s: String = out.into_iter().collect();
    assert_eq!(s, "ab*·c|");
    let n = Node::with_lr('|', Node::with_l('*', leaf('x')), leaf('y'));
    let mut out = vec!['q'];
    n.post_order(&mut out);
    assert_eq!(out, vec!['q', 'x', '*', 'y', '|']);
}

fn leaf(c: char) -> Node<char> {
    Node { value: c, left: None, right: None }
}

#[test]
fn registry_is_a_bijection() {
    let mut reg: StateGenerator<usize, (usize, usize)> = StateGenerator::new();
    assert_eq!(reg.generate_for(&5), (0, 1));
    assert_eq!(reg.generate_for(&5), (0, 1));
    assert_eq!(reg.generate_for(&7), (2, 3));
    assert!(reg.insert_with(&9, &(0, 3)));
    assert!(!reg.insert_with(&9, &(1, 2)));
    assert!(!reg.insert_with(&10, &(2, 3)));
    assert_eq!(reg.get_states(&9), Some((0, 3)));
    assert_eq!(reg.get_states(&10), None);
    assert_eq!(reg.get_value(&(2, 3)), Some(7));
    assert_eq!(reg.get_value(&(1, 2)), None);
    let mut sets: StateGenerator<Vec<bool>, usize> = StateGenerator::new();
    assert_eq!(sets.generate_for(&vec![true, false]), 0);
    assert_eq!(sets.generate_for(&vec![false, true]), 1);
    assert_eq!(sets.generate_for(&vec![true, false]), 0);
    assert_eq!(sets.get_value(&1), Some(vec![false, true]));
}

#[test]
fn efa_closure_and_rows() {
    let mut efa = EFA::new();
    efa.transition(0, None, 1);
    efa.transition(1, None, 2);
    efa.transition(2, Some('a'), 3);
    efa.transition(4, None, 0);
    assert_eq!(efa.closure(0), vec![0, 1, 2]);
    assert_eq!(efa.closure(3), vec![3]);
    assert_eq!(efa.closure(9), vec![9]);
    assert_eq!(efa.get_possible_transitions(&2), Some(&vec![(Some('a'), 3)]));
    assert_eq!(efa.get_possible_transitions(&7), None);
    efa.empty_transition(2);
    assert_eq!(efa.get_possible_transitions(&2), Some(&vec![]));
    efa.set_start(0);
    efa.set_end(3);
    assert_eq!(efa.get_start(), Some(0));
    assert_eq!(efa.get_end(), Some(3));
    assert_eq!(efa.parse("a"), None);
}

#[test]
fn efa_parse_follows_epsilon_moves() {
    let mut efa = EFA::new();
    efa.transition(0, None, 1);
    efa.transition(1, Some('a'), 2);
    efa.transition(2, None, 1);
    efa.transition(2, None, 3);
    efa.set_start(0);
    efa.set_end(3);
    assert_eq!(efa.parse("xxaaa"), Some(2));
    assert_eq!(efa.parse("xyz"), None);
    assert_eq!(efa.parse(""), None);
    assert!(NFA::from_efa(&efa).is_some());
    assert!(NFA::from_efa(&EFA::new()).is_none());
    assert!(DFA::from_efa(&EFA::new()).is_none());
}

#[test]
fn automaton_with_eps_symbol() {
    let mut a = Automaton::new();
    a.transition(0, EPS, 1);
    a.transition(1, 'b', 2);
    a.empty_transition(2);
    a.set_start(0);
    a.set_end(2);
    assert_eq!(a.parse("aab"), Some(2));
    assert_eq!(a.parse("aaa"), None);
    let mut star = Automaton::new();
    star.transition(0, EPS, 1);
    star.set_start(0);
    star.set_end(1);
    assert_eq!(star.parse(""), Some(0));
    assert_eq!(star.parse("zz"), Some(0));
}
