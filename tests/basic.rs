use regex_engine::RegexParser;

#[test]
fn single_letter_match_first() {
    let parser = RegexParser::from("a").unwrap();
    assert_eq!(parser.parse("abaaaa"), Some(0));
}

#[test]
fn single_letter_match_middle() {
    let parser = RegexParser::from("b").unwrap();
    assert_eq!(parser.parse("abaaaa"), Some(1));
}

#[test]
fn single_letter_no_match() {
    let parser = RegexParser::from("z").unwrap();
    assert_eq!(parser.parse("abaaaa"), None);
}
