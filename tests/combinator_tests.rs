use json_parser::combinator::{zero_or_more, zero_or_one, Parsed, Rule};
use json_parser::parser::{CharClass, Reason, SimplePosition, TextInput};

fn input(s: &str) -> TextInput {
    TextInput::new(s.chars().collect())
}

fn ch(c: CharClass) -> Rule {
    Rule::ExpectChar(c)
}

fn last_reason(r: &Result<(Parsed, SimplePosition), json_parser::parser::SimpleError>) -> Reason {
    let e = r.as_ref().err().unwrap();
    e.reasons()[e.reasons().len() - 1].1
}

#[test]
fn concat_pairs_outputs_and_tags_the_failing_side() {
    let rule = Rule::Concat(Box::new(ch(CharClass::Digit)), Box::new(ch(CharClass::Dot)));
    let (out, p) = rule.parse(&input("7."), SimplePosition::new()).unwrap();
    assert_eq!(p.index, 2);
    match out {
        Parsed::Pair(a, b) => {
            assert!(matches!(*a, Parsed::Char('7')));
            assert!(matches!(*b, Parsed::Char('.')));
        },
        _ => panic!("expected a pair"),
    }
    assert_eq!(last_reason(&rule.parse(&input("x."), SimplePosition::new())), Reason::Concat1);
    assert_eq!(last_reason(&rule.parse(&input("7x"), SimplePosition::new())), Reason::Concat2);
}

#[test]
fn one_of_retries_at_the_same_position() {
    let first = Rule::Concat(Box::new(ch(CharClass::Digit)), Box::new(ch(CharClass::Dot)));
    let rule = Rule::OneOf(Box::new(first), Box::new(ch(CharClass::Digit)));
    let (out, p) = rule.parse(&input("75"), SimplePosition::new()).unwrap();
    assert_eq!(p.index, 1);
    assert!(matches!(out, Parsed::B(_)));
    let (out, p) = rule.parse(&input("7."), SimplePosition::new()).unwrap();
    assert_eq!(p.index, 2);
    assert!(matches!(out, Parsed::A(_)));
    let r = rule.parse(&input("x"), SimplePosition::new());
    assert_eq!(last_reason(&r), Reason::OneOf);
    // the first branch's trail is dropped: the second one's comes first
    assert_eq!(r.err().unwrap().reasons()[0].1, Reason::ExpectChar);
}

#[test]
fn one_or_more_stops_at_the_first_failure() {
    let rule = Rule::OneOrMore(Box::new(ch(CharClass::Digit)));
    let (out, p) = rule.parse(&input("123a4"), SimplePosition::new()).unwrap();
    assert_eq!(p.index, 3);
    match out {
        Parsed::List(items) => assert_eq!(items.len(), 3),
        _ => panic!("expected a list"),
    }
    assert_eq!(last_reason(&rule.parse(&input("a"), SimplePosition::new())), Reason::OneOrMore);
}

#[test]
fn one_or_more_of_nothing_ends() {
    let rule = Rule::OneOrMore(Box::new(Rule::Null));
    let (out, p) = rule.parse(&input("abc"), SimplePosition::new()).unwrap();
    assert_eq!(p.index, 0);
    match out {
        Parsed::List(items) => assert_eq!(items.len(), 1),
        _ => panic!("expected a list"),
    }
}

#[test]
fn optional_and_repeated_rules_never_fail() {
    let rule = zero_or_more(ch(CharClass::Whitespace));
    let (out, p) = rule.parse(&input("x"), SimplePosition::new()).unwrap();
    assert_eq!(p.index, 0);
    assert!(matches!(out, Parsed::B(_)));
    let (out, p) = rule.parse(&input(" \n x"), SimplePosition::new()).unwrap();
    assert_eq!(p.index, 3);
    assert_eq!(p.line, 2);
    assert!(matches!(out, Parsed::A(_)));
    let rule = zero_or_one(ch(CharClass::Sign));
    let (_, p) = rule.parse(&input("-1"), SimplePosition::new()).unwrap();
    assert_eq!(p.index, 1);
    let (out, p) = rule.parse(&input("1"), SimplePosition::new()).unwrap();
    assert_eq!(p.index, 0);
    assert!(matches!(out, Parsed::B(_)));
}

#[test]
fn combinator_trails_grow_outward() {
    let digit = || Box::new(ch(CharClass::Digit));
    let rule = Rule::Concat(digit(), digit());
    let at1 = SimplePosition { index: 1, line: 1, column: 2 };
    let e = rule.parse(&input("7x"), SimplePosition::new()).err().unwrap();
    assert_eq!(
        e.reasons().clone(),
        vec![(Some(at1), Reason::ExpectChar), (Some(SimplePosition::new()), Reason::Concat2)]
    );
    let rule = Rule::OneOrMore(digit());
    let e = rule.parse(&input(""), SimplePosition::new()).err().unwrap();
    assert_eq!(
        e.reasons().clone(),
        vec![
            (Some(SimplePosition::new()), Reason::OutOfBounds),
            (Some(SimplePosition::new()), Reason::ExpectChar),
            (Some(SimplePosition::new()), Reason::OneOrMore),
        ]
    );
}
