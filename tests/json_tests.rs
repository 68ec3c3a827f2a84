use json_parser::json::{
    parse_json, Array, Character, Element, Escape, Hex, JsonValue, Member, Members, Number, NumberValue, Object,
    Value,
};
use json_parser::json::String as StringRule;
use json_parser::parser::{CharClass, ExpectChar, Input, Reason, SimplePosition, TextInput};

fn input(s: &str) -> TextInput {
    TextInput::new(s.chars().collect())
}

fn start() -> SimplePosition {
    SimplePosition::new()
}

fn number(s: &str) -> NumberValue {
    let (n, _) = Number::parse(&input(s), start()).unwrap();
    n
}

#[test]
fn zero_is_all_zero() {
    let n = number("0");
    assert_eq!(n, NumberValue { integer: 0, fraction: 0, fraction_length: 0, exponent: 0 });
}

#[test]
fn negative_decimal_with_exponent() {
    let n = number("-12.340e2");
    assert_eq!(n, NumberValue { integer: -12, fraction: 340, fraction_length: 3, exponent: 2 });
}

#[test]
fn fraction_keeps_leading_zeros() {
    let n = number("1.007");
    assert_eq!(n, NumberValue { integer: 1, fraction: 7, fraction_length: 3, exponent: 0 });
}

#[test]
fn exponent_signs() {
    assert_eq!(number("5E+3").exponent, 3);
    assert_eq!(number("5e-3").exponent, -3);
    // an exponent marker without digits is not part of the number
    let (n, p) = Number::parse(&input("5e"), start()).unwrap();
    assert_eq!(n.exponent, 0);
    assert_eq!(p.index, 1);
}

#[test]
fn leading_zero_stops_the_integer() {
    let (n, p) = Number::parse(&input("05"), start()).unwrap();
    assert_eq!(n.integer, 0);
    assert_eq!(p.index, 1);
}

#[test]
fn integer_limits() {
    assert_eq!(number("9223372036854775807").integer, i64::MAX);
    assert_eq!(number("-9223372036854775808").integer, i64::MIN);
    let e = Number::parse(&input("9223372036854775808"), start()).unwrap_err();
    assert_eq!(e.reasons().last().unwrap().1, Reason::Number);
    assert!(Number::parse(&input("-"), start()).is_err());
}

#[test]
fn duplicate_keys_are_kept_in_order() {
    let (v, p) = parse_json(&input("{\"a\":1,\"a\":2}"), start()).unwrap();
    assert_eq!(p.index, 13);
    let members = v.get_object().unwrap();
    assert_eq!(members.len(), 2);
    assert_eq!(members[0].0, vec!['a']);
    assert_eq!(members[1].0, vec!['a']);
    assert_eq!(members[0].1.get_number().unwrap().integer, 1);
    assert_eq!(members[1].1.get_number().unwrap().integer, 2);
}

#[test]
fn unicode_escape_names_a_character() {
    let (cs, _) = StringRule::parse(&input("\"\\u0041\""), start()).unwrap();
    assert_eq!(cs, vec!['A']);
    let (c, p) = Escape::parse(&input("u00e9"), start()).unwrap();
    assert_eq!(c, '\u{e9}');
    assert_eq!(p.index, 5);
}

#[test]
fn escape_letters_stand_for_themselves() {
    let (cs, _) = StringRule::parse(&input("\"a\\n\\\"\""), start()).unwrap();
    assert_eq!(cs, vec!['a', 'n', '"']);
}

#[test]
fn bad_escapes_fail() {
    assert!(Escape::parse(&input("x"), start()).is_err());
    assert!(Escape::parse(&input("ud800"), start()).is_err());
    assert!(Escape::parse(&input("u00g0"), start()).is_err());
    assert!(StringRule::parse(&input("\"\\x\""), start()).is_err());
}

#[test]
fn quote_ends_characters() {
    assert!(Character::parse(&input("\""), start()).is_err());
    let (c, _) = Character::parse(&input("z"), start()).unwrap();
    assert_eq!(c, 'z');
}

#[test]
fn empty_object_and_array() {
    let (v, p) = parse_json(&input("{}"), start()).unwrap();
    assert_eq!(v.get_object().unwrap().len(), 0);
    assert_eq!(p.index, 2);
    let (v, _) = parse_json(&input("{ }"), start()).unwrap();
    assert_eq!(v.get_object().unwrap().len(), 0);
    let (v, p) = parse_json(&input("[]"), start()).unwrap();
    assert_eq!(v.get_array().unwrap().len(), 0);
    assert_eq!(p.index, 2);
    let (items, _) = Array::parse(&input("[ ]"), start()).unwrap();
    assert_eq!(items.len(), 0);
    let e = Array::parse(&input("[1"), start()).unwrap_err();
    let reasons = e.reasons();
    assert_eq!(reasons[reasons.len() - 1], (Some(start()), Reason::Array));
    let (items, _) = Array::parse(&input("[ 1 , true ]"), start()).unwrap();
    assert_eq!(items.len(), 2);
    assert_eq!(items[1].get_bool().unwrap(), true);
}

#[test]
fn truncated_object_fails() {
    let text = input("{\"a\":");
    let e = parse_json(&text, start()).unwrap_err();
    let p1 = SimplePosition { index: 1, line: 1, column: 2 };
    let p5 = SimplePosition { index: 5, line: 1, column: 6 };
    assert_eq!(
        e.reasons().clone(),
        vec![
            (Some(p5), Reason::OutOfBounds),
            (Some(p5), Reason::Element),
            (Some(p1), Reason::Member),
            (Some(p1), Reason::Members),
            (Some(start()), Reason::Object),
            (Some(start()), Reason::Value),
            (Some(start()), Reason::Element),
        ]
    );
    for (p, _) in e.reasons() {
        assert!(p.unwrap().index <= 5);
    }
    // inside the braces, the member's trail names the member and the rule around it
    let after_brace = start().next('{');
    let e = Members::parse(&text, after_brace).unwrap_err();
    let at_end = SimplePosition { index: 5, line: 1, column: 6 };
    assert_eq!(
        e.reasons().clone(),
        vec![
            (Some(at_end), Reason::OutOfBounds),
            (Some(at_end), Reason::Element),
            (Some(after_brace), Reason::Member),
            (Some(after_brace), Reason::Members),
        ]
    );
    for (p, _) in e.reasons() {
        assert!(p.unwrap().index <= 5);
    }
    assert!(Object::parse(&text, start()).is_err());
    // a member without its colon names the member rule, outermost
    let e = Member::parse(&input("\"a\""), start()).unwrap_err();
    let reasons = e.reasons();
    assert_eq!(reasons[0].1, Reason::OutOfBounds);
    assert_eq!(reasons[reasons.len() - 1].1, Reason::Member);
}

#[test]
fn same_input_same_result() {
    let text = input(" [1, {\"k\": \"v\"}, null] ");
    let (a, pa) = parse_json(&text, start()).unwrap();
    let (b, pb) = parse_json(&text, start()).unwrap();
    assert_eq!(pa, pb);
    assert_eq!(format!("{:?}", a), format!("{:?}", b));
}

#[test]
fn literals() {
    let (v, p) = Value::parse(&input("null"), start()).unwrap();
    assert!(v.is_null());
    assert_eq!(p.index, 4);
    let (v, _) = Value::parse(&input("true"), start()).unwrap();
    assert_eq!(v.get_bool().unwrap(), true);
    let (v, p) = Value::parse(&input("false"), start()).unwrap();
    assert_eq!(v.get_bool().unwrap(), false);
    assert_eq!(p.index, 5);
    // no boundary check after a word
    let (v, p) = Value::parse(&input("nullable"), start()).unwrap();
    assert!(v.is_null());
    assert_eq!(p.index, 4);
    let e = Value::parse(&input("nul"), start()).unwrap_err();
    assert_eq!(e.reasons()[0].1, Reason::OutOfBounds);
    let e = Value::parse(&input("nope!"), start()).unwrap_err();
    assert_eq!(e.reasons()[0].1, Reason::Value);
}

#[test]
fn element_trims_whitespace() {
    let (v, p) = Element::parse(&input(" \t\r\n\"x\" \n"), start()).unwrap();
    assert_eq!(v.get_chars().unwrap(), vec!['x']);
    assert_eq!(p.index, 9);
    assert_eq!(p.line, 3);
    assert_eq!(p.column, 1);
}

#[test]
fn accessors_check_the_variant() {
    let (v, _) = parse_json(&input("\"h\u{e9}\u{141}\""), start()).unwrap();
    assert_eq!(v.get_string().unwrap(), "h\u{e9}\u{141}".to_string());
    assert_eq!(v.get_bytes().unwrap(), vec![b'h', 0xe9, 0x41]);
    let e = v.get_object().unwrap_err();
    assert_eq!(e.reasons().len(), 1);
    assert_eq!(e.reasons()[0], (None, Reason::TypeMismatch));
    assert!(v.get_array().is_err());
    assert!(v.get_bool().is_err());
    assert!(v.get_number().is_err());
    assert!(!v.is_null());
    let n = JsonValue::Number(NumberValue { integer: 1, fraction: 0, fraction_length: 0, exponent: 0 });
    assert!(n.get_string().is_err());
    assert!(n.get_chars().is_err());
    assert!(n.get_bytes().is_err());
}

#[test]
fn nested_values() {
    let (v, _) = parse_json(&input("{\"a\": [ {\"b\": [0]}, \"c\" ] }"), start()).unwrap();
    let top = v.get_object().unwrap();
    let items = top[0].1.get_array().unwrap();
    assert_eq!(items.len(), 2);
    let inner = items[0].get_object().unwrap();
    assert_eq!(inner[0].0, vec!['b']);
    assert_eq!(inner[0].1.get_array().unwrap().len(), 1);
    assert_eq!(items[1].get_chars().unwrap(), vec!['c']);
}

#[test]
fn expect_char_reports_its_reason() {
    let e = (ExpectChar { class: CharClass::Digit }).parse(&input("x"), start()).unwrap_err();
    assert_eq!(e.reasons()[0].1, Reason::ExpectChar);
    let e = (ExpectChar { class: CharClass::Digit }).parse(&input(""), start()).unwrap_err();
    assert_eq!(e.reasons()[0].1, Reason::OutOfBounds);
    assert_eq!(e.reasons()[1].1, Reason::ExpectChar);
}

#[test]
fn next_range_reads_a_slice() {
    let text = input("ab\ncd");
    let (s, p) = text.next_range(start(), 4).unwrap();
    assert_eq!(s, vec!['a', 'b', '\n', 'c']);
    assert_eq!(p.index, 4);
    assert_eq!(p.line, 2);
    assert_eq!(p.column, 2);
    assert!(text.next_range(start(), 6).is_err());
    assert_eq!(p.distance(start()), 4);
}

#[test]
fn each_rule_names_itself_outermost() {
    let outer = |r: &Vec<(Option<SimplePosition>, Reason)>| r[r.len() - 1].1;
    let e = Hex::parse(&input("g"), start()).unwrap_err();
    assert_eq!(outer(e.reasons()), Reason::Hex);
    let e = Escape::parse(&input(""), start()).unwrap_err();
    assert_eq!(outer(e.reasons()), Reason::Escape);
    let e = Escape::parse(&input("q"), start()).unwrap_err();
    assert_eq!(e.reasons().clone(), vec![(Some(start()), Reason::Escape)]);
    let e = Character::parse(&input("\""), start()).unwrap_err();
    assert_eq!(e.reasons().clone(), vec![(Some(start()), Reason::Character)]);
    let e = StringRule::parse(&input("\"ab"), start()).unwrap_err();
    assert_eq!(outer(e.reasons()), Reason::String);
    let e = Member::parse(&input("\"a\" 1"), start()).unwrap_err();
    assert_eq!(outer(e.reasons()), Reason::Member);
    let e = Number::parse(&input("1.99999999999999999999"), start()).unwrap_err();
    assert_eq!(outer(e.reasons()), Reason::Number);
    let e = Number::parse(&input("1e2147483648"), start()).unwrap_err();
    assert_eq!(outer(e.reasons()), Reason::Number);
}

#[test]
fn hex_digits_of_both_cases() {
    assert_eq!(Hex::parse(&input("F"), start()).unwrap().0, 15);
    assert_eq!(Hex::parse(&input("a"), start()).unwrap().0, 10);
    assert_eq!(Hex::parse(&input("7"), start()).unwrap().0, 7);
    let (c, _) = Escape::parse(&input("uFFfd"), start()).unwrap();
    assert_eq!(c, '\u{fffd}');
}

#[test]
fn exponent_at_its_limit() {
    assert_eq!(number("1e2147483647").exponent, i32::MAX);
    assert_eq!(number("1E-2147483647").exponent, -i32::MAX);
}

#[test]
fn empty_string_and_empty_input() {
    let (v, p) = parse_json(&input("\"\""), start()).unwrap();
    assert_eq!(v.get_chars().unwrap(), Vec::<char>::new());
    assert_eq!(v.get_string().unwrap(), "".to_string());
    assert_eq!(p.index, 2);
    let e = parse_json(&input(""), start()).unwrap_err();
    assert_eq!(e.reasons()[0].1, Reason::OutOfBounds);
    let e = parse_json(&input("   "), start()).unwrap_err();
    assert!(!e.reasons().is_empty());
}

#[test]
fn failure_trails_are_exact() {
    let e = Value::parse(&input("hello"), start()).unwrap_err();
    assert_eq!(e.reasons().clone(), vec![(Some(start()), Reason::Value)]);
    let e = Escape::parse(&input("uD800"), start()).unwrap_err();
    assert_eq!(e.reasons().clone(), vec![(Some(start()), Reason::Escape)]);
    let e = Escape::parse(&input(""), start()).unwrap_err();
    assert_eq!(
        e.reasons().clone(),
        vec![(Some(start()), Reason::OutOfBounds), (Some(start()), Reason::Escape)]
    );
    let e = Escape::parse(&input("u0g"), start()).unwrap_err();
    let at_g = SimplePosition { index: 2, line: 1, column: 3 };
    assert_eq!(
        e.reasons().clone(),
        vec![
            (Some(at_g), Reason::ExpectChar),
            (Some(at_g), Reason::Hex),
            (Some(start()), Reason::Escape),
        ]
    );
    let e = Member::parse(&input("\"a\":"), start()).unwrap_err();
    let reasons = e.reasons();
    assert_eq!(reasons[reasons.len() - 1], (Some(start()), Reason::Member));
    let a = Value::parse(&input("[1,"), start()).unwrap_err();
    let b = Value::parse(&input("[1,"), start()).unwrap_err();
    assert_eq!(a.reasons().clone(), b.reasons().clone());
}

#[test]
fn reading_past_the_end_is_out_of_bounds() {
    let text = input("ab");
    let far = SimplePosition { index: 7, line: 1, column: 8 };
    let e = text.next(far).unwrap_err();
    assert_eq!(e.reasons().clone(), vec![(Some(far), Reason::OutOfBounds)]);
    assert!(text.next_range(far, 1).is_err());
    let e = (ExpectChar { class: CharClass::Digit }).parse(&text, far).unwrap_err();
    assert_eq!(e.reasons()[0].1, Reason::OutOfBounds);
}

#[test]
fn rules_past_the_end_are_out_of_bounds() {
    let text = input("1");
    let far = SimplePosition { index: 4, line: 1, column: 5 };
    let e = parse_json(&text, far).unwrap_err();
    assert_eq!(
        e.reasons().clone(),
        vec![(Some(far), Reason::OutOfBounds), (Some(far), Reason::Element)]
    );
    let e = Value::parse(&text, far).unwrap_err();
    assert_eq!(e.reasons().clone(), vec![(Some(far), Reason::OutOfBounds)]);
    let e = Member::parse(&text, far).unwrap_err();
    assert_eq!(e.reasons()[0], (Some(far), Reason::OutOfBounds));
    assert_eq!(e.reasons()[e.reasons().len() - 1], (Some(far), Reason::Member));
    assert!(Number::parse(&text, far).is_err());
}

#[test]
fn values_compare_by_content() {
    let (a, _) = parse_json(&input("[1, \"x\", {\"k\": null}]"), start()).unwrap();
    let (b, _) = parse_json(&input(" [1,\"x\",{ \"k\" :null}] "), start()).unwrap();
    assert!(a == b);
    let (c, _) = parse_json(&input("[1, \"y\", {\"k\": null}]"), start()).unwrap();
    assert!(a != c);
}
