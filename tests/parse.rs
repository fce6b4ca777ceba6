use json_stack::error::{SyntaxError, Violation};
use json_stack::parser::parse;
use json_stack::value::{Json, Member};

fn number(j: &Json) -> f64 {
    match j {
        Json::Number(t) => t.parse::<f64>().unwrap(),
        other => panic!("not a number: {:?}", other),
    }
}

fn string(s: &str) -> Json {
    Json::String(String::from(s))
}

#[test]
fn root_string() {
    let ret = parse("\"2222\"").unwrap();
    assert_eq!(ret, Json::String(String::from("2222")))
}

#[test]
fn root_number() {
    let ret = parse("1221").unwrap();
    assert_eq!(number(&ret), 1221.0)
}

#[test]
fn root_array() {
    let ret = parse("[1, 2,  \"3\"]").unwrap();
    assert_eq!(number(ret.at(0).unwrap()), 1.0);
    assert_eq!(number(ret.at(1).unwrap()), 2.0);
    assert_eq!(*ret.at(2).unwrap(), Json::String(String::from("3")))
}

#[test]
fn some_thing_real() {
    let result = parse("{ \"a\":1, \"b\":\" 2\", \"c\": [] }").unwrap();
    assert_eq!(number(result.get("a").unwrap()), 1.0);
    assert_eq!(*result.get("b").unwrap(), Json::String(String::from(" 2")));
    assert_eq!(*result.get("c").unwrap(), Json::Array(Vec::<Json>::new()));
}

#[test]
fn nested_obj() {
    let result = parse("{ \"a\": { \"a\":3.414, \"b\":\" 2\", \"c\": [] } }").unwrap();
    let inner = result.get("a").unwrap();
    assert_eq!(number(inner.get("a").unwrap()), 3.414);
    assert_eq!(*inner.get("b").unwrap(), Json::String(String::from(" 2")));
    assert_eq!(*inner.get("c").unwrap(), Json::Array(Vec::<Json>::new()));
}

#[test]
fn true_false_null() {
    let result = parse("{\"a\":true, \"b\":false, \"c\":null}").unwrap();
    assert_eq!(*result.get("a").unwrap(), Json::True);
    assert_eq!(*result.get("b").unwrap(), Json::False);
    assert_eq!(*result.get("c").unwrap(), Json::Null);
}

#[test]
fn number_keeps_its_literal() {
    assert_eq!(parse("3.414").unwrap(), Json::Number(String::from("3.414")));
    assert_eq!(parse(".5").unwrap(), Json::Number(String::from(".5")));
}

#[test]
fn empty_input_is_end_of_input() {
    assert_eq!(parse(""), Err(SyntaxError::EndOfInputTooEarly));
}

#[test]
fn only_whitespace_is_end_of_input() {
    assert_eq!(parse(" \n\t "), Err(SyntaxError::EndOfInputTooEarly));
}

#[test]
fn zero_is_not_a_number_character() {
    assert_eq!(parse("{\"a\":0}"), Err(SyntaxError::UnexpectedCharacterAt(5)));
    assert_eq!(parse("0"), Err(SyntaxError::UnexpectedCharacterAt(0)));
    assert_eq!(parse("-1"), Err(SyntaxError::UnexpectedCharacterAt(0)));
}

#[test]
fn malformed_number_is_rejected_where_it_ends() {
    assert_eq!(parse("[1.2.3]"), Err(SyntaxError::UnexpectedCharacterAt(6)));
    assert_eq!(parse("."), Err(SyntaxError::UnexpectedCharacterAt(1)));
}

#[test]
fn last_duplicate_key_wins() {
    let result = parse("{\"a\":1, \"b\":2, \"a\":3}").unwrap();
    assert_eq!(number(result.get("a").unwrap()), 3.0);
    assert_eq!(number(result.get("b").unwrap()), 2.0);
    match result {
        Json::Object(members) => assert_eq!(members.len(), 2),
        other => panic!("not an object: {:?}", other),
    }
}

#[test]
fn array_keeps_source_order() {
    let result = parse("[\"x\",\"y\",[1],[],\"z\"]").unwrap();
    let one = Json::Array(vec![Json::Number(String::from("1"))]);
    assert_eq!(
        result,
        Json::Array(vec![string("x"), string("y"), one, Json::Array(vec![]), string("z")])
    );
}

#[test]
fn whitespace_between_tokens_is_ignored() {
    let a = parse("{\"k\":[1,2,true],\"m\":{\"n\":null}}").unwrap();
    let b = parse(" {\n\t\"k\" : [ 1 , 2 ,\ttrue ] ,\n \"m\" : { \"n\" : null } } \n").unwrap();
    assert_eq!(a, b);
}

#[test]
fn whitespace_inside_strings_is_kept() {
    assert_eq!(parse("\" a \tb \"").unwrap(), string(" a \tb "));
}

#[test]
fn nested_objects_and_arrays() {
    let result = parse("[{\"a\":[{}]},{\"b\":{\"c\":false}}]").unwrap();
    let expected = Json::Array(vec![
        Json::Object(vec![Member {
            key: String::from("a"),
            value: Json::Array(vec![Json::Object(vec![])]),
        }]),
        Json::Object(vec![Member {
            key: String::from("b"),
            value: Json::Object(vec![Member { key: String::from("c"), value: Json::False }]),
        }]),
    ]);
    assert_eq!(result, expected);
}

#[test]
fn unterminated_constructs() {
    assert_eq!(parse("\"abc"), Err(SyntaxError::UnterminatedInput));
    assert_eq!(parse("[1, 2"), Err(SyntaxError::UnterminatedInput));
    assert_eq!(parse("{\"a\":1"), Err(SyntaxError::UnterminatedInput));
    assert_eq!(parse("t"), Err(SyntaxError::UnterminatedInput));
    assert_eq!(parse("tr"), Err(SyntaxError::UnterminatedInput));
    assert_eq!(parse("nul"), Err(SyntaxError::UnterminatedInput));
    assert_eq!(parse("[fals"), Err(SyntaxError::UnterminatedInput));
}

#[test]
fn two_roots_are_rejected() {
    assert_eq!(parse("1 2"), Err(SyntaxError::MultipleRootValues));
    assert_eq!(parse("[] {}"), Err(SyntaxError::MultipleRootValues));
}

#[test]
fn bad_literal_is_rejected_at_its_start() {
    assert_eq!(parse("[tru]"), Err(SyntaxError::UnexpectedCharacterAt(1)));
    assert_eq!(parse("falsy"), Err(SyntaxError::UnexpectedCharacterAt(0)));
}

#[test]
fn unknown_character_is_rejected() {
    assert_eq!(parse("x"), Err(SyntaxError::UnexpectedCharacterAt(0)));
    assert_eq!(parse("[1, x]"), Err(SyntaxError::UnexpectedCharacterAt(4)));
}

#[test]
fn object_key_must_be_a_string() {
    assert_eq!(
        parse("{1:2}"),
        Err(SyntaxError::StructuralViolation(Violation::KeyNotString, 1))
    );
    assert_eq!(
        parse("{\"a\":1, [2]:3}"),
        Err(SyntaxError::StructuralViolation(Violation::KeyNotString, 8))
    );
    assert_eq!(parse("{x:1}"), Err(SyntaxError::UnexpectedCharacterAt(1)));
    assert_eq!(
        parse("{\"a\"}"),
        Err(SyntaxError::StructuralViolation(Violation::KeyNotString, 4))
    );
}

#[test]
fn colon_after_value_is_rejected() {
    assert_eq!(
        parse("{\"a\":1:2}"),
        Err(SyntaxError::StructuralViolation(Violation::PhaseWasValue, 6))
    );
}

#[test]
fn parse_is_deterministic() {
    let text = "{\"a\":[1, \"b\", {\"c\":null}]}";
    assert_eq!(parse(text), parse(text));
}

#[test]
fn non_ascii_strings() {
    assert_eq!(parse("[\"é✓\", 7]").unwrap(), Json::Array(vec![string("é✓"), Json::Number(String::from("7"))]));
}

#[test]
fn accessors_on_other_kinds() {
    let arr = parse("[1]").unwrap();
    assert!(arr.at(1).is_none());
    assert!(arr.get("a").is_none());
    let obj = parse("{\"a\":1}").unwrap();
    assert!(obj.at(0).is_none());
    assert!(obj.get("b").is_none());
}

#[test]
fn leading_whitespace_moves_error_positions() {
    assert_eq!(parse("x"), Err(SyntaxError::UnexpectedCharacterAt(0)));
    assert_eq!(parse(" \n x"), Err(SyntaxError::UnexpectedCharacterAt(3)));
    assert_eq!(parse("  [1]"), parse("[1]"));
    assert_eq!(parse("[1]\t\n "), parse("[1]"));
}
