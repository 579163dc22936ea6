use marin::error::Error;
use marin::marin_value::MarinValue;
use marin::parser::MarinParser;
use marin::parser::Rule;
use marin::Marin;

fn s(text: &str) -> MarinValue {
    MarinValue::String(text.to_string())
}

fn kw(name: &str, value: MarinValue) -> (String, MarinValue) {
    (name.to_string(), value)
}

#[test]
fn whitespace_only_line_is_empty_command() {
    let m = Marin::parse("   ").unwrap();
    assert_eq!(m, Marin { args: vec![], kwargs: vec![] });
}

#[test]
fn positional_order_is_kept_among_named_arguments() {
    let m = Marin::parse("1 -f two k: v 3").unwrap();
    assert_eq!(m.args, vec![MarinValue::Int(1), s("two"), MarinValue::Int(3)]);
    assert_eq!(m.kwargs, vec![kw("f", MarinValue::Bool(true)), kw("k", s("v"))]);
}

#[test]
fn last_occurrence_of_a_name_wins() {
    let m = Marin::parse("a: 1 a: 2 -a").unwrap();
    assert_eq!(m, Marin { args: vec![], kwargs: vec![kw("a", MarinValue::Bool(true))] });

    let m = Marin::parse("-x x: 5").unwrap();
    assert_eq!(m, Marin { args: vec![], kwargs: vec![kw("x", MarinValue::Int(5))] });
}

#[test]
fn range_with_implicit_start() {
    let m = Marin::parse("..10").unwrap();
    assert_eq!(m, Marin { args: vec![MarinValue::Range(0, 10)], kwargs: vec![] });
}

#[test]
fn inverted_range_is_kept_as_given() {
    let m = Marin::parse("r: 10..1").unwrap();
    assert_eq!(m, Marin { args: vec![], kwargs: vec![kw("r", MarinValue::Range(10, 1))] });
}

#[test]
fn booleans_match_case_insensitively() {
    let m = Marin::parse("TRUE False true").unwrap();
    assert_eq!(
        m.args,
        vec![MarinValue::Bool(true), MarinValue::Bool(false), MarinValue::Bool(true)]
    );
}

#[test]
fn bareword_beginning_with_true_is_a_string() {
    let m = Marin::parse("truelove falsey").unwrap();
    assert_eq!(m.args, vec![s("truelove"), s("falsey")]);
}

#[test]
fn negative_float_keeps_its_text() {
    let m = Marin::parse("-3.5").unwrap();
    match &m.args[0] {
        MarinValue::Float(text) => {
            assert_eq!(text, "-3.5");
            assert_eq!(text.parse::<f64>().unwrap(), -3.5);
        },
        other => panic!("expected a float, got {:?}", other),
    }
}

#[test]
fn nested_lists() {
    let m = Marin::parse("[1, [2, 3], x]").unwrap();
    assert_eq!(
        m.args,
        vec![MarinValue::List(vec![
            MarinValue::Int(1),
            MarinValue::List(vec![MarinValue::Int(2), MarinValue::Int(3)]),
            s("x"),
        ])]
    );
}

#[test]
fn empty_quoted_string() {
    let m = Marin::parse("\"\"").unwrap();
    assert_eq!(m.args, vec![s("")]);
}

#[test]
fn backslash_not_before_quote_is_kept() {
    let m = Marin::parse(r#""a\b""#).unwrap();
    assert_eq!(m.args, vec![s("a\\b")]);
}

#[test]
fn extreme_integers_fit() {
    let m = Marin::parse("9223372036854775807 -9223372036854775808").unwrap();
    assert_eq!(m.args, vec![MarinValue::Int(i64::MAX), MarinValue::Int(i64::MIN)]);
}

#[test]
fn oversized_integer_is_reported_with_its_position() {
    let e = Marin::parse("9223372036854775808").unwrap_err();
    assert_eq!(e, Error::IntOutOfRange(0));

    let e = Marin::parse("ok: 1 big: -9223372036854775809").unwrap_err();
    assert_eq!(e, Error::IntOutOfRange(11));
}

#[test]
fn grammar_rejection_carries_position_and_expectations() {
    let e = Marin::parse("-flag: 123").unwrap_err();
    match e {
        Error::Parser(pe) => {
            assert_eq!(pe.pos, 0);
            assert_eq!(pe.expected, vec![Rule::Keyword, Rule::Flag, Rule::Value]);
        },
        other => panic!("expected a parser error, got {:?}", other),
    }
}

#[test]
fn unterminated_quote_is_rejected() {
    assert!(Marin::parse("\"never closed").is_err());
}

#[test]
fn url_with_scheme_stays_one_positional_string() {
    let m = Marin::parse("tag https://example.com/a/b?q=1").unwrap();
    assert_eq!(m.args, vec![s("tag"), s("https://example.com/a/b?q=1")]);
}

#[test]
fn error_description_is_stable() {
    let e = Marin::parse("-flag: 123").unwrap_err();
    assert_eq!(e.describe(), "the input does not match the grammar");
    let e = Marin::parse("99999999999999999999").unwrap_err();
    assert_eq!(e.describe(), "an integer literal does not fit in 64 signed bits");
}

#[test]
fn kwargs_get_finds_the_binding() {
    let m = Marin::parse("-overwrite offset: 30m").unwrap();
    assert_eq!(m.kwargs_get("overwrite"), Some(&MarinValue::Bool(true)));
    assert_eq!(m.kwargs_get("offset"), Some(&s("30m")));
    assert_eq!(m.kwargs_get("absent"), None);
}

#[test]
fn values_convert_from_plain_types() {
    assert_eq!(MarinValue::from(true), MarinValue::Bool(true));
    assert_eq!(MarinValue::from(777000i64), MarinValue::Int(777000));
    assert_eq!(MarinValue::from("x".to_string()), s("x"));
    assert_eq!(
        MarinValue::from(vec![MarinValue::Int(1)]),
        MarinValue::List(vec![MarinValue::Int(1)])
    );
}

#[test]
fn tree_parser_rejects_like_the_command_parser() {
    let e = MarinParser::parse("-flag: 123").unwrap_err();
    match e {
        Error::Parser(pe) => assert_eq!(pe.pos, 0),
        other => panic!("expected a parser error, got {:?}", other),
    }
}

#[test]
fn separator_is_required_between_elements() {
    let e = Marin::parse("\"ab\"x").unwrap_err();
    match e {
        Error::Parser(pe) => {
            assert_eq!(pe.pos, 4);
            assert_eq!(pe.expected, vec![Rule::EOI]);
        },
        other => panic!("expected a parser error, got {:?}", other),
    }
}

#[test]
fn keyword_value_may_follow_the_colon_without_space() {
    let m = Marin::parse("vals:[1, 2] quote:\"a b\"").unwrap();
    assert_eq!(
        m.kwargs,
        vec![
            kw("vals", MarinValue::List(vec![MarinValue::Int(1), MarinValue::Int(2)])),
            kw("quote", s("a b")),
        ]
    );
}
