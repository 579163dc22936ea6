use marin::marin_value::MarinValue;
use marin::Marin;

fn s(text: &str) -> MarinValue {
    MarinValue::String(text.to_string())
}

fn kw(name: &str, value: MarinValue) -> (String, MarinValue) {
    (name.to_string(), value)
}

#[test]
fn empty() {
    let m = Marin::parse("").unwrap();
    assert_eq!(m, Marin { args: vec![], kwargs: vec![] });
}

#[test]
fn string_with_quoted_escapes() {
    let m = Marin::parse("\"t e\\\" s t\"").unwrap();
    assert_eq!(m, Marin { args: vec![s("t e\" s t")], kwargs: vec![] });
}

#[test]
fn lib_flags() {
    let m = Marin::parse("-overwrite -dynamic").unwrap();
    let kwargs = vec![
        kw("overwrite", MarinValue::Bool(true)),
        kw("dynamic", MarinValue::Bool(true)),
    ];
    assert_eq!(m, Marin { args: vec![], kwargs });
}

#[test]
fn flags_and_keywords() {
    let m = Marin::parse("-overwrite offset: 30m").unwrap();
    let kwargs = vec![kw("overwrite", MarinValue::Bool(true)), kw("offset", s("30m"))];
    assert_eq!(m, Marin { args: vec![], kwargs });
}

#[test]
fn positional_int_and_flags() {
    let m = Marin::parse("777000 -mention -id").unwrap();
    let kwargs = vec![kw("mention", MarinValue::Bool(true)), kw("id", MarinValue::Bool(true))];
    assert_eq!(m, Marin { args: vec![MarinValue::Int(777000)], kwargs });
}

#[test]
fn positional_username() {
    let m = Marin::parse("@username").unwrap();
    assert_eq!(m, Marin { args: vec![s("@username")], kwargs: vec![] });
}

#[test]
fn invite_link() {
    let m = Marin::parse("https://t.me/joinchat/CkzknkNYuLsKbTc91GfhGw").unwrap();
    assert_eq!(
        m,
        Marin { args: vec![s("https://t.me/joinchat/CkzknkNYuLsKbTc91GfhGw")], kwargs: vec![] }
    );
}

#[test]
fn quoted_key_word_argument() {
    let m = Marin::parse("reason: \"spam[gban]\"").unwrap();
    let kwargs = vec![kw("reason", s("spam[gban]"))];
    assert_eq!(m, Marin { args: vec![], kwargs });
}

#[test]
fn wildcard_keyword_argument() {
    let m = Marin::parse("reason: \"Kriminalamt *\"").unwrap();
    let kwargs = vec![kw("reason", s("Kriminalamt *"))];
    assert_eq!(m, Marin { args: vec![], kwargs });
}

#[test]
fn keyword_with_link() {
    let m = Marin::parse("777000 \"ban reason\" link: https://t.me/c/1129887931/26708").unwrap();
    let kwargs = vec![kw("link", s("https://t.me/c/1129887931/26708"))];
    assert_eq!(m, Marin { args: vec![MarinValue::Int(777000), s("ban reason")], kwargs });
}

#[test]
fn chat_id_with_flags() {
    let m = Marin::parse("-1001129887931 -strafanzeige polizei: exclude").unwrap();
    let kwargs = vec![kw("strafanzeige", MarinValue::Bool(true)), kw("polizei", s("exclude"))];
    assert_eq!(m, Marin { args: vec![MarinValue::Int(-1001129887931)], kwargs });
}

#[test]
fn list_of_ids() {
    let m = Marin::parse("chats: [-1001129887931, -1001367463001]").unwrap();
    let kwargs = vec![
        kw(
            "chats",
            MarinValue::List(vec![
                MarinValue::Int(-1001129887931),
                MarinValue::Int(-1001367463001),
            ]),
        ),
    ];
    assert_eq!(m, Marin { args: vec![], kwargs });
}

#[test]
fn positonal_arguments() {
    let m = Marin::parse("arg1 arg2 arg3 4arg").unwrap();
    assert_eq!(
        m,
        Marin { args: vec![s("arg1"), s("arg2"), s("arg3"), s("4arg")], kwargs: vec![] }
    );
}

#[test]
fn lib_keyword_arguments() {
    let m = Marin::parse("arg1: val1 arg2: \"val2.1 val2.2\"").unwrap();
    let kwargs = vec![kw("arg1", s("val1")), kw("arg2", s("val2.1 val2.2"))];
    assert_eq!(m, Marin { args: vec![], kwargs });
}

#[test]
fn keyword_with_lists() {
    let m = Marin::parse("arg: [123, 456] arg2: [\"abc\", \"de f\", \"xyz\"]").unwrap();
    let kwargs = vec![
        kw("arg", MarinValue::List(vec![MarinValue::Int(123), MarinValue::Int(456)])),
        kw("arg2", MarinValue::List(vec![s("abc"), s("de f"), s("xyz")])),
    ];
    assert_eq!(m, Marin { args: vec![], kwargs });
}

#[test]
fn keyword_with_ranges() {
    let m = Marin::parse("arg: 1..10 arg2: -5..5 arg3: -10..0").unwrap();
    let kwargs = vec![
        kw("arg", MarinValue::Range(1, 10)),
        kw("arg2", MarinValue::Range(-5, 5)),
        kw("arg3", MarinValue::Range(-10, 0)),
    ];
    assert_eq!(m, Marin { args: vec![], kwargs });
}

#[test]
fn scientific_notation() {
    let m = Marin::parse("1e4 2.5e4 125e-5").unwrap();
    assert_eq!(m.args.len(), 3);
    let floats: Vec<f64> = m
        .args
        .iter()
        .map(|v| match v {
            MarinValue::Float(text) => text.parse::<f64>().unwrap(),
            other => panic!("expected a float, got {:?}", other),
        })
        .collect();
    assert_eq!(floats, vec![10000.0, 25000.0, 0.00125]);
    assert_eq!(m.kwargs, vec![]);
}

#[test]
fn duration_expression() {
    let m = Marin::parse("2w3d3h5s").unwrap();
    assert_eq!(m, Marin { args: vec![s("2w3d3h5s")], kwargs: vec![] });
}

#[test]
#[should_panic]
fn flag_keyword() {
    let _m = Marin::parse("-flag: 123").unwrap();
}
