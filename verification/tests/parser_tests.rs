use marin::parser::{MarinParser, Node, Rule};

fn node(rule: Rule, start: usize, end: usize, children: Vec<Node>) -> Node {
    Node { rule, start, end, children }
}

fn leaf(rule: Rule, start: usize, end: usize) -> Node {
    node(rule, start, end, vec![])
}

#[test]
fn positional_ints() {
    let t = MarinParser::parse("1 2 -3 -3.5").unwrap();
    let expected = node(
        Rule::Marin,
        0,
        11,
        vec![
            node(Rule::Value, 0, 1, vec![leaf(Rule::Int, 0, 1)]),
            node(Rule::Value, 2, 3, vec![leaf(Rule::Int, 2, 3)]),
            node(Rule::Value, 4, 6, vec![leaf(Rule::Int, 4, 6)]),
            node(Rule::Value, 7, 11, vec![leaf(Rule::Float, 7, 11)]),
            leaf(Rule::EOI, 11, 11),
        ],
    );
    assert_eq!(t, expected);
}

#[test]
fn positional_strings() {
    let t = MarinParser::parse("arg1 arg2 arg3 4arg").unwrap();
    let expected = node(
        Rule::Marin,
        0,
        19,
        vec![
            node(Rule::Value, 0, 4, vec![node(Rule::String, 0, 4, vec![leaf(Rule::Bareword, 0, 4)])]),
            node(Rule::Value, 5, 9, vec![node(Rule::String, 5, 9, vec![leaf(Rule::Bareword, 5, 9)])]),
            node(
                Rule::Value,
                10,
                14,
                vec![node(Rule::String, 10, 14, vec![leaf(Rule::Bareword, 10, 14)])],
            ),
            node(
                Rule::Value,
                15,
                19,
                vec![node(Rule::String, 15, 19, vec![leaf(Rule::Bareword, 15, 19)])],
            ),
            leaf(Rule::EOI, 19, 19),
        ],
    );
    assert_eq!(t, expected);
}

#[test]
fn parser_keyword_arguments() {
    let t = MarinParser::parse("kw: 1 kwargs: True").unwrap();
    let expected = node(
        Rule::Marin,
        0,
        18,
        vec![
            node(
                Rule::Keyword,
                0,
                5,
                vec![
                    node(Rule::String, 0, 2, vec![leaf(Rule::Bareword, 0, 2)]),
                    node(Rule::Value, 4, 5, vec![leaf(Rule::Int, 4, 5)]),
                ],
            ),
            node(
                Rule::Keyword,
                6,
                18,
                vec![
                    node(Rule::String, 6, 12, vec![leaf(Rule::Bareword, 6, 12)]),
                    node(Rule::Value, 14, 18, vec![leaf(Rule::Bool, 14, 18)]),
                ],
            ),
            leaf(Rule::EOI, 18, 18),
        ],
    );
    assert_eq!(t, expected);
}

#[test]
fn parser_flags() {
    let t = MarinParser::parse("-flag1 -flag2").unwrap();
    let expected = node(
        Rule::Marin,
        0,
        13,
        vec![
            node(Rule::Flag, 0, 6, vec![leaf(Rule::FlagInner, 1, 6)]),
            node(Rule::Flag, 7, 13, vec![leaf(Rule::FlagInner, 8, 13)]),
            leaf(Rule::EOI, 13, 13),
        ],
    );
    assert_eq!(t, expected);
}

#[test]
fn keyword_arguments_strings() {
    let t = MarinParser::parse("kw: \"String with spaces\"").unwrap();
    let expected = node(
        Rule::Marin,
        0,
        24,
        vec![
            node(
                Rule::Keyword,
                0,
                24,
                vec![
                    node(Rule::String, 0, 2, vec![leaf(Rule::Bareword, 0, 2)]),
                    node(
                        Rule::Value,
                        4,
                        24,
                        vec![node(Rule::String, 4, 24, vec![leaf(Rule::Inner, 5, 23)])],
                    ),
                ],
            ),
            leaf(Rule::EOI, 24, 24),
        ],
    );
    assert_eq!(t, expected);
}

#[test]
fn lists() {
    let t = MarinParser::parse("vals: [1, 2, 3] [1,2,3]").unwrap();
    let expected = node(
        Rule::Marin,
        0,
        23,
        vec![
            node(
                Rule::Keyword,
                0,
                15,
                vec![
                    node(Rule::String, 0, 4, vec![leaf(Rule::Bareword, 0, 4)]),
                    node(
                        Rule::Value,
                        6,
                        15,
                        vec![node(
                            Rule::List,
                            6,
                            15,
                            vec![
                                node(Rule::Value, 7, 8, vec![leaf(Rule::Int, 7, 8)]),
                                node(Rule::Value, 10, 11, vec![leaf(Rule::Int, 10, 11)]),
                                node(Rule::Value, 13, 14, vec![leaf(Rule::Int, 13, 14)]),
                            ],
                        )],
                    ),
                ],
            ),
            node(
                Rule::Value,
                16,
                23,
                vec![node(
                    Rule::List,
                    16,
                    23,
                    vec![
                        node(Rule::Value, 17, 18, vec![leaf(Rule::Int, 17, 18)]),
                        node(Rule::Value, 19, 20, vec![leaf(Rule::Int, 19, 20)]),
                        node(Rule::Value, 21, 22, vec![leaf(Rule::Int, 21, 22)]),
                    ],
                )],
            ),
            leaf(Rule::EOI, 23, 23),
        ],
    );
    assert_eq!(t, expected);
}

#[test]
fn ranges() {
    let t = MarinParser::parse("range: 1..10 -5..15 ..10").unwrap();
    let expected = node(
        Rule::Marin,
        0,
        24,
        vec![
            node(
                Rule::Keyword,
                0,
                12,
                vec![
                    node(Rule::String, 0, 5, vec![leaf(Rule::Bareword, 0, 5)]),
                    node(
                        Rule::Value,
                        7,
                        12,
                        vec![node(
                            Rule::RangeExpr,
                            7,
                            12,
                            vec![node(
                                Rule::Range,
                                7,
                                12,
                                vec![leaf(Rule::Number, 7, 8), leaf(Rule::Number, 10, 12)],
                            )],
                        )],
                    ),
                ],
            ),
            node(
                Rule::Value,
                13,
                19,
                vec![node(
                    Rule::RangeExpr,
                    13,
                    19,
                    vec![node(
                        Rule::Range,
                        13,
                        19,
                        vec![leaf(Rule::Number, 13, 15), leaf(Rule::Number, 17, 19)],
                    )],
                )],
            ),
            node(
                Rule::Value,
                20,
                24,
                vec![node(
                    Rule::RangeExpr,
                    20,
                    24,
                    vec![node(Rule::RangeTo, 20, 24, vec![leaf(Rule::Number, 22, 24)])],
                )],
            ),
            leaf(Rule::EOI, 24, 24),
        ],
    );
    assert_eq!(t, expected);
}
