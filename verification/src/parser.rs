//! The grammar: rule kinds, parse-tree nodes, and the recursive-descent
//! recognizer that turns a line of text into a parse tree.

use vstd::prelude::*;

use crate::error::{Error, ParseError, ParseErrorModel};

verus! {

/// The rule kinds a parse-tree node can carry.
#[derive(Clone, Copy, Debug, PartialEq, Eq, Structural)]
pub enum Rule {
    Marin,
    Keyword,
    Flag,
    FlagInner,
    Value,
    RangeExpr,
    Range,
    RangeTo,
    Number,
    Int,
    Float,
    Bool,
    String,
    Inner,
    Bareword,
    List,
    EOI,
}

/// A parse-tree node: a rule kind, the matched span (character positions,
/// half-open), and the ordered child nodes.
#[derive(Debug, PartialEq)]
pub struct Node {
    pub rule: Rule,
    pub start: usize,
    pub end: usize,
    pub children: Vec<Node>,
}

/// Mathematical model of a parse-tree node.
pub struct NodeModel {
    pub rule: Rule,
    pub start: int,
    pub end: int,
    pub children: Seq<NodeModel>,
}

pub open spec fn node_model(n: Node) -> NodeModel
    decreases n, 1int,
{
    NodeModel {
        rule: n.rule,
        start: n.start as int,
        end: n.end as int,
        children: nodes_model(n.children@),
    }
}

pub open spec fn nodes_model(v: Seq<Node>) -> Seq<NodeModel>
    decreases v, 0int,
{
    if v.len() == 0 {
        Seq::empty()
    } else {
        nodes_model(v.drop_last()).push(node_model(v.last()))
    }
}

impl View for Node {
    type V = NodeModel;

    open spec fn view(&self) -> NodeModel {
        node_model(*self)
    }
}

pub proof fn lemma_nodes_model(v: Seq<Node>)
    ensures
        nodes_model(v).len() == v.len(),
        forall|k: int| 0 <= k < v.len() ==> nodes_model(v)[k] == node_model(v[k]),
    decreases v,
{
    if v.len() > 0 {
        lemma_nodes_model(v.drop_last());
    }
}

pub proof fn lemma_nodes_model_push(v: Seq<Node>, n: Node)
    ensures
        nodes_model(v.push(n)) == nodes_model(v).push(node_model(n)),
{
    assert(v.push(n).drop_last() =~= v);
    assert(v.push(n).last() == n);
}

pub proof fn lemma_nodes_model_concat(a: Seq<Node>, b: Seq<Node>)
    ensures
        nodes_model(a + b) == nodes_model(a) + nodes_model(b),
    decreases b,
{
    if b.len() == 0 {
        assert(a + b =~= a);
        assert(nodes_model(a) + nodes_model(b) =~= nodes_model(a));
    } else {
        lemma_nodes_model_concat(a, b.drop_last());
        assert((a + b).drop_last() =~= a + b.drop_last());
        assert((a + b).last() == b.last());
        assert(nodes_model(a) + nodes_model(b) =~= (nodes_model(a) + nodes_model(
            b.drop_last(),
        )).push(node_model(b.last())));
    }
}

// ---------------------------------------------------------------------------
// The grammar, as spec functions over the character sequence.
//
// Ordered choice throughout: the first alternative that matches wins.
// A command is a whitespace-separated run of elements, each a keyword
// (`name: value`), a flag (`-name`, not followed by a colon, not starting
// with a digit), or a plain value. Values are tried as range, list,
// boolean, float, integer, then string (quoted or bareword).
// ---------------------------------------------------------------------------

/// Whitespace separating the elements of a command.
pub open spec fn ws_char(c: char) -> bool {
    c == ' ' || c == '\t' || c == '\n' || c == '\r'
}

/// Characters that never occur in a bareword: they open or close quoted
/// strings and lists, or separate list elements.
pub open spec fn reserved_char(c: char) -> bool {
    c == '"' || c == '[' || c == ']' || c == ','
}

pub open spec fn digit_char(c: char) -> bool {
    48 <= c as u32 && c as u32 <= 57
}

/// A bareword ends at whitespace, at a reserved character, or at a colon
/// that is followed by whitespace, a reserved character, or the end of the
/// input. A colon followed by more bareword text is kept, so URLs stay one
/// token while `name:` right before a value is read as a keyword marker.
pub open spec fn bare_stop(s: Seq<char>, i: int) -> bool {
    ws_char(s[i]) || reserved_char(s[i]) || (s[i] == ':' && (i + 1 >= s.len() || ws_char(s[i + 1])
        || reserved_char(s[i + 1])))
}

pub open spec fn bareword_end(s: Seq<char>, i: int) -> int
    decreases s.len() - i,
{
    if i < 0 || i >= s.len() || bare_stop(s, i) {
        i
    } else {
        bareword_end(s, i + 1)
    }
}

/// A flag name ends at whitespace, a reserved character, or any colon.
pub open spec fn flag_stop(s: Seq<char>, i: int) -> bool {
    ws_char(s[i]) || reserved_char(s[i]) || s[i] == ':'
}

pub open spec fn flag_inner_end(s: Seq<char>, i: int) -> int
    decreases s.len() - i,
{
    if i < 0 || i >= s.len() || flag_stop(s, i) {
        i
    } else {
        flag_inner_end(s, i + 1)
    }
}

pub open spec fn digits_end(s: Seq<char>, i: int) -> int
    decreases s.len() - i,
{
    if i < 0 || i >= s.len() || !digit_char(s[i]) {
        i
    } else {
        digits_end(s, i + 1)
    }
}

pub open spec fn skip_ws(s: Seq<char>, i: int) -> int
    decreases s.len() - i,
{
    if i < 0 || i >= s.len() || !ws_char(s[i]) {
        i
    } else {
        skip_ws(s, i + 1)
    }
}

/// End of a numeric literal: an optional minus sign, then one or more digits.
pub open spec fn number_end(s: Seq<char>, i: int) -> Option<int> {
    if 0 <= i < s.len() && s[i] == '-' {
        let e = digits_end(s, i + 1);
        if e > i + 1 {
            Some(e)
        } else {
            None
        }
    } else {
        let e = digits_end(s, i);
        if e > i {
            Some(e)
        } else {
            None
        }
    }
}

/// Token boundary after a numeric, boolean, or range literal: end of input,
/// whitespace, or a list separator or closer. Anything else makes the
/// literal fall through to the bareword rule.
pub open spec fn boundary(s: Seq<char>, i: int) -> bool {
    i >= s.len() || ws_char(s[i]) || s[i] == ',' || s[i] == ']'
}

/// End of an integer token: a numeric literal at a token boundary.
pub open spec fn int_tok_end(s: Seq<char>, i: int) -> Option<int> {
    match number_end(s, i) {
        Some(e) => if boundary(s, e) {
            Some(e)
        } else {
            None
        },
        None => None,
    }
}

/// End of an exponent part: `e` or `E`, an optional sign, one or more digits.
pub open spec fn exp_end(s: Seq<char>, i: int) -> Option<int> {
    if 0 <= i < s.len() && (s[i] == 'e' || s[i] == 'E') {
        let j = if i + 1 < s.len() && (s[i + 1] == '+' || s[i + 1] == '-') {
            i + 2
        } else {
            i + 1
        };
        let e = digits_end(s, j);
        if e > j {
            Some(e)
        } else {
            None
        }
    } else {
        None
    }
}

/// End of a float literal: an optional minus sign, digits, then either a
/// decimal point with digits and an optional exponent, or an exponent alone.
pub open spec fn float_lit_end(s: Seq<char>, i: int) -> Option<int> {
    let j = if 0 <= i < s.len() && s[i] == '-' {
        i + 1
    } else {
        i
    };
    let d = digits_end(s, j);
    if d <= j {
        None
    } else if d < s.len() && s[d] == '.' {
        let d2 = digits_end(s, d + 1);
        if d2 > d + 1 {
            match exp_end(s, d2) {
                Some(e) => Some(e),
                None => Some(d2),
            }
        } else {
            None
        }
    } else {
        exp_end(s, d)
    }
}

pub open spec fn float_tok_end(s: Seq<char>, i: int) -> Option<int> {
    match float_lit_end(s, i) {
        Some(e) => if boundary(s, e) {
            Some(e)
        } else {
            None
        },
        None => None,
    }
}

/// Case-insensitive match of one lower-case letter.
pub open spec fn eq_ci(c: char, lower: char) -> bool {
    c == lower || c as u32 + 32 == lower as u32
}

/// End of a boolean token: `true` or `false`, case-insensitive, whole token.
pub open spec fn bool_tok_end(s: Seq<char>, i: int) -> Option<int> {
    if i >= 0 && i + 4 <= s.len() && eq_ci(s[i], 't') && eq_ci(s[i + 1], 'r') && eq_ci(
        s[i + 2],
        'u',
    ) && eq_ci(s[i + 3], 'e') && boundary(s, i + 4) {
        Some(i + 4)
    } else if i >= 0 && i + 5 <= s.len() && eq_ci(s[i], 'f') && eq_ci(s[i + 1], 'a') && eq_ci(
        s[i + 2],
        'l',
    ) && eq_ci(s[i + 3], 's') && eq_ci(s[i + 4], 'e') && boundary(s, i + 5) {
        Some(i + 5)
    } else {
        None
    }
}

/// End of the body of a quoted string, scanning from just after the opening
/// quote: the position of the closing quote, treating `\"` as an embedded
/// quote rather than a terminator. `None` when the quote never closes.
pub open spec fn inner_end(s: Seq<char>, i: int) -> Option<int>
    decreases s.len() - i,
{
    if i < 0 || i >= s.len() {
        None
    } else if s[i] == '"' {
        Some(i)
    } else if s[i] == '\\' && i + 1 < s.len() && s[i + 1] == '"' {
        inner_end(s, i + 2)
    } else {
        inner_end(s, i + 1)
    }
}

pub open spec fn leaf(r: Rule, a: int, b: int) -> NodeModel {
    NodeModel { rule: r, start: a, end: b, children: Seq::empty() }
}

/// A string value: a quoted string (whose single child is the body between
/// the quotes) or a bareword (which may not start with `-`).
pub open spec fn spec_string(s: Seq<char>, i: int) -> Option<(NodeModel, int)> {
    if 0 <= i < s.len() && s[i] == '"' {
        match inner_end(s, i + 1) {
            Some(k) => Some(
                (
                    NodeModel {
                        rule: Rule::String,
                        start: i,
                        end: k + 1,
                        children: seq![leaf(Rule::Inner, i + 1, k)],
                    },
                    k + 1,
                ),
            ),
            None => None,
        }
    } else {
        let e = bareword_end(s, i);
        if 0 <= i < s.len() && s[i] != '-' && e > i {
            Some(
                (
                    NodeModel {
                        rule: Rule::String,
                        start: i,
                        end: e,
                        children: seq![leaf(Rule::Bareword, i, e)],
                    },
                    e,
                ),
            )
        } else {
            None
        }
    }
}

/// A two-sided range `a..b` at a token boundary.
pub open spec fn spec_range(s: Seq<char>, i: int) -> Option<(NodeModel, int)> {
    match number_end(s, i) {
        Some(e1) => if e1 + 2 <= s.len() && s[e1] == '.' && s[e1 + 1] == '.' {
            match number_end(s, e1 + 2) {
                Some(e2) => if boundary(s, e2) {
                    Some(
                        (
                            NodeModel {
                                rule: Rule::Range,
                                start: i,
                                end: e2,
                                children: seq![
                                    leaf(Rule::Number, i, e1),
                                    leaf(Rule::Number, e1 + 2, e2),
                                ],
                            },
                            e2,
                        ),
                    )
                } else {
                    None
                },
                None => None,
            }
        } else {
            None
        },
        None => None,
    }
}

/// A range with an implicit start, `..b`, at a token boundary.
pub open spec fn spec_range_to(s: Seq<char>, i: int) -> Option<(NodeModel, int)> {
    if i >= 0 && i + 2 <= s.len() && s[i] == '.' && s[i + 1] == '.' {
        match number_end(s, i + 2) {
            Some(e) => if boundary(s, e) {
                Some(
                    (
                        NodeModel {
                            rule: Rule::RangeTo,
                            start: i,
                            end: e,
                            children: seq![leaf(Rule::Number, i + 2, e)],
                        },
                        e,
                    ),
                )
            } else {
                None
            },
            None => None,
        }
    } else {
        None
    }
}

pub open spec fn spec_range_expr(s: Seq<char>, i: int) -> Option<(NodeModel, int)> {
    match spec_range(s, i) {
        Some((n, e)) => Some(
            (NodeModel { rule: Rule::RangeExpr, start: i, end: e, children: seq![n] }, e),
        ),
        None => match spec_range_to(s, i) {
            Some((n, e)) => Some(
                (NodeModel { rule: Rule::RangeExpr, start: i, end: e, children: seq![n] }, e),
            ),
            None => None,
        },
    }
}

/// Clamp a continuation position into `(i, s.len()]` so that recursion over
/// match ends is well-founded by construction. Every match in fact advances
/// (see `lemma_value_props`), so the clamp never changes a real position.
pub open spec fn step(s: Seq<char>, i: int, e: int) -> int {
    if i + 1 <= e <= s.len() {
        e
    } else if i + 1 <= s.len() {
        i + 1
    } else {
        s.len() as int
    }
}

/// The remaining elements of a list, scanning from just after an element:
/// optional whitespace, then either `]` closing the list or `,` and a value.
pub open spec fn spec_list_tail(s: Seq<char>, i: int) -> Option<(Seq<NodeModel>, int)>
    decreases s.len() - i, 1int,
{
    let k = skip_ws(s, i);
    if 0 <= k < s.len() && s[k] == ']' {
        Some((Seq::empty(), k + 1))
    } else if 0 <= k < s.len() && s[k] == ',' {
        let m = skip_ws(s, k + 1);
        if i < m <= s.len() {
            match spec_value(s, m) {
                Some((n, e)) => match spec_list_tail(s, step(s, m, e)) {
                    Some((rest, f)) => Some((seq![n] + rest, f)),
                    None => None,
                },
                None => None,
            }
        } else {
            None
        }
    } else {
        None
    }
}

/// A list `[v, v, ...]` with at least one element.
pub open spec fn spec_list(s: Seq<char>, i: int) -> Option<(NodeModel, int)>
    decreases s.len() - i, 2int,
{
    if 0 <= i < s.len() && s[i] == '[' {
        let m = skip_ws(s, i + 1);
        if i < m <= s.len() {
            match spec_value(s, m) {
                Some((n, e)) => match spec_list_tail(s, step(s, m, e)) {
                    Some((rest, f)) => Some(
                        (
                            NodeModel {
                                rule: Rule::List,
                                start: i,
                                end: f,
                                children: seq![n] + rest,
                            },
                            f,
                        ),
                    ),
                    None => None,
                },
                None => None,
            }
        } else {
            None
        }
    } else {
        None
    }
}

/// A value, by ordered choice: range, list, boolean, float, integer, string.
pub open spec fn spec_value(s: Seq<char>, i: int) -> Option<(NodeModel, int)>
    decreases s.len() - i, 3int,
{
    match spec_range_expr(s, i) {
        Some((n, e)) => Some(
            (NodeModel { rule: Rule::Value, start: i, end: e, children: seq![n] }, e),
        ),
        None => match spec_list(s, i) {
            Some((n, e)) => Some(
                (NodeModel { rule: Rule::Value, start: i, end: e, children: seq![n] }, e),
            ),
            None => match bool_tok_end(s, i) {
                Some(e) => Some(
                    (
                        NodeModel {
                            rule: Rule::Value,
                            start: i,
                            end: e,
                            children: seq![leaf(Rule::Bool, i, e)],
                        },
                        e,
                    ),
                ),
                None => match float_tok_end(s, i) {
                    Some(e) => Some(
                        (
                            NodeModel {
                                rule: Rule::Value,
                                start: i,
                                end: e,
                                children: seq![leaf(Rule::Float, i, e)],
                            },
                            e,
                        ),
                    ),
                    None => match int_tok_end(s, i) {
                        Some(e) => Some(
                            (
                                NodeModel {
                                    rule: Rule::Value,
                                    start: i,
                                    end: e,
                                    children: seq![leaf(Rule::Int, i, e)],
                                },
                                e,
                            ),
                        ),
                        None => match spec_string(s, i) {
                            Some((n, e)) => Some(
                                (
                                    NodeModel {
                                        rule: Rule::Value,
                                        start: i,
                                        end: e,
                                        children: seq![n],
                                    },
                                    e,
                                ),
                            ),
                            None => None,
                        },
                    },
                },
            },
        },
    }
}

/// A keyword `name: value`: a bareword identifier (no leading `-`)
/// immediately followed by a colon, optional whitespace, and a value.
pub open spec fn spec_keyword(s: Seq<char>, i: int) -> Option<(NodeModel, int)>
    decreases s.len() - i, 4int,
{
    let e = bareword_end(s, i);
    if 0 <= i < s.len() && s[i] != '-' && e > i && e < s.len() && s[e] == ':' {
        let m = skip_ws(s, e + 1);
        if i < m <= s.len() {
            match spec_value(s, m) {
                Some((n, ve)) => Some(
                    (
                        NodeModel {
                            rule: Rule::Keyword,
                            start: i,
                            end: ve,
                            children: seq![
                                NodeModel {
                                    rule: Rule::String,
                                    start: i,
                                    end: e,
                                    children: seq![leaf(Rule::Bareword, i, e)],
                                },
                                n,
                            ],
                        },
                        ve,
                    ),
                ),
                None => None,
            }
        } else {
            None
        }
    } else {
        None
    }
}

/// A flag `-name`: a dash, a name that does not start with a digit, and no
/// colon right after the name. A dash followed by a digit is a number.
pub open spec fn spec_flag(s: Seq<char>, i: int) -> Option<(NodeModel, int)> {
    if 0 <= i && i + 1 < s.len() && s[i] == '-' && !digit_char(s[i + 1]) {
        let e = flag_inner_end(s, i + 1);
        if e > i + 1 && (e >= s.len() || s[e] != ':') {
            Some(
                (
                    NodeModel {
                        rule: Rule::Flag,
                        start: i,
                        end: e,
                        children: seq![leaf(Rule::FlagInner, i + 1, e)],
                    },
                    e,
                ),
            )
        } else {
            None
        }
    } else {
        None
    }
}

/// A top-level element, by ordered choice: keyword, flag, value.
pub open spec fn spec_element(s: Seq<char>, i: int) -> Option<(NodeModel, int)>
    decreases s.len() - i, 5int,
{
    match spec_keyword(s, i) {
        Some(r) => Some(r),
        None => match spec_flag(s, i) {
            Some(r) => Some(r),
            None => spec_value(s, i),
        },
    }
}

/// Why a parse failed: no element matched at the position, or an element
/// ended and neither whitespace nor the end of input followed.
pub enum FailSpec {
    NoElement(int),
    NoSeparator(int),
}

/// The top-level elements from position `i` on: skip whitespace, stop at the
/// end of input, otherwise read an element and require a separator after it.
pub open spec fn spec_items(s: Seq<char>, i: int) -> Result<Seq<NodeModel>, FailSpec>
    decreases s.len() - i, 6int,
{
    let j = skip_ws(s, i);
    if j >= s.len() || j < i {
        Ok(Seq::empty())
    } else {
        match spec_element(s, j) {
            None => Err(FailSpec::NoElement(j)),
            Some((n, e)) => if e < s.len() && !ws_char(s[e]) {
                Err(FailSpec::NoSeparator(e))
            } else {
                match spec_items(s, step(s, j, e)) {
                    Ok(rest) => Ok(seq![n] + rest),
                    Err(x) => Err(x),
                }
            },
        }
    }
}

// ---------------------------------------------------------------------------
// Well-formedness of produced trees: the shape the interpreter relies on.
// ---------------------------------------------------------------------------

pub open spec fn all_digits(s: Seq<char>, a: int, b: int) -> bool {
    forall|k: int| a <= k < b ==> digit_char(s[k])
}

/// The span of a numeric literal: an optional minus sign, then digits only.
pub open spec fn number_wf(s: Seq<char>, a: int, b: int) -> bool {
    &&& 0 <= a < b <= s.len()
    &&& if s[a] == '-' {
        a + 1 < b && all_digits(s, a + 1, b)
    } else {
        all_digits(s, a, b)
    }
}

/// The shape of a node the tree interpreter relies on: child counts, child
/// rules, spans inside the input, and numeric spans that are really numeric.
pub open spec fn wf_node(n: NodeModel, s: Seq<char>) -> bool
    decreases n, 1int,
{
    match n.rule {
        Rule::Value => n.children.len() == 1 && wf_node(n.children[0], s),
        Rule::RangeExpr => n.children.len() == 1 && {
            let c = n.children[0];
            ||| (c.rule == Rule::Range && c.children.len() == 2 && number_wf(
                s,
                c.children[0].start,
                c.children[0].end,
            ) && number_wf(s, c.children[1].start, c.children[1].end))
            ||| (c.rule == Rule::RangeTo && c.children.len() == 1 && number_wf(
                s,
                c.children[0].start,
                c.children[0].end,
            ))
        },
        Rule::Int => number_wf(s, n.start, n.end),
        Rule::Number => number_wf(s, n.start, n.end),
        Rule::Float => 0 <= n.start < n.end <= s.len(),
        Rule::Bool => 0 <= n.start < n.end <= s.len(),
        Rule::String => n.children.len() == 1 && {
            let c = n.children[0];
            ||| (c.rule == Rule::Inner && 0 <= c.start <= c.end <= s.len())
            ||| (c.rule == Rule::Bareword && 0 <= c.start < c.end <= s.len())
        },
        Rule::List => wf_nodes(n.children, s),
        Rule::Keyword => n.children.len() == 2 && {
            let k = n.children[0];
            k.rule == Rule::String && 0 <= k.start < k.end <= s.len() && wf_node(n.children[1], s)
        },
        Rule::Flag => n.children.len() == 1 && {
            let c = n.children[0];
            c.rule == Rule::FlagInner && 0 <= c.start < c.end <= s.len()
        },
        Rule::Marin => wf_nodes(n.children, s) && items_rules_ok(n.children),
        Rule::EOI => true,
        _ => false,
    }
}

pub open spec fn wf_nodes(v: Seq<NodeModel>, s: Seq<char>) -> bool
    decreases v, 0int,
{
    if v.len() == 0 {
        true
    } else {
        wf_nodes(v.drop_last(), s) && wf_node(v.last(), s)
    }
}

/// Every top-level child of the root is a keyword, a flag, a value, or the
/// end-of-input marker.
pub open spec fn items_rules_ok(v: Seq<NodeModel>) -> bool {
    forall|k: int|
        0 <= k < v.len() ==> (v[k].rule == Rule::Keyword || v[k].rule == Rule::Flag || v[k].rule
            == Rule::Value || v[k].rule == Rule::EOI)
}

pub proof fn lemma_wf_nodes_index(v: Seq<NodeModel>, s: Seq<char>)
    requires
        wf_nodes(v, s),
    ensures
        forall|k: int| 0 <= k < v.len() ==> wf_node(v[k], s),
    decreases v,
{
    if v.len() > 0 {
        lemma_wf_nodes_index(v.drop_last(), s);
        assert forall|k: int| 0 <= k < v.len() implies wf_node(v[k], s) by {
            if k < v.len() - 1 {
                assert(v.drop_last()[k] == v[k]);
            } else {
                assert(v[k] == v.last());
            }
        }
    }
}

pub proof fn lemma_wf_nodes_single(n: NodeModel, s: Seq<char>)
    requires
        wf_node(n, s),
    ensures
        wf_nodes(seq![n], s),
{
    assert(seq![n].drop_last() =~= Seq::<NodeModel>::empty());
    assert(wf_nodes(Seq::<NodeModel>::empty(), s));
    assert(seq![n].last() == n);
}

pub proof fn lemma_wf_nodes_concat(a: Seq<NodeModel>, b: Seq<NodeModel>, s: Seq<char>)
    requires
        wf_nodes(a, s),
        wf_nodes(b, s),
    ensures
        wf_nodes(a + b, s),
    decreases b,
{
    if b.len() == 0 {
        assert(a + b =~= a);
    } else {
        lemma_wf_nodes_concat(a, b.drop_last(), s);
        assert((a + b).drop_last() =~= a + b.drop_last());
        assert((a + b).last() == b.last());
    }
}

// ---------------------------------------------------------------------------
// Bounds of the scanners, and well-formedness of what the grammar produces.
// ---------------------------------------------------------------------------

pub proof fn lemma_bareword_end(s: Seq<char>, i: int)
    requires
        0 <= i <= s.len(),
    ensures
        i <= bareword_end(s, i) <= s.len(),
    decreases s.len() - i,
{
    if i < s.len() && !bare_stop(s, i) {
        lemma_bareword_end(s, i + 1);
    }
}

pub proof fn lemma_flag_inner_end(s: Seq<char>, i: int)
    requires
        0 <= i <= s.len(),
    ensures
        i <= flag_inner_end(s, i) <= s.len(),
    decreases s.len() - i,
{
    if i < s.len() && !flag_stop(s, i) {
        lemma_flag_inner_end(s, i + 1);
    }
}

pub proof fn lemma_digits_end(s: Seq<char>, i: int)
    requires
        0 <= i <= s.len(),
    ensures
        i <= digits_end(s, i) <= s.len(),
        all_digits(s, i, digits_end(s, i)),
    decreases s.len() - i,
{
    if i < s.len() && digit_char(s[i]) {
        lemma_digits_end(s, i + 1);
    }
}

pub proof fn lemma_skip_ws(s: Seq<char>, i: int)
    requires
        0 <= i <= s.len(),
    ensures
        i <= skip_ws(s, i) <= s.len(),
    decreases s.len() - i,
{
    if i < s.len() && ws_char(s[i]) {
        lemma_skip_ws(s, i + 1);
    }
}

pub proof fn lemma_inner_end(s: Seq<char>, i: int)
    requires
        0 <= i <= s.len(),
    ensures
        match inner_end(s, i) {
            Some(k) => i <= k < s.len(),
            None => true,
        },
    decreases s.len() - i,
{
    if i < s.len() && s[i] != '"' {
        if s[i] == '\\' && i + 1 < s.len() && s[i + 1] == '"' {
            lemma_inner_end(s, i + 2);
        } else {
            lemma_inner_end(s, i + 1);
        }
    }
}

pub proof fn lemma_number_end(s: Seq<char>, i: int)
    requires
        0 <= i <= s.len(),
    ensures
        match number_end(s, i) {
            Some(e) => i < e <= s.len() && number_wf(s, i, e),
            None => true,
        },
{
    lemma_digits_end(s, i);
    if i < s.len() && s[i] == '-' {
        lemma_digits_end(s, i + 1);
    }
}

pub proof fn lemma_float_end(s: Seq<char>, i: int)
    requires
        0 <= i <= s.len(),
    ensures
        match float_lit_end(s, i) {
            Some(e) => i < e <= s.len(),
            None => true,
        },
{
    lemma_digits_end(s, i);
    if i < s.len() && s[i] == '-' {
        lemma_digits_end(s, i + 1);
    }
    let j = if 0 <= i < s.len() && s[i] == '-' {
        i + 1
    } else {
        i
    };
    let d = digits_end(s, j);
    if d > j {
        if d < s.len() && s[d] == '.' {
            lemma_digits_end(s, d + 1);
            let d2 = digits_end(s, d + 1);
            if d2 > d + 1 {
                lemma_exp_end(s, d2);
            }
        } else {
            lemma_exp_end(s, d);
        }
    }
}

pub proof fn lemma_exp_end(s: Seq<char>, i: int)
    requires
        0 <= i <= s.len(),
    ensures
        match exp_end(s, i) {
            Some(e) => i < e <= s.len(),
            None => true,
        },
{
    if i < s.len() && (s[i] == 'e' || s[i] == 'E') {
        let j = if i + 1 < s.len() && (s[i + 1] == '+' || s[i + 1] == '-') {
            i + 2
        } else {
            i + 1
        };
        lemma_digits_end(s, j);
    }
}

pub proof fn lemma_string_props(s: Seq<char>, i: int)
    requires
        0 <= i <= s.len(),
    ensures
        match spec_string(s, i) {
            Some((n, e)) => i < e <= s.len() && n.start == i && n.end == e && n.rule == Rule::String
                && wf_node(n, s),
            None => true,
        },
{
    if 0 <= i < s.len() && s[i] == '"' {
        lemma_inner_end(s, i + 1);
    } else {
        lemma_bareword_end(s, i);
    }
}

pub proof fn lemma_range_expr_props(s: Seq<char>, i: int)
    requires
        0 <= i <= s.len(),
    ensures
        match spec_range_expr(s, i) {
            Some((n, e)) => i < e <= s.len() && n.start == i && n.end == e && n.rule
                == Rule::RangeExpr && wf_node(n, s),
            None => true,
        },
{
    lemma_number_end(s, i);
    match number_end(s, i) {
        Some(e1) => {
            if e1 + 2 <= s.len() {
                lemma_number_end(s, e1 + 2);
            }
        },
        None => {},
    }
    if i + 2 <= s.len() {
        lemma_number_end(s, i + 2);
    }
}

pub proof fn lemma_flag_props(s: Seq<char>, i: int)
    requires
        0 <= i <= s.len(),
    ensures
        match spec_flag(s, i) {
            Some((n, e)) => i < e <= s.len() && n.start == i && n.end == e && n.rule == Rule::Flag
                && wf_node(n, s),
            None => true,
        },
{
    if i + 1 < s.len() {
        lemma_flag_inner_end(s, i + 1);
    }
}

pub proof fn lemma_list_tail_props(s: Seq<char>, i: int)
    requires
        0 <= i <= s.len(),
    ensures
        match spec_list_tail(s, i) {
            Some((v, e)) => i < e <= s.len() && wf_nodes(v, s),
            None => true,
        },
    decreases s.len() - i, 1int,
{
    lemma_skip_ws(s, i);
    let k = skip_ws(s, i);
    if 0 <= k < s.len() && s[k] == ']' {
    } else if 0 <= k < s.len() && s[k] == ',' {
        lemma_skip_ws(s, k + 1);
        let m = skip_ws(s, k + 1);
        if i < m <= s.len() {
            lemma_value_props(s, m);
            match spec_value(s, m) {
                Some((n, e)) => {
                    assert(step(s, m, e) == e);
                    lemma_list_tail_props(s, e);
                    match spec_list_tail(s, e) {
                        Some((rest, f)) => {
                            lemma_wf_nodes_single(n, s);
                            lemma_wf_nodes_concat(seq![n], rest, s);
                        },
                        None => {},
                    }
                },
                None => {},
            }
        }
    }
}

pub proof fn lemma_list_props(s: Seq<char>, i: int)
    requires
        0 <= i <= s.len(),
    ensures
        match spec_list(s, i) {
            Some((n, e)) => i < e <= s.len() && n.start == i && n.end == e && n.rule == Rule::List
                && wf_node(n, s),
            None => true,
        },
    decreases s.len() - i, 2int,
{
    if 0 <= i < s.len() && s[i] == '[' {
        lemma_skip_ws(s, i + 1);
        let m = skip_ws(s, i + 1);
        if i < m <= s.len() {
            lemma_value_props(s, m);
            match spec_value(s, m) {
                Some((n, e)) => {
                    assert(step(s, m, e) == e);
                    lemma_list_tail_props(s, e);
                    match spec_list_tail(s, e) {
                        Some((rest, f)) => {
                            lemma_wf_nodes_single(n, s);
                            lemma_wf_nodes_concat(seq![n], rest, s);
                        },
                        None => {},
                    }
                },
                None => {},
            }
        }
    }
}

pub proof fn lemma_value_props(s: Seq<char>, i: int)
    requires
        0 <= i <= s.len(),
    ensures
        match spec_value(s, i) {
            Some((n, e)) => i < e <= s.len() && n.start == i && n.end == e && n.rule == Rule::Value
                && wf_node(n, s),
            None => true,
        },
    decreases s.len() - i, 3int,
{
    lemma_range_expr_props(s, i);
    lemma_list_props(s, i);
    lemma_number_end(s, i);
    lemma_float_end(s, i);
    lemma_string_props(s, i);
    match spec_value(s, i) {
        Some((n, e)) => {
            assert(n.children.len() == 1);
            assert(n.children[0] == n.children.index(0));
            assert(wf_node(n.children[0], s));
        },
        None => {},
    }
}

pub proof fn lemma_keyword_props(s: Seq<char>, i: int)
    requires
        0 <= i <= s.len(),
    ensures
        match spec_keyword(s, i) {
            Some((n, e)) => i < e <= s.len() && n.start == i && n.end == e && n.rule
                == Rule::Keyword && wf_node(n, s),
            None => true,
        },
    decreases s.len() - i, 4int,
{
    lemma_bareword_end(s, i);
    let e = bareword_end(s, i);
    if 0 <= i < s.len() && s[i] != '-' && e > i && e < s.len() && s[e] == ':' {
        lemma_skip_ws(s, e + 1);
        let m = skip_ws(s, e + 1);
        if i < m <= s.len() {
            lemma_value_props(s, m);
        }
    }
}

pub proof fn lemma_element_props(s: Seq<char>, i: int)
    requires
        0 <= i <= s.len(),
    ensures
        match spec_element(s, i) {
            Some((n, e)) => i < e <= s.len() && n.start == i && n.end == e && wf_node(n, s) && (
            n.rule == Rule::Keyword || n.rule == Rule::Flag || n.rule == Rule::Value),
            None => true,
        },
    decreases s.len() - i, 5int,
{
    lemma_keyword_props(s, i);
    lemma_flag_props(s, i);
    lemma_value_props(s, i);
}

pub proof fn lemma_items_props(s: Seq<char>, i: int)
    requires
        0 <= i <= s.len(),
    ensures
        match spec_items(s, i) {
            Ok(v) => wf_nodes(v, s) && items_rules_ok(v),
            Err(x) => true,
        },
    decreases s.len() - i, 6int,
{
    lemma_skip_ws(s, i);
    let j = skip_ws(s, i);
    if j < s.len() && j >= i {
        lemma_element_props(s, j);
        match spec_element(s, j) {
            Some((n, e)) => {
                if !(e < s.len() && !ws_char(s[e])) {
                    assert(step(s, j, e) == e);
                    lemma_items_props(s, e);
                    match spec_items(s, e) {
                        Ok(rest) => {
                            lemma_wf_nodes_single(n, s);
                            lemma_wf_nodes_concat(seq![n], rest, s);
                            assert forall|k: int|
                                0 <= k < (seq![n] + rest).len() implies ((seq![n] + rest)[k].rule
                                == Rule::Keyword || (seq![n] + rest)[k].rule == Rule::Flag || (seq![
                                n,
                            ] + rest)[k].rule == Rule::Value || (seq![n] + rest)[k].rule
                                == Rule::EOI) by {
                                if k > 0 {
                                    assert((seq![n] + rest)[k] == rest[k - 1]);
                                }
                            }
                        },
                        Err(_) => {},
                    }
                }
            },
            None => {},
        }
    }
}

/// Well-formedness of the tree the grammar yields for a whole line.
pub proof fn lemma_marin_props(s: Seq<char>)
    ensures
        match spec_marin(s) {
            Ok(root) => root.rule == Rule::Marin && root.start == 0 && root.end == s.len()
                && wf_node(root, s),
            Err(x) => true,
        },
{
    lemma_items_props(s, 0);
    match spec_items(s, 0) {
        Ok(children) => {
            let eoi = leaf(Rule::EOI, s.len() as int, s.len() as int);
            lemma_wf_nodes_single(eoi, s);
            lemma_wf_nodes_concat(children, seq![eoi], s);
            let all = children + seq![eoi];
            assert forall|k: int|
                0 <= k < all.len() implies (all[k].rule == Rule::Keyword || all[k].rule
                == Rule::Flag || all[k].rule == Rule::Value || all[k].rule == Rule::EOI) by {
                if k < children.len() {
                    assert(all[k] == children[k]);
                } else {
                    assert(all[k] == eoi);
                }
            }
        },
        Err(_) => {},
    }
}

/// The whole line: its elements followed by the end-of-input marker, under a
/// root node spanning the input.
pub open spec fn spec_marin(s: Seq<char>) -> Result<NodeModel, FailSpec> {
    match spec_items(s, 0) {
        Ok(children) => Ok(
            NodeModel {
                rule: Rule::Marin,
                start: 0,
                end: s.len() as int,
                children: children + seq![leaf(Rule::EOI, s.len() as int, s.len() as int)],
            },
        ),
        Err(x) => Err(x),
    }
}


// ---------------------------------------------------------------------------
// Conversion of a failure into the error handed to callers.
// ---------------------------------------------------------------------------

/// The error value a grammar failure turns into.
pub open spec fn fail_error(f: FailSpec) -> ParseErrorModel {
    match f {
        FailSpec::NoElement(p) => ParseErrorModel {
            pos: p,
            expected: seq![Rule::Keyword, Rule::Flag, Rule::Value],
        },
        FailSpec::NoSeparator(p) => ParseErrorModel { pos: p, expected: seq![Rule::EOI] },
    }
}

// ---------------------------------------------------------------------------
// The executable recognizer. Each function returns exactly what its spec
// counterpart describes.
// ---------------------------------------------------------------------------

fn is_ws(c: char) -> (r: bool)
    ensures
        r == ws_char(c),
{
    c == ' ' || c == '\t' || c == '\n' || c == '\r'
}

fn is_reserved(c: char) -> (r: bool)
    ensures
        r == reserved_char(c),
{
    c == '"' || c == '[' || c == ']' || c == ','
}

fn is_digit(c: char) -> (r: bool)
    ensures
        r == digit_char(c),
{
    let u = c as u32;
    48 <= u && u <= 57
}

fn scan_skip_ws(cs: &Vec<char>, i: usize) -> (r: usize)
    requires
        i <= cs@.len(),
    ensures
        r as int == skip_ws(cs@, i as int),
        i <= r <= cs@.len(),
{
    let mut j = i;
    while j < cs.len() && is_ws(cs[j])
        invariant
            i <= j <= cs@.len(),
            skip_ws(cs@, i as int) == skip_ws(cs@, j as int),
        decreases cs@.len() - j,
    {
        j = j + 1;
    }
    j
}

fn scan_bareword(cs: &Vec<char>, i: usize) -> (r: usize)
    requires
        i <= cs@.len(),
    ensures
        r as int == bareword_end(cs@, i as int),
        i <= r <= cs@.len(),
{
    let mut j = i;
    loop
        invariant
            i <= j <= cs@.len(),
            bareword_end(cs@, i as int) == bareword_end(cs@, j as int),
        decreases cs@.len() - j,
    {
        if j >= cs.len() {
            return j;
        }
        let c = cs[j];
        if is_ws(c) || is_reserved(c) {
            return j;
        }
        if c == ':' && (j + 1 >= cs.len() || is_ws(cs[j + 1]) || is_reserved(cs[j + 1])) {
            return j;
        }
        j = j + 1;
    }
}

fn scan_flag_inner(cs: &Vec<char>, i: usize) -> (r: usize)
    requires
        i <= cs@.len(),
    ensures
        r as int == flag_inner_end(cs@, i as int),
        i <= r <= cs@.len(),
{
    let mut j = i;
    while j < cs.len() && !(is_ws(cs[j]) || is_reserved(cs[j]) || cs[j] == ':')
        invariant
            i <= j <= cs@.len(),
            flag_inner_end(cs@, i as int) == flag_inner_end(cs@, j as int),
        decreases cs@.len() - j,
    {
        j = j + 1;
    }
    j
}

fn scan_digits(cs: &Vec<char>, i: usize) -> (r: usize)
    requires
        i <= cs@.len(),
    ensures
        r as int == digits_end(cs@, i as int),
        i <= r <= cs@.len(),
{
    let mut j = i;
    while j < cs.len() && is_digit(cs[j])
        invariant
            i <= j <= cs@.len(),
            digits_end(cs@, i as int) == digits_end(cs@, j as int),
        decreases cs@.len() - j,
    {
        j = j + 1;
    }
    j
}

fn parse_number(cs: &Vec<char>, i: usize) -> (r: Option<usize>)
    requires
        i <= cs@.len(),
    ensures
        match r {
            Some(e) => number_end(cs@, i as int) == Some(e as int) && i < e <= cs@.len(),
            None => number_end(cs@, i as int) is None,
        },
{
    if i < cs.len() && cs[i] == '-' {
        let e = scan_digits(cs, i + 1);
        if e > i + 1 {
            Some(e)
        } else {
            None
        }
    } else {
        let e = scan_digits(cs, i);
        if e > i {
            Some(e)
        } else {
            None
        }
    }
}

fn at_boundary(cs: &Vec<char>, i: usize) -> (r: bool)
    requires
        i <= cs@.len(),
    ensures
        r == boundary(cs@, i as int),
{
    i >= cs.len() || is_ws(cs[i]) || cs[i] == ',' || cs[i] == ']'
}

fn parse_exp(cs: &Vec<char>, i: usize) -> (r: Option<usize>)
    requires
        i <= cs@.len(),
    ensures
        match r {
            Some(e) => exp_end(cs@, i as int) == Some(e as int) && i < e <= cs@.len(),
            None => exp_end(cs@, i as int) is None,
        },
{
    if i < cs.len() && (cs[i] == 'e' || cs[i] == 'E') {
        let j = if i + 1 < cs.len() && (cs[i + 1] == '+' || cs[i + 1] == '-') {
            i + 2
        } else {
            i + 1
        };
        let e = scan_digits(cs, j);
        if e > j {
            Some(e)
        } else {
            None
        }
    } else {
        None
    }
}

fn parse_float_lit(cs: &Vec<char>, i: usize) -> (r: Option<usize>)
    requires
        i <= cs@.len(),
    ensures
        match r {
            Some(e) => float_lit_end(cs@, i as int) == Some(e as int) && i < e <= cs@.len(),
            None => float_lit_end(cs@, i as int) is None,
        },
{
    let j = if i < cs.len() && cs[i] == '-' {
        i + 1
    } else {
        i
    };
    let d = scan_digits(cs, j);
    if d <= j {
        None
    } else if d < cs.len() && cs[d] == '.' {
        let d2 = scan_digits(cs, d + 1);
        if d2 > d + 1 {
            match parse_exp(cs, d2) {
                Some(e) => Some(e),
                None => Some(d2),
            }
        } else {
            None
        }
    } else {
        parse_exp(cs, d)
    }
}

fn ci_eq(c: char, lower: char) -> (r: bool)
    ensures
        r == eq_ci(c, lower),
{
    c == lower || c as u32 + 32 == lower as u32
}

fn parse_bool_tok(cs: &Vec<char>, i: usize) -> (r: Option<usize>)
    requires
        i <= cs@.len(),
    ensures
        match r {
            Some(e) => bool_tok_end(cs@, i as int) == Some(e as int) && i < e <= cs@.len(),
            None => bool_tok_end(cs@, i as int) is None,
        },
{
    if cs.len() - i >= 4 && ci_eq(cs[i], 't') && ci_eq(cs[i + 1], 'r') && ci_eq(cs[i + 2], 'u')
        && ci_eq(cs[i + 3], 'e') && at_boundary(cs, i + 4) {
        Some(i + 4)
    } else if cs.len() - i >= 5 && ci_eq(cs[i], 'f') && ci_eq(cs[i + 1], 'a') && ci_eq(
        cs[i + 2],
        'l',
    ) && ci_eq(cs[i + 3], 's') && ci_eq(cs[i + 4], 'e') && at_boundary(cs, i + 5) {
        Some(i + 5)
    } else {
        None
    }
}

fn scan_inner(cs: &Vec<char>, i: usize) -> (r: Option<usize>)
    requires
        i <= cs@.len(),
    ensures
        match r {
            Some(k) => inner_end(cs@, i as int) == Some(k as int) && i <= k < cs@.len(),
            None => inner_end(cs@, i as int) is None,
        },
{
    let mut j = i;
    loop
        invariant
            i <= j <= cs@.len(),
            inner_end(cs@, i as int) == inner_end(cs@, j as int),
        decreases cs@.len() - j,
    {
        if j >= cs.len() {
            return None;
        }
        if cs[j] == '"' {
            proof {
                lemma_inner_end(cs@, i as int);
            }
            return Some(j);
        }
        if cs[j] == '\\' && j + 1 < cs.len() && cs[j + 1] == '"' {
            j = j + 2;
        } else {
            j = j + 1;
        }
    }
}

/// A leaf node covering the given span.
fn leaf_node(r: Rule, a: usize, b: usize) -> (n: Node)
    ensures
        n@ == leaf(r, a as int, b as int),
{
    let n = Node { rule: r, start: a, end: b, children: Vec::new() };
    proof {
        assert(n@.children =~= Seq::<NodeModel>::empty());
    }
    n
}

/// A node with one child.
fn wrap1(r: Rule, a: usize, b: usize, child: Node) -> (n: Node)
    ensures
        n@ == (NodeModel {
            rule: r,
            start: a as int,
            end: b as int,
            children: seq![child@],
        }),
{
    let ghost cm = child@;
    let mut v: Vec<Node> = Vec::new();
    v.push(child);
    proof {
        lemma_nodes_model_push(Seq::<Node>::empty(), v@.last());
        assert(v@.drop_last() =~= Seq::<Node>::empty());
        assert(nodes_model(v@) =~= seq![cm]);
    }
    Node { rule: r, start: a, end: b, children: v }
}

/// A node with two children.
fn wrap2(r: Rule, a: usize, b: usize, c1: Node, c2: Node) -> (n: Node)
    ensures
        n@ == (NodeModel {
            rule: r,
            start: a as int,
            end: b as int,
            children: seq![c1@, c2@],
        }),
{
    let ghost m1 = c1@;
    let ghost m2 = c2@;
    let mut v: Vec<Node> = Vec::new();
    v.push(c1);
    v.push(c2);
    proof {
        lemma_nodes_model(v@);
        assert(nodes_model(v@) =~= seq![m1, m2]);
    }
    Node { rule: r, start: a, end: b, children: v }
}

/// Prepends a node to a parsed tail.
fn cons_nodes(n: Node, rest: Vec<Node>) -> (v: Vec<Node>)
    ensures
        nodes_model(v@) == seq![n@] + nodes_model(rest@),
{
    let ghost nodev: Node = n;
    let ghost restv = rest@;
    let mut v: Vec<Node> = Vec::new();
    v.push(n);
    let mut rest = rest;
    v.append(&mut rest);
    proof {
        assert(v@ =~= seq![nodev] + restv);
        lemma_nodes_model_concat(seq![nodev], restv);
        assert(nodes_model(seq![nodev]) =~= seq![node_model(nodev)]) by {
            assert(seq![nodev].drop_last() =~= Seq::<Node>::empty());
            assert(nodes_model(Seq::<Node>::empty()) =~= Seq::<NodeModel>::empty());
            assert(seq![nodev].last() == nodev);
        }
        assert(nodes_model(v@) =~= seq![node_model(nodev)] + nodes_model(restv));
    }
    v
}

fn parse_string_node(cs: &Vec<char>, i: usize) -> (r: Option<(Node, usize)>)
    requires
        i <= cs@.len(),
    ensures
        match r {
            Some((n, e)) => spec_string(cs@, i as int) == Some((n@, e as int)) && i < e
                <= cs@.len(),
            None => spec_string(cs@, i as int) is None,
        },
{
    if i < cs.len() && cs[i] == '"' {
        match scan_inner(cs, i + 1) {
            Some(k) => {
                let inner = leaf_node(Rule::Inner, i + 1, k);
                let n = wrap1(Rule::String, i, k + 1, inner);
                Some((n, k + 1))
            },
            None => None,
        }
    } else {
        let e = scan_bareword(cs, i);
        if i < cs.len() && cs[i] != '-' && e > i {
            let bw = leaf_node(Rule::Bareword, i, e);
            let n = wrap1(Rule::String, i, e, bw);
            Some((n, e))
        } else {
            None
        }
    }
}

fn parse_range_expr(cs: &Vec<char>, i: usize) -> (r: Option<(Node, usize)>)
    requires
        i <= cs@.len(),
    ensures
        match r {
            Some((n, e)) => spec_range_expr(cs@, i as int) == Some((n@, e as int)) && i < e
                <= cs@.len(),
            None => spec_range_expr(cs@, i as int) is None,
        },
{
    let two_sided = match parse_number(cs, i) {
        Some(e1) => {
            if cs.len() - e1 >= 2 && cs[e1] == '.' && cs[e1 + 1] == '.' {
                match parse_number(cs, e1 + 2) {
                    Some(e2) => {
                        if at_boundary(cs, e2) {
                            let n1 = leaf_node(Rule::Number, i, e1);
                            let n2 = leaf_node(Rule::Number, e1 + 2, e2);
                            let rg = wrap2(Rule::Range, i, e2, n1, n2);
                            Some((rg, e2))
                        } else {
                            None
                        }
                    },
                    None => None,
                }
            } else {
                None
            }
        },
        None => None,
    };
    match two_sided {
        Some((rg, e2)) => {
            let n = wrap1(Rule::RangeExpr, i, e2, rg);
            Some((n, e2))
        },
        None => {
            if cs.len() - i >= 2 && cs[i] == '.' && cs[i + 1] == '.' {
                match parse_number(cs, i + 2) {
                    Some(e) => {
                        if at_boundary(cs, e) {
                            let num = leaf_node(Rule::Number, i + 2, e);
                            let rt = wrap1(Rule::RangeTo, i, e, num);
                            let n = wrap1(Rule::RangeExpr, i, e, rt);
                            Some((n, e))
                        } else {
                            None
                        }
                    },
                    None => None,
                }
            } else {
                None
            }
        },
    }
}

fn parse_flag(cs: &Vec<char>, i: usize) -> (r: Option<(Node, usize)>)
    requires
        i <= cs@.len(),
    ensures
        match r {
            Some((n, e)) => spec_flag(cs@, i as int) == Some((n@, e as int)) && i < e <= cs@.len(),
            None => spec_flag(cs@, i as int) is None,
        },
{
    if cs.len() - i >= 2 && cs[i] == '-' && !is_digit(cs[i + 1]) {
        let e = scan_flag_inner(cs, i + 1);
        if e > i + 1 && (e >= cs.len() || cs[e] != ':') {
            let inner = leaf_node(Rule::FlagInner, i + 1, e);
            let n = wrap1(Rule::Flag, i, e, inner);
            Some((n, e))
        } else {
            None
        }
    } else {
        None
    }
}

fn parse_list_tail(cs: &Vec<char>, i: usize) -> (r: Option<(Vec<Node>, usize)>)
    requires
        i <= cs@.len(),
    ensures
        match r {
            Some((v, e)) => spec_list_tail(cs@, i as int) == Some((nodes_model(v@), e as int)) && i
                < e <= cs@.len(),
            None => spec_list_tail(cs@, i as int) is None,
        },
    decreases cs@.len() - i, 1int,
{
    let k = scan_skip_ws(cs, i);
    if k < cs.len() && cs[k] == ']' {
        let v: Vec<Node> = Vec::new();
        proof {
            assert(nodes_model(v@) =~= Seq::<NodeModel>::empty());
        }
        Some((v, k + 1))
    } else if k < cs.len() && cs[k] == ',' {
        let m = scan_skip_ws(cs, k + 1);
        match parse_value(cs, m) {
            Some((n, e)) => {
                proof {
                    lemma_value_props(cs@, m as int);
                    assert(step(cs@, m as int, e as int) == e as int);
                }
                match parse_list_tail(cs, e) {
                    Some((rest, f)) => {
                        let v = cons_nodes(n, rest);
                        Some((v, f))
                    },
                    None => None,
                }
            },
            None => None,
        }
    } else {
        None
    }
}

fn parse_list(cs: &Vec<char>, i: usize) -> (r: Option<(Node, usize)>)
    requires
        i <= cs@.len(),
    ensures
        match r {
            Some((n, e)) => spec_list(cs@, i as int) == Some((n@, e as int)) && i < e <= cs@.len(),
            None => spec_list(cs@, i as int) is None,
        },
    decreases cs@.len() - i, 2int,
{
    if i < cs.len() && cs[i] == '[' {
        let m = scan_skip_ws(cs, i + 1);
        match parse_value(cs, m) {
            Some((n, e)) => {
                proof {
                    lemma_value_props(cs@, m as int);
                    assert(step(cs@, m as int, e as int) == e as int);
                }
                match parse_list_tail(cs, e) {
                    Some((rest, f)) => {
                        let v = cons_nodes(n, rest);
                        let node = Node { rule: Rule::List, start: i, end: f, children: v };
                        Some((node, f))
                    },
                    None => None,
                }
            },
            None => None,
        }
    } else {
        None
    }
}

fn parse_value(cs: &Vec<char>, i: usize) -> (r: Option<(Node, usize)>)
    requires
        i <= cs@.len(),
    ensures
        match r {
            Some((n, e)) => spec_value(cs@, i as int) == Some((n@, e as int)) && i < e <= cs@.len(),
            None => spec_value(cs@, i as int) is None,
        },
    decreases cs@.len() - i, 3int,
{
    match parse_range_expr(cs, i) {
        Some((n, e)) => Some((wrap1(Rule::Value, i, e, n), e)),
        None => match parse_list(cs, i) {
            Some((n, e)) => Some((wrap1(Rule::Value, i, e, n), e)),
            None => match parse_bool_tok(cs, i) {
                Some(e) => Some((wrap1(Rule::Value, i, e, leaf_node(Rule::Bool, i, e)), e)),
                None => {
                    let fl = match parse_float_lit(cs, i) {
                        Some(e) => if at_boundary(cs, e) {
                            Some(e)
                        } else {
                            None
                        },
                        None => None,
                    };
                    match fl {
                        Some(e) => Some((wrap1(Rule::Value, i, e, leaf_node(Rule::Float, i, e)), e)),
                        None => {
                            let it = match parse_number(cs, i) {
                                Some(e) => if at_boundary(cs, e) {
                                    Some(e)
                                } else {
                                    None
                                },
                                None => None,
                            };
                            match it {
                                Some(e) => Some(
                                    (wrap1(Rule::Value, i, e, leaf_node(Rule::Int, i, e)), e),
                                ),
                                None => match parse_string_node(cs, i) {
                                    Some((n, e)) => Some((wrap1(Rule::Value, i, e, n), e)),
                                    None => None,
                                },
                            }
                        },
                    }
                },
            },
        },
    }
}

fn parse_keyword(cs: &Vec<char>, i: usize) -> (r: Option<(Node, usize)>)
    requires
        i <= cs@.len(),
    ensures
        match r {
            Some((n, e)) => spec_keyword(cs@, i as int) == Some((n@, e as int)) && i < e
                <= cs@.len(),
            None => spec_keyword(cs@, i as int) is None,
        },
    decreases cs@.len() - i, 4int,
{
    let e = scan_bareword(cs, i);
    if i < cs.len() && cs[i] != '-' && e > i && e < cs.len() && cs[e] == ':' {
        let m = scan_skip_ws(cs, e + 1);
        match parse_value(cs, m) {
            Some((n, ve)) => {
                let bw = leaf_node(Rule::Bareword, i, e);
                let id = wrap1(Rule::String, i, e, bw);
                let kw = wrap2(Rule::Keyword, i, ve, id, n);
                Some((kw, ve))
            },
            None => None,
        }
    } else {
        None
    }
}

fn parse_element(cs: &Vec<char>, i: usize) -> (r: Option<(Node, usize)>)
    requires
        i <= cs@.len(),
    ensures
        match r {
            Some((n, e)) => spec_element(cs@, i as int) == Some((n@, e as int)) && i < e
                <= cs@.len(),
            None => spec_element(cs@, i as int) is None,
        },
    decreases cs@.len() - i, 5int,
{
    match parse_keyword(cs, i) {
        Some(r) => Some(r),
        None => match parse_flag(cs, i) {
            Some(r) => Some(r),
            None => parse_value(cs, i),
        },
    }
}

fn parse_items(cs: &Vec<char>, i: usize) -> (r: Result<Vec<Node>, ParseError>)
    requires
        i <= cs@.len(),
    ensures
        match r {
            Ok(v) => spec_items(cs@, i as int) == Ok::<Seq<NodeModel>, FailSpec>(nodes_model(v@)),
            Err(pe) => spec_items(cs@, i as int) matches Err(f) && pe@ == fail_error(f),
        },
    decreases cs@.len() - i, 6int,
{
    let j = scan_skip_ws(cs, i);
    if j >= cs.len() {
        let v: Vec<Node> = Vec::new();
        proof {
            assert(nodes_model(v@) =~= Seq::<NodeModel>::empty());
        }
        Ok(v)
    } else {
        match parse_element(cs, j) {
            None => {
                let pe = ParseError {
                    pos: j,
                    expected: vec![Rule::Keyword, Rule::Flag, Rule::Value],
                };
                proof {
                    assert(pe@.expected =~= seq![Rule::Keyword, Rule::Flag, Rule::Value]);
                }
                Err(pe)
            },
            Some((n, e)) => {
                if e < cs.len() && !is_ws(cs[e]) {
                    let pe = ParseError { pos: e, expected: vec![Rule::EOI] };
                    proof {
                        assert(pe@.expected =~= seq![Rule::EOI]);
                    }
                    Err(pe)
                } else {
                    proof {
                        lemma_element_props(cs@, j as int);
                        assert(step(cs@, j as int, e as int) == e as int);
                    }
                    match parse_items(cs, e) {
                        Ok(rest) => Ok(cons_nodes(n, rest)),
                        Err(x) => Err(x),
                    }
                }
            },
        }
    }
}

/// The grammar's entry point.
pub struct MarinParser;

impl MarinParser {
    /// Parses a whole line into its parse tree: the root node's children are
    /// the keywords, flags and values of the line, in order, followed by the
    /// end-of-input marker. On failure, the position at which no rule
    /// matched and the rules expected there.
    pub fn parse(input: &str) -> (r: Result<Node, Error>)
        ensures
            match r {
                Ok(n) => spec_marin(input@) == Ok::<NodeModel, FailSpec>(n@),
                Err(e) => spec_marin(input@) matches Err(f) && e@ == crate::error::ErrorModel::Parser(
                    fail_error(f),
                ),
            },
    {
        let cs = crate::str_chars(input);
        match parse_items(&cs, 0) {
            Ok(children) => {
                let ghost childm = nodes_model(children@);
                let n = cs.len();
                let mut children = children;
                let eoi = leaf_node(Rule::EOI, n, n);
                let ghost eoiv: Node = eoi;
                let ghost oldv = children@;
                children.push(eoi);
                proof {
                    lemma_nodes_model_push(oldv, eoiv);
                    let ghost eoim = leaf(Rule::EOI, cs@.len() as int, cs@.len() as int);
                    assert(nodes_model(children@) =~= childm + seq![eoim]);
                }
                Ok(Node { rule: Rule::Marin, start: 0, end: n, children })
            },
            Err(pe) => Err(Error::Parser(pe)),
        }
    }
}

} // verus!

