//! The value model: the typed values a command line can carry, and the
//! mathematical reading of a parse-tree node as such a value.

use vstd::prelude::*;

use crate::parser::{digit_char, NodeModel, Rule};

verus! {

/// A parsed value.
///
/// A float keeps the matched literal text: the grammar guarantees it is a
/// decimal literal with a point or an exponent, and callers that want the
/// numeric reading convert the text outside the verified core, since the
/// core states nothing about floating-point arithmetic.
///
/// A range keeps its bounds exactly as given, start first; `start <= end` is
/// not enforced.
#[derive(Debug, PartialEq)]
pub enum MarinValue {
    String(String),
    Bool(bool),
    Int(i64),
    Float(String),
    List(Vec<MarinValue>),
    Range(i64, i64),
}

/// Mathematical model of a value.
pub enum ValueModel {
    String(Seq<char>),
    Bool(bool),
    Int(int),
    Float(Seq<char>),
    List(Seq<ValueModel>),
    Range(int, int),
}

pub open spec fn value_model(v: MarinValue) -> ValueModel
    decreases v, 1int,
{
    match v {
        MarinValue::String(s) => ValueModel::String(s@),
        MarinValue::Bool(b) => ValueModel::Bool(b),
        MarinValue::Int(n) => ValueModel::Int(n as int),
        MarinValue::Float(t) => ValueModel::Float(t@),
        MarinValue::List(items) => ValueModel::List(values_model(items@)),
        MarinValue::Range(a, b) => ValueModel::Range(a as int, b as int),
    }
}

pub open spec fn values_model(v: Seq<MarinValue>) -> Seq<ValueModel>
    decreases v, 0int,
{
    if v.len() == 0 {
        Seq::empty()
    } else {
        values_model(v.drop_last()).push(value_model(v.last()))
    }
}

impl View for MarinValue {
    type V = ValueModel;

    open spec fn view(&self) -> ValueModel {
        value_model(*self)
    }
}

impl From<bool> for MarinValue {
    fn from(b: bool) -> (r: MarinValue)
        ensures
            r == MarinValue::Bool(b),
    {
        MarinValue::Bool(b)
    }
}

impl vstd::std_specs::convert::FromSpecImpl<bool> for MarinValue {
    open spec fn obeys_from_spec() -> bool {
        true
    }

    open spec fn from_spec(b: bool) -> MarinValue {
        MarinValue::Bool(b)
    }
}

impl From<i64> for MarinValue {
    fn from(n: i64) -> (r: MarinValue)
        ensures
            r == MarinValue::Int(n),
    {
        MarinValue::Int(n)
    }
}

impl vstd::std_specs::convert::FromSpecImpl<i64> for MarinValue {
    open spec fn obeys_from_spec() -> bool {
        true
    }

    open spec fn from_spec(n: i64) -> MarinValue {
        MarinValue::Int(n)
    }
}

impl From<String> for MarinValue {
    fn from(s: String) -> (r: MarinValue)
        ensures
            r == MarinValue::String(s),
    {
        MarinValue::String(s)
    }
}

impl vstd::std_specs::convert::FromSpecImpl<String> for MarinValue {
    open spec fn obeys_from_spec() -> bool {
        true
    }

    open spec fn from_spec(s: String) -> MarinValue {
        MarinValue::String(s)
    }
}

impl From<Vec<MarinValue>> for MarinValue {
    fn from(items: Vec<MarinValue>) -> (r: MarinValue)
        ensures
            r == MarinValue::List(items),
    {
        MarinValue::List(items)
    }
}

impl vstd::std_specs::convert::FromSpecImpl<Vec<MarinValue>> for MarinValue {
    open spec fn obeys_from_spec() -> bool {
        true
    }

    open spec fn from_spec(items: Vec<MarinValue>) -> MarinValue {
        MarinValue::List(items)
    }
}

pub proof fn lemma_values_model_push(v: Seq<MarinValue>, x: MarinValue)
    ensures
        values_model(v.push(x)) == values_model(v).push(value_model(x)),
{
    assert(v.push(x).drop_last() =~= v);
    assert(v.push(x).last() == x);
}

// ---------------------------------------------------------------------------
// The reading of literal text.
// ---------------------------------------------------------------------------

/// The numeric value of a run of decimal digits.
pub open spec fn digits_val(t: Seq<char>) -> int
    decreases t.len(),
{
    if t.len() == 0 {
        0
    } else {
        digits_val(t.drop_last()) * 10 + (t.last() as u32 - 48)
    }
}

/// The value of an integer literal span `[a, b)` of the input: an optional
/// minus sign, then digits.
pub open spec fn lit_int_val(s: Seq<char>, a: int, b: int) -> int {
    if s[a] == '-' {
        -digits_val(s.subrange(a + 1, b))
    } else {
        digits_val(s.subrange(a, b))
    }
}

/// Whether a value fits in 64 signed bits.
pub open spec fn fits_i64(v: int) -> bool {
    i64::MIN <= v <= i64::MAX
}

/// The body of a quoted string with the one escape `\"` resolved to `"`; no
/// other sequence is transformed.
pub open spec fn unescape(t: Seq<char>) -> Seq<char>
    decreases t.len(),
{
    if t.len() == 0 {
        Seq::empty()
    } else if t[0] == '\\' && t.len() >= 2 && t[1] == '"' {
        seq!['"'] + unescape(t.skip(2))
    } else {
        seq![t[0]] + unescape(t.skip(1))
    }
}

pub proof fn lemma_digits_val_nonneg(s: Seq<char>, a: int, b: int)
    requires
        0 <= a <= b <= s.len(),
        crate::parser::all_digits(s, a, b),
    ensures
        digits_val(s.subrange(a, b)) >= 0,
    decreases b - a,
{
    if b > a {
        lemma_digits_val_snoc(s, a, b - 1);
        lemma_digits_val_nonneg(s, a, b - 1);
        assert(digit_char(s[b - 1]));
    }
}

/// Appending one digit multiplies the value by ten and adds the digit.
pub proof fn lemma_digits_val_snoc(s: Seq<char>, a: int, j: int)
    requires
        0 <= a <= j < s.len(),
    ensures
        digits_val(s.subrange(a, j + 1)) == digits_val(s.subrange(a, j)) * 10 + (s[j] as u32 - 48),
{
    assert(s.subrange(a, j + 1).drop_last() =~= s.subrange(a, j));
    assert(s.subrange(a, j + 1).last() == s[j]);
}

/// A digit run is worth at least any of its prefixes.
pub proof fn lemma_digits_val_mono(s: Seq<char>, a: int, j: int, b: int)
    requires
        0 <= a <= j <= b <= s.len(),
        crate::parser::all_digits(s, a, b),
    ensures
        digits_val(s.subrange(a, b)) >= digits_val(s.subrange(a, j)),
    decreases b - j,
{
    if b > j {
        lemma_digits_val_mono(s, a, j, b - 1);
        lemma_digits_val_snoc(s, a, b - 1);
        lemma_digits_val_nonneg(s, a, b - 1);
        assert(digit_char(s[b - 1]));
    }
}

/// The value of a boolean literal: the token is `true` or `false`,
/// case-insensitively, so its first letter decides.
pub open spec fn lit_bool_val(s: Seq<char>, a: int) -> bool {
    s[a] == 't' || s[a] == 'T'
}

// ---------------------------------------------------------------------------
// The reading of a parse-tree node as a value. An `Err` carries the start
// position of an integer literal whose value does not fit in 64 signed bits.
// ---------------------------------------------------------------------------

/// Reads one node. Dispatches on the rule kind exactly as the grammar
/// shapes well-formed trees; on any other shape the result is unspecified
/// junk that the executable interpreter never produces.
pub open spec fn node_value(n: NodeModel, s: Seq<char>) -> Result<ValueModel, int>
    decreases n, 1int,
{
    match n.rule {
        Rule::Value => if n.children.len() == 1 {
            node_value(n.children[0], s)
        } else {
            Ok(ValueModel::Bool(false))
        },
        Rule::RangeExpr => {
            let c = n.children[0];
            if c.rule == Rule::Range {
                let n1 = c.children[0];
                let n2 = c.children[1];
                let v1 = lit_int_val(s, n1.start, n1.end);
                let v2 = lit_int_val(s, n2.start, n2.end);
                if !fits_i64(v1) {
                    Err(n1.start)
                } else if !fits_i64(v2) {
                    Err(n2.start)
                } else {
                    Ok(ValueModel::Range(v1, v2))
                }
            } else {
                let n1 = c.children[0];
                let v1 = lit_int_val(s, n1.start, n1.end);
                if !fits_i64(v1) {
                    Err(n1.start)
                } else {
                    Ok(ValueModel::Range(0, v1))
                }
            }
        },
        Rule::Int => {
            let v = lit_int_val(s, n.start, n.end);
            if !fits_i64(v) {
                Err(n.start)
            } else {
                Ok(ValueModel::Int(v))
            }
        },
        Rule::Number => {
            let v = lit_int_val(s, n.start, n.end);
            if !fits_i64(v) {
                Err(n.start)
            } else {
                Ok(ValueModel::Int(v))
            }
        },
        Rule::Float => Ok(ValueModel::Float(s.subrange(n.start, n.end))),
        Rule::Bool => Ok(ValueModel::Bool(lit_bool_val(s, n.start))),
        Rule::String => {
            let c = n.children[0];
            if c.rule == Rule::Inner {
                Ok(ValueModel::String(unescape(s.subrange(c.start, c.end))))
            } else {
                Ok(ValueModel::String(s.subrange(c.start, c.end)))
            }
        },
        Rule::List => match list_values(n.children, s) {
            Ok(items) => Ok(ValueModel::List(items)),
            Err(p) => Err(p),
        },
        _ => Ok(ValueModel::Bool(false)),
    }
}

/// Reads the children of a list in order; the first failure wins.
pub open spec fn list_values(cs: Seq<NodeModel>, s: Seq<char>) -> Result<Seq<ValueModel>, int>
    decreases cs, 0int,
{
    if cs.len() == 0 {
        Ok(Seq::empty())
    } else {
        match node_value(cs[0], s) {
            Err(p) => Err(p),
            Ok(v) => match list_values(cs.drop_first(), s) {
                Ok(rest) => Ok(seq![v] + rest),
                Err(p) => Err(p),
            },
        }
    }
}


} // verus!
