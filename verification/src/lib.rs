//! Parser for shell-style command lines: ordered positional values and named
//! keyword/flag values, with integers, floats, booleans, quoted and bare
//! strings, integer ranges and lists.

use vstd::prelude::*;
use vstd::string::StrSliceExecFns;
use vstd::string::StringExecFns;

pub mod error;
pub mod marin_value;
pub mod parser;

pub use crate::error::Error;
use crate::error::ErrorModel;
use crate::marin_value::{
    fits_i64, lit_int_val, node_value, unescape, value_model, values_model, MarinValue, ValueModel,
};
use crate::marin_value::{
    lemma_digits_val_mono, lemma_digits_val_snoc, lemma_values_model_push, list_values,
};
use crate::parser::{
    digit_char, fail_error, lemma_marin_props, lemma_nodes_model, lemma_wf_nodes_index, node_model,
    number_wf, spec_marin, wf_node, MarinParser, Node, NodeModel, Rule,
};

verus! {

/// Characters of a string slice, as a vector, so the parser can index them.
pub fn str_chars(s: &str) -> (r: Vec<char>)
    ensures
        r@ == s@,
{
    let n = s.unicode_len();
    let mut r: Vec<char> = Vec::new();
    let mut i: usize = 0;
    while i < n
        invariant
            n == s@.len(),
            i <= n,
            r@ == s@.take(i as int),
        decreases n - i,
    {
        r.push(s.get_char(i));
        proof {
            assert(r@ =~= s@.take(i + 1));
        }
        i = i + 1;
    }
    proof {
        assert(r@ =~= s@);
    }
    r
}

// ---------------------------------------------------------------------------
// The command model: ordered positional values, and a name-to-value map in
// which a later binding of a name overwrites an earlier one.
// ---------------------------------------------------------------------------

/// Mathematical model of a parsed command.
pub struct CommandModel {
    pub args: Seq<ValueModel>,
    pub kwargs: Map<Seq<char>, ValueModel>,
}

/// The map a keyword list denotes: later entries overwrite earlier ones.
pub open spec fn kwargs_map(pairs: Seq<(String, MarinValue)>) -> Map<Seq<char>, ValueModel>
    decreases pairs,
{
    if pairs.len() == 0 {
        Map::empty()
    } else {
        kwargs_map(pairs.drop_last()).insert(pairs.last().0@, value_model(pairs.last().1))
    }
}

/// The stored keyword list never holds a name twice.
pub open spec fn kwargs_wf(pairs: Seq<(String, MarinValue)>) -> bool {
    forall|k1: int, k2: int| 0 <= k1 < k2 < pairs.len() ==> pairs[k1].0@ != pairs[k2].0@
}

/// A parsed command: the positional values in order of appearance, and the
/// named values, each name bound once, a later occurrence having overwritten
/// an earlier one.
#[derive(Debug, PartialEq)]
pub struct Marin {
    pub args: Vec<MarinValue>,
    pub kwargs: Vec<(String, MarinValue)>,
}

impl View for Marin {
    type V = CommandModel;

    open spec fn view(&self) -> CommandModel {
        CommandModel { args: values_model(self.args@), kwargs: kwargs_map(self.kwargs@) }
    }
}

// ---------------------------------------------------------------------------
// The command a parse tree assembles into.
// ---------------------------------------------------------------------------

/// Folds the top-level nodes left to right into the command: a keyword or a
/// flag binds a name (a later binding overwriting an earlier one), a value
/// joins the positional list, the end-of-input marker is skipped. An `Err`
/// carries the position of the first integer literal, in reading order,
/// whose value does not fit in 64 signed bits.
pub open spec fn assemble_from(
    cs: Seq<NodeModel>,
    s: Seq<char>,
    args: Seq<ValueModel>,
    kwargs: Map<Seq<char>, ValueModel>,
) -> Result<CommandModel, int>
    decreases cs,
{
    if cs.len() == 0 {
        Ok(CommandModel { args, kwargs })
    } else {
        let h = cs[0];
        if h.rule == Rule::Keyword {
            let key = s.subrange(h.children[0].start, h.children[0].end);
            match node_value(h.children[1], s) {
                Err(p) => Err(p),
                Ok(v) => assemble_from(cs.drop_first(), s, args, kwargs.insert(key, v)),
            }
        } else if h.rule == Rule::Flag {
            let key = s.subrange(h.children[0].start, h.children[0].end);
            assemble_from(cs.drop_first(), s, args, kwargs.insert(key, ValueModel::Bool(true)))
        } else if h.rule == Rule::Value {
            match node_value(h, s) {
                Err(p) => Err(p),
                Ok(v) => assemble_from(cs.drop_first(), s, args.push(v), kwargs),
            }
        } else {
            assemble_from(cs.drop_first(), s, args, kwargs)
        }
    }
}

/// What parsing a line returns: the empty command for the empty line; else
/// the command its parse tree assembles into, or the error.
pub open spec fn parse_spec(s: Seq<char>) -> Result<CommandModel, ErrorModel> {
    if s.len() == 0 {
        Ok(CommandModel { args: Seq::empty(), kwargs: Map::empty() })
    } else {
        match spec_marin(s) {
            Err(f) => Err(ErrorModel::Parser(fail_error(f))),
            Ok(root) => match assemble_from(root.children, s, Seq::empty(), Map::empty()) {
                Err(p) => Err(ErrorModel::IntOutOfRange(p)),
                Ok(cm) => Ok(cm),
            },
        }
    }
}

// ---------------------------------------------------------------------------
// Reading literals out of the input.
// ---------------------------------------------------------------------------

/// Converts the integer literal in `[a, b)` to a 64-bit integer; `None`
/// exactly when the literal's value does not fit.
fn convert_i64(cs: &Vec<char>, a: usize, b: usize) -> (r: Option<i64>)
    requires
        number_wf(cs@, a as int, b as int),
    ensures
        match r {
            Some(v) => fits_i64(lit_int_val(cs@, a as int, b as int)) && v as int == lit_int_val(
                cs@,
                a as int,
                b as int,
            ),
            None => !fits_i64(lit_int_val(cs@, a as int, b as int)),
        },
{
    let neg = cs[a] == '-';
    let d0 = if neg {
        a + 1
    } else {
        a
    };
    let mut acc: u64 = 0;
    let mut j: usize = d0;
    proof {
        assert(cs@.subrange(d0 as int, d0 as int) =~= Seq::<char>::empty());
    }
    while j < b
        invariant
            number_wf(cs@, a as int, b as int),
            neg == (cs@[a as int] == '-'),
            d0 == if neg {
                a + 1
            } else {
                a as int
            },
            d0 <= j <= b <= cs@.len(),
            acc as int == crate::marin_value::digits_val(cs@.subrange(d0 as int, j as int)),
            acc <= 0x8000_0000_0000_0000u64,
        decreases b - j,
    {
        proof {
            assert(digit_char(cs@[j as int]));
        }
        let c = cs[j];
        let d: u64 = (c as u32 - 48) as u64;
        let mut over: bool = false;
        let mut acc2: u64 = 0;
        match acc.checked_mul(10) {
            Some(m) => match m.checked_add(d) {
                Some(x) => {
                    if x > 0x8000_0000_0000_0000u64 {
                        over = true;
                    } else {
                        acc2 = x;
                    }
                },
                None => {
                    over = true;
                },
            },
            None => {
                over = true;
            },
        }
        if over {
            proof {
                lemma_digits_val_snoc(cs@, d0 as int, j as int);
                lemma_digits_val_mono(cs@, d0 as int, j as int + 1, b as int);
                if neg {
                    assert(cs@.subrange(a as int + 1, b as int) =~= cs@.subrange(
                        d0 as int,
                        b as int,
                    ));
                } else {
                    assert(cs@.subrange(a as int, b as int) =~= cs@.subrange(d0 as int, b as int));
                }
            }
            return None;
        }
        proof {
            lemma_digits_val_snoc(cs@, d0 as int, j as int);
        }
        acc = acc2;
        j = j + 1;
    }
    proof {
        if neg {
            assert(cs@.subrange(a as int + 1, b as int) =~= cs@.subrange(d0 as int, b as int));
        } else {
            assert(cs@.subrange(a as int, b as int) =~= cs@.subrange(d0 as int, b as int));
        }
    }
    if neg {
        if acc == 0x8000_0000_0000_0000u64 {
            Some(i64::MIN)
        } else {
            Some(-(acc as i64))
        }
    } else {
        if acc >= 0x8000_0000_0000_0000u64 {
            None
        } else {
            Some(acc as i64)
        }
    }
}

/// The owned text of an input span.
fn span_string(input: &str, a: usize, b: usize) -> (r: String)
    requires
        a <= b <= input@.len(),
    ensures
        r@ == input@.subrange(a as int, b as int),
{
    input.substring_char(a, b).to_owned()
}

/// The text of a quoted-string body with each `\"` turned into `"`.
fn unescape_span(input: &str, cs: &Vec<char>, a: usize, b: usize) -> (r: String)
    requires
        cs@ == input@,
        a <= b <= input@.len(),
    ensures
        r@ == unescape(input@.subrange(a as int, b as int)),
{
    let mut out = String::new();
    let mut j = a;
    while j < b
        invariant
            cs@ == input@,
            a <= j <= b <= input@.len(),
            out@ + unescape(input@.subrange(j as int, b as int)) == unescape(
                input@.subrange(a as int, b as int),
            ),
        decreases b - j,
    {
        let ghost t = input@.subrange(j as int, b as int);
        let ghost out0 = out@;
        if cs[j] == '\\' && j + 1 < b && cs[j + 1] == '"' {
            proof {
                assert(t[0] == '\\' && t.len() >= 2 && t[1] == '"');
                assert(t.skip(2) =~= input@.subrange(j as int + 2, b as int));
            }
            out.append(input.substring_char(j + 1, j + 2));
            proof {
                assert(input@.subrange(j as int + 1, j as int + 2) =~= seq![t[1]]);
                assert(out@ + unescape(input@.subrange(j as int + 2, b as int)) =~= out0 + (seq![
                    '"',
                ] + unescape(t.skip(2))));
            }
            j = j + 2;
        } else {
            proof {
                assert(t[0] == input@[j as int]);
                assert(t.skip(1) =~= input@.subrange(j as int + 1, b as int));
            }
            out.append(input.substring_char(j, j + 1));
            proof {
                assert(input@.subrange(j as int, j as int + 1) =~= seq![t[0]]);
                assert(out@ + unescape(input@.subrange(j as int + 1, b as int)) =~= out0 + (seq![
                    t[0],
                ] + unescape(t.skip(1))));
            }
            j = j + 1;
        }
    }
    proof {
        assert(input@.subrange(b as int, b as int) =~= Seq::<char>::empty());
        assert(out@ + unescape(Seq::<char>::empty()) =~= out@);
    }
    out
}

// ---------------------------------------------------------------------------
// The keyword store: one slot per name, a later binding overwriting an
// earlier one.
// ---------------------------------------------------------------------------

proof fn lemma_kwargs_map_push(pairs: Seq<(String, MarinValue)>, p: (String, MarinValue))
    ensures
        kwargs_map(pairs.push(p)) == kwargs_map(pairs).insert(p.0@, value_model(p.1)),
{
    assert(pairs.push(p).drop_last() =~= pairs);
    assert(pairs.push(p).last() == p);
}

proof fn lemma_kwargs_map_update(pairs: Seq<(String, MarinValue)>, idx: int, p: (String, MarinValue))
    requires
        0 <= idx < pairs.len(),
        pairs[idx].0@ == p.0@,
        kwargs_wf(pairs),
    ensures
        kwargs_map(pairs.update(idx, p)) == kwargs_map(pairs).insert(p.0@, value_model(p.1)),
    decreases pairs.len(),
{
    let u = pairs.update(idx, p);
    if idx == pairs.len() - 1 {
        assert(u.drop_last() =~= pairs.drop_last());
        assert(u.last() == p);
        assert(kwargs_map(pairs).insert(p.0@, value_model(p.1)) =~= kwargs_map(
            pairs.drop_last(),
        ).insert(p.0@, value_model(p.1)));
    } else {
        assert(kwargs_wf(pairs.drop_last())) by {
            assert(forall|k: int| 0 <= k < pairs.len() - 1 ==> pairs.drop_last()[k] == pairs[k]);
        }
        assert(pairs.drop_last()[idx] == pairs[idx]);
        lemma_kwargs_map_update(pairs.drop_last(), idx, p);
        assert(u.drop_last() =~= pairs.drop_last().update(idx, p));
        assert(u.last() == pairs.last());
        assert(pairs.last().0@ != p.0@);
        assert(kwargs_map(pairs.drop_last()).insert(p.0@, value_model(p.1)).insert(
            pairs.last().0@,
            value_model(pairs.last().1),
        ) =~= kwargs_map(pairs.drop_last()).insert(pairs.last().0@, value_model(pairs.last().1)).insert(
            p.0@,
            value_model(p.1),
        ));
    }
}

/// Binds a name: overwrites the slot holding the name, or adds a slot for a
/// new name. Either way the map gains exactly this binding.
fn kw_insert(kwargs: &mut Vec<(String, MarinValue)>, key: String, val: MarinValue)
    requires
        kwargs_wf(old(kwargs)@),
    ensures
        kwargs_wf(final (kwargs)@),
        kwargs_map(final (kwargs)@) == kwargs_map(old(kwargs)@).insert(key@, value_model(val)),
{
    let ghost gkey: String = key;
    let ghost gval: MarinValue = val;
    let n = kwargs.len();
    let mut j: usize = 0;
    while j < n
        invariant
            n == kwargs@.len(),
            j <= n,
            kwargs@ == old(kwargs)@,
            kwargs_wf(kwargs@),
            gkey == key,
            gval == val,
            forall|k: int| 0 <= k < j ==> kwargs@[k].0@ != gkey@,
        decreases n - j,
    {
        let hit = kwargs[j].0 == key;
        if hit {
            let ghost oldpairs = kwargs@;
            kwargs[j] = (key, val);
            proof {
                assert(kwargs@ == oldpairs.update(j as int, (gkey, gval)));
                lemma_kwargs_map_update(oldpairs, j as int, (gkey, gval));
                assert(kwargs_wf(kwargs@)) by {
                    assert(forall|k: int|
                        0 <= k < kwargs@.len() ==> kwargs@[k].0@ == oldpairs[k].0@);
                }
            }
            return;
        }
        proof {
            assert(kwargs@[j as int].0@ != gkey@);
        }
        j = j + 1;
    }
    let ghost oldpairs = kwargs@;
    kwargs.push((key, val));
    proof {
        assert(kwargs@ == oldpairs.push((gkey, gval)));
        lemma_kwargs_map_push(oldpairs, (gkey, gval));
        assert(kwargs_wf(kwargs@)) by {
            assert(forall|k: int| 0 <= k < oldpairs.len() ==> kwargs@[k] == oldpairs[k]);
            assert(kwargs@.last().0@ == gkey@);
        }
    }
}

// ---------------------------------------------------------------------------
// The tree interpreter and the command assembler.
// ---------------------------------------------------------------------------

impl Marin {
    /// The stored keyword names are pairwise distinct.
    pub open spec fn wf(self) -> bool {
        kwargs_wf(self.kwargs@)
    }

    /// Reads a parse-tree node as a value, exactly as `node_value` states:
    /// numeric literals become integers or kept float text, quoted bodies
    /// are unescaped, barewords kept, lists read element by element.
    fn serialize(input: &str, cs: &Vec<char>, n: &Node) -> (r: Result<MarinValue, Error>)
        requires
            cs@ == input@,
            wf_node(node_model(*n), input@),
        ensures
            match r {
                Ok(v) => node_value(node_model(*n), input@) == Ok::<ValueModel, int>(v@),
                Err(e) => node_value(node_model(*n), input@) matches Err(p) && e@
                    == ErrorModel::IntOutOfRange(p),
            },
        decreases *n,
    {
        let ghost nm = node_model(*n);
        let ghost s = input@;
        proof {
            lemma_nodes_model(n.children@);
        }
        match n.rule {
            Rule::Value => {
                if n.children.len() == 1 {
                    proof {
                        assert(nm.children[0] == node_model(n.children@[0]));
                    }
                    Self::serialize(input, cs, &n.children[0])
                } else {
                    Ok(MarinValue::Bool(false))
                }
            },
            Rule::RangeExpr => {
                let c = &n.children[0];
                proof {
                    assert(nm.children[0] == node_model(n.children@[0]));
                    lemma_nodes_model(c.children@);
                }
                if c.rule == Rule::Range {
                    let n1 = &c.children[0];
                    let n2 = &c.children[1];
                    match convert_i64(cs, n1.start, n1.end) {
                        None => Err(Error::IntOutOfRange(n1.start)),
                        Some(v1) => match convert_i64(cs, n2.start, n2.end) {
                            None => Err(Error::IntOutOfRange(n2.start)),
                            Some(v2) => Ok(MarinValue::Range(v1, v2)),
                        },
                    }
                } else {
                    let n1 = &c.children[0];
                    match convert_i64(cs, n1.start, n1.end) {
                        None => Err(Error::IntOutOfRange(n1.start)),
                        Some(v1) => Ok(MarinValue::Range(0, v1)),
                    }
                }
            },
            Rule::Int => match convert_i64(cs, n.start, n.end) {
                None => Err(Error::IntOutOfRange(n.start)),
                Some(v) => Ok(MarinValue::Int(v)),
            },
            Rule::Number => match convert_i64(cs, n.start, n.end) {
                None => Err(Error::IntOutOfRange(n.start)),
                Some(v) => Ok(MarinValue::Int(v)),
            },
            Rule::Float => Ok(MarinValue::Float(span_string(input, n.start, n.end))),
            Rule::Bool => {
                let c0 = cs[n.start];
                Ok(MarinValue::Bool(c0 == 't' || c0 == 'T'))
            },
            Rule::String => {
                let c = &n.children[0];
                proof {
                    assert(nm.children[0] == node_model(n.children@[0]));
                }
                if c.rule == Rule::Inner {
                    Ok(MarinValue::String(unescape_span(input, cs, c.start, c.end)))
                } else {
                    Ok(MarinValue::String(span_string(input, c.start, c.end)))
                }
            },
            Rule::List => {
                let len = n.children.len();
                let mut items: Vec<MarinValue> = Vec::new();
                let ghost cm = nm.children;
                let mut k: usize = 0;
                proof {
                    assert(cm.skip(0) =~= cm);
                    assert(values_model(items@) =~= Seq::<ValueModel>::empty());
                }
                while k < len
                    invariant
                        len == n.children@.len(),
                        k <= len,
                        cs@ == input@,
                        s == input@,
                        nm == node_model(*n),
                        nm.rule == Rule::List,
                        wf_node(nm, s),
                        cm == nm.children,
                        cm.len() == len,
                        forall|t: int| 0 <= t < len ==> cm[t] == node_model(n.children@[t]),
                        match list_values(cm.skip(k as int), s) {
                            Ok(rest) => list_values(cm, s) == Ok::<Seq<ValueModel>, int>(
                                values_model(items@) + rest,
                            ),
                            Err(p) => list_values(cm, s) == Err::<Seq<ValueModel>, int>(p),
                        },
                    decreases len - k,
                {
                    proof {
                        lemma_wf_nodes_index(cm, s);
                        assert(cm.skip(k as int)[0] == cm[k as int]);
                        assert(cm.skip(k as int).drop_first() =~= cm.skip(k as int + 1));
                    }
                    match Self::serialize(input, cs, &n.children[k]) {
                        Ok(v) => {
                            let ghost itemsm = items@;
                            let ghost gv: MarinValue = v;
                            items.push(v);
                            proof {
                                lemma_values_model_push(itemsm, gv);
                                match list_values(cm.skip(k as int + 1), s) {
                                    Ok(rest2) => {
                                        assert(values_model(items@) + rest2 =~= values_model(
                                            itemsm,
                                        ) + (seq![value_model(gv)] + rest2));
                                    },
                                    Err(_) => {},
                                }
                            }
                        },
                        Err(e) => {
                            return Err(e);
                        },
                    }
                    k = k + 1;
                }
                proof {
                    assert(cm.skip(len as int) =~= Seq::<NodeModel>::empty());
                    assert(values_model(items@) + Seq::<ValueModel>::empty() =~= values_model(
                        items@,
                    ));
                }
                Ok(MarinValue::List(items))
            },
            _ => Ok(MarinValue::Bool(false)),
        }
    }

    /// Parses a line into a command.
    ///
    /// The empty line yields the empty command. Otherwise, exactly when the
    /// line matches the grammar and every integer literal fits in 64 signed
    /// bits, the result is the command `parse_spec` describes: the
    /// positional values in order of appearance, and each keyword or flag
    /// name bound to the value of its last occurrence. On a grammar
    /// rejection the error carries the failing position and the rules
    /// expected there; an oversized integer literal reports its position.
    pub fn parse(string: &str) -> (r: Result<Marin, Error>)
        ensures
            match r {
                Ok(m) => m.wf() && parse_spec(string@) == Ok::<CommandModel, ErrorModel>(m@),
                Err(e) => parse_spec(string@) == Err::<CommandModel, ErrorModel>(e@),
            },
    {
        if string.is_empty() {
            let m = Marin { args: Vec::new(), kwargs: Vec::new() };
            proof {
                assert(values_model(m.args@) =~= Seq::<ValueModel>::empty());
                assert(kwargs_map(m.kwargs@) =~= Map::<Seq<char>, ValueModel>::empty());
            }
            return Ok(m);
        }
        let root = match MarinParser::parse(string) {
            Ok(t) => t,
            Err(e) => {
                return Err(e);
            },
        };
        let cs = str_chars(string);
        let ghost s = string@;
        let ghost childm = node_model(root).children;
        proof {
            lemma_marin_props(s);
            lemma_nodes_model(root.children@);
            lemma_wf_nodes_index(childm, s);
        }
        let mut args: Vec<MarinValue> = Vec::new();
        let mut kwargs: Vec<(String, MarinValue)> = Vec::new();
        let n = root.children.len();
        let mut k: usize = 0;
        proof {
            assert(childm.skip(0) =~= childm);
            assert(values_model(args@) =~= Seq::<ValueModel>::empty());
            assert(kwargs_map(kwargs@) =~= Map::<Seq<char>, ValueModel>::empty());
        }
        while k < n
            invariant
                n == root.children@.len(),
                childm == node_model(root).children,
                childm.len() == n,
                k <= n,
                cs@ == string@,
                s == string@,
                s.len() > 0,
                spec_marin(s) == Ok::<NodeModel, crate::parser::FailSpec>(node_model(root)),
                wf_node(node_model(root), s),
                forall|t: int| 0 <= t < n ==> childm[t] == node_model(root.children@[t]),
                forall|t: int| 0 <= t < n ==> wf_node(childm[t], s),
                kwargs_wf(kwargs@),
                assemble_from(childm.skip(k as int), s, values_model(args@), kwargs_map(kwargs@))
                    == assemble_from(childm, s, Seq::empty(), Map::empty()),
            decreases n - k,
        {
            let child = &root.children[k];
            proof {
                assert(childm.skip(k as int)[0] == childm[k as int]);
                assert(childm.skip(k as int).drop_first() =~= childm.skip(k as int + 1));
                assert(childm[k as int] == node_model(*child));
                lemma_nodes_model(child.children@);
            }
            match child.rule {
                Rule::Keyword => {
                    let idn = &child.children[0];
                    proof {
                        assert(node_model(*child).children[0] == node_model(child.children@[0]));
                        assert(node_model(*child).children[1] == node_model(child.children@[1]));
                    }
                    let key = span_string(string, idn.start, idn.end);
                    match Self::serialize(string, &cs, &child.children[1]) {
                        Ok(v) => {
                            let ghost gkey: String = key;
                            let ghost gval: MarinValue = v;
                            let ghost kwm = kwargs_map(kwargs@);
                            kw_insert(&mut kwargs, key, v);
                            proof {
                                assert(kwargs_map(kwargs@) == kwm.insert(gkey@, value_model(gval)));
                            }
                        },
                        Err(e) => {
                            return Err(e);
                        },
                    }
                },
                Rule::Flag => {
                    let fin = &child.children[0];
                    proof {
                        assert(node_model(*child).children[0] == node_model(child.children@[0]));
                    }
                    let key = span_string(string, fin.start, fin.end);
                    kw_insert(&mut kwargs, key, MarinValue::Bool(true));
                },
                Rule::Value => {
                    match Self::serialize(string, &cs, child) {
                        Ok(v) => {
                            let ghost argsm = args@;
                            let ghost gv: MarinValue = v;
                            args.push(v);
                            proof {
                                lemma_values_model_push(argsm, gv);
                            }
                        },
                        Err(e) => {
                            return Err(e);
                        },
                    }
                },
                _ => {},
            }
            k = k + 1;
        }
        proof {
            assert(childm.skip(n as int) =~= Seq::<NodeModel>::empty());
        }
        let m = Marin { args, kwargs };
        Ok(m)
    }
}


// ---------------------------------------------------------------------------
// Laws of the assembled command.
// ---------------------------------------------------------------------------

/// The positional values of the top-level nodes, in order of appearance;
/// keywords, flags and the end-of-input marker contribute nothing.
pub open spec fn args_of(cs: Seq<NodeModel>, s: Seq<char>) -> Seq<ValueModel>
    decreases cs,
{
    if cs.len() == 0 {
        Seq::empty()
    } else {
        let rest = args_of(cs.drop_first(), s);
        if cs[0].rule == Rule::Value {
            match node_value(cs[0], s) {
                Ok(v) => seq![v] + rest,
                Err(_) => rest,
            }
        } else {
            rest
        }
    }
}

proof fn lemma_assemble_args(
    cs: Seq<NodeModel>,
    s: Seq<char>,
    args: Seq<ValueModel>,
    kwargs: Map<Seq<char>, ValueModel>,
)
    ensures
        assemble_from(cs, s, args, kwargs) matches Ok(cm) ==> cm.args == args + args_of(cs, s),
    decreases cs,
{
    if cs.len() == 0 {
        assert(args + Seq::<ValueModel>::empty() =~= args);
    } else {
        let h = cs[0];
        let rest = cs.drop_first();
        if h.rule == Rule::Keyword {
            match node_value(h.children[1], s) {
                Err(_) => {},
                Ok(v) => {
                    lemma_assemble_args(
                        rest,
                        s,
                        args,
                        kwargs.insert(s.subrange(h.children[0].start, h.children[0].end), v),
                    );
                },
            }
        } else if h.rule == Rule::Flag {
            lemma_assemble_args(
                rest,
                s,
                args,
                kwargs.insert(
                    s.subrange(h.children[0].start, h.children[0].end),
                    ValueModel::Bool(true),
                ),
            );
        } else if h.rule == Rule::Value {
            match node_value(h, s) {
                Err(_) => {},
                Ok(v) => {
                    lemma_assemble_args(rest, s, args.push(v), kwargs);
                    assert(args.push(v) + args_of(rest, s) =~= args + (seq![v] + args_of(rest, s)));
                },
            }
        } else {
            lemma_assemble_args(rest, s, args, kwargs);
        }
    }
}

/// The positional list keeps the input's left-to-right order: for every line
/// that parses, `args` is exactly the sequence of top-level positional
/// values of the parse tree, in order of appearance, with keywords and flags
/// contributing nothing to it.
pub proof fn lemma_args_in_input_order(s: Seq<char>)
    ensures
        s.len() == 0 ==> (parse_spec(s) matches Ok(cm) ==> cm.args == Seq::<ValueModel>::empty()),
        s.len() > 0 ==> (parse_spec(s) matches Ok(cm) ==> (spec_marin(s) matches Ok(root)
            && cm.args == args_of(root.children, s))),
{
    if s.len() > 0 {
        match spec_marin(s) {
            Ok(root) => {
                lemma_assemble_args(
                    root.children,
                    s,
                    Seq::<ValueModel>::empty(),
                    Map::<Seq<char>, ValueModel>::empty(),
                );
                match assemble_from(
                    root.children,
                    s,
                    Seq::<ValueModel>::empty(),
                    Map::<Seq<char>, ValueModel>::empty(),
                ) {
                    Ok(cm) => {
                        assert(Seq::<ValueModel>::empty() + args_of(root.children, s) =~= args_of(
                            root.children,
                            s,
                        ));
                    },
                    Err(_) => {},
                }
            },
            Err(_) => {},
        }
    }
}

/// The value a single top-level node binds to `name`, if any: a keyword
/// binds its value, a flag binds `true`, anything else binds nothing. (The
/// junk value for a keyword whose literal overflows is never reached on a
/// line that parses.)
pub open spec fn binding_of(h: NodeModel, s: Seq<char>, name: Seq<char>) -> Option<ValueModel> {
    if h.rule == Rule::Keyword && s.subrange(h.children[0].start, h.children[0].end) == name {
        match node_value(h.children[1], s) {
            Ok(v) => Some(v),
            Err(_) => Some(ValueModel::Bool(false)),
        }
    } else if h.rule == Rule::Flag && s.subrange(h.children[0].start, h.children[0].end) == name {
        Some(ValueModel::Bool(true))
    } else {
        None
    }
}

/// The value of the last top-level node that binds `name`, if any.
pub open spec fn last_binding(cs: Seq<NodeModel>, s: Seq<char>, name: Seq<char>) -> Option<
    ValueModel,
>
    decreases cs,
{
    if cs.len() == 0 {
        None
    } else {
        match last_binding(cs.drop_first(), s, name) {
            Some(v) => Some(v),
            None => binding_of(cs[0], s, name),
        }
    }
}

proof fn lemma_assemble_kwargs(
    cs: Seq<NodeModel>,
    s: Seq<char>,
    args: Seq<ValueModel>,
    kwargs: Map<Seq<char>, ValueModel>,
    name: Seq<char>,
)
    ensures
        assemble_from(cs, s, args, kwargs) matches Ok(cm) ==> match last_binding(cs, s, name) {
            Some(v) => cm.kwargs.dom().contains(name) && cm.kwargs[name] == v,
            None => cm.kwargs.dom().contains(name) == kwargs.dom().contains(name) && (
            kwargs.dom().contains(name) ==> cm.kwargs[name] == kwargs[name]),
        },
    decreases cs,
{
    if cs.len() > 0 {
        let h = cs[0];
        let rest = cs.drop_first();
        if h.rule == Rule::Keyword {
            let key = s.subrange(h.children[0].start, h.children[0].end);
            match node_value(h.children[1], s) {
                Err(_) => {},
                Ok(v) => {
                    lemma_assemble_kwargs(rest, s, args, kwargs.insert(key, v), name);
                },
            }
        } else if h.rule == Rule::Flag {
            let key = s.subrange(h.children[0].start, h.children[0].end);
            lemma_assemble_kwargs(
                rest,
                s,
                args,
                kwargs.insert(key, ValueModel::Bool(true)),
                name,
            );
        } else if h.rule == Rule::Value {
            match node_value(h, s) {
                Err(_) => {},
                Ok(v) => {
                    lemma_assemble_kwargs(rest, s, args.push(v), kwargs, name);
                },
            }
        } else {
            lemma_assemble_kwargs(rest, s, args, kwargs, name);
        }
    }
}

/// Names are bound once, and the last occurrence wins: for every line that
/// parses and every name, the command binds the name exactly when some
/// top-level keyword or flag carries it, and then to the value of the last
/// such occurrence; keywords and flags share the one namespace.
pub proof fn lemma_kwargs_last_wins(s: Seq<char>, name: Seq<char>)
    ensures
        s.len() == 0 ==> (parse_spec(s) matches Ok(cm) ==> !cm.kwargs.dom().contains(name)),
        s.len() > 0 ==> (parse_spec(s) matches Ok(cm) ==> (spec_marin(s) matches Ok(root) && (
        match last_binding(root.children, s, name) {
            Some(v) => cm.kwargs.dom().contains(name) && cm.kwargs[name] == v,
            None => !cm.kwargs.dom().contains(name),
        }))),
{
    if s.len() > 0 {
        match spec_marin(s) {
            Ok(root) => {
                lemma_assemble_kwargs(
                    root.children,
                    s,
                    Seq::<ValueModel>::empty(),
                    Map::<Seq<char>, ValueModel>::empty(),
                    name,
                );
            },
            Err(_) => {},
        }
    }
}


// ---------------------------------------------------------------------------
// Lookup.
// ---------------------------------------------------------------------------

/// Character-wise equality of two string slices.
fn str_eq(a: &str, b: &str) -> (r: bool)
    ensures
        r == (a@ == b@),
{
    let n = a.unicode_len();
    if n != b.unicode_len() {
        return false;
    }
    let mut i: usize = 0;
    while i < n
        invariant
            n == a@.len(),
            n == b@.len(),
            i <= n,
            forall|k: int| 0 <= k < i ==> a@[k] == b@[k],
        decreases n - i,
    {
        if a.get_char(i) != b.get_char(i) {
            return false;
        }
        i = i + 1;
    }
    proof {
        assert(a@ =~= b@);
    }
    true
}

proof fn lemma_kwargs_map_index(pairs: Seq<(String, MarinValue)>, idx: int)
    requires
        kwargs_wf(pairs),
        0 <= idx < pairs.len(),
    ensures
        kwargs_map(pairs).dom().contains(pairs[idx].0@),
        kwargs_map(pairs)[pairs[idx].0@] == value_model(pairs[idx].1),
    decreases pairs.len(),
{
    if idx == pairs.len() - 1 {
    } else {
        assert(kwargs_wf(pairs.drop_last())) by {
            assert(forall|k: int| 0 <= k < pairs.len() - 1 ==> pairs.drop_last()[k] == pairs[k]);
        }
        assert(pairs.drop_last()[idx] == pairs[idx]);
        lemma_kwargs_map_index(pairs.drop_last(), idx);
        assert(pairs.last().0@ != pairs[idx].0@);
    }
}

proof fn lemma_kwargs_map_absent(pairs: Seq<(String, MarinValue)>, name: Seq<char>)
    requires
        forall|k: int| 0 <= k < pairs.len() ==> pairs[k].0@ != name,
    ensures
        !kwargs_map(pairs).dom().contains(name),
    decreases pairs.len(),
{
    if pairs.len() > 0 {
        assert(forall|k: int|
            0 <= k < pairs.len() - 1 ==> pairs.drop_last()[k] == pairs[k]);
        lemma_kwargs_map_absent(pairs.drop_last(), name);
        assert(pairs.last().0@ != name);
    }
}

impl Marin {
    /// The value bound to a name, if the command binds it.
    pub fn kwargs_get(&self, name: &str) -> (r: Option<&MarinValue>)
        requires
            self.wf(),
        ensures
            match r {
                Some(v) => self@.kwargs.dom().contains(name@) && self@.kwargs[name@] == v@,
                None => !self@.kwargs.dom().contains(name@),
            },
    {
        let n = self.kwargs.len();
        let mut j: usize = 0;
        while j < n
            invariant
                self.wf(),
                n == self.kwargs@.len(),
                j <= n,
                forall|k: int| 0 <= k < j ==> self.kwargs@[k].0@ != name@,
            decreases n - j,
        {
            let hit = str_eq(self.kwargs[j].0.as_str(), name);
            if hit {
                proof {
                    lemma_kwargs_map_index(self.kwargs@, j as int);
                }
                return Some(&self.kwargs[j].1);
            }
            j = j + 1;
        }
        proof {
            lemma_kwargs_map_absent(self.kwargs@, name@);
        }
        None
    }
}

} // verus!
