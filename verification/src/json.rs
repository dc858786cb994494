//! The line codec's value layer: a schema-less JSON value, the grammar it is
//! written in, a serializer that renders one value as compact JSON text, and
//! a parser back. Objects are kept sorted by key with unique keys, so equal
//! values have equal renderings.
use crate::text::{
    all_hex_digits, digits_end, digits_end_exec, hex_digit_char, hex_digit_val,
    hex_digit_val_exec, hex_fixed, hex_seq_val, is_dec_digit, is_dec_digit_exec, is_hex_digit,
    is_hex_digit_exec, is_json_ws, is_json_ws_exec, lemma_digits_end_bounds, pow_nat,
    push_chars_of, string_from_chars,
};
use vstd::prelude::*;
use vstd::string::*;

verus! {

/// The mathematical shape of a JSON value. Numbers keep their lexical text,
/// so a value round-trips through the codec without loss.
pub enum JsonV {
    Null,
    Bool(bool),
    Num(Seq<char>),
    Str(Seq<char>),
    Arr(Seq<JsonV>),
    Obj(Seq<(Seq<char>, JsonV)>),
}

/// A schema-less JSON value as the record's open attribute bag carries it.
/// A number holds its lexical text; an object holds its fields sorted by key.
#[derive(Debug, PartialEq)]
pub enum JsonValue {
    Null,
    Bool(bool),
    Num(String),
    Str(String),
    Arr(Vec<JsonValue>),
    Obj(Vec<(String, JsonValue)>),
}

impl JsonValue {
    pub open spec fn model(self) -> JsonV
        decreases self,
    {
        match self {
            JsonValue::Null => JsonV::Null,
            JsonValue::Bool(b) => JsonV::Bool(b),
            JsonValue::Num(t) => JsonV::Num(t@),
            JsonValue::Str(s) => JsonV::Str(s@),
            JsonValue::Arr(items) => JsonV::Arr(Self::model_list(items@)),
            JsonValue::Obj(fields) => JsonV::Obj(Self::model_fields(fields@)),
        }
    }

    pub open spec fn model_list(l: Seq<JsonValue>) -> Seq<JsonV>
        decreases l,
    {
        if l.len() == 0 {
            Seq::empty()
        } else {
            seq![l[0].model()] + Self::model_list(l.drop_first())
        }
    }

    pub open spec fn model_fields(l: Seq<(String, JsonValue)>) -> Seq<(Seq<char>, JsonV)>
        decreases l,
    {
        if l.len() == 0 {
            Seq::empty()
        } else {
            seq![(l[0].0@, l[0].1.model())] + Self::model_fields(l.drop_first())
        }
    }
}

pub proof fn lemma_model_list_len(l: Seq<JsonValue>)
    ensures
        JsonValue::model_list(l).len() == l.len(),
        forall|m: int|
            0 <= m < l.len() ==> #[trigger] JsonValue::model_list(l)[m] == l[m].model(),
    decreases l,
{
    if l.len() > 0 {
        lemma_model_list_len(l.drop_first());
    }
}

pub proof fn lemma_model_fields_len(l: Seq<(String, JsonValue)>)
    ensures
        JsonValue::model_fields(l).len() == l.len(),
        forall|m: int|
            0 <= m < l.len() ==> #[trigger] JsonValue::model_fields(l)[m] == (
                l[m].0@,
                l[m].1.model(),
            ),
    decreases l,
{
    if l.len() > 0 {
        lemma_model_fields_len(l.drop_first());
    }
}

// ------------------------------------------------------------------
// The number grammar: -?(0|[1-9][0-9]*)(.[0-9]+)?([eE][+-]?[0-9]+)?
// ------------------------------------------------------------------
/// Where the number starting at `i` ends, or nothing if no number starts
/// there. The scan is maximal: it never stops directly before a digit, a
/// decimal point that begins a valid fraction, or an exponent marker that
/// begins a valid exponent.
pub open spec fn number_end(s: Seq<char>, i: int) -> Option<int> {
    let j0 = if i < s.len() && s[i] == '-' {
        i + 1
    } else {
        i
    };
    if j0 < s.len() && is_dec_digit(s[j0]) {
        let j1 = if s[j0] == '0' {
            j0 + 1
        } else {
            digits_end(s, j0)
        };
        let frac_ok = !(j1 < s.len() && s[j1] == '.') || (j1 + 1 < s.len() && is_dec_digit(
            s[j1 + 1],
        ));
        if !frac_ok {
            Option::None
        } else {
            let j2 = if j1 < s.len() && s[j1] == '.' {
                digits_end(s, j1 + 1)
            } else {
                j1
            };
            if j2 < s.len() && (s[j2] == 'e' || s[j2] == 'E') {
                let j3 = if j2 + 1 < s.len() && (s[j2 + 1] == '+' || s[j2 + 1] == '-') {
                    j2 + 2
                } else {
                    j2 + 1
                };
                if j3 < s.len() && is_dec_digit(s[j3]) {
                    Option::Some(digits_end(s, j3))
                } else {
                    Option::None
                }
            } else {
                Option::Some(j2)
            }
        }
    } else {
        Option::None
    }
}

/// Whether `t` is exactly one well-formed JSON number.
pub open spec fn is_number_text(t: Seq<char>) -> bool {
    number_end(t, 0) == Option::Some(t.len() as int)
}

pub proof fn lemma_number_end_bounds(s: Seq<char>, i: int)
    requires
        0 <= i <= s.len(),
        number_end(s, i) is Some,
    ensures
        i < number_end(s, i).unwrap() <= s.len(),
{
    let j0 = if i < s.len() && s[i] == '-' {
        i + 1
    } else {
        i
    };
    lemma_digits_end_bounds(s, j0);
    let j1 = if s[j0] == '0' {
        j0 + 1
    } else {
        digits_end(s, j0)
    };
    if j1 < s.len() && s[j1] == '.' {
        lemma_digits_end_bounds(s, j1 + 1);
    }
    let j2 = if j1 < s.len() && s[j1] == '.' {
        digits_end(s, j1 + 1)
    } else {
        j1
    };
    if j2 < s.len() && (s[j2] == 'e' || s[j2] == 'E') {
        let j3 = if j2 + 1 < s.len() && (s[j2 + 1] == '+' || s[j2 + 1] == '-') {
            j2 + 2
        } else {
            j2 + 1
        };
        if j3 < s.len() {
            lemma_digits_end_bounds(s, j3);
        }
    }
}

// ------------------------------------------------------------------
// Serialization
// ------------------------------------------------------------------
/// How one character is written inside a JSON string: quote and backslash
/// are escaped, control characters take their short or `\u00XX` escape, and
/// every other character stands as itself.
pub open spec fn esc_char(c: char) -> Seq<char> {
    if c == '"' {
        seq!['\\', '"']
    } else if c == '\\' {
        seq!['\\', '\\']
    } else if c == '\u{8}' {
        seq!['\\', 'b']
    } else if c == '\u{c}' {
        seq!['\\', 'f']
    } else if c == '\n' {
        seq!['\\', 'n']
    } else if c == '\r' {
        seq!['\\', 'r']
    } else if c == '\t' {
        seq!['\\', 't']
    } else if (c as u32) < 0x20 {
        seq!['\\', 'u'] + hex_fixed(c as nat, 4)
    } else {
        seq![c]
    }
}

pub open spec fn ser_str_body(s: Seq<char>) -> Seq<char>
    decreases s.len(),
{
    if s.len() == 0 {
        Seq::empty()
    } else {
        esc_char(s[0]) + ser_str_body(s.drop_first())
    }
}

/// The compact JSON text of a value: no insignificant whitespace, object
/// fields in their (sorted) stored order.
pub open spec fn ser_value(v: JsonV) -> Seq<char>
    decreases v,
{
    match v {
        JsonV::Null => seq!['n', 'u', 'l', 'l'],
        JsonV::Bool(b) => if b {
            seq!['t', 'r', 'u', 'e']
        } else {
            seq!['f', 'a', 'l', 's', 'e']
        },
        JsonV::Num(t) => t,
        JsonV::Str(s) => seq!['"'] + ser_str_body(s) + seq!['"'],
        JsonV::Arr(items) => seq!['['] + ser_elements(items) + seq![']'],
        JsonV::Obj(fields) => seq!['{'] + ser_members(fields) + seq!['}'],
    }
}

pub open spec fn ser_elements(items: Seq<JsonV>) -> Seq<char>
    decreases items,
{
    if items.len() == 0 {
        Seq::empty()
    } else if items.len() == 1 {
        ser_value(items[0])
    } else {
        ser_value(items[0]) + seq![','] + ser_elements(items.drop_first())
    }
}

pub open spec fn ser_members(fields: Seq<(Seq<char>, JsonV)>) -> Seq<char>
    decreases fields,
{
    if fields.len() == 0 {
        Seq::empty()
    } else if fields.len() == 1 {
        ser_member(fields[0])
    } else {
        ser_member(fields[0]) + seq![','] + ser_members(fields.drop_first())
    }
}

pub open spec fn ser_member(f: (Seq<char>, JsonV)) -> Seq<char>
    decreases f,
{
    seq!['"'] + ser_str_body(f.0) + seq!['"', ':'] + ser_value(f.1)
}

// ------------------------------------------------------------------
// Validity
// ------------------------------------------------------------------
/// No two fields share a key.
pub open spec fn fields_unique(fields: Seq<(Seq<char>, JsonV)>) -> bool {
    forall|m: int, n: int|
        0 <= m < n < fields.len() ==> (#[trigger] fields[m]).0 != (#[trigger] fields[n]).0
}

/// A value the codec can write and read back: number texts are well-formed
/// and object keys are distinct, at every level.
pub open spec fn valid_json(v: JsonV) -> bool
    decreases v,
{
    match v {
        JsonV::Null => true,
        JsonV::Bool(_) => true,
        JsonV::Num(t) => is_number_text(t),
        JsonV::Str(_) => true,
        JsonV::Arr(items) => forall|m: int|
            0 <= m < items.len() ==> valid_json(#[trigger] items[m]),
        JsonV::Obj(fields) => fields_unique(fields) && forall|m: int|
            0 <= m < fields.len() ==> valid_json(#[trigger] fields[m].1),
    }
}

// ------------------------------------------------------------------
// Executable serializer
// ------------------------------------------------------------------
proof fn lemma_ser_str_body_snoc(s: Seq<char>)
    requires
        s.len() >= 1,
    ensures
        ser_str_body(s) == ser_str_body(s.drop_last()) + esc_char(s.last()),
    decreases s.len(),
{
    if s.len() == 1 {
        assert(s.drop_first() =~= Seq::<char>::empty());
        assert(s.drop_last() =~= Seq::<char>::empty());
        assert(s[0] == s.last());
        assert(ser_str_body(s) =~= ser_str_body(s.drop_last()) + esc_char(s.last()));
    } else {
        lemma_ser_str_body_snoc(s.drop_first());
        assert(s.drop_first().drop_last() =~= s.drop_last().drop_first());
        assert(s.drop_first().last() == s.last());
        assert(s.drop_last()[0] == s[0]);
        assert(s.drop_last().len() >= 1);
        assert(ser_str_body(s.drop_last()) == esc_char(s[0]) + ser_str_body(
            s.drop_last().drop_first(),
        ));
        assert(ser_str_body(s) =~= ser_str_body(s.drop_last()) + esc_char(s.last()));
    }
}

/// Appends the escaped body of `s` (no surrounding quotes).
#[verifier::rlimit(50)]
fn push_str_body(out: &mut Vec<char>, s: &str)
    ensures
        final(out)@ == old(out)@ + ser_str_body(s@),
{
    let n: usize = s.unicode_len();
    let mut k: usize = 0;
    proof {
        assert(s@.take(0) =~= Seq::<char>::empty());
        assert(out@ =~= out@ + ser_str_body(s@.take(0)));
    }
    while k < n
        invariant
            0 <= k <= n,
            n == s@.len(),
            out@ == old(out)@ + ser_str_body(s@.take(k as int)),
        decreases n - k,
    {
        let c: char = s.get_char(k);
        let v: u32 = c as u32;
        if c == '"' {
            out.push('\\');
            out.push('"');
        } else if c == '\\' {
            out.push('\\');
            out.push('\\');
        } else if v == 0x08 {
            out.push('\\');
            out.push('b');
        } else if v == 0x0C {
            out.push('\\');
            out.push('f');
        } else if c == '\n' {
            out.push('\\');
            out.push('n');
        } else if c == '\r' {
            out.push('\\');
            out.push('r');
        } else if c == '\t' {
            out.push('\\');
            out.push('t');
        } else if v < 0x20 {
            out.push('\\');
            out.push('u');
            out.push('0');
            out.push('0');
            let hi: u8 = (v / 16) as u8;
            let lo: u8 = (v % 16) as u8;
            out.push(if hi < 10 {
                (48 + hi) as char
            } else {
                (87 + hi) as char
            });
            out.push(if lo < 10 {
                (48 + lo) as char
            } else {
                (87 + lo) as char
            });
            proof {
                assert(hex_fixed(c as nat, 4) =~= seq![
                    hex_digit_char(((c as nat) / 4096) % 16),
                    hex_digit_char(((c as nat) / 256) % 16),
                    hex_digit_char(((c as nat) / 16) % 16),
                    hex_digit_char((c as nat) % 16),
                ]) by {
                    reveal_with_fuel(hex_fixed, 5);
                }
                assert(((c as nat) / 4096) % 16 == 0);
                assert(((c as nat) / 256) % 16 == 0);
                assert(hex_digit_char(0) == '0');
            }
        } else {
            out.push(c);
        }
        proof {
            assert(s@.take(k as int + 1).drop_last() =~= s@.take(k as int));
            assert(s@.take(k as int + 1).last() == s@[k as int]);
            lemma_ser_str_body_snoc(s@.take(k as int + 1));
            assert(out@ =~= old(out)@ + ser_str_body(s@.take(k as int + 1)));
        }
        k = k + 1;
    }
    proof {
        assert(s@.take(n as int) =~= s@);
    }
}

proof fn lemma_ser_elements_snoc(items: Seq<JsonV>)
    requires
        items.len() >= 2,
    ensures
        ser_elements(items) == ser_elements(items.drop_last()) + seq![','] + ser_value(
            items.last(),
        ),
    decreases items.len(),
{
    assert(ser_elements(items) == ser_value(items[0]) + seq![','] + ser_elements(
        items.drop_first(),
    ));
    if items.len() == 2 {
        assert(items.drop_first().len() == 1);
        assert(items.drop_first()[0] == items[1]);
        assert(ser_elements(items.drop_first()) == ser_value(items[1]));
        assert(items.drop_last().len() == 1);
        assert(items.drop_last()[0] == items[0]);
        assert(ser_elements(items.drop_last()) == ser_value(items[0]));
        assert(ser_elements(items) =~= ser_elements(items.drop_last()) + seq![','] + ser_value(
            items.last(),
        ));
    } else {
        lemma_ser_elements_snoc(items.drop_first());
        assert(items.drop_first().drop_last() =~= items.drop_last().drop_first());
        assert(items.drop_first().last() == items.last());
        assert(items.drop_last()[0] == items[0]);
        assert(items.drop_last().len() >= 2);
        assert(ser_elements(items.drop_last()) == ser_value(items[0]) + seq![','] + ser_elements(
            items.drop_last().drop_first(),
        ));
        assert(ser_elements(items) =~= ser_elements(items.drop_last()) + seq![','] + ser_value(
            items.last(),
        ));
    }
}

proof fn lemma_ser_members_snoc(fields: Seq<(Seq<char>, JsonV)>)
    requires
        fields.len() >= 2,
    ensures
        ser_members(fields) == ser_members(fields.drop_last()) + seq![','] + ser_member(
            fields.last(),
        ),
    decreases fields.len(),
{
    assert(ser_members(fields) == ser_member(fields[0]) + seq![','] + ser_members(
        fields.drop_first(),
    ));
    if fields.len() == 2 {
        assert(fields.drop_first().len() == 1);
        assert(fields.drop_first()[0] == fields[1]);
        assert(ser_members(fields.drop_first()) == ser_member(fields[1]));
        assert(fields.drop_last().len() == 1);
        assert(fields.drop_last()[0] == fields[0]);
        assert(ser_members(fields.drop_last()) == ser_member(fields[0]));
        assert(ser_members(fields) =~= ser_members(fields.drop_last()) + seq![','] + ser_member(
            fields.last(),
        ));
    } else {
        lemma_ser_members_snoc(fields.drop_first());
        assert(fields.drop_first().drop_last() =~= fields.drop_last().drop_first());
        assert(fields.drop_first().last() == fields.last());
        assert(fields.drop_last()[0] == fields[0]);
        assert(fields.drop_last().len() >= 2);
        assert(ser_members(fields.drop_last()) == ser_member(fields[0]) + seq![','] + ser_members(
            fields.drop_last().drop_first(),
        ));
        assert(ser_members(fields) =~= ser_members(fields.drop_last()) + seq![','] + ser_member(
            fields.last(),
        ));
    }
}

/// Appends the compact JSON text of `v`.
pub fn write_json(v: &JsonValue, out: &mut Vec<char>)
    ensures
        final(out)@ == old(out)@ + ser_value(v.model()),
    decreases v, 1int,
{
    match v {
        JsonValue::Null => {
            out.push('n');
            out.push('u');
            out.push('l');
            out.push('l');
            proof {
                assert(out@ =~= old(out)@ + ser_value(v.model()));
            }
        },
        JsonValue::Bool(b) => {
            if *b {
                out.push('t');
                out.push('r');
                out.push('u');
                out.push('e');
            } else {
                out.push('f');
                out.push('a');
                out.push('l');
                out.push('s');
                out.push('e');
            }
            proof {
                assert(out@ =~= old(out)@ + ser_value(v.model()));
            }
        },
        JsonValue::Num(t) => {
            push_chars_of(out, t.as_str());
            proof {
                assert(out@ =~= old(out)@ + ser_value(v.model()));
            }
        },
        JsonValue::Str(s) => {
            out.push('"');
            push_str_body(out, s.as_str());
            out.push('"');
            proof {
                assert(out@ =~= old(out)@ + ser_value(v.model()));
            }
        },
        JsonValue::Arr(items) => {
            out.push('[');
            let n: usize = items.len();
            let ghost ms = JsonValue::model_list(items@);
            proof {
                lemma_model_list_len(items@);
                assert(ms.take(0) =~= Seq::<JsonV>::empty());
                assert(out@ =~= old(out)@ + seq!['['] + ser_elements(ms.take(0)));
            }
            let mut k: usize = 0;
            while k < n
                invariant
                    0 <= k <= n,
                    n == items@.len(),
                    ms == JsonValue::model_list(items@),
                    ms.len() == n,
                    forall|m: int| 0 <= m < n ==> #[trigger] ms[m] == items@[m].model(),
                    *v == JsonValue::Arr(*items),
                    out@ == old(out)@ + seq!['['] + ser_elements(ms.take(k as int)),
                decreases n - k,
            {
                if k > 0 {
                    out.push(',');
                }
                proof {
                    assert(*v == JsonValue::Arr(*items));
                    assert(decreases_to!(*v => v->Arr_0));
                    assert(decreases_to!(v->Arr_0 => v->Arr_0@));
                    assert(decreases_to!(v->Arr_0@ => v->Arr_0@[k as int]));
                    assert(v->Arr_0@[k as int] == items@[k as int]);
                    assert(decreases_to!(*v => items@[k as int]));
                }
                write_json(&items[k], out);
                proof {
                    assert(ms.take(k as int + 1).drop_last() =~= ms.take(k as int));
                    assert(ms.take(k as int + 1).last() == ms[k as int]);
                    if k == 0 {
                        assert(ser_elements(ms.take(1)) == ser_value(ms[0]));
                    } else {
                        lemma_ser_elements_snoc(ms.take(k as int + 1));
                    }
                    assert(out@ =~= old(out)@ + seq!['['] + ser_elements(ms.take(k as int + 1)));
                }
                k = k + 1;
            }
            out.push(']');
            proof {
                assert(ms.take(n as int) =~= ms);
                assert(out@ =~= old(out)@ + ser_value(v.model()));
            }
        },
        JsonValue::Obj(fields) => {
            out.push('{');
            let n: usize = fields.len();
            let ghost ms = JsonValue::model_fields(fields@);
            proof {
                lemma_model_fields_len(fields@);
                assert(ms.take(0) =~= Seq::<(Seq<char>, JsonV)>::empty());
                assert(out@ =~= old(out)@ + seq!['{'] + ser_members(ms.take(0)));
            }
            let mut k: usize = 0;
            while k < n
                invariant
                    0 <= k <= n,
                    n == fields@.len(),
                    ms == JsonValue::model_fields(fields@),
                    ms.len() == n,
                    forall|m: int|
                        0 <= m < n ==> #[trigger] ms[m] == (fields@[m].0@, fields@[m].1.model()),
                    *v == JsonValue::Obj(*fields),
                    out@ == old(out)@ + seq!['{'] + ser_members(ms.take(k as int)),
                decreases n - k,
            {
                if k > 0 {
                    out.push(',');
                }
                out.push('"');
                push_str_body(out, fields[k].0.as_str());
                out.push('"');
                out.push(':');
                proof {
                    assert(*v == JsonValue::Obj(*fields));
                    assert(decreases_to!(*v => v->Obj_0));
                    assert(decreases_to!(v->Obj_0 => v->Obj_0@));
                    assert(decreases_to!(v->Obj_0@ => v->Obj_0@[k as int]));
                    assert(decreases_to!(v->Obj_0@[k as int] => v->Obj_0@[k as int].1));
                    assert(v->Obj_0@[k as int].1 == fields@[k as int].1);
                    assert(decreases_to!(*v => fields@[k as int].1));
                }
                write_json(&fields[k].1, out);
                proof {
                    assert(ms.take(k as int + 1).drop_last() =~= ms.take(k as int));
                    assert(ms.take(k as int + 1).last() == ms[k as int]);
                    if k == 0 {
                        assert(ser_members(ms.take(1)) == ser_member(ms[0]));
                    } else {
                        lemma_ser_members_snoc(ms.take(k as int + 1));
                    }
                    assert(out@ =~= old(out)@ + seq!['{'] + ser_members(ms.take(k as int + 1)));
                }
                k = k + 1;
            }
            out.push('}');
            proof {
                assert(ms.take(n as int) =~= ms);
                assert(out@ =~= old(out)@ + ser_value(v.model()));
            }
        },
    }
}



// ------------------------------------------------------------------
// The parser's specification
// ------------------------------------------------------------------
/// The first position at or after `i` that does not hold insignificant
/// whitespace.
pub open spec fn skip_ws(s: Seq<char>, i: int) -> int
    decreases s.len() - i,
    when 0 <= i <= s.len()
{
    if i < s.len() && is_json_ws(s[i]) {
        skip_ws(s, i + 1)
    } else {
        i
    }
}

pub proof fn lemma_skip_ws_bounds(s: Seq<char>, i: int)
    requires
        0 <= i <= s.len(),
    ensures
        i <= skip_ws(s, i) <= s.len(),
    decreases s.len() - i,
{
    if i < s.len() && is_json_ws(s[i]) {
        lemma_skip_ws_bounds(s, i + 1);
    }
}

/// What a short escape after a backslash denotes.
pub open spec fn unesc_short(e: char) -> char {
    if e == 'b' {
        '\u{8}'
    } else if e == 'f' {
        '\u{c}'
    } else if e == 'n' {
        '\n'
    } else if e == 'r' {
        '\r'
    } else if e == 't' {
        '\t'
    } else {
        e
    }
}

pub open spec fn is_short_escape(e: char) -> bool {
    e == '"' || e == '\\' || e == '/' || e == 'b' || e == 'f' || e == 'n' || e == 'r' || e == 't'
}

/// The value of the four hexadecimal digits at `i`.
pub open spec fn hex4_val(s: Seq<char>, i: int) -> nat {
    hex_digit_val(s[i]) * 0x1000 + hex_digit_val(s[i + 1]) * 0x100 + hex_digit_val(s[i + 2]) * 16
        + hex_digit_val(s[i + 3])
}

pub open spec fn four_hex_at(s: Seq<char>, i: int) -> bool {
    is_hex_digit(s[i]) && is_hex_digit(s[i + 1]) && is_hex_digit(s[i + 2]) && is_hex_digit(
        s[i + 3],
    )
}

pub open spec fn is_high_surrogate(v: nat) -> bool {
    0xD800 <= v <= 0xDBFF
}

pub open spec fn is_low_surrogate(v: nat) -> bool {
    0xDC00 <= v <= 0xDFFF
}

/// The string content read from just after an opening quote up to and over
/// the closing quote: escapes are decoded, a surrogate pair in `\u` escapes
/// denotes one character, unescaped control characters are refused.
pub open spec fn sp_string_body(s: Seq<char>, i: int) -> Option<(Seq<char>, int)>
    decreases s.len() - i,
    when 0 <= i <= s.len()
{
    if i >= s.len() {
        Option::None
    } else {
        let c = s[i];
        if c == '"' {
            Option::Some((Seq::empty(), i + 1))
        } else if c == '\\' {
            if i + 2 > s.len() {
                Option::None
            } else {
                let e = s[i + 1];
                if is_short_escape(e) {
                    match sp_string_body(s, i + 2) {
                        Option::Some(p) => Option::Some((seq![unesc_short(e)] + p.0, p.1)),
                        Option::None => Option::None,
                    }
                } else if e == 'u' {
                    if i + 6 > s.len() || !four_hex_at(s, i + 2) {
                        Option::None
                    } else {
                        let v = hex4_val(s, i + 2);
                        if is_high_surrogate(v) {
                            if i + 12 <= s.len() && s[i + 6] == '\\' && s[i + 7] == 'u'
                                && four_hex_at(s, i + 8) && is_low_surrogate(hex4_val(s, i + 8)) {
                                let w = hex4_val(s, i + 8);
                                let cp = 0x10000 + (v - 0xD800) * 0x400 + (w - 0xDC00);
                                match sp_string_body(s, i + 12) {
                                    Option::Some(p) => Option::Some(
                                        (seq![cp as u32 as char] + p.0, p.1),
                                    ),
                                    Option::None => Option::None,
                                }
                            } else {
                                Option::None
                            }
                        } else if is_low_surrogate(v) {
                            Option::None
                        } else {
                            match sp_string_body(s, i + 6) {
                                Option::Some(p) => Option::Some(
                                    (seq![v as u32 as char] + p.0, p.1),
                                ),
                                Option::None => Option::None,
                            }
                        }
                    }
                } else {
                    Option::None
                }
            }
        } else if (c as u32) >= 0x20 {
            match sp_string_body(s, i + 1) {
                Option::Some(p) => Option::Some((seq![c] + p.0, p.1)),
                Option::None => Option::None,
            }
        } else {
            Option::None
        }
    }
}

pub proof fn lemma_sp_string_body_bounds(s: Seq<char>, i: int)
    requires
        0 <= i <= s.len(),
        sp_string_body(s, i) is Some,
    ensures
        i < sp_string_body(s, i).unwrap().1 <= s.len(),
    decreases s.len() - i,
{
    if i < s.len() {
        let c = s[i];
        if c == '"' {
        } else if c == '\\' {
            if i + 2 <= s.len() {
                let e = s[i + 1];
                if is_short_escape(e) {
                    lemma_sp_string_body_bounds(s, i + 2);
                } else if e == 'u' && i + 6 <= s.len() && four_hex_at(s, i + 2) {
                    let v = hex4_val(s, i + 2);
                    if is_high_surrogate(v) {
                        if i + 12 <= s.len() && s[i + 6] == '\\' && s[i + 7] == 'u'
                            && four_hex_at(s, i + 8) && is_low_surrogate(hex4_val(s, i + 8)) {
                            lemma_sp_string_body_bounds(s, i + 12);
                        }
                    } else if !is_low_surrogate(v) {
                        lemma_sp_string_body_bounds(s, i + 6);
                    }
                }
            }
        } else if (c as u32) >= 0x20 {
            lemma_sp_string_body_bounds(s, i + 1);
        }
    }
}

/// Whether a collection of parsed fields already holds this key.
pub open spec fn keys_contain(fields: Seq<(Seq<char>, JsonV)>, k: Seq<char>) -> bool {
    exists|m: int| 0 <= m < fields.len() && (#[trigger] fields[m]).0 == k
}

/// One JSON value read at `i` (leading whitespace allowed), and the position
/// after it.
pub open spec fn sp_value(s: Seq<char>, i: int) -> Option<(JsonV, int)>
    decreases s.len() - i, 2int,
    when 0 <= i <= s.len()
{
    let i1 = skip_ws(s, i);
    if !(i <= i1 && i1 < s.len()) {
        Option::None
    } else {
        let c = s[i1];
        if c == 'n' {
            if i1 + 4 <= s.len() && s[i1 + 1] == 'u' && s[i1 + 2] == 'l' && s[i1 + 3] == 'l' {
                Option::Some((JsonV::Null, i1 + 4))
            } else {
                Option::None
            }
        } else if c == 't' {
            if i1 + 4 <= s.len() && s[i1 + 1] == 'r' && s[i1 + 2] == 'u' && s[i1 + 3] == 'e' {
                Option::Some((JsonV::Bool(true), i1 + 4))
            } else {
                Option::None
            }
        } else if c == 'f' {
            if i1 + 5 <= s.len() && s[i1 + 1] == 'a' && s[i1 + 2] == 'l' && s[i1 + 3] == 's'
                && s[i1 + 4] == 'e' {
                Option::Some((JsonV::Bool(false), i1 + 5))
            } else {
                Option::None
            }
        } else if c == '"' {
            match sp_string_body(s, i1 + 1) {
                Option::Some(p) => Option::Some((JsonV::Str(p.0), p.1)),
                Option::None => Option::None,
            }
        } else if c == '-' || is_dec_digit(c) {
            match number_end(s, i1) {
                Option::Some(j) => Option::Some((JsonV::Num(s.subrange(i1, j)), j)),
                Option::None => Option::None,
            }
        } else if c == '[' {
            let p = skip_ws(s, i1 + 1);
            if !(i1 + 1 <= p && p < s.len()) {
                Option::None
            } else if s[p] == ']' {
                Option::Some((JsonV::Arr(Seq::empty()), p + 1))
            } else {
                match sp_elements(s, p, Seq::empty()) {
                    Option::Some(q) => Option::Some((JsonV::Arr(q.0), q.1)),
                    Option::None => Option::None,
                }
            }
        } else if c == '{' {
            let p = skip_ws(s, i1 + 1);
            if !(i1 + 1 <= p && p < s.len()) {
                Option::None
            } else if s[p] == '}' {
                Option::Some((JsonV::Obj(Seq::empty()), p + 1))
            } else {
                match sp_members(s, p, Seq::empty()) {
                    Option::Some(q) => Option::Some((JsonV::Obj(q.0), q.1)),
                    Option::None => Option::None,
                }
            }
        } else {
            Option::None
        }
    }
}

/// The elements of an array from the first element on, accumulated in order,
/// and the position after the closing bracket.
pub open spec fn sp_elements(s: Seq<char>, i: int, acc: Seq<JsonV>) -> (Option<(Seq<JsonV>, int)>)
    decreases s.len() - i, 3int,
    when 0 <= i < s.len()
{
    match sp_value(s, i) {
        Option::None => Option::None,
        Option::Some(p) => {
            let v = p.0;
            let j = p.1;
            if !(i < j && j <= s.len()) {
                Option::None
            } else {
                let j2 = skip_ws(s, j);
                if !(j <= j2 && j2 < s.len()) {
                    Option::None
                } else if s[j2] == ',' {
                    if j2 + 1 < s.len() {
                        sp_elements(s, j2 + 1, acc.push(v))
                    } else {
                        Option::None
                    }
                } else if s[j2] == ']' {
                    Option::Some((acc.push(v), j2 + 1))
                } else {
                    Option::None
                }
            }
        },
    }
}

/// The members of an object from the first key on: keys must be unique; the
/// fields are accumulated in the order written.
pub open spec fn sp_members(s: Seq<char>, i: int, acc: Seq<(Seq<char>, JsonV)>) -> (Option<(Seq<(Seq<char>, JsonV)>, int)>)
    decreases s.len() - i, 3int,
    when 0 <= i < s.len()
{
    let i1 = skip_ws(s, i);
    if !(i <= i1 && i1 < s.len()) {
        Option::None
    } else if s[i1] != '"' {
        Option::None
    } else {
        match sp_string_body(s, i1 + 1) {
            Option::None => Option::None,
            Option::Some(kp) => {
                let k = kp.0;
                let j = kp.1;
                if !(i1 + 1 < j && j <= s.len()) {
                    Option::None
                } else if keys_contain(acc, k) {
                    Option::None
                } else {
                    let j2 = skip_ws(s, j);
                    if !(j <= j2 && j2 < s.len()) {
                        Option::None
                    } else if s[j2] != ':' {
                        Option::None
                    } else {
                        match sp_value(s, j2 + 1) {
                            Option::None => Option::None,
                            Option::Some(vp) => {
                                let v = vp.0;
                                let j3 = vp.1;
                                if !(j2 + 1 < j3 && j3 <= s.len()) {
                                    Option::None
                                } else {
                                    let acc2 = acc.push((k, v));
                                    let j4 = skip_ws(s, j3);
                                    if !(j3 <= j4 && j4 < s.len()) {
                                        Option::None
                                    } else if s[j4] == ',' {
                                        if j4 + 1 < s.len() {
                                            sp_members(s, j4 + 1, acc2)
                                        } else {
                                            Option::None
                                        }
                                    } else if s[j4] == '}' {
                                        Option::Some((acc2, j4 + 1))
                                    } else {
                                        Option::None
                                    }
                                }
                            },
                        }
                    }
                }
            },
        }
    }
}


/// One complete JSON document: a single value with nothing but whitespace
/// around it.
pub open spec fn sp_document(s: Seq<char>) -> Option<JsonV> {
    let first = sp_value(s, 0);
    match first {
        Option::None => Option::None,
        Option::Some(p) => {
            if !(0 <= p.1 && p.1 <= s.len()) {
                Option::None
            } else if skip_ws(s, p.1) == s.len() {
                Option::Some(p.0)
            } else {
                Option::None
            }
        },
    }
}


// ------------------------------------------------------------------
// Executable parser
// ------------------------------------------------------------------
/// Relies on `char::from_u32`: yields the character with exactly this code
/// point, and nothing for surrogate values or values above 0x10FFFF.
#[verifier::external_body]
fn char_from_u32(v: u32) -> (r: Option<char>)
    ensures
        (r is Some) <==> (v < 0xD800 || (0xE000 <= v && v <= 0x10FFFF)),
        r is Some ==> r.unwrap() == (v as char),
{
    char::from_u32(v)
}

fn skip_ws_exec(s: &str, i: usize) -> (r: usize)
    requires
        i as int <= s@.len(),
    ensures
        r as int == skip_ws(s@, i as int),
        i <= r,
        r as int <= s@.len(),
{
    let n: usize = s.unicode_len();
    let mut k: usize = i;
    while k < n && is_json_ws_exec(s.get_char(k))
        invariant
            i <= k <= n,
            n == s@.len(),
            skip_ws(s@, i as int) == skip_ws(s@, k as int),
        decreases n - k,
    {
        k = k + 1;
    }
    k
}

/// Reads one JSON number starting exactly at `i`, returning its lexical text
/// and the position after it.
pub fn parse_number(s: &str, i: usize) -> (r: Option<(String, usize)>)
    requires
        i as int <= s@.len(),
    ensures
        (match number_end(s@, i as int) {
            Option::Some(j) => r is Some && r.unwrap().0@ == s@.subrange(i as int, j)
                && r.unwrap().1 as int == j && i < r.unwrap().1 && r.unwrap().1 as int
                <= s@.len(),
            Option::None => r is None,
        }),
{
    let n: usize = s.unicode_len();
    let j0: usize = if i < n && s.get_char(i) == '-' {
        i + 1
    } else {
        i
    };
    if !(j0 < n && is_dec_digit_exec(s.get_char(j0))) {
        return None;
    }
    let j1: usize = if s.get_char(j0) == '0' {
        j0 + 1
    } else {
        digits_end_exec(s, j0)
    };
    if j1 < n && s.get_char(j1) == '.' && !(j1 + 1 < n && is_dec_digit_exec(
        s.get_char(j1 + 1),
    )) {
        return None;
    }
    let j2: usize = if j1 < n && s.get_char(j1) == '.' {
        digits_end_exec(s, j1 + 1)
    } else {
        j1
    };
    let jend: usize;
    if j2 < n && (s.get_char(j2) == 'e' || s.get_char(j2) == 'E') {
        let j3: usize = if j2 + 1 < n && (s.get_char(j2 + 1) == '+' || s.get_char(j2 + 1)
            == '-') {
            j2 + 2
        } else {
            j2 + 1
        };
        if !(j3 < n && is_dec_digit_exec(s.get_char(j3))) {
            return None;
        }
        jend = digits_end_exec(s, j3);
    } else {
        jend = j2;
    }
    proof {
        lemma_number_end_bounds(s@, i as int);
    }
    let text: String = s.substring_char(i, jend).to_owned();
    Some((text, jend))
}

/// What a short escape after a backslash denotes.
fn unesc_short_exec(e: char) -> (r: char)
    ensures
        r == unesc_short(e),
{
    if e == 'b' {
        '\u{8}'
    } else if e == 'f' {
        '\u{c}'
    } else if e == 'n' {
        '\n'
    } else if e == 'r' {
        '\r'
    } else if e == 't' {
        '\t'
    } else {
        e
    }
}


/// One step of `sp_string_body`, characterized case by case.
proof fn lemma_sb_step(s: Seq<char>, cur: int)
    requires
        0 <= cur < s.len(),
    ensures
        s[cur] == '"' ==> sp_string_body(s, cur) == Option::Some(
            (Seq::<char>::empty(), cur + 1),
        ),
        (s[cur] == '\\' && cur + 2 > s.len()) ==> sp_string_body(s, cur) is None,
        (s[cur] == '\\' && cur + 2 <= s.len() && is_short_escape(s[cur + 1]))
            ==> sp_string_body(s, cur) == (match sp_string_body(s, cur + 2) {
            Option::Some(p) => Option::Some((seq![unesc_short(s[cur + 1])] + p.0, p.1)),
            Option::None => Option::None,
        }),
        (s[cur] == '\\' && cur + 2 <= s.len() && !is_short_escape(s[cur + 1]) && s[cur + 1]
            != 'u') ==> sp_string_body(s, cur) is None,
        (s[cur] == '\\' && cur + 2 <= s.len() && s[cur + 1] == 'u' && (cur + 6 > s.len()
            || !four_hex_at(s, cur + 2))) ==> sp_string_body(s, cur) is None,
        (s[cur] == '\\' && cur + 6 <= s.len() && s[cur + 1] == 'u' && four_hex_at(s, cur + 2)
            && !is_high_surrogate(hex4_val(s, cur + 2)) && !is_low_surrogate(
            hex4_val(s, cur + 2),
        )) ==> sp_string_body(s, cur) == (match sp_string_body(s, cur + 6) {
            Option::Some(p) => Option::Some(
                (seq![hex4_val(s, cur + 2) as u32 as char] + p.0, p.1),
            ),
            Option::None => Option::None,
        }),
        (s[cur] == '\\' && cur + 6 <= s.len() && s[cur + 1] == 'u' && four_hex_at(s, cur + 2)
            && is_low_surrogate(hex4_val(s, cur + 2))) ==> sp_string_body(s, cur) is None,
        (s[cur] == '\\' && cur + 6 <= s.len() && s[cur + 1] == 'u' && four_hex_at(s, cur + 2)
            && is_high_surrogate(hex4_val(s, cur + 2)) && !(cur + 12 <= s.len() && s[cur + 6]
            == '\\' && s[cur + 7] == 'u' && four_hex_at(s, cur + 8) && is_low_surrogate(
            hex4_val(s, cur + 8),
        ))) ==> sp_string_body(s, cur) is None,
        (s[cur] == '\\' && cur + 12 <= s.len() && s[cur + 1] == 'u' && four_hex_at(s, cur + 2)
            && is_high_surrogate(hex4_val(s, cur + 2)) && s[cur + 6] == '\\' && s[cur + 7]
            == 'u' && four_hex_at(s, cur + 8) && is_low_surrogate(hex4_val(s, cur + 8)))
            ==> sp_string_body(s, cur) == (match sp_string_body(s, cur + 12) {
            Option::Some(p) => Option::Some(
                (
                    seq![
                        (0x10000 + (hex4_val(s, cur + 2) - 0xD800) * 0x400 + (hex4_val(
                            s,
                            cur + 8,
                        ) - 0xDC00)) as u32 as char,
                    ] + p.0,
                    p.1,
                ),
            ),
            Option::None => Option::None,
        }),
        (s[cur] != '"' && s[cur] != '\\' && (s[cur] as u32) >= 0x20) ==> sp_string_body(s, cur)
            == (match sp_string_body(s, cur + 1) {
            Option::Some(p) => Option::Some((seq![s[cur]] + p.0, p.1)),
            Option::None => Option::None,
        }),
        (s[cur] != '"' && s[cur] != '\\' && (s[cur] as u32) < 0x20) ==> sp_string_body(s, cur)
            is None,
{
}

/// Reads a string body from just after the opening quote up to and over the
/// closing quote, decoding escapes.
#[verifier::rlimit(100)]
fn parse_string_body(s: &str, i: usize) -> (r: Option<(String, usize)>)
    requires
        i as int <= s@.len(),
    ensures
        (match sp_string_body(s@, i as int) {
            Option::Some(p) => r is Some && r.unwrap().0@ == p.0 && r.unwrap().1 as int == p.1
                && i < r.unwrap().1 && r.unwrap().1 as int <= s@.len(),
            Option::None => r is None,
        }),
{
    let n: usize = s.unicode_len();
    let mut acc: Vec<char> = Vec::new();
    let mut cur: usize = i;
    proof {
        assert(acc@ =~= Seq::<char>::empty());
    }
    loop
        invariant
            i <= cur <= n,
            n == s@.len(),
            (match sp_string_body(s@, cur as int) {
                Option::Some(p) => sp_string_body(s@, i as int) == Option::Some(
                    (acc@ + p.0, p.1),
                ),
                Option::None => sp_string_body(s@, i as int) is None,
            }),
        decreases n - cur,
    {
        if cur >= n {
            return None;
        }
        proof {
            lemma_sb_step(s@, cur as int);
        }
        let c: char = s.get_char(cur);
        if c == '"' {
            let out: String = string_from_chars(&acc);
            proof {
                assert(acc@ + Seq::<char>::empty() =~= acc@);
            }
            return Some((out, cur + 1));
        } else if c == '\\' {
            if n - cur < 2 {
                return None;
            }
            let e: char = s.get_char(cur + 1);
            if e == '"' || e == '\\' || e == '/' || e == 'b' || e == 'f' || e == 'n' || e == 'r'
                || e == 't' {
                let d: char = unesc_short_exec(e);
                let ghost acc0 = acc@;
                acc.push(d);
                proof {
                    assert(acc@ == acc0.push(d));
                    if sp_string_body(s@, cur as int + 2) is Some {
                        let p2 = sp_string_body(s@, cur as int + 2).unwrap();
                        assert(acc@ + p2.0 =~= acc0 + (seq![d] + p2.0));
                    }
                }
                cur = cur + 2;
            } else if e == 'u' {
                if n - cur < 6 {
                    return None;
                }
                let h0: char = s.get_char(cur + 2);
                let h1: char = s.get_char(cur + 3);
                let h2: char = s.get_char(cur + 4);
                let h3: char = s.get_char(cur + 5);
                if !(is_hex_digit_exec(h0) && is_hex_digit_exec(h1) && is_hex_digit_exec(h2)
                    && is_hex_digit_exec(h3)) {
                    return None;
                }
                let v: u32 = hex_digit_val_exec(h0) * 0x1000 + hex_digit_val_exec(h1) * 0x100
                    + hex_digit_val_exec(h2) * 16 + hex_digit_val_exec(h3);
                proof {
                    assert(v as nat == hex4_val(s@, cur as int + 2));
                }
                if 0xD800 <= v && v <= 0xDBFF {
                    if n - cur < 12 {
                        return None;
                    }
                    if !(s.get_char(cur + 6) == '\\' && s.get_char(cur + 7) == 'u') {
                        return None;
                    }
                    let g0: char = s.get_char(cur + 8);
                    let g1: char = s.get_char(cur + 9);
                    let g2: char = s.get_char(cur + 10);
                    let g3: char = s.get_char(cur + 11);
                    if !(is_hex_digit_exec(g0) && is_hex_digit_exec(g1) && is_hex_digit_exec(g2)
                        && is_hex_digit_exec(g3)) {
                        return None;
                    }
                    let w: u32 = hex_digit_val_exec(g0) * 0x1000 + hex_digit_val_exec(g1)
                        * 0x100 + hex_digit_val_exec(g2) * 16 + hex_digit_val_exec(g3);
                    proof {
                        assert(w as nat == hex4_val(s@, cur as int + 8));
                    }
                    if !(0xDC00 <= w && w <= 0xDFFF) {
                        return None;
                    }
                    let cp: u32 = 0x10000 + (v - 0xD800) * 0x400 + (w - 0xDC00);
                    match char_from_u32(cp) {
                        Option::Some(ch) => {
                            let ghost acc0 = acc@;
                            acc.push(ch);
                            proof {
                                assert(acc@ == acc0.push(ch));
                                let hv = hex4_val(s@, cur as int + 2);
                                let lv = hex4_val(s@, cur as int + 8);
                                assert(0xD800 <= hv <= 0xDBFF && 0xDC00 <= lv <= 0xDFFF);
                                let cpv = 0x10000 + (hv - 0xD800) * 0x400 + (lv - 0xDC00);
                                assert(0x10000 <= cpv <= 0x10FFFF);
                                let spc = cpv as u32 as char;
                                assert(cpv as u32 as nat == cpv);
                                assert(cp == cpv as u32);
                                assert(ch == spc);
                                if sp_string_body(s@, cur as int + 12) is Some {
                                    let p2 = sp_string_body(s@, cur as int + 12).unwrap();
                                    assert(acc@ + p2.0 =~= acc0 + (seq![ch] + p2.0));
                                }
                            }
                            cur = cur + 12;
                        },
                        Option::None => {
                            proof {
                                assert(false);
                            }
                            return None;
                        },
                    }
                } else if 0xDC00 <= v && v <= 0xDFFF {
                    return None;
                } else {
                    match char_from_u32(v) {
                        Option::Some(ch) => {
                            let ghost acc0 = acc@;
                            acc.push(ch);
                            proof {
                                assert(acc@ == acc0.push(ch));
                                let hv = hex4_val(s@, cur as int + 2);
                                assert(hv < 0x10000);
                                assert(!(0xD800 <= hv <= 0xDFFF));
                                let spc = hv as u32 as char;
                                assert(hv as u32 as nat == hv);
                                assert(v == hv as u32);
                                assert(ch == spc);
                                if sp_string_body(s@, cur as int + 6) is Some {
                                    let p2 = sp_string_body(s@, cur as int + 6).unwrap();
                                    assert(acc@ + p2.0 =~= acc0 + (seq![ch] + p2.0));
                                }
                            }
                            cur = cur + 6;
                        },
                        Option::None => {
                            proof {
                                assert(false);
                            }
                            return None;
                        },
                    }
                }
            } else {
                return None;
            }
        } else if (c as u32) >= 0x20 {
            let ghost acc0 = acc@;
            acc.push(c);
            proof {
                assert(acc@ == acc0.push(c));
                if sp_string_body(s@, cur as int + 1) is Some {
                    let p2 = sp_string_body(s@, cur as int + 1).unwrap();
                    assert(acc@ + p2.0 =~= acc0 + (seq![c] + p2.0));
                }
            }
            cur = cur + 1;
        } else {
            return None;
        }
    }
}

pub proof fn lemma_model_list_snoc(l: Seq<JsonValue>, x: JsonValue)
    ensures
        JsonValue::model_list(l.push(x)) == JsonValue::model_list(l).push(x.model()),
    decreases l,
{
    if l.len() == 0 {
        assert(l.push(x)[0] == x);
        assert(l.push(x).drop_first() =~= Seq::<JsonValue>::empty());
        assert(JsonValue::model_list(Seq::<JsonValue>::empty()) == Seq::<JsonV>::empty());
        assert(JsonValue::model_list(l) == Seq::<JsonV>::empty());
        assert(JsonValue::model_list(l.push(x)) =~= JsonValue::model_list(l).push(x.model()));
    } else {
        lemma_model_list_snoc(l.drop_first(), x);
        assert(l.push(x).drop_first() =~= l.drop_first().push(x));
        assert(l.push(x)[0] == l[0]);
        assert(JsonValue::model_list(l) == seq![l[0].model()] + JsonValue::model_list(
            l.drop_first(),
        ));
        assert(JsonValue::model_list(l.push(x)) == seq![l[0].model()] + JsonValue::model_list(
            l.drop_first().push(x),
        ));
        assert(JsonValue::model_list(l.push(x)) =~= JsonValue::model_list(l).push(x.model()));
    }
}

pub proof fn lemma_model_fields_snoc(l: Seq<(String, JsonValue)>, x: (String, JsonValue))
    ensures
        JsonValue::model_fields(l.push(x)) == JsonValue::model_fields(l).push(
            (x.0@, x.1.model()),
        ),
    decreases l,
{
    if l.len() == 0 {
        assert(l.push(x)[0] == x);
        assert(l.push(x).drop_first() =~= Seq::<(String, JsonValue)>::empty());
        assert(JsonValue::model_fields(Seq::<(String, JsonValue)>::empty()) == Seq::<(
            Seq<char>,
            JsonV,
        )>::empty());
        assert(JsonValue::model_fields(l) == Seq::<(Seq<char>, JsonV)>::empty());
        assert(JsonValue::model_fields(l.push(x)) =~= JsonValue::model_fields(l).push(
            (x.0@, x.1.model()),
        ));
    } else {
        lemma_model_fields_snoc(l.drop_first(), x);
        assert(l.push(x).drop_first() =~= l.drop_first().push(x));
        assert(l.push(x)[0] == l[0]);
        assert(JsonValue::model_fields(l) == seq![(l[0].0@, l[0].1.model())]
            + JsonValue::model_fields(l.drop_first()));
        assert(JsonValue::model_fields(l.push(x)) == seq![(l[0].0@, l[0].1.model())]
            + JsonValue::model_fields(l.drop_first().push(x)));
        assert(JsonValue::model_fields(l.push(x)) =~= JsonValue::model_fields(l).push(
            (x.0@, x.1.model()),
        ));
    }
}

/// Whether one of the fields already carries this key.
fn fields_contain_key(acc: &Vec<(String, JsonValue)>, k: &String) -> (r: bool)
    ensures
        r == keys_contain(JsonValue::model_fields(acc@), k@),
{
    proof {
        lemma_model_fields_len(acc@);
    }
    let n: usize = acc.len();
    let mut m: usize = 0;
    while m < n
        invariant
            0 <= m <= n,
            n == acc@.len(),
            JsonValue::model_fields(acc@).len() == n,
            forall|t: int|
                0 <= t < n ==> #[trigger] JsonValue::model_fields(acc@)[t] == (
                    acc@[t].0@,
                    acc@[t].1.model(),
                ),
            forall|t: int| 0 <= t < m ==> #[trigger] acc@[t].0@ != k@,
        decreases n - m,
    {
        if acc[m].0 == *k {
            proof {
                assert(JsonValue::model_fields(acc@)[m as int].0 == k@);
            }
            return true;
        }
        m = m + 1;
    }
    proof {
        assert forall|t: int|
            0 <= t < JsonValue::model_fields(acc@).len() implies (#[trigger] JsonValue::model_fields(
            acc@,
        )[t]).0 != k@ by {
            assert(acc@[t].0@ != k@);
        }
    }
    false
}

/// Reads one JSON value starting at `i` (leading whitespace allowed),
/// returning it and the position after it.
pub fn parse_value(s: &str, i: usize) -> (r: Option<(JsonValue, usize)>)
    requires
        i as int <= s@.len(),
    ensures
        (match sp_value(s@, i as int) {
            Option::Some(p) => r is Some && r.unwrap().0.model() == p.0 && r.unwrap().1 as int
                == p.1 && i < r.unwrap().1 && r.unwrap().1 as int <= s@.len(),
            Option::None => r is None,
        }),
    decreases s@.len() - i,
{
    let n: usize = s.unicode_len();
    let i1: usize = skip_ws_exec(s, i);
    if i1 >= n {
        return None;
    }
    let c: char = s.get_char(i1);
    if c == 'n' {
        if n - i1 >= 4 && s.get_char(i1 + 1) == 'u' && s.get_char(i1 + 2) == 'l' && s.get_char(
            i1 + 3,
        ) == 'l' {
            return Some((JsonValue::Null, i1 + 4));
        } else {
            return None;
        }
    } else if c == 't' {
        if n - i1 >= 4 && s.get_char(i1 + 1) == 'r' && s.get_char(i1 + 2) == 'u' && s.get_char(
            i1 + 3,
        ) == 'e' {
            return Some((JsonValue::Bool(true), i1 + 4));
        } else {
            return None;
        }
    } else if c == 'f' {
        if n - i1 >= 5 && s.get_char(i1 + 1) == 'a' && s.get_char(i1 + 2) == 'l' && s.get_char(
            i1 + 3,
        ) == 's' && s.get_char(i1 + 4) == 'e' {
            return Some((JsonValue::Bool(false), i1 + 5));
        } else {
            return None;
        }
    } else if c == '"' {
        match parse_string_body(s, i1 + 1) {
            Option::Some(p) => {
                return Some((JsonValue::Str(p.0), p.1));
            },
            Option::None => {
                return None;
            },
        }
    } else if c == '-' || is_dec_digit_exec(c) {
        match parse_number(s, i1) {
            Option::Some(p) => {
                return Some((JsonValue::Num(p.0), p.1));
            },
            Option::None => {
                return None;
            },
        }
    } else if c == '[' {
        let p: usize = skip_ws_exec(s, i1 + 1);
        if p >= n {
            return None;
        }
        if s.get_char(p) == ']' {
            let empty_items: Vec<JsonValue> = Vec::new();
            proof {
                assert(JsonValue::model_list(empty_items@) =~= Seq::<JsonV>::empty());
            }
            return Some((JsonValue::Arr(empty_items), p + 1));
        }
        let mut acc: Vec<JsonValue> = Vec::new();
        let mut cur: usize = p;
        proof {
            assert(JsonValue::model_list(acc@) =~= Seq::<JsonV>::empty());
        }
        loop
            invariant
                i < cur < n,
                n == s@.len(),
                (match sp_elements(s@, cur as int, JsonValue::model_list(acc@)) {
                    Option::Some(q) => sp_value(s@, i as int) == Option::Some(
                        (JsonV::Arr(q.0), q.1),
                    ),
                    Option::None => sp_value(s@, i as int) is None,
                }),
            decreases n - cur,
        {
            let el = parse_value(s, cur);
            match el {
                Option::None => {
                    return None;
                },
                Option::Some(vj) => {
                    let (v, j) = vj;
                    let j2: usize = skip_ws_exec(s, j);
                    if j2 >= n {
                        return None;
                    }
                    let cc: char = s.get_char(j2);
                    if cc == ',' {
                        if j2 + 1 >= n {
                            return None;
                        }
                        proof {
                            lemma_model_list_snoc(acc@, v);
                        }
                        acc.push(v);
                        cur = j2 + 1;
                    } else if cc == ']' {
                        proof {
                            lemma_model_list_snoc(acc@, v);
                        }
                        acc.push(v);
                        return Some((JsonValue::Arr(acc), j2 + 1));
                    } else {
                        return None;
                    }
                },
            }
        }
    } else if c == '{' {
        let p: usize = skip_ws_exec(s, i1 + 1);
        if p >= n {
            return None;
        }
        if s.get_char(p) == '}' {
            let empty_fields: Vec<(String, JsonValue)> = Vec::new();
            proof {
                assert(JsonValue::model_fields(empty_fields@) =~= Seq::<(Seq<char>, JsonV)>::empty());
            }
            return Some((JsonValue::Obj(empty_fields), p + 1));
        }
        let mut acc: Vec<(String, JsonValue)> = Vec::new();
        let mut cur: usize = p;
        proof {
            assert(JsonValue::model_fields(acc@) =~= Seq::<(Seq<char>, JsonV)>::empty());
        }
        loop
            invariant
                i < cur < n,
                n == s@.len(),
                (match sp_members(s@, cur as int, JsonValue::model_fields(acc@)) {
                    Option::Some(q) => sp_value(s@, i as int) == Option::Some(
                        (JsonV::Obj(q.0), q.1),
                    ),
                    Option::None => sp_value(s@, i as int) is None,
                }),
            decreases n - cur,
        {
            let kpos: usize = skip_ws_exec(s, cur);
            if kpos >= n {
                return None;
            }
            if s.get_char(kpos) != '"' {
                return None;
            }
            let kp = parse_string_body(s, kpos + 1);
            match kp {
                Option::None => {
                    return None;
                },
                Option::Some(kj) => {
                    let (k, j) = kj;
                    if fields_contain_key(&acc, &k) {
                        return None;
                    }
                    let j2: usize = skip_ws_exec(s, j);
                    if j2 >= n {
                        return None;
                    }
                    if s.get_char(j2) != ':' {
                        return None;
                    }
                    let vp = parse_value(s, j2 + 1);
                    match vp {
                        Option::None => {
                            return None;
                        },
                        Option::Some(vj) => {
                            let (v, j3) = vj;
                            let j4: usize = skip_ws_exec(s, j3);
                            if j4 >= n {
                                return None;
                            }
                            let cc: char = s.get_char(j4);
                            if cc == ',' {
                                if j4 + 1 >= n {
                                    return None;
                                }
                                proof {
                                    lemma_model_fields_snoc(acc@, (k, v));
                                }
                                acc.push((k, v));
                                cur = j4 + 1;
                            } else if cc == '}' {
                                proof {
                                    lemma_model_fields_snoc(acc@, (k, v));
                                }
                                acc.push((k, v));
                                return Some((JsonValue::Obj(acc), j4 + 1));
                            } else {
                                return None;
                            }
                        },
                    }
                },
            }
        }
    } else {
        return None;
    }
}

/// Parses one complete JSON document: a single value with nothing but
/// whitespace around it.
pub fn parse_json(s: &str) -> (r: Option<JsonValue>)
    ensures
        (match sp_document(s@) {
            Option::Some(m) => r is Some && r.unwrap().model() == m,
            Option::None => r is None,
        }),
{
    match parse_value(s, 0) {
        Option::None => None,
        Option::Some(vj) => {
            let (v, j) = vj;
            let j2: usize = skip_ws_exec(s, j);
            if j2 == s.unicode_len() {
                Some(v)
            } else {
                None
            }
        },
    }
}



// ------------------------------------------------------------------
// Round trip: parsing what the serializer wrote yields the value back
// ------------------------------------------------------------------
/// Whether position `j` does not continue a number scan: the end of input or
/// a character that extends no number.
pub open spec fn delimits(s: Seq<char>, j: int) -> bool {
    j == s.len() || !(is_dec_digit(s[j]) || s[j] == '.' || s[j] == 'e' || s[j] == 'E')
}

proof fn lemma_embed_index(s: Seq<char>, i: int, w: Seq<char>)
    requires
        0 <= i,
        i + w.len() <= s.len(),
        s.subrange(i, i + w.len()) == w,
    ensures
        forall|k: int| 0 <= k < w.len() ==> s[i + k] == w[k],
{
    assert forall|k: int| 0 <= k < w.len() implies s[i + k] == w[k] by {
        assert(w[k] == s.subrange(i, i + w.len() as int)[k]);
    }
}

proof fn lemma_digits_embed(s: Seq<char>, i: int, t: Seq<char>, a: int)
    requires
        0 <= i,
        i + t.len() <= s.len(),
        forall|k: int| 0 <= k < t.len() ==> s[i + k] == t[k],
        0 <= a <= t.len(),
        i + t.len() == s.len() || !is_dec_digit(s[i + t.len()]),
    ensures
        digits_end(s, i + a) == i + digits_end(t, a),
    decreases t.len() - a,
{
    if a < t.len() && is_dec_digit(t[a]) {
        lemma_digits_embed(s, i, t, a + 1);
    }
}

#[verifier::rlimit(100)]
#[verifier::spinoff_prover]
proof fn lemma_number_embed(s: Seq<char>, i: int, t: Seq<char>)
    requires
        0 <= i,
        i + t.len() <= s.len(),
        s.subrange(i, i + t.len()) == t,
        is_number_text(t),
        delimits(s, i + t.len()),
    ensures
        number_end(s, i) == Option::Some(i + t.len() as int),
    decreases t.len(),
{
    lemma_embed_index(s, i, t);
    let nt = t.len() as int;
    assert(nt >= 1);
    let j0t = if t[0] == '-' {
        1int
    } else {
        0int
    };
    assert(s[i] == t[0]);
    assert(j0t < nt && is_dec_digit(t[j0t]));
    lemma_digits_embed(s, i, t, j0t);
    lemma_digits_end_bounds(t, j0t);
    let j1t = if t[j0t] == '0' {
        j0t + 1
    } else {
        digits_end(t, j0t)
    };
    assert(j1t <= nt);
    // the fraction, on both sides
    if j1t < nt && t[j1t] == '.' {
        assert(j1t + 1 < nt && is_dec_digit(t[j1t + 1]));
        lemma_digits_embed(s, i, t, j1t + 1);
    } else {
        if j1t < nt {
            assert(s[i + j1t] == t[j1t]);
        } else {
            assert(j1t == nt);
            assert(i + j1t == s.len() || !(s[i + j1t] == '.' && true) || s[i + j1t] != '.');
        }
    }
    if j1t < nt && t[j1t] == '.' {
        lemma_digits_end_bounds(t, j1t + 1);
    }
    let j2t = if j1t < nt && t[j1t] == '.' {
        digits_end(t, j1t + 1)
    } else {
        j1t
    };
    assert(j2t <= nt);
    // the exponent, on both sides
    if j2t < nt && (t[j2t] == 'e' || t[j2t] == 'E') {
        let j3t = if j2t + 1 < nt && (t[j2t + 1] == '+' || t[j2t + 1] == '-') {
            j2t + 2
        } else {
            j2t + 1
        };
        assert(j3t < nt && is_dec_digit(t[j3t]));
        lemma_digits_embed(s, i, t, j3t);
        assert(digits_end(t, j3t) == nt);
    } else {
        assert(number_end(t, 0) == Option::Some(j2t));
        assert(j2t == nt);
    }
}

/// The first character of a valid value's rendering is its dispatch
/// character: never whitespace.
proof fn lemma_ser_first(v: JsonV)
    requires
        valid_json(v),
    ensures
        ser_value(v).len() >= 1,
        !is_json_ws(ser_value(v)[0]),
{
    match v {
        JsonV::Num(t) => {
            assert(t.len() >= 1);
            assert(t[0] == '-' || is_dec_digit(t[0]));
        },
        _ => {},
    }
}


proof fn lemma_char_control(c: char)
    requires
        (c as u32) < 0x20,
    ensures
        (c as nat) < 0x20,
        !is_high_surrogate(c as nat),
        !is_low_surrogate(c as nat),
        ((c as nat) as u32) as char == c,
{
}

#[verifier::rlimit(100)]
#[verifier::spinoff_prover]
proof fn lemma_rt_string(s: Seq<char>, i: int, cs: Seq<char>)
    requires
        0 <= i,
        i + ser_str_body(cs).len() + 1 <= s.len(),
        s.subrange(i, i + ser_str_body(cs).len()) == ser_str_body(cs),
        s[i + ser_str_body(cs).len()] == '"',
    ensures
        sp_string_body(s, i) == Option::Some((cs, i + ser_str_body(cs).len() + 1)),
    decreases cs.len(),
{
    lemma_embed_index(s, i, ser_str_body(cs));
    if cs.len() == 0 {
        assert(ser_str_body(cs).len() == 0);
        assert(s[i] == '"');
    } else {
        let c = cs[0];
        let e = esc_char(c);
        let rest = ser_str_body(cs.drop_first());
        assert(ser_str_body(cs) == e + rest);
        assert forall|k: int| 0 <= k < e.len() implies s[i + k] == e[k] by {
            assert(ser_str_body(cs)[k] == e[k]);
        }
        let i2 = i + e.len() as int;
        assert(s.subrange(i2, i2 + rest.len()) =~= ser_str_body(cs).subrange(
            e.len() as int,
            ser_str_body(cs).len() as int,
        ));
        assert(s.subrange(i2, i2 + rest.len()) =~= rest);
        assert(s[i2 + rest.len()] == '"');
        lemma_rt_string(s, i2, cs.drop_first());
        lemma_sb_step(s, i);
        if c == '"' || c == '\\' {
            assert(e == seq!['\\', c]);
            assert(s[i + 0] == e[0] && s[i + 1] == e[1]);
            assert(s[i] == '\\' && s[i + 1] == c);
            assert(is_short_escape(s[i + 1]));
            assert(unesc_short(c) == c);
            assert(seq![c] + cs.drop_first() =~= cs);
        } else if c == '\u{8}' || c == '\u{c}' || c == '\n' || c == '\r' || c == '\t' {
            let sc = if c == '\u{8}' {
                'b'
            } else if c == '\u{c}' {
                'f'
            } else if c == '\n' {
                'n'
            } else if c == '\r' {
                'r'
            } else {
                't'
            };
            assert(e == seq!['\\', sc]);
            assert(s[i + 0] == e[0] && s[i + 1] == e[1]);
            assert(s[i] == '\\' && s[i + 1] == sc);
            assert(is_short_escape(sc));
            assert(unesc_short(sc) == c);
            assert(seq![c] + cs.drop_first() =~= cs);
        } else if (c as u32) < 0x20 {
            assert(e == seq!['\\', 'u'] + hex_fixed(c as nat, 4));
            lemma_char_control(c);
            lemma_hex_fixed_char_props(c);
            assert(e.len() == 6);
            assert(s[i + 0] == e[0] && s[i + 1] == e[1]);
            assert(s[i + 2] == e[2] && s[i + 3] == e[3] && s[i + 4] == e[4] && s[i + 5] == e[5]);
            assert(s[i] == '\\' && s[i + 1] == 'u');
            assert(!is_short_escape('u'));
            assert forall|k: int| 0 <= k < 4 implies s[i + 2 + k] == #[trigger] hex_fixed(
                c as nat,
                4,
            )[k] by {
                assert(e[2 + k] == hex_fixed(c as nat, 4)[k]);
            }
            assert(e[2] == hex_fixed(c as nat, 4)[0] && e[3] == hex_fixed(c as nat, 4)[1]
                && e[4] == hex_fixed(c as nat, 4)[2] && e[5] == hex_fixed(c as nat, 4)[3]);
            assert(is_hex_digit(hex_fixed(c as nat, 4)[0]) && is_hex_digit(
                hex_fixed(c as nat, 4)[1],
            ) && is_hex_digit(hex_fixed(c as nat, 4)[2]) && is_hex_digit(
                hex_fixed(c as nat, 4)[3],
            ));
            assert(four_hex_at(s, i + 2));
            assert(hex4_val(s, i + 2) == hex_seq_val(hex_fixed(c as nat, 4))) by {
                lemma_hex4_is_hex_seq_val(s, i + 2, hex_fixed(c as nat, 4));
            }
            assert(hex4_val(s, i + 2) == c as nat);
            assert(!is_high_surrogate(c as nat) && !is_low_surrogate(c as nat));
            assert((c as nat) as u32 as char == c);
            assert(seq![c] + cs.drop_first() =~= cs);
        } else {
            assert(e == seq![c]);
            assert(s[i + 0] == e[0]);
            assert(s[i] == c);
            assert(s[i] != '"' && s[i] != '\\');
            assert(seq![c] + cs.drop_first() =~= cs);
        }
    }
}

/// The four digits of a control character's `\u00XX` escape recover its
/// code point.
proof fn lemma_hex_fixed_char_props(c: char)
    requires
        (c as u32) < 0x20,
    ensures
        hex_fixed(c as nat, 4).len() == 4,
        all_hex_digits(hex_fixed(c as nat, 4)),
        hex_seq_val(hex_fixed(c as nat, 4)) == c as nat,
{
    crate::text::lemma_hex_fixed_props(c as nat, 4);
    assert(pow_nat(16, 4) == 0x10000) by {
        reveal_with_fuel(pow_nat, 5);
    }
}

proof fn lemma_hex4_is_hex_seq_val(s: Seq<char>, i: int, w: Seq<char>)
    requires
        w.len() == 4,
        0 <= i,
        i + 4 <= s.len(),
        forall|k: int| 0 <= k < 4 ==> s[i + k] == w[k],
    ensures
        hex4_val(s, i) == hex_seq_val(w),
{
    assert(w.drop_last() =~= w.subrange(0, 3));
    assert(w.subrange(0, 3).drop_last() =~= w.subrange(0, 2));
    assert(w.subrange(0, 2).drop_last() =~= w.subrange(0, 1));
    assert(w.subrange(0, 1).drop_last() =~= w.subrange(0, 0));
    assert(hex_seq_val(w.subrange(0, 0)) == 0);
    assert(hex_seq_val(w.subrange(0, 1)) == hex_digit_val(w[0]));
    assert(hex_seq_val(w.subrange(0, 2)) == hex_digit_val(w[0]) * 16 + hex_digit_val(w[1]));
    assert(hex_seq_val(w.subrange(0, 3)) == (hex_digit_val(w[0]) * 16 + hex_digit_val(w[1]))
        * 16 + hex_digit_val(w[2]));
    assert(hex_seq_val(w) == ((hex_digit_val(w[0]) * 16 + hex_digit_val(w[1])) * 16
        + hex_digit_val(w[2])) * 16 + hex_digit_val(w[3]));
}

/// Parsing the rendering of a valid value, embedded anywhere, yields the
/// value and stops exactly after it.
#[verifier::rlimit(100)]
#[verifier::spinoff_prover]
proof fn lemma_rt_value(s: Seq<char>, i: int, v: JsonV)
    requires
        valid_json(v),
        0 <= i,
        i + ser_value(v).len() <= s.len(),
        s.subrange(i, i + ser_value(v).len()) == ser_value(v),
        delimits(s, i + ser_value(v).len()),
    ensures
        sp_value(s, i) == Option::Some((v, i + ser_value(v).len() as int)),
    decreases v,
{
    let w = ser_value(v);
    lemma_embed_index(s, i, w);
    lemma_ser_first(v);
    assert(s[i] == w[0]);
    assert(skip_ws(s, i) == i);
    match v {
        JsonV::Null => {
            assert(s[i] == 'n' && s[i + 1] == 'u' && s[i + 2] == 'l' && s[i + 3] == 'l');
        },
        JsonV::Bool(b) => {
            if b {
                assert(s[i] == 't' && s[i + 1] == 'r' && s[i + 2] == 'u' && s[i + 3] == 'e');
            } else {
                assert(s[i] == 'f' && s[i + 1] == 'a' && s[i + 2] == 'l' && s[i + 3] == 's' && s[i
                    + 4] == 'e');
            }
        },
        JsonV::Num(t) => {
            assert(t[0] == '-' || is_dec_digit(t[0]));
            lemma_number_embed(s, i, t);
            assert(s.subrange(i, i + t.len()) =~= t);
        },
        JsonV::Str(cs) => {
            assert(s[i] == '"');
            let body = ser_str_body(cs);
            assert(w == seq!['"'] + body + seq!['"']);
            assert forall|k: int| 0 <= k < body.len() implies s[i + 1 + k] == body[k] by {
                assert(w[1 + k] == body[k]);
            }
            assert(s.subrange(i + 1, i + 1 + body.len()) =~= body);
            assert(s[i + 1 + body.len()] == w[w.len() - 1]);
            assert(s[i + 1 + body.len()] == '"');
            lemma_rt_string(s, i + 1, cs);
        },
        JsonV::Arr(items) => {
            assert(s[i] == '[');
            let se = ser_elements(items);
            assert(w == seq!['['] + se + seq![']']);
            assert forall|k: int| 0 <= k < se.len() implies s[i + 1 + k] == se[k] by {
                assert(w[1 + k] == se[k]);
            }
            assert(s[i + 1 + se.len()] == w[w.len() - 1]);
            assert(s[i + 1 + se.len()] == ']');
            if items.len() == 0 {
                assert(se.len() == 0);
                assert(s[i + 1] == ']');
                assert(skip_ws(s, i + 1) == i + 1);
            } else {
                assert(se == ser_elements(items));
                assert(valid_json(items[0]));
                lemma_ser_first(items[0]);
                assert(se[0] == ser_value(items[0])[0]) by {
                    if items.len() == 1 {
                    } else {
                        assert(se[0] == (ser_value(items[0]) + seq![','] + ser_elements(
                            items.drop_first(),
                        ))[0]);
                    }
                }
                assert(s[i + 1] == se[0]);
                assert(!is_json_ws(s[i + 1]));
                assert(skip_ws(s, i + 1) == i + 1);
                assert(s[i + 1] != ']') by {
                    lemma_ser_dispatch_not_delim(items[0]);
                }
                assert(s.subrange(i + 1, i + 1 + se.len()) =~= se);
                lemma_rt_elements(s, i + 1, items, Seq::empty());
                assert(Seq::<JsonV>::empty() + items =~= items);
            }
        },
        JsonV::Obj(fields) => {
            assert(s[i] == '{');
            let sm = ser_members(fields);
            assert(w == seq!['{'] + sm + seq!['}']);
            assert forall|k: int| 0 <= k < sm.len() implies s[i + 1 + k] == sm[k] by {
                assert(w[1 + k] == sm[k]);
            }
            assert(s[i + 1 + sm.len()] == w[w.len() - 1]);
            assert(s[i + 1 + sm.len()] == '}');
            if fields.len() == 0 {
                assert(sm.len() == 0);
                assert(s[i + 1] == '}');
                assert(skip_ws(s, i + 1) == i + 1);
            } else {
                assert(sm[0] == ser_member(fields[0])[0]) by {
                    if fields.len() == 1 {
                    } else {
                        assert(sm[0] == (ser_member(fields[0]) + seq![','] + ser_members(
                            fields.drop_first(),
                        ))[0]);
                    }
                }
                assert(sm[0] == '"');
                assert(s[i + 1] == '"');
                assert(skip_ws(s, i + 1) == i + 1);
                assert(s.subrange(i + 1, i + 1 + sm.len()) =~= sm);
                lemma_rt_members(s, i + 1, fields, Seq::empty());
                assert(Seq::<(Seq<char>, JsonV)>::empty() + fields =~= fields);
            }
        },
    }
}

/// A valid value's rendering never begins with a closing delimiter.
proof fn lemma_ser_dispatch_not_delim(v: JsonV)
    requires
        valid_json(v),
    ensures
        ser_value(v)[0] != ']',
        ser_value(v)[0] != '}',
        ser_value(v)[0] != ',',
        ser_value(v)[0] != ':',
{
    match v {
        JsonV::Num(t) => {
            assert(t.len() >= 1);
            assert(t[0] == '-' || is_dec_digit(t[0]));
        },
        _ => {},
    }
}

#[verifier::rlimit(100)]
#[verifier::spinoff_prover]
proof fn lemma_rt_elements(s: Seq<char>, i: int, items: Seq<JsonV>, acc: Seq<JsonV>)
    requires
        items.len() >= 1,
        forall|m: int| 0 <= m < items.len() ==> valid_json(#[trigger] items[m]),
        0 <= i,
        i + ser_elements(items).len() + 1 <= s.len(),
        s.subrange(i, i + ser_elements(items).len()) == ser_elements(items),
        s[i + ser_elements(items).len()] == ']',
    ensures
        sp_elements(s, i, acc) == Option::Some(
            (acc + items, i + ser_elements(items).len() + 1),
        ),
    decreases items,
{
    let se = ser_elements(items);
    lemma_embed_index(s, i, se);
    let v0 = items[0];
    assert(valid_json(v0));
    let w0 = ser_value(v0);
    if items.len() == 1 {
        assert(se == w0);
        assert(s.subrange(i, i + w0.len()) =~= w0);
        assert(s[i + w0.len()] == ']');
        lemma_rt_value(s, i, v0);
        let j = i + w0.len() as int;
        assert(!is_json_ws(']'));
        assert(skip_ws(s, j) == j);
        assert(acc.push(v0) =~= acc + items);
    } else {
        assert(se == w0 + seq![','] + ser_elements(items.drop_first()));
        assert forall|k: int| 0 <= k < w0.len() implies s[i + k] == w0[k] by {
            assert(se[k] == w0[k]);
        }
        assert(s.subrange(i, i + w0.len()) =~= w0);
        assert(s[i + w0.len()] == se[w0.len() as int]);
        assert(s[i + w0.len()] == ',');
        lemma_rt_value(s, i, v0);
        let j = i + w0.len() as int;
        assert(skip_ws(s, j) == j);
        let rest = ser_elements(items.drop_first());
        assert forall|k: int| 0 <= k < rest.len() implies s[j + 1 + k] == rest[k] by {
            assert(se[w0.len() as int + 1 + k] == rest[k]);
        }
        assert(s.subrange(j + 1, j + 1 + rest.len()) =~= rest);
        assert(s[j + 1 + rest.len()] == ']');
        assert forall|m: int| 0 <= m < items.drop_first().len() implies valid_json(
            #[trigger] items.drop_first()[m],
        ) by {
            assert(items.drop_first()[m] == items[m + 1]);
        }
        lemma_rt_elements(s, j + 1, items.drop_first(), acc.push(v0));
        assert(acc.push(v0) + items.drop_first() =~= acc + items);
    }
}

#[verifier::rlimit(100)]
#[verifier::spinoff_prover]
proof fn lemma_rt_members(
    s: Seq<char>,
    i: int,
    fields: Seq<(Seq<char>, JsonV)>,
    acc: Seq<(Seq<char>, JsonV)>,
)
    requires
        fields.len() >= 1,
        forall|m: int| 0 <= m < fields.len() ==> valid_json((#[trigger] fields[m]).1),
        fields_unique(acc + fields),
        0 <= i,
        i + ser_members(fields).len() + 1 <= s.len(),
        s.subrange(i, i + ser_members(fields).len()) == ser_members(fields),
        s[i + ser_members(fields).len()] == '}',
    ensures
        sp_members(s, i, acc) == Option::Some(
            (acc + fields, i + ser_members(fields).len() + 1),
        ),
    decreases fields,
{
    let sm = ser_members(fields);
    lemma_embed_index(s, i, sm);
    let f0 = fields[0];
    let m0 = ser_member(f0);
    assert(m0 == seq!['"'] + ser_str_body(f0.0) + seq!['"', ':'] + ser_value(f0.1));
    // the first member's text stands at i
    assert forall|k: int| 0 <= k < m0.len() implies s[i + k] == m0[k] by {
        if fields.len() == 1 {
            assert(sm[k] == m0[k]);
        } else {
            assert(sm == m0 + seq![','] + ser_members(fields.drop_first()));
            assert(sm[k] == m0[k]);
        }
    }
    assert(s[i + 0] == m0[0]);
    assert(m0[0] == '"');
    assert(s[i] == '"');
    assert(skip_ws(s, i) == i);
    let body = ser_str_body(f0.0);
    assert forall|k: int| 0 <= k < body.len() implies s[i + 1 + k] == body[k] by {
        assert(m0[1 + k] == body[k]);
    }
    assert(s.subrange(i + 1, i + 1 + body.len()) =~= body);
    assert(s[i + 1 + body.len()] == m0[1 + body.len() as int]);
    assert(s[i + 1 + body.len()] == '"');
    lemma_rt_string(s, i + 1, f0.0);
    let j = i + 1 + body.len() + 1;
    // the key is new
    assert(!keys_contain(acc, f0.0)) by {
        assert forall|m: int| 0 <= m < acc.len() implies (#[trigger] acc[m]).0 != f0.0 by {
            assert((acc + fields)[m] == acc[m]);
            assert((acc + fields)[acc.len() as int] == f0);
        }
    }
    assert(s[j] == m0[1 + body.len() as int + 1]);
    assert(s[j] == ':');
    assert(skip_ws(s, j) == j);
    let w0 = ser_value(f0.1);
    assert forall|k: int| 0 <= k < w0.len() implies s[j + 1 + k] == w0[k] by {
        assert(m0[1 + body.len() as int + 1 + 1 + k] == w0[k]);
    }
    assert(s.subrange(j + 1, j + 1 + w0.len()) =~= w0);
    let j3 = j + 1 + w0.len();
    if fields.len() == 1 {
        assert(sm == m0);
        assert(s[j3] == '}');
        lemma_rt_value(s, j + 1, f0.1);
        assert(skip_ws(s, j3) == j3);
        assert(acc.push(f0) =~= acc + fields);
    } else {
        assert(sm == m0 + seq![','] + ser_members(fields.drop_first()));
        assert(s[j3] == sm[m0.len() as int]);
        assert(s[j3] == ',');
        lemma_rt_value(s, j + 1, f0.1);
        assert(skip_ws(s, j3) == j3);
        let rest = ser_members(fields.drop_first());
        assert forall|k: int| 0 <= k < rest.len() implies s[j3 + 1 + k] == rest[k] by {
            assert(sm[m0.len() as int + 1 + k] == rest[k]);
        }
        assert(s.subrange(j3 + 1, j3 + 1 + rest.len()) =~= rest);
        assert(s[j3 + 1 + rest.len()] == '}');
        assert forall|m: int| 0 <= m < fields.drop_first().len() implies valid_json(
            (#[trigger] fields.drop_first()[m]).1,
        ) by {
            assert(fields.drop_first()[m] == fields[m + 1]);
        }
        assert(fields_unique(acc.push(f0) + fields.drop_first())) by {
            assert(acc.push(f0) + fields.drop_first() =~= acc + fields);
        }
        lemma_rt_members(s, j3 + 1, fields.drop_first(), acc.push(f0));
        assert(acc.push(f0) + fields.drop_first() =~= acc + fields);
    }
}

/// Round trip: the serializer's output for any valid value parses back to
/// exactly that value.
pub proof fn lemma_json_round_trip(v: JsonV)
    requires
        valid_json(v),
    ensures
        sp_document(ser_value(v)) == Option::Some(v),
{
    let s = ser_value(v);
    assert(s.subrange(0, s.len() as int) =~= s);
    lemma_rt_value(s, 0, v);
    lemma_skip_ws_bounds(s, s.len() as int);
    assert(skip_ws(s, s.len() as int) == s.len());
}

} // verus!
