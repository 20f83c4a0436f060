//! JSON-like document values, their deep equality, field lookup and
//! the compact text form used to order documents.
use vstd::prelude::*;
use crate::query::{lex_le, text_le, lemma_lex_le_total, lemma_lex_le_transitive, lemma_lex_le_reflexive};

verus! {

broadcast use vstd::std_specs::vec::axiom_vec_index_decreases;

/// A JSON-like value. A number is held as its JSON text; an object as its
/// entries, which in a well-formed value come in strictly ascending key
/// order, as a JSON map keeps them.
pub enum Value {
    Null,
    Bool(bool),
    Number(String),
    Str(String),
    Array(Vec<Value>),
    Object(Vec<(String, Value)>),
}

/// Deep structural equality of two values: numbers compare by their text,
/// arrays item by item, and objects entry by entry. On well-formed values,
/// whose object entries come in key order, two objects are equal exactly when
/// they hold the same keys with equal values.
pub open spec fn deep_eq(a: Value, b: Value) -> bool
    decreases a,
{
    match a {
        Value::Null => b is Null,
        Value::Bool(x) => b is Bool && b->Bool_0 == x,
        Value::Number(x) => b is Number && b->Number_0@ == x@,
        Value::Str(x) => b is Str && b->Str_0@ == x@,
        Value::Array(xs) => b is Array && {
            let ys = b->Array_0;
            &&& xs.len() == ys.len()
            &&& forall|i: int| 0 <= i < xs.len() ==> deep_eq(#[trigger] xs[i], ys[i])
        },
        Value::Object(xs) => b is Object && {
            let ys = b->Object_0;
            &&& xs.len() == ys.len()
            &&& forall|i: int|
                0 <= i < xs.len() ==> {
                    &&& (#[trigger] xs[i]).0@ == ys[i].0@
                    &&& deep_eq(xs[i].1, ys[i].1)
                }
        },
    }
}

/// The value of the first entry named `k` at or after position `i`.
pub open spec fn lookup_from(es: Seq<(String, Value)>, k: Seq<char>, i: int) -> Option<Value>
    decreases es.len() - i,
{
    if i < 0 || i >= es.len() {
        None
    } else if es[i].0@ == k {
        Some(es[i].1)
    } else {
        lookup_from(es, k, i + 1)
    }
}

/// The field `k` of `v`: present only when `v` is an object holding it.
pub open spec fn field(v: Value, k: Seq<char>) -> Option<Value> {
    match v {
        Value::Object(es) => lookup_from(es@, k, 0),
        _ => None,
    }
}

impl Value {
    /// Deep equality, as `deep_eq` states it.
    pub fn equals(&self, other: &Value) -> (r: bool)
        ensures
            r == deep_eq(*self, *other),
        decreases self,
    {
        match self {
            Value::Null => match other {
                Value::Null => true,
                _ => false,
            },
            Value::Bool(x) => match other {
                Value::Bool(y) => *x == *y,
                _ => false,
            },
            Value::Number(x) => match other {
                Value::Number(y) => *x == *y,
                _ => false,
            },
            Value::Str(x) => match other {
                Value::Str(y) => *x == *y,
                _ => false,
            },
            Value::Array(xs) => match other {
                Value::Array(ys) => {
                    if xs.len() != ys.len() {
                        return false;
                    }
                    let mut i: usize = 0;
                    while i < xs.len()
                        invariant
                            *self == Value::Array(*xs),
                            *other == Value::Array(*ys),
                            xs.len() == ys.len(),
                            0 <= i <= xs.len(),
                            forall|j: int| 0 <= j < i ==> deep_eq(#[trigger] xs[j], ys[j]),
                        decreases xs.len() - i,
                    {
                        proof {
                            let sv = *self;
                            assert(decreases_to!(sv => sv->Array_0));
                            vstd::std_specs::vec::axiom_vec_index_decreases(*xs, i as int);
                        }
                        if !xs[i].equals(&ys[i]) {
                            return false;
                        }
                        i = i + 1;
                    }
                    true
                },
                _ => false,
            },
            Value::Object(xs) => match other {
                Value::Object(ys) => {
                    if xs.len() != ys.len() {
                        return false;
                    }
                    let mut i: usize = 0;
                    while i < xs.len()
                        invariant
                            *self == Value::Object(*xs),
                            *other == Value::Object(*ys),
                            xs.len() == ys.len(),
                            0 <= i <= xs.len(),
                            forall|j: int|
                                0 <= j < i ==> {
                                    &&& (#[trigger] xs[j]).0@ == ys[j].0@
                                    &&& deep_eq(xs[j].1, ys[j].1)
                                },
                        decreases xs.len() - i,
                    {
                        proof {
                            let sv = *self;
                            assert(decreases_to!(sv => sv->Object_0));
                            vstd::std_specs::vec::axiom_vec_index_decreases(*xs, i as int);
                        }
                        if xs[i].0 != ys[i].0 {
                            return false;
                        }
                        if !xs[i].1.equals(&ys[i].1) {
                            return false;
                        }
                        i = i + 1;
                    }
                    true
                },
                _ => false,
            },
        }
    }

    /// A copy of this value, deeply equal to it.
    pub fn deep_copy(&self) -> (r: Value)
        ensures
            deep_eq(r, *self),
        decreases self,
    {
        match self {
            Value::Null => Value::Null,
            Value::Bool(b) => Value::Bool(*b),
            Value::Number(t) => Value::Number(t.clone()),
            Value::Str(s) => Value::Str(s.clone()),
            Value::Array(xs) => {
                let mut out: Vec<Value> = Vec::new();
                let mut i: usize = 0;
                while i < xs.len()
                    invariant
                        *self == Value::Array(*xs),
                        0 <= i <= xs.len(),
                        out.len() == i,
                        forall|j: int| 0 <= j < i ==> deep_eq(#[trigger] out[j], xs[j]),
                    decreases xs.len() - i,
                {
                    proof {
                        let sv = *self;
                        assert(decreases_to!(sv => sv->Array_0));
                        vstd::std_specs::vec::axiom_vec_index_decreases(*xs, i as int);
                    }
                    out.push(xs[i].deep_copy());
                    i = i + 1;
                }
                Value::Array(out)
            },
            Value::Object(xs) => {
                let mut out: Vec<(String, Value)> = Vec::new();
                let mut i: usize = 0;
                while i < xs.len()
                    invariant
                        *self == Value::Object(*xs),
                        0 <= i <= xs.len(),
                        out.len() == i,
                        forall|j: int|
                            0 <= j < i ==> {
                                &&& (#[trigger] out[j]).0@ == xs[j].0@
                                &&& deep_eq(out[j].1, xs[j].1)
                            },
                    decreases xs.len() - i,
                {
                    proof {
                        let sv = *self;
                        assert(decreases_to!(sv => sv->Object_0));
                        vstd::std_specs::vec::axiom_vec_index_decreases(*xs, i as int);
                    }
                    out.push((xs[i].0.clone(), xs[i].1.deep_copy()));
                    i = i + 1;
                }
                Value::Object(out)
            },
        }
    }

    /// The field named `k`, when this value is an object that has it.
    pub fn get(&self, k: &String) -> (r: Option<&Value>)
        ensures
            match r {
                Some(v) => field(*self, k@) == Some(*v),
                None => field(*self, k@) is None,
            },
    {
        match self {
            Value::Object(es) => {
                let mut i: usize = 0;
                while i < es.len()
                    invariant
                        *self == Value::Object(*es),
                        0 <= i <= es.len(),
                        lookup_from(es@, k@, 0) == lookup_from(es@, k@, i as int),
                    decreases es.len() - i,
                {
                    if es[i].0 == *k {
                        assert(lookup_from(es@, k@, i as int) == Some(es@[i as int].1));
                        return Some(&es[i].1);
                    }
                    i = i + 1;
                }
                None
            },
            _ => None,
        }
    }
}

/// The lowercase hexadecimal digit of `d`, for `d` below 16.
pub open spec fn hex_digit(d: int) -> char {
    seq!['0', '1', '2', '3', '4', '5', '6', '7', '8', '9', 'a', 'b', 'c', 'd', 'e', 'f'][d]
}

/// How a character is written inside a JSON string literal: a quote and a
/// backslash behind a backslash, the five named control characters by their
/// short escapes, the other control characters below 0x20 as `\u00` and two
/// hexadecimal digits, and every other character as it is.
pub open spec fn escape_char(c: char) -> Seq<char> {
    if c == '"' {
        seq!['\\', '"']
    } else if c == '\\' {
        seq!['\\', '\\']
    } else if c == '\u{8}' {
        seq!['\\', 'b']
    } else if c == '\t' {
        seq!['\\', 't']
    } else if c == '\n' {
        seq!['\\', 'n']
    } else if c == '\u{c}' {
        seq!['\\', 'f']
    } else if c == '\r' {
        seq!['\\', 'r']
    } else if (c as u32) < 0x20 {
        seq!['\\', 'u', '0', '0', hex_digit((c as int) / 16), hex_digit((c as int) % 16)]
    } else {
        seq![c]
    }
}

/// The characters of `s`, each escaped.
pub open spec fn escaped(s: Seq<char>) -> Seq<char>
    decreases s.len(),
{
    if s.len() == 0 {
        Seq::empty()
    } else {
        escaped(s.drop_last()) + escape_char(s.last())
    }
}

/// The JSON string literal for `s`: its escaped characters between quotes.
pub open spec fn json_string_text(s: Seq<char>) -> Seq<char> {
    seq!['"'] + escaped(s) + seq!['"']
}

/// Relies on `serde_json::to_string` on a `str`: it writes the string
/// between quotes with the escapes of `escape_char`, and cannot fail on a
/// `str`.
#[verifier::external_body]
fn quoted_chars(s: &str) -> (r: Vec<char>)
    ensures
        r@ == json_string_text(s@),
{
    serde_json::to_string(s).unwrap().chars().collect()
}

/// The compact JSON text of a value, as it is compared when sorting.
pub open spec fn text(v: Value) -> Seq<char>
    decreases v, 0nat,
{
    match v {
        Value::Null => seq!['n', 'u', 'l', 'l'],
        Value::Bool(b) => if b {
            seq!['t', 'r', 'u', 'e']
        } else {
            seq!['f', 'a', 'l', 's', 'e']
        },
        Value::Number(t) => t@,
        Value::Str(s) => json_string_text(s@),
        Value::Array(xs) => seq!['['] + items_text(xs@, xs@.len()) + seq![']'],
        Value::Object(es) => seq!['{'] + entries_text(es@, es@.len()) + seq!['}'],
    }
}

/// The first `n` items of an array, separated by commas.
pub open spec fn items_text(xs: Seq<Value>, n: nat) -> Seq<char>
    decreases xs, n,
{
    if n == 0 || n > xs.len() {
        Seq::empty()
    } else {
        items_text(xs, (n - 1) as nat) + (if n > 1 {
            seq![',']
        } else {
            Seq::empty()
        }) + text(xs[n - 1])
    }
}

/// The first `n` entries of an object, each as `"key":value`, separated by
/// commas.
pub open spec fn entries_text(es: Seq<(String, Value)>, n: nat) -> Seq<char>
    decreases es, n,
{
    if n == 0 || n > es.len() {
        Seq::empty()
    } else {
        entries_text(es, (n - 1) as nat) + (if n > 1 {
            seq![',']
        } else {
            Seq::empty()
        }) + json_string_text(es[n - 1].0@) + seq![':'] + text(es[n - 1].1)
    }
}

/// Appends the characters of `s` to `out`.
fn push_str_chars(out: &mut Vec<char>, s: &str)
    ensures
        final(out)@ == old(out)@ + s@,
{
    let n = s.unicode_len();
    let mut i: usize = 0;
    while i < n
        invariant
            n == s@.len(),
            0 <= i <= n,
            out@ == old(out)@ + s@.subrange(0, i as int),
        decreases n - i,
    {
        out.push(s.get_char(i));
        i = i + 1;
        assert(s@.subrange(0, i as int) == s@.subrange(0, i - 1) + seq![s@[i - 1]]);
    }
    assert(s@.subrange(0, n as int) == s@);
}

/// Appends the characters of `v` to `out`.
fn push_chars(out: &mut Vec<char>, v: &Vec<char>)
    ensures
        final(out)@ == old(out)@ + v@,
{
    let mut i: usize = 0;
    while i < v.len()
        invariant
            0 <= i <= v.len(),
            out@ == old(out)@ + v@.subrange(0, i as int),
        decreases v.len() - i,
    {
        out.push(v[i]);
        i = i + 1;
        assert(v@.subrange(0, i as int) == v@.subrange(0, i - 1) + seq![v@[i - 1]]);
    }
    assert(v@.subrange(0, v.len() as int) == v@);
}

impl Value {
    /// Appends the compact JSON text of this value to `out`.
    pub fn write_text(&self, out: &mut Vec<char>)
        ensures
            final(out)@ == old(out)@ + text(*self),
        decreases self,
    {
        match self {
            Value::Null => {
                out.push('n');
                out.push('u');
                out.push('l');
                out.push('l');
                assert(out@ == old(out)@ + text(*self));
            },
            Value::Bool(b) => {
                if *b {
                    out.push('t');
                    out.push('r');
                    out.push('u');
                    out.push('e');
                } else {
                    out.push('f');
                    out.push('a');
                    out.push('l');
                    out.push('s');
                    out.push('e');
                }
                assert(out@ == old(out)@ + text(*self));
            },
            Value::Number(t) => push_str_chars(out, t.as_str()),
            Value::Str(s) => {
                let q = quoted_chars(s.as_str());
                push_chars(out, &q);
            },
            Value::Array(xs) => {
                out.push('[');
                let ghost start = out@;
                let mut i: usize = 0;
                while i < xs.len()
                    invariant
                        *self == Value::Array(*xs),
                        0 <= i <= xs.len(),
                        start == old(out)@ + seq!['['],
                        out@ == start + items_text(xs@, i as nat),
                    decreases xs.len() - i,
                {
                    proof {
                        let sv = *self;
                        assert(decreases_to!(sv => sv->Array_0));
                        vstd::std_specs::vec::axiom_vec_index_decreases(*xs, i as int);
                    }
                    if i > 0 {
                        out.push(',');
                    }
                    xs[i].write_text(out);
                    i = i + 1;
                    assert(out@ == start + items_text(xs@, i as nat));
                }
                out.push(']');
                assert(out@ == old(out)@ + text(*self));
            },
            Value::Object(es) => {
                out.push('{');
                let ghost start = out@;
                let mut i: usize = 0;
                while i < es.len()
                    invariant
                        *self == Value::Object(*es),
                        0 <= i <= es.len(),
                        start == old(out)@ + seq!['{'],
                        out@ == start + entries_text(es@, i as nat),
                    decreases es.len() - i,
                {
                    proof {
                        let sv = *self;
                        assert(decreases_to!(sv => sv->Object_0));
                        vstd::std_specs::vec::axiom_vec_index_decreases(*es, i as int);
                    }
                    if i > 0 {
                        out.push(',');
                    }
                    let q = quoted_chars(es[i].0.as_str());
                    push_chars(out, &q);
                    out.push(':');
                    es[i].1.write_text(out);
                    i = i + 1;
                    assert(out@ == start + entries_text(es@, i as nat));
                }
                out.push('}');
                assert(out@ == old(out)@ + text(*self));
            },
        }
    }
}

/// Key `a` comes strictly before key `b`.
pub open spec fn key_lt(a: Seq<char>, b: Seq<char>) -> bool {
    !lex_le(b, a)
}

/// Every object within `v` has its keys in strictly ascending order, so
/// that each key occurs once and equal maps have equal entry lists.
pub open spec fn well_formed(v: Value) -> bool
    decreases v,
{
    match v {
        Value::Array(xs) => forall|i: int| 0 <= i < xs.len() ==> well_formed(#[trigger] xs[i]),
        Value::Object(es) => {
            &&& forall|i: int| 0 <= i < es.len() - 1 ==> key_lt((#[trigger] es[i]).0@, es[i + 1].0@)
            &&& forall|i: int| 0 <= i < es.len() ==> well_formed((#[trigger] es[i]).1)
        },
        _ => true,
    }
}

/// In a well-formed object the keys are strictly ascending, so no key occurs
/// twice.
pub proof fn lemma_well_formed_keys_distinct(es: Seq<(String, Value)>, i: int, j: int)
    requires
        forall|x: int| 0 <= x < es.len() - 1 ==> key_lt((#[trigger] es[x]).0@, es[x + 1].0@),
        0 <= i < j < es.len(),
    ensures
        key_lt(es[i].0@, es[j].0@),
        es[i].0@ != es[j].0@,
    decreases j - i,
{
    if j > i + 1 {
        lemma_well_formed_keys_distinct(es, i, j - 1);
        let (a, b, c) = (es[i].0@, es[j - 1].0@, es[j].0@);
        assert(key_lt(b, c));
        lemma_lex_le_total(b, c);
        lemma_lex_le_total(a, b);
        if lex_le(c, a) {
            lemma_lex_le_transitive(c, a, b);
        }
    } else {
        assert(key_lt(es[i].0@, es[i + 1].0@));
    }
    lemma_lex_le_reflexive(es[i].0@);
}

/// The characters of `s`.
fn chars_of(s: &String) -> (r: Vec<char>)
    ensures
        r@ == s@,
{
    let mut r: Vec<char> = Vec::new();
    push_str_chars(&mut r, s.as_str());
    r
}

impl Value {
    /// Whether this value is well formed, as `well_formed` states it.
    pub fn is_well_formed(&self) -> (r: bool)
        ensures
            r == well_formed(*self),
        decreases self,
    {
        match self {
            Value::Array(xs) => {
                let mut i: usize = 0;
                while i < xs.len()
                    invariant
                        *self == Value::Array(*xs),
                        0 <= i <= xs.len(),
                        forall|j: int| 0 <= j < i ==> well_formed(#[trigger] xs[j]),
                    decreases xs.len() - i,
                {
                    proof {
                        let sv = *self;
                        assert(decreases_to!(sv => sv->Array_0));
                        vstd::std_specs::vec::axiom_vec_index_decreases(*xs, i as int);
                    }
                    if !xs[i].is_well_formed() {
                        return false;
                    }
                    i = i + 1;
                }
                true
            },
            Value::Object(xs) => {
                let mut i: usize = 0;
                while i < xs.len()
                    invariant
                        *self == Value::Object(*xs),
                        0 <= i <= xs.len(),
                        forall|j: int| 0 <= j < i ==> well_formed((#[trigger] xs[j]).1),
                        forall|j: int| 0 <= j < i - 1 ==> key_lt((#[trigger] xs[j]).0@, xs[j + 1].0@),
                    decreases xs.len() - i,
                {
                    proof {
                        let sv = *self;
                        assert(decreases_to!(sv => sv->Object_0));
                        vstd::std_specs::vec::axiom_vec_index_decreases(*xs, i as int);
                    }
                    if !xs[i].1.is_well_formed() {
                        return false;
                    }
                    if i > 0 {
                        let a = chars_of(&xs[i - 1].0);
                        let b = chars_of(&xs[i].0);
                        if text_le(&b, &a) {
                            return false;
                        }
                    }
                    i = i + 1;
                }
                true
            },
            _ => true,
        }
    }
}

} // verus!
