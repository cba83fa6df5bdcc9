//! The plain values that the library's placeholders and cached results range
//! over, together with their mathematical model and the canonical decimal
//! form of unsigned integers.

use vstd::prelude::*;

verus! {

/// One field of a record-shaped value: a name and the value stored under it.
#[derive(Debug, PartialEq, Eq)]
pub struct Field {
    pub name: String,
    pub value: Value,
}

/// A value that can stand behind a placeholder or come back from a wrapped
/// computation: nothing (`Null`), an unsigned integer, a text, or a record of
/// named fields (itself possibly nested).
#[derive(Debug, PartialEq, Eq)]
pub enum Value {
    Null,
    UInt(u64),
    Text(String),
    Record(Vec<Field>),
}

/// The mathematical model of a [`Value`]: texts become character sequences,
/// records become sequences of name/model pairs in field order.
pub enum SpecValue {
    Null,
    UInt(u64),
    Text(Seq<char>),
    Record(Seq<(Seq<char>, SpecValue)>),
}

/// The model of a [`Value`].
pub open spec fn val_model(v: Value) -> SpecValue
    decreases v,
{
    match v {
        Value::Null => SpecValue::Null,
        Value::UInt(n) => SpecValue::UInt(n),
        Value::Text(s) => SpecValue::Text(s@),
        Value::Record(fs) => SpecValue::Record(fields_model(fs@)),
    }
}

/// The model of a record's field list, in order.
pub open spec fn fields_model(fs: Seq<Field>) -> Seq<(Seq<char>, SpecValue)>
    decreases fs,
{
    if fs.len() == 0 {
        Seq::empty()
    } else {
        fields_model(fs.drop_last()).push((fs.last().name@, val_model(fs.last().value)))
    }
}

/// The model of a field list indexes pointwise: entry `i` is field `i`'s
/// name and value model.
pub proof fn lemma_fields_model(fs: Seq<Field>)
    ensures
        fields_model(fs).len() == fs.len(),
        forall|i: int|
            0 <= i < fs.len() ==> fields_model(fs)[i] == (fs[i].name@, val_model(fs[i].value)),
    decreases fs.len(),
{
    if fs.len() > 0 {
        lemma_fields_model(fs.drop_last());
    }
}

impl View for Value {
    type V = SpecValue;

    open spec fn view(&self) -> SpecValue {
        val_model(*self)
    }
}

/// The character for one decimal digit.
pub open spec fn digit_char(d: nat) -> char {
    if d == 0 {
        '0'
    } else if d == 1 {
        '1'
    } else if d == 2 {
        '2'
    } else if d == 3 {
        '3'
    } else if d == 4 {
        '4'
    } else if d == 5 {
        '5'
    } else if d == 6 {
        '6'
    } else if d == 7 {
        '7'
    } else if d == 8 {
        '8'
    } else {
        '9'
    }
}

/// The canonical decimal form of `n`: most significant digit first, no
/// leading zero (`0` is written as the single digit `0`).
pub open spec fn dec_digits(n: nat) -> Seq<char>
    decreases n,
{
    if n < 10 {
        seq![digit_char(n)]
    } else {
        dec_digits(n / 10).push(digit_char(n % 10))
    }
}

/// Relies on `String::push` from std: appends the given character to the end
/// of this `String`.
#[verifier::external_body]
pub(crate) fn push_char(s: &mut String, c: char)
    ensures
        final(s)@ == old(s)@.push(c),
{
    s.push(c)
}

fn digit_to_char(d: u64) -> (c: char)
    requires
        d < 10,
    ensures
        c == digit_char(d as nat),
{
    if d == 0 {
        '0'
    } else if d == 1 {
        '1'
    } else if d == 2 {
        '2'
    } else if d == 3 {
        '3'
    } else if d == 4 {
        '4'
    } else if d == 5 {
        '5'
    } else if d == 6 {
        '6'
    } else if d == 7 {
        '7'
    } else if d == 8 {
        '8'
    } else {
        '9'
    }
}

pub(crate) fn push_decimal(n: u64, out: &mut String)
    ensures
        final(out)@ == old(out)@ + dec_digits(n as nat),
    decreases n,
{
    if n < 10 {
        let c = digit_to_char(n);
        push_char(out, c);
        proof {
            assert(out@ =~= old(out)@ + dec_digits(n as nat));
        }
    } else {
        push_decimal(n / 10, out);
        let c = digit_to_char(n % 10);
        push_char(out, c);
        proof {
            assert(out@ =~= old(out)@ + dec_digits(n as nat));
        }
    }
}

/// The canonical decimal text of `n`.
pub fn u64_to_string(n: u64) -> (r: String)
    ensures
        r@ == dec_digits(n as nat),
{
    let mut r = String::new();
    push_decimal(n, &mut r);
    proof {
        assert(r@ =~= dec_digits(n as nat));
    }
    r
}

} // verus!
