//! The transport codec.
//!
//! A cached result is stored as a single string. The format is
//! self-delimiting and length-prefixed, so that any value — including texts
//! holding separators or braces — survives the trip unchanged:
//!
//! * null is `n`;
//! * an unsigned integer `k` is `u`, the decimal digits of `k`, `;`;
//! * a text `s` is `t`, the decimal length of `s`, `:`, then `s` itself;
//! * a record is `r`, the decimal field count, `:`, then per field the
//!   decimal name length, `:`, the name, and the encoded field value.
//!
//! Decoding is exact: [`decode`] accepts a string if and only if it is a
//! complete encoding, and the round trip is proved — decoding an encoding
//! yields the value that was encoded ([`lemma_codec_round_trip`]).

use vstd::prelude::*;
use crate::value::{Field, SpecValue, Value, dec_digits, digit_char, fields_model,
    lemma_fields_model, push_char, push_decimal, val_model};

verus! {

/// Rejection of a stored string that is not a complete encoding.
#[derive(Debug, PartialEq, Eq)]
pub enum CodecError {
    Malformed,
}

/// The decimal value of a digit character; ten for anything else.
pub open spec fn digit_val(c: char) -> nat {
    if c == '0' {
        0
    } else if c == '1' {
        1
    } else if c == '2' {
        2
    } else if c == '3' {
        3
    } else if c == '4' {
        4
    } else if c == '5' {
        5
    } else if c == '6' {
        6
    } else if c == '7' {
        7
    } else if c == '8' {
        8
    } else if c == '9' {
        9
    } else {
        10
    }
}

/// Is `c` a decimal digit?
pub open spec fn is_digit(c: char) -> bool {
    digit_val(c) < 10
}

/// The encoding of a value.
pub open spec fn spec_enc(v: SpecValue) -> Seq<char>
    decreases v,
{
    match v {
        SpecValue::Null => seq!['n'],
        SpecValue::UInt(n) => seq!['u'] + dec_digits(n as nat) + seq![';'],
        SpecValue::Text(s) => seq!['t'] + dec_digits(s.len()) + seq![':'] + s,
        SpecValue::Record(fs) => seq!['r'] + dec_digits(fs.len()) + seq![':'] + spec_enc_fields(fs),
    }
}

/// The encoding of a record's fields, in order.
pub open spec fn spec_enc_fields(fs: Seq<(Seq<char>, SpecValue)>) -> Seq<char>
    decreases fs,
{
    if fs.len() == 0 {
        Seq::empty()
    } else {
        dec_digits(fs[0].0.len()) + seq![':'] + fs[0].0 + spec_enc(fs[0].1)
            + spec_enc_fields(fs.drop_first())
    }
}

/// A value whose texts, field names and field counts fit the length prefix:
/// every value held in executable form is bounded.
pub open spec fn val_bounded(v: SpecValue) -> bool
    decreases v,
{
    match v {
        SpecValue::Null => true,
        SpecValue::UInt(_) => true,
        SpecValue::Text(s) => s.len() <= u64::MAX,
        SpecValue::Record(fs) => fs.len() <= u64::MAX && fields_bounded(fs),
    }
}

/// Boundedness of a record's fields.
pub open spec fn fields_bounded(fs: Seq<(Seq<char>, SpecValue)>) -> bool
    decreases fs,
{
    fs.len() == 0 || (fs[0].0.len() <= u64::MAX && val_bounded(fs[0].1) && fields_bounded(
        fs.drop_first(),
    ))
}

/// The number of nodes of a value: a fuel bound for the decoder.
pub open spec fn val_size(v: SpecValue) -> nat
    decreases v,
{
    match v {
        SpecValue::Record(fs) => 1 + fields_size(fs),
        _ => 1,
    }
}

/// The node count of a record's fields.
pub open spec fn fields_size(fs: Seq<(Seq<char>, SpecValue)>) -> nat
    decreases fs,
{
    if fs.len() == 0 {
        0
    } else {
        1 + val_size(fs[0].1) + fields_size(fs.drop_first())
    }
}

/// Index of the first non-digit at or after `i`, or `s.len()`.
pub open spec fn digits_end(s: Seq<char>, i: int) -> int
    decreases s.len() - i,
{
    if i < 0 || i >= s.len() {
        s.len() as int
    } else if !is_digit(s[i]) {
        i
    } else {
        digits_end(s, i + 1)
    }
}

/// The number written by the digits `s[i..e)`, most significant first.
pub open spec fn num_of(s: Seq<char>, i: int, e: int) -> nat
    decreases e - i,
{
    if i >= e {
        0
    } else {
        num_of(s, i, e - 1) * 10 + digit_val(s[e - 1])
    }
}

/// The digit run starting at `i`: its value and its end, or nothing if no
/// digit stands at `i`.
pub open spec fn spec_parse_num(s: Seq<char>, i: int) -> Option<(nat, int)> {
    let e = digits_end(s, i);
    if e == i {
        None
    } else {
        Some((num_of(s, i, e), e))
    }
}

/// The decoder: the value encoded at position `i` of `s` and the position
/// after it, or nothing if no well-formed encoding starts there. `fuel`
/// bounds the recursion; any complete encoding held in a string is decoded
/// within the string's length in fuel.
pub open spec fn spec_dec(s: Seq<char>, i: int, fuel: nat) -> Option<(SpecValue, int)>
    decreases fuel,
{
    if fuel == 0 || i < 0 || i >= s.len() {
        None
    } else if s[i] == 'n' {
        Some((SpecValue::Null, i + 1))
    } else if s[i] == 'u' {
        match spec_parse_num(s, i + 1) {
            None => None,
            Some((n, e)) => if n > u64::MAX {
                None
            } else if e < s.len() && s[e] == ';' {
                Some((SpecValue::UInt(n as u64), e + 1))
            } else {
                None
            },
        }
    } else if s[i] == 't' {
        match spec_parse_num(s, i + 1) {
            None => None,
            Some((n, e)) => if n > u64::MAX {
                None
            } else if e < s.len() && s[e] == ':' && e + 1 + n <= s.len() {
                Some((SpecValue::Text(s.subrange(e + 1, e + 1 + n)), e + 1 + n))
            } else {
                None
            },
        }
    } else if s[i] == 'r' {
        match spec_parse_num(s, i + 1) {
            None => None,
            Some((n, e)) => if n > u64::MAX {
                None
            } else if e < s.len() && s[e] == ':' {
                match spec_dec_fields(s, e + 1, n, (fuel - 1) as nat) {
                    None => None,
                    Some((fs, e2)) => Some((SpecValue::Record(fs), e2)),
                }
            } else {
                None
            },
        }
    } else {
        None
    }
}

/// The decoder for `cnt` encoded fields starting at position `i`.
pub open spec fn spec_dec_fields(s: Seq<char>, i: int, cnt: nat, fuel: nat) -> Option<
    (Seq<(Seq<char>, SpecValue)>, int),
>
    decreases fuel,
{
    if cnt == 0 {
        Some((Seq::empty(), i))
    } else if fuel == 0 {
        None
    } else {
        match spec_parse_num(s, i) {
            None => None,
            Some((nl, e)) => if nl > u64::MAX {
                None
            } else if e < s.len() && s[e] == ':' && e + 1 + nl <= s.len() {
                match spec_dec(s, e + 1 + nl, (fuel - 1) as nat) {
                    None => None,
                    Some((v, e2)) => match spec_dec_fields(
                        s,
                        e2,
                        (cnt - 1) as nat,
                        (fuel - 1) as nat,
                    ) {
                        None => None,
                        Some((fs, e3)) => Some(
                            (seq![(s.subrange(e + 1, e + 1 + nl), v)] + fs, e3),
                        ),
                    },
                }
            } else {
                None
            },
        }
    }
}

/// What a whole stored string decodes to: the encoded value, exactly when
/// the string is one complete encoding with nothing after it.
pub open spec fn spec_decode(s: Seq<char>) -> Option<SpecValue> {
    match spec_dec(s, 0, s.len()) {
        None => None,
        Some((v, e)) => if e == s.len() {
            Some(v)
        } else {
            None
        },
    }
}

proof fn lemma_digit_char_val(d: nat)
    requires
        d < 10,
    ensures
        digit_val(digit_char(d)) == d,
        is_digit(digit_char(d)),
{
}

/// The canonical digits of a number are digits, and there is at least one.
proof fn lemma_dec_digits_are_digits(n: nat)
    ensures
        dec_digits(n).len() >= 1,
        forall|k: int| 0 <= k < dec_digits(n).len() ==> is_digit(#[trigger] dec_digits(n)[k]),
    decreases n,
{
    if n < 10 {
        lemma_digit_char_val(n);
    } else {
        lemma_dec_digits_are_digits(n / 10);
        lemma_digit_char_val(n % 10);
    }
}

/// A run of digits over `[i, e)` with a non-digit (or the end) at `e` ends
/// exactly at `e`.
proof fn lemma_digits_end_unique(s: Seq<char>, i: int, e: int)
    requires
        0 <= i <= e <= s.len(),
        forall|k: int| i <= k < e ==> is_digit(#[trigger] s[k]),
        e == s.len() || !is_digit(s[e]),
    ensures
        digits_end(s, i) == e,
    decreases e - i,
{
    if i < e {
        lemma_digits_end_unique(s, i + 1, e);
    }
}

/// The canonical digits of `n`, read back as a number, give `n`.
proof fn lemma_num_of_dec_digits(s: Seq<char>, i: int, n: nat)
    requires
        0 <= i,
        i + dec_digits(n).len() <= s.len(),
        s.subrange(i, i + dec_digits(n).len() as int) == dec_digits(n),
    ensures
        num_of(s, i, i + dec_digits(n).len() as int) == n,
    decreases n,
{
    let d = dec_digits(n);
    let e = i + d.len() as int;
    assert(s[e - 1] == d[d.len() - 1]) by {
        assert(s.subrange(i, e)[d.len() - 1] == s[e - 1]);
    }
    if n < 10 {
        lemma_digit_char_val(n);
        assert(num_of(s, i, e) == num_of(s, i, i) * 10 + digit_val(s[e - 1]));
    } else {
        let dq = dec_digits(n / 10);
        assert(d == dq.push(digit_char(n % 10)));
        assert(s.subrange(i, e - 1) =~= dq) by {
            assert forall|k: int| 0 <= k < dq.len() implies s.subrange(i, e - 1)[k] == dq[k] by {
                assert(s.subrange(i, e)[k] == s[i + k]);
                assert(d[k] == dq[k]);
            }
        }
        lemma_num_of_dec_digits(s, i, n / 10);
        lemma_digit_char_val(n % 10);
        assert(digit_val(s[e - 1]) == n % 10);
        assert(num_of(s, i, e) == (n / 10) * 10 + n % 10);
    }
}

/// Helper: the digit run of an embedded canonical number parses back to it.
proof fn lemma_parse_embedded_num(s: Seq<char>, i: int, n: nat, t: char)
    requires
        0 <= i,
        i + dec_digits(n).len() + 1 <= s.len(),
        s.subrange(i, i + dec_digits(n).len() as int) == dec_digits(n),
        s[i + dec_digits(n).len() as int] == t,
        !is_digit(t),
    ensures
        spec_parse_num(s, i) == Some((n, i + dec_digits(n).len() as int)),
    decreases n,
{
    let d = dec_digits(n);
    let e = i + d.len() as int;
    lemma_dec_digits_are_digits(n);
    assert forall|k: int| i <= k < e implies is_digit(#[trigger] s[k]) by {
        assert(s.subrange(i, e)[k - i] == s[k]);
        assert(is_digit(d[k - i]));
    }
    lemma_digits_end_unique(s, i, e);
    lemma_num_of_dec_digits(s, i, n);
}

/// An encoding is at least as long as the encoded value has nodes.
proof fn lemma_enc_size(v: SpecValue)
    ensures
        spec_enc(v).len() >= val_size(v),
    decreases v,
{
    match v {
        SpecValue::Null => {},
        SpecValue::UInt(n) => {
            lemma_dec_digits_are_digits(n as nat);
        },
        SpecValue::Text(s) => {
            lemma_dec_digits_are_digits(s.len());
        },
        SpecValue::Record(fs) => {
            lemma_dec_digits_are_digits(fs.len());
            lemma_enc_fields_size(fs);
        },
    }
}

/// The field encodings are at least as long as the fields have nodes.
proof fn lemma_enc_fields_size(fs: Seq<(Seq<char>, SpecValue)>)
    ensures
        spec_enc_fields(fs).len() >= fields_size(fs),
    decreases fs,
{
    if fs.len() > 0 {
        lemma_dec_digits_are_digits(fs[0].0.len());
        lemma_enc_size(fs[0].1);
        lemma_enc_fields_size(fs.drop_first());
    }
}

/// One character of an embedded sequence, read out of the whole.
proof fn lemma_embedded_index(s: Seq<char>, i: int, enc: Seq<char>, k: int)
    requires
        0 <= i,
        i + enc.len() <= s.len(),
        s.subrange(i, i + enc.len() as int) == enc,
        0 <= k < enc.len(),
    ensures
        s[i + k] == enc[k],
{
    assert(s.subrange(i, i + enc.len() as int)[k] == s[i + k]);
}

/// One slice of an embedded sequence, read out of the whole.
proof fn lemma_embedded_slice(s: Seq<char>, i: int, enc: Seq<char>, a: int, b: int)
    requires
        0 <= i,
        i + enc.len() <= s.len(),
        s.subrange(i, i + enc.len() as int) == enc,
        0 <= a <= b <= enc.len(),
    ensures
        s.subrange(i + a, i + b) == enc.subrange(a, b),
{
    assert(s.subrange(i + a, i + b) =~= enc.subrange(a, b)) by {
        assert forall|k: int| 0 <= k < b - a implies s.subrange(i + a, i + b)[k] == enc.subrange(
            a,
            b,
        )[k] by {
            assert(s.subrange(i, i + enc.len() as int)[a + k] == s[i + a + k]);
        }
    }
}

/// The decoder reads an embedded encoding back to the encoded value.
proof fn lemma_dec_enc(s: Seq<char>, i: int, v: SpecValue, fuel: nat)
    requires
        0 <= i,
        i + spec_enc(v).len() <= s.len(),
        s.subrange(i, i + spec_enc(v).len() as int) == spec_enc(v),
        fuel >= val_size(v),
        val_bounded(v),
    ensures
        spec_dec(s, i, fuel) == Some((v, i + spec_enc(v).len() as int)),
    decreases v,
{
    let enc = spec_enc(v);
    let all = i + enc.len() as int;
    match v {
        SpecValue::Null => {
            lemma_embedded_index(s, i, enc, 0);
            assert(s[i] == 'n');
        },
        SpecValue::UInt(n) => {
            let d = dec_digits(n as nat);
            let dl = d.len() as int;
            lemma_embedded_index(s, i, enc, 0);
            assert(enc[0] == 'u');
            lemma_embedded_slice(s, i, enc, 1, 1 + dl);
            assert(enc.subrange(1, 1 + dl) =~= d);
            lemma_embedded_index(s, i, enc, 1 + dl);
            assert(enc[1 + dl] == ';');
            lemma_parse_embedded_num(s, i + 1, n as nat, ';');
            assert(spec_dec(s, i, fuel) == Some((v, all)));
        },
        SpecValue::Text(t) => {
            let d = dec_digits(t.len());
            let dl = d.len() as int;
            let tl = t.len() as int;
            lemma_embedded_index(s, i, enc, 0);
            assert(enc[0] == 't');
            lemma_embedded_slice(s, i, enc, 1, 1 + dl);
            assert(enc.subrange(1, 1 + dl) =~= d);
            lemma_embedded_index(s, i, enc, 1 + dl);
            assert(enc[1 + dl] == ':');
            lemma_parse_embedded_num(s, i + 1, t.len(), ':');
            let e = i + 1 + dl;
            lemma_embedded_slice(s, i, enc, 2 + dl, 2 + dl + tl);
            assert(enc.subrange(2 + dl, 2 + dl + tl) =~= t);
            assert(s.subrange(e + 1, e + 1 + tl) == t);
            assert(spec_dec(s, i, fuel) == Some((v, all)));
        },
        SpecValue::Record(fs) => {
            let d = dec_digits(fs.len());
            let dl = d.len() as int;
            let fenc = spec_enc_fields(fs);
            lemma_embedded_index(s, i, enc, 0);
            assert(enc[0] == 'r');
            lemma_embedded_slice(s, i, enc, 1, 1 + dl);
            assert(enc.subrange(1, 1 + dl) =~= d);
            lemma_embedded_index(s, i, enc, 1 + dl);
            assert(enc[1 + dl] == ':');
            lemma_parse_embedded_num(s, i + 1, fs.len(), ':');
            let e = i + 1 + dl;
            lemma_embedded_slice(s, i, enc, 2 + dl, 2 + dl + fenc.len() as int);
            assert(enc.subrange(2 + dl, 2 + dl + fenc.len() as int) =~= fenc);
            assert(s.subrange(e + 1, e + 1 + fenc.len() as int) == fenc);
            lemma_dec_enc_fields(s, e + 1, fs, (fuel - 1) as nat);
            assert(spec_dec(s, i, fuel) == Some((v, all)));
        },
    }
}

/// The field decoder reads embedded field encodings back to the fields.
proof fn lemma_dec_enc_fields(s: Seq<char>, i: int, fs: Seq<(Seq<char>, SpecValue)>, fuel: nat)
    requires
        0 <= i,
        i + spec_enc_fields(fs).len() <= s.len(),
        s.subrange(i, i + spec_enc_fields(fs).len() as int) == spec_enc_fields(fs),
        fuel >= fields_size(fs),
        fields_bounded(fs),
        fs.len() <= u64::MAX,
    ensures
        spec_dec_fields(s, i, fs.len(), fuel) == Some((fs, i + spec_enc_fields(fs).len() as int)),
    decreases fs,
{
    let enc = spec_enc_fields(fs);
    let all = i + enc.len() as int;
    if fs.len() > 0 {
        let name = fs[0].0;
        let v0 = fs[0].1;
        let d = dec_digits(name.len());
        let dl = d.len() as int;
        let nl = name.len() as int;
        let venc = spec_enc(v0);
        let vl = venc.len() as int;
        let renc = spec_enc_fields(fs.drop_first());
        lemma_enc_size(v0);
        lemma_embedded_slice(s, i, enc, 0, dl);
        assert(enc.subrange(0, dl) =~= d);
        lemma_embedded_index(s, i, enc, dl);
        assert(enc[dl] == ':');
        lemma_parse_embedded_num(s, i, name.len(), ':');
        let e = i + dl;
        lemma_embedded_slice(s, i, enc, dl + 1, dl + 1 + nl);
        assert(enc.subrange(dl + 1, dl + 1 + nl) =~= name);
        let np = e + 1 + nl;
        assert(s.subrange(e + 1, np) == name);
        lemma_embedded_slice(s, i, enc, dl + 1 + nl, dl + 1 + nl + vl);
        assert(enc.subrange(dl + 1 + nl, dl + 1 + nl + vl) =~= venc);
        assert(s.subrange(np, np + vl) == venc);
        lemma_dec_enc(s, np, v0, (fuel - 1) as nat);
        let e2 = np + vl;
        lemma_embedded_slice(s, i, enc, dl + 1 + nl + vl, enc.len() as int);
        assert(enc.subrange(dl + 1 + nl + vl, enc.len() as int) =~= renc);
        assert(s.subrange(e2, e2 + renc.len() as int) == renc);
        lemma_dec_enc_fields(s, e2, fs.drop_first(), (fuel - 1) as nat);
        assert(seq![(name, v0)] + fs.drop_first() =~= fs);
        assert(spec_dec_fields(s, i, fs.len(), fuel) == Some((fs, all)));
    }
}

/// Law: serialization round trip. Every bounded value decodes, from its own
/// encoding, back to itself.
pub proof fn lemma_codec_round_trip(v: SpecValue)
    requires
        val_bounded(v),
    ensures
        spec_decode(spec_enc(v)) == Some(v),
{
    let s = spec_enc(v);
    lemma_enc_size(v);
    assert(s.subrange(0, s.len() as int) =~= s);
    lemma_dec_enc(s, 0, v, s.len());
}

fn append_enc(out: &mut String, v: &Value)
    ensures
        final(out)@ == old(out)@ + spec_enc(v@),
        val_bounded(v@),
    decreases v, 0int,
{
    match v {
        Value::Null => {
            push_char(out, 'n');
            proof {
                assert(out@ =~= old(out)@ + spec_enc(v@));
            }
        },
        Value::UInt(n) => {
            push_char(out, 'u');
            push_decimal(*n, out);
            push_char(out, ';');
            proof {
                assert(out@ =~= old(out)@ + spec_enc(v@));
            }
        },
        Value::Text(s) => {
            push_char(out, 't');
            let len = s.as_str().unicode_len();
            push_decimal(len as u64, out);
            push_char(out, ':');
            out.append(s.as_str());
            proof {
                assert(out@ =~= old(out)@ + spec_enc(v@));
            }
        },
        Value::Record(fs) => {
            push_char(out, 'r');
            let cnt = fs.len();
            push_decimal(cnt as u64, out);
            push_char(out, ':');
            append_enc_fields(out, fs, 0);
            proof {
                lemma_fields_model(fs@);
                assert(fields_model(fs@).skip(0) =~= fields_model(fs@));
                assert(out@ =~= old(out)@ + spec_enc(v@));
            }
        },
    }
}

fn append_enc_fields(out: &mut String, fs: &Vec<Field>, i: usize)
    requires
        i <= fs@.len(),
    ensures
        final(out)@ == old(out)@ + spec_enc_fields(fields_model(fs@).skip(i as int)),
        fields_bounded(fields_model(fs@).skip(i as int)),
    decreases fs, fs@.len() - i,
{
    proof {
        lemma_fields_model(fs@);
    }
    if i == fs.len() {
        proof {
            assert(fields_model(fs@).skip(i as int) =~= Seq::<(Seq<char>, SpecValue)>::empty());
        }
    } else {
        let ghost m = fields_model(fs@);
        proof {
            assert(m.skip(i as int)[0] == m[i as int]);
            assert(m.skip(i as int).drop_first() =~= m.skip(i as int + 1));
        }
        let f = &fs[i];
        let nlen = f.name.as_str().unicode_len();
        push_decimal(nlen as u64, out);
        push_char(out, ':');
        out.append(f.name.as_str());
        append_enc(out, &f.value);
        append_enc_fields(out, fs, i + 1);
        proof {
            assert(out@ =~= old(out)@ + spec_enc_fields(m.skip(i as int)));
        }
    }
}

/// Encode a value into its stored string form.
pub fn encode(v: &Value) -> (r: String)
    ensures
        r@ == spec_enc(v@),
        val_bounded(v@),
{
    let mut out = String::new();
    append_enc(&mut out, v);
    proof {
        assert(out@ =~= spec_enc(v@));
    }
    out
}

fn digit_value(c: char) -> (r: u64)
    ensures
        r as nat == digit_val(c),
{
    if c == '0' {
        0
    } else if c == '1' {
        1
    } else if c == '2' {
        2
    } else if c == '3' {
        3
    } else if c == '4' {
        4
    } else if c == '5' {
        5
    } else if c == '6' {
        6
    } else if c == '7' {
        7
    } else if c == '8' {
        8
    } else if c == '9' {
        9
    } else {
        10
    }
}

fn parse_num_exec(s: &str, i: usize) -> (r: Option<(u64, usize, bool)>)
    requires
        i <= s@.len(),
    ensures
        ({
            let e = digits_end(s@, i as int);
            match r {
                Some((nv, ee, of)) => {
                    &&& ee as int == e
                    &&& i < ee <= s@.len()
                    &&& (!of ==> nv as nat == num_of(s@, i as int, e))
                    &&& (of ==> num_of(s@, i as int, e) > u64::MAX)
                },
                None => e == i,
            }
        }),
{
    let n = s.unicode_len();
    let mut k = i;
    let mut acc: u64 = 0;
    let mut of = false;
    while k < n && digit_value(s.get_char(k)) < 10
        invariant
            i <= k <= n,
            n == s@.len(),
            digits_end(s@, i as int) == digits_end(s@, k as int),
            forall|t: int| i <= t < k ==> is_digit(#[trigger] s@[t]),
            !of ==> acc as nat == num_of(s@, i as int, k as int),
            of ==> num_of(s@, i as int, k as int) > u64::MAX,
        decreases n - k,
    {
        let d = digit_value(s.get_char(k));
        proof {
            assert(num_of(s@, i as int, k as int + 1) == num_of(s@, i as int, k as int) * 10
                + digit_val(s@[k as int]));
        }
        if of {
        } else if acc > (u64::MAX - d) / 10 {
            proof {
                assert(acc * 10 + d > u64::MAX) by (nonlinear_arith)
                    requires
                        acc > (u64::MAX - d) / 10,
                        d < 10,
                ;
            }
            of = true;
        } else {
            proof {
                assert(acc * 10 + d <= u64::MAX) by (nonlinear_arith)
                    requires
                        acc <= (u64::MAX - d) / 10,
                        d < 10,
                ;
            }
            acc = acc * 10 + d;
        }
        k = k + 1;
    }
    proof {
        assert(digits_end(s@, k as int) == k as int);
    }
    if k == i {
        None
    } else {
        Some((acc, k, of))
    }
}

fn dec_exec(s: &str, i: usize, fuel: usize) -> (r: Option<(Value, usize)>)
    requires
        i <= s@.len(),
    ensures
        match r {
            Some((v, e)) => spec_dec(s@, i as int, fuel as nat) == Some((v@, e as int)) && i < e
                <= s@.len(),
            None => spec_dec(s@, i as int, fuel as nat) is None,
        },
    decreases fuel,
{
    let n = s.unicode_len();
    if fuel == 0 || i >= n {
        return None;
    }
    let c = s.get_char(i);
    if c == 'n' {
        Some((Value::Null, i + 1))
    } else if c == 'u' {
        match parse_num_exec(s, i + 1) {
            None => None,
            Some((nv, e, of)) => {
                if of {
                    None
                } else if e < n && s.get_char(e) == ';' {
                    Some((Value::UInt(nv), e + 1))
                } else {
                    None
                }
            },
        }
    } else if c == 't' {
        match parse_num_exec(s, i + 1) {
            None => None,
            Some((nv, e, of)) => {
                if e < n && s.get_char(e) == ':' {
                    if of || nv > (n - e - 1) as u64 {
                        None
                    } else {
                        let tl = nv as usize;
                        let t = s.substring_char(e + 1, e + 1 + tl).to_owned();
                        Some((Value::Text(t), e + 1 + tl))
                    }
                } else {
                    None
                }
            },
        }
    } else if c == 'r' {
        match parse_num_exec(s, i + 1) {
            None => None,
            Some((nv, e, of)) => {
                if e < n && s.get_char(e) == ':' {
                    if of {
                        None
                    } else {
                        match dec_fields_exec(s, e + 1, nv, fuel - 1) {
                            None => None,
                            Some((fields, e2)) => Some((Value::Record(fields), e2)),
                        }
                    }
                } else {
                    None
                }
            },
        }
    } else {
        None
    }
}

fn dec_fields_exec(s: &str, i: usize, cnt: u64, fuel: usize) -> (r: Option<(Vec<Field>, usize)>)
    requires
        i <= s@.len(),
    ensures
        match r {
            Some((fields, e)) => spec_dec_fields(s@, i as int, cnt as nat, fuel as nat) == Some(
                (fields_model(fields@), e as int),
            ) && i <= e <= s@.len(),
            None => spec_dec_fields(s@, i as int, cnt as nat, fuel as nat) is None,
        },
    decreases fuel,
{
    let n = s.unicode_len();
    if cnt == 0 {
        let fields: Vec<Field> = Vec::new();
        proof {
            assert(fields_model(fields@) =~= Seq::<(Seq<char>, SpecValue)>::empty());
        }
        return Some((fields, i));
    }
    if fuel == 0 {
        return None;
    }
    match parse_num_exec(s, i) {
        None => None,
        Some((nv, e, of)) => {
            if e < n && s.get_char(e) == ':' {
                if of || nv > (n - e - 1) as u64 {
                    None
                } else {
                    let nl = nv as usize;
                    let name = s.substring_char(e + 1, e + 1 + nl).to_owned();
                    match dec_exec(s, e + 1 + nl, fuel - 1) {
                        None => None,
                        Some((v, e2)) => match dec_fields_exec(s, e2, cnt - 1, fuel - 1) {
                            None => None,
                            Some((rest, e3)) => {
                                let ghost name0 = name@;
                                let ghost v0 = v@;
                                let mut fields: Vec<Field> = Vec::new();
                                fields.push(Field { name, value: v });
                                let ghost rest0 = rest@;
                                let mut rest = rest;
                                fields.append(&mut rest);
                                proof {
                                    lemma_fields_model(fields@);
                                    lemma_fields_model(rest0);
                                    assert(fields_model(fields@) =~= seq![(name0, v0)]
                                        + fields_model(rest0));
                                }
                                Some((fields, e3))
                            },
                        },
                    }
                }
            } else {
                None
            }
        },
    }
}

/// Decode a stored string back into a value.
///
/// Returns the value exactly when the string is one complete encoding —
/// [`spec_decode`] yields it — and `CodecError` on every other input.
pub fn decode(s: &str) -> (r: Result<Value, CodecError>)
    ensures
        match r {
            Ok(v) => spec_decode(s@) == Some(v@),
            Err(_) => spec_decode(s@) is None,
        },
{
    let n = s.unicode_len();
    match dec_exec(s, 0, n) {
        None => Err(CodecError::Malformed),
        Some((v, e)) => {
            if e == n {
                Ok(v)
            } else {
                Err(CodecError::Malformed)
            }
        },
    }
}

} // verus!
