//! The binding resolver.
//!
//! Given a compiled plan and the live argument values of a call, this module
//! substitutes every placeholder with the text of the value at its field
//! path and concatenates the result into the concrete cache key. The path's
//! first identifier names an argument; each further identifier names a field
//! of the record reached so far; the terminal value is rendered by its
//! canonical text form. Substitution follows template order, left to right,
//! and the first failing placeholder decides the error.

use vstd::prelude::*;
use crate::template::{KeyTemplate, Segment, SpecSegment, strs_model};
use crate::value::{Field, SpecValue, Value, dec_digits, fields_model, lemma_fields_model,
    u64_to_string, val_model};

verus! {

/// Failure to resolve a placeholder against the call's arguments.
#[derive(Debug, PartialEq, Eq)]
pub enum BindingError {
    /// The path's first identifier names no argument of the call.
    UnknownArgument,
    /// A later identifier names no field of the record reached so far, or
    /// the path descends into a value that is not a record.
    UnknownField,
    /// The value at the path's end is null or a record: it has no canonical
    /// text form.
    NotStringifiable,
}

/// The live arguments of one call, by name, in binding order.
#[derive(Debug, PartialEq, Eq)]
pub struct Bindings {
    pub args: Vec<Field>,
}

impl View for Bindings {
    type V = Seq<(Seq<char>, SpecValue)>;

    open spec fn view(&self) -> Seq<(Seq<char>, SpecValue)> {
        fields_model(self.args@)
    }
}

impl Bindings {
    /// No arguments bound yet.
    pub fn new() -> (r: Bindings)
        ensures
            r@ == Seq::<(Seq<char>, SpecValue)>::empty(),
    {
        Bindings { args: Vec::new() }
    }

    /// Bind one more named argument.
    pub fn bind(&mut self, name: &str, value: Value)
        ensures
            final(self)@ == old(self)@.push((name@, val_model(value))),
    {
        self.args.push(Field { name: name.to_owned(), value });
        proof {
            assert(self.args@.drop_last() =~= old(self).args@);
        }
    }
}

/// The value under `name` in a field list: the first matching entry wins.
pub open spec fn spec_lookup(fs: Seq<(Seq<char>, SpecValue)>, name: Seq<char>) -> Option<
    SpecValue,
>
    decreases fs.len(),
{
    if fs.len() == 0 {
        None
    } else if fs[0].0 == name {
        Some(fs[0].1)
    } else {
        spec_lookup(fs.drop_first(), name)
    }
}

/// Descend from `v` along `path[i..]` by field access.
pub open spec fn spec_resolve(v: SpecValue, path: Seq<Seq<char>>, i: int) -> Result<
    SpecValue,
    BindingError,
>
    decreases path.len() - i,
{
    if i >= path.len() {
        Ok(v)
    } else {
        match v {
            SpecValue::Record(fs) => match spec_lookup(fs, path[i]) {
                Some(inner) => spec_resolve(inner, path, i + 1),
                None => Err(BindingError::UnknownField),
            },
            _ => Err(BindingError::UnknownField),
        }
    }
}

/// Resolve a whole path: the first identifier against the arguments, the
/// rest by field access.
pub open spec fn spec_resolve_path(
    args: Seq<(Seq<char>, SpecValue)>,
    path: Seq<Seq<char>>,
) -> Result<SpecValue, BindingError> {
    if path.len() == 0 {
        Err(BindingError::UnknownArgument)
    } else {
        match spec_lookup(args, path[0]) {
            None => Err(BindingError::UnknownArgument),
            Some(v) => spec_resolve(v, path, 1),
        }
    }
}

/// The canonical text of a terminal value: decimal digits for an unsigned
/// integer, the text itself for a text; null and records have none.
pub open spec fn spec_stringify(v: SpecValue) -> Result<Seq<char>, BindingError> {
    match v {
        SpecValue::UInt(n) => Ok(dec_digits(n as nat)),
        SpecValue::Text(s) => Ok(s),
        _ => Err(BindingError::NotStringifiable),
    }
}

/// The concrete cache key of a plan under the given arguments: literals as
/// they are, placeholders replaced by the text of their resolved value; or
/// the first failing placeholder's error.
pub open spec fn spec_key(
    segs: Seq<SpecSegment>,
    args: Seq<(Seq<char>, SpecValue)>,
) -> Result<Seq<char>, BindingError>
    decreases segs.len(),
{
    if segs.len() == 0 {
        Ok(Seq::empty())
    } else {
        let head = match segs[0] {
            SpecSegment::Lit(l) => Ok(l),
            SpecSegment::Place(path) => match spec_resolve_path(args, path) {
                Ok(v) => spec_stringify(v),
                Err(e) => Err(e),
            },
        };
        match head {
            Err(e) => Err(e),
            Ok(h) => match spec_key(segs.drop_first(), args) {
                Err(e) => Err(e),
                Ok(rest) => Ok(h + rest),
            },
        }
    }
}

/// Law: key determinism. The derived key is a function of the plan and the
/// argument values alone — two derivations from equal plans and equal
/// argument values give equal results.
pub proof fn lemma_key_deterministic(
    segs: Seq<SpecSegment>,
    args: Seq<(Seq<char>, SpecValue)>,
    r1: Result<Seq<char>, BindingError>,
    r2: Result<Seq<char>, BindingError>,
)
    requires
        r1 == spec_key(segs, args),
        r2 == spec_key(segs, args),
    ensures
        r1 == r2,
{
}

fn lookup_from<'a>(fs: &'a Vec<Field>, i: usize, name: &String) -> (r: Option<&'a Value>)
    requires
        i <= fs@.len(),
    ensures
        match r {
            Some(v) => spec_lookup(fields_model(fs@).skip(i as int), name@) == Some(v@),
            None => spec_lookup(fields_model(fs@).skip(i as int), name@) is None,
        },
    decreases fs@.len() - i,
{
    proof {
        lemma_fields_model(fs@);
    }
    if i == fs.len() {
        proof {
            assert(fields_model(fs@).skip(i as int) =~= Seq::<(Seq<char>, SpecValue)>::empty());
        }
        None
    } else {
        proof {
            let m = fields_model(fs@);
            assert(m.skip(i as int)[0] == m[i as int]);
            assert(m.skip(i as int).drop_first() =~= m.skip(i as int + 1));
        }
        if fs[i].name.eq(name) {
            Some(&fs[i].value)
        } else {
            lookup_from(fs, i + 1, name)
        }
    }
}

fn resolve_value<'a>(v: &'a Value, path: &Vec<String>, i: usize) -> (r: Result<
    &'a Value,
    BindingError,
>)
    requires
        i <= path@.len(),
    ensures
        match r {
            Ok(out) => spec_resolve(v@, strs_model(path@), i as int) == Ok::<
                SpecValue,
                BindingError,
            >(out@),
            Err(e) => spec_resolve(v@, strs_model(path@), i as int) == Err::<
                SpecValue,
                BindingError,
            >(e),
        },
    decreases path@.len() - i,
{
    if i == path.len() {
        Ok(v)
    } else {
        match v {
            Value::Record(fs) => match lookup_from(fs, 0, &path[i]) {
                Some(inner) => {
                    proof {
                        assert(fields_model(fs@).skip(0) =~= fields_model(fs@));
                    }
                    resolve_value(inner, path, i + 1)
                },
                None => {
                    proof {
                        assert(fields_model(fs@).skip(0) =~= fields_model(fs@));
                    }
                    Err(BindingError::UnknownField)
                },
            },
            _ => Err(BindingError::UnknownField),
        }
    }
}

fn resolve_path<'a>(args: &'a Bindings, path: &Vec<String>) -> (r: Result<&'a Value, BindingError>)
    ensures
        match r {
            Ok(out) => spec_resolve_path(args@, strs_model(path@)) == Ok::<
                SpecValue,
                BindingError,
            >(out@),
            Err(e) => spec_resolve_path(args@, strs_model(path@)) == Err::<
                SpecValue,
                BindingError,
            >(e),
        },
{
    if path.len() == 0 {
        Err(BindingError::UnknownArgument)
    } else {
        proof {
            assert(fields_model(args.args@).skip(0) =~= fields_model(args.args@));
        }
        match lookup_from(&args.args, 0, &path[0]) {
            None => Err(BindingError::UnknownArgument),
            Some(v) => resolve_value(v, path, 1),
        }
    }
}

/// The canonical text of a terminal value.
pub fn stringify_value(v: &Value) -> (r: Result<String, BindingError>)
    ensures
        match r {
            Ok(s) => spec_stringify(v@) == Ok::<Seq<char>, BindingError>(s@),
            Err(e) => spec_stringify(v@) == Err::<Seq<char>, BindingError>(e),
        },
{
    match v {
        Value::UInt(n) => Ok(u64_to_string(*n)),
        Value::Text(s) => Ok(s.clone()),
        _ => Err(BindingError::NotStringifiable),
    }
}

fn key_from(t: &KeyTemplate, args: &Bindings, k: usize) -> (r: Result<String, BindingError>)
    requires
        k <= t.segments@.len(),
    ensures
        match r {
            Ok(s) => spec_key(t@.skip(k as int), args@) == Ok::<Seq<char>, BindingError>(s@),
            Err(e) => spec_key(t@.skip(k as int), args@) == Err::<Seq<char>, BindingError>(e),
        },
    decreases t.segments@.len() - k,
{
    if k == t.segments.len() {
        proof {
            assert(t@.skip(k as int) =~= Seq::<SpecSegment>::empty());
        }
        Ok(String::new())
    } else {
        proof {
            assert(t@.skip(k as int)[0] == t@[k as int]);
            assert(t@.skip(k as int).drop_first() =~= t@.skip(k as int + 1));
        }
        let head: Result<String, BindingError> = match &t.segments[k] {
            Segment::Literal(l) => Ok(l.clone()),
            Segment::Place(path) => match resolve_path(args, path) {
                Ok(v) => stringify_value(v),
                Err(e) => Err(e),
            },
        };
        match head {
            Err(e) => Err(e),
            Ok(h) => match key_from(t, args, k + 1) {
                Err(e) => Err(e),
                Ok(rest) => Ok(h.concat(rest.as_str())),
            },
        }
    }
}

/// Derive the concrete cache key of one call: substitute every placeholder
/// of the plan with the text of the value at its path in `args`.
///
/// Returns the key exactly when every placeholder resolves to a value with
/// a canonical text form; otherwise the first failing placeholder's error,
/// as [`spec_key`] states.
pub fn derive_key(t: &KeyTemplate, args: &Bindings) -> (r: Result<String, BindingError>)
    ensures
        match r {
            Ok(s) => spec_key(t@, args@) == Ok::<Seq<char>, BindingError>(s@),
            Err(e) => spec_key(t@, args@) == Err::<Seq<char>, BindingError>(e),
        },
{
    let r = key_from(t, args, 0);
    proof {
        assert(t@.skip(0) =~= t@);
    }
    r
}

} // verus!
