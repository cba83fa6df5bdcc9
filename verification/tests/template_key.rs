//! The template compiler and the binding resolver, on concrete templates.

use mcache::key::{Bindings, BindingError, derive_key, stringify_value};
use mcache::template::{KeyTemplate, Segment, TemplateError};
use mcache::value::{Field, Value};

fn place(path: &[&str]) -> Segment {
    Segment::Place(path.iter().map(|s| s.to_string()).collect())
}

fn lit(text: &str) -> Segment {
    Segment::Literal(text.to_string())
}

#[test]
fn compile_splits_literals_and_placeholders() {
    let t = KeyTemplate::compile("user:{id}-{name}").expect("template compiles");
    assert_eq!(
        t.segments,
        vec![lit("user:"), place(&["id"]), lit("-"), place(&["name"])]
    );
}

#[test]
fn compile_dotted_path() {
    let t = KeyTemplate::compile("user2:{p.id}-{p.token}").expect("template compiles");
    assert_eq!(
        t.segments,
        vec![lit("user2:"), place(&["p", "id"]), lit("-"), place(&["p", "token"])]
    );
}

#[test]
fn template_round_trip() {
    for text in [
        "user:{id}-{name}",
        "user2:{p.id}-{p.token}",
        "plain literal",
        "",
        "a{b",
        "a}b",
        "{only}",
        "{a._b9.c}tail",
    ] {
        let t = KeyTemplate::compile(text).expect("template compiles");
        assert_eq!(t.render(), text);
    }
}

#[test]
fn unmatched_braces_are_literal() {
    let t = KeyTemplate::compile("a{b").expect("an unclosed brace is literal");
    assert_eq!(t.segments, vec![lit("a{b")]);

    let t = KeyTemplate::compile("a}b{").expect("a closing brace alone is literal");
    assert_eq!(t.segments, vec![lit("a}b{")]);
}

#[test]
fn malformed_placeholders_are_rejected() {
    for text in ["{}", "x{}y", "{1a}", "{a..b}", "{a.}", "{.a}", "{a-b}", "{{a}}", "{ a}"] {
        assert_eq!(
            KeyTemplate::compile(text),
            Err(TemplateError::MalformedPlaceholder),
            "template {:?} must be rejected",
            text
        );
    }
}

fn user_param(id: u64, token: &str) -> Value {
    Value::Record(vec![
        Field { name: "id".to_string(), value: Value::UInt(id) },
        Field { name: "token".to_string(), value: Value::Text(token.to_string()) },
    ])
}

#[test]
fn nested_field_resolution() {
    let t = KeyTemplate::compile("user2:{p.id}-{p.token}").expect("template compiles");
    let mut args = Bindings::new();
    args.bind("p", user_param(1, "a"));
    let key = derive_key(&t, &args).expect("key must derive");
    assert_eq!(key, "user2:1-a");
}

#[test]
fn key_is_deterministic() {
    let t = KeyTemplate::compile("item:{id}:{p.token}").expect("template compiles");
    let mut args = Bindings::new();
    args.bind("id", Value::UInt(42));
    args.bind("p", user_param(7, "tok"));
    let k1 = derive_key(&t, &args).expect("key must derive");
    let k2 = derive_key(&t, &args).expect("key must derive");
    assert_eq!(k1, k2);
    assert_eq!(k1, "item:42:tok");
}

#[test]
fn duplicate_placeholders_substitute_independently() {
    let t = KeyTemplate::compile("{id}/{id}").expect("template compiles");
    let mut args = Bindings::new();
    args.bind("id", Value::UInt(9));
    assert_eq!(derive_key(&t, &args).expect("key must derive"), "9/9");
}

#[test]
fn numbers_render_in_decimal() {
    let t = KeyTemplate::compile("{n}").expect("template compiles");
    let mut args = Bindings::new();
    args.bind("n", Value::UInt(12340567));
    assert_eq!(derive_key(&t, &args).expect("key must derive"), "12340567");

    let mut zero = Bindings::new();
    zero.bind("n", Value::UInt(0));
    assert_eq!(derive_key(&t, &zero).expect("key must derive"), "0");

    let mut max = Bindings::new();
    max.bind("n", Value::UInt(u64::MAX));
    assert_eq!(derive_key(&t, &max).expect("key must derive"), "18446744073709551615");
}

#[test]
fn unknown_argument_is_an_error() {
    let t = KeyTemplate::compile("item:{missing}").expect("template compiles");
    let args = Bindings::new();
    assert_eq!(derive_key(&t, &args), Err(BindingError::UnknownArgument));
}

#[test]
fn unknown_field_is_an_error() {
    let t = KeyTemplate::compile("item:{p.absent}").expect("template compiles");
    let mut args = Bindings::new();
    args.bind("p", user_param(1, "a"));
    assert_eq!(derive_key(&t, &args), Err(BindingError::UnknownField));

    // Descending into a non-record value is an unknown field too.
    let t = KeyTemplate::compile("item:{p.id.deeper}").expect("template compiles");
    assert_eq!(derive_key(&t, &args), Err(BindingError::UnknownField));
}

#[test]
fn values_without_text_form_are_an_error() {
    let t = KeyTemplate::compile("item:{p}").expect("template compiles");
    let mut args = Bindings::new();
    args.bind("p", user_param(1, "a"));
    assert_eq!(derive_key(&t, &args), Err(BindingError::NotStringifiable));

    let mut null_arg = Bindings::new();
    null_arg.bind("p", Value::Null);
    let t2 = KeyTemplate::compile("{p}").expect("template compiles");
    assert_eq!(derive_key(&t2, &null_arg), Err(BindingError::NotStringifiable));
}

#[test]
fn stringify_terminal_values() {
    assert_eq!(stringify_value(&Value::UInt(5)), Ok("5".to_string()));
    assert_eq!(stringify_value(&Value::Text("abc".to_string())), Ok("abc".to_string()));
    assert_eq!(stringify_value(&Value::Null), Err(BindingError::NotStringifiable));
    assert_eq!(stringify_value(&Value::Record(vec![])), Err(BindingError::NotStringifiable));
}

#[test]
fn duplicate_binding_first_wins() {
    let t = KeyTemplate::compile("{id}").expect("template compiles");
    let mut args = Bindings::new();
    args.bind("id", Value::UInt(1));
    args.bind("id", Value::UInt(2));
    assert_eq!(derive_key(&t, &args).expect("key must derive"), "1");
}

#[test]
fn render_of_hand_built_plan() {
    let t = KeyTemplate { segments: vec![lit("user:"), place(&["p", "id"]), lit("!")] };
    assert_eq!(t.render(), "user:{p.id}!");
}

#[test]
fn substituted_values_are_not_escaped() {
    // A value holding template-like text collides with literal text; this
    // is the documented, accepted limitation.
    let t = KeyTemplate::compile("k:{a}").expect("template compiles");
    let mut args = Bindings::new();
    args.bind("a", Value::Text("x-{y}".to_string()));
    assert_eq!(derive_key(&t, &args).expect("key must derive"), "k:x-{y}");
}
