use kolibri::json::{JsonNum, JsonValue};
use kolibri::sandbox::JsSandbox;

fn jn(i: i64) -> JsonValue {
    JsonValue::Num(JsonNum { mant: i, scale: 0 })
}

fn js(s: &str) -> JsonValue {
    JsonValue::Str(String::from(s))
}

#[test]
fn eval_literals() {
    let mut r1 = JsSandbox::make_runner(Vec::new(), 7).unwrap();
    let v1 = r1.eval("[1, \"test\", true]").unwrap();
    let expected1 = JsonValue::Arr(vec![jn(1), js("test"), JsonValue::Bool(true)]);
    assert!(v1.deep_eq(&expected1));

    let mut r2 = JsSandbox::make_runner(Vec::new(), 7).unwrap();
    let v2 = r2.eval("var res = {'a': {'b': 'c'}}; res").unwrap();
    let expected2 = JsonValue::Obj(vec![(
        String::from("a"),
        JsonValue::Obj(vec![(String::from("b"), js("c"))]),
    )]);
    assert!(v2.deep_eq(&expected2));
}

#[test]
fn eval_simple_arithmetics() {
    let mut r = JsSandbox::make_runner(Vec::new(), 7).unwrap();
    let v = r.eval("1 + 2").unwrap();
    assert!(v.deep_eq(&jn(3)));
}

#[test]
fn eval_with_context() {
    let env = vec![(String::from("a"), jn(1)), (String::from("b"), jn(2))];
    let mut r = JsSandbox::make_runner(env, 7).unwrap();
    let v = r.eval("a + b").unwrap();
    assert!(v.deep_eq(&jn(3)));
}

#[test]
fn evaluations_should_not_have_shared_data() {
    let mut r1 = JsSandbox::make_runner(Vec::new(), 7).unwrap();
    r1.eval("var a = 42;").unwrap();
    let mut r2 = JsSandbox::make_runner(Vec::new(), 7).unwrap();
    assert!(r2.eval("a").is_err());
}

#[test]
fn get_value_from_provided_map() {
    let env = vec![(
        String::from("m"),
        JsonValue::Obj(vec![(String::from("f1"), js("hello"))]),
    )];
    let mut r = JsSandbox::make_runner(env, 7).unwrap();
    let v = r.eval("m.f1").unwrap();
    assert!(v.deep_eq(&js("hello")));
}
