use kolibri::json::{JsonNum, JsonValue};
use kolibri::optic::JsonOptic;
use kolibri::template::JsonTemplater;
use uuid::Uuid;

fn js(s: &str) -> JsonValue {
    JsonValue::Str(String::from(s))
}

fn jd(mant: i64, scale: u8) -> JsonValue {
    JsonValue::Num(JsonNum { mant, scale })
}

fn obj(fields: Vec<(&str, JsonValue)>) -> JsonValue {
    JsonValue::Obj(fields.into_iter().map(|(k, v)| (String::from(k), v)).collect())
}

fn subst(template: &mut JsonValue, data: JsonValue) {
    template.substitute_seeded(&data, 99);
}

#[test]
fn fill_template() {
    let mut template = obj(vec![
        ("description", js("${description}")),
        ("topic", js("${extras.topic}")),
        ("comment", js("${extras.comments.[0].text}")),
        ("meta", obj(vec![("field1", js("${extras.fields.[0]}"))])),
        ("composite", js("${extras.topic}: ${description}")),
    ]);
    let data = obj(vec![
        ("description", js("Some description")),
        (
            "extras",
            obj(vec![
                ("fields", JsonValue::Arr(vec![js("f1"), js("f2")])),
                ("topic", js("Main topic")),
                (
                    "comments",
                    JsonValue::Arr(vec![
                        obj(vec![("text", js("First nah!"))]),
                        obj(vec![("text", js("Okay"))]),
                    ]),
                ),
            ]),
        ),
    ]);
    subst(&mut template, data);
    let expected = obj(vec![
        ("description", js("Some description")),
        ("topic", js("Main topic")),
        ("comment", js("First nah!")),
        ("meta", obj(vec![("field1", js("f1"))])),
        ("composite", js("Main topic: Some description")),
    ]);
    assert!(template.deep_eq(&expected));
}

#[test]
fn absent_fields_should_be_ignored() {
    let mut template = obj(vec![("value", js("${description}"))]);
    let data = obj(vec![]);
    subst(&mut template, data);
    let expected = obj(vec![("value", js("${description}"))]);
    assert!(template.deep_eq(&expected));
}

#[test]
fn substitution_of_object() {
    let mut template = obj(vec![("value", js("${message}"))]);
    let data = obj(vec![("message", obj(vec![("peka", js("name"))]))]);
    subst(&mut template, data);
    let expected = obj(vec![("value", obj(vec![("peka", js("name"))]))]);
    assert!(template.deep_eq(&expected));
}

#[test]
fn convert_to_a_string() {
    let mut template = obj(vec![
        ("a", js("$:{b1}")),
        ("b", js("$:{b2}")),
        ("c", js("$:{n}")),
    ]);
    let data = obj(vec![
        ("b1", JsonValue::Bool(true)),
        ("b2", JsonValue::Bool(false)),
        ("n", jd(4599, 2)),
    ]);
    subst(&mut template, data);
    let expected = obj(vec![("a", js("true")), ("b", js("false")), ("c", js("45.99"))]);
    assert!(template.deep_eq(&expected));
}

#[test]
fn convert_from_string() {
    let mut template = obj(vec![
        ("a", js("$~{b1}")),
        ("b", js("$~{b2}")),
        ("c", js("$~{n}")),
    ]);
    let data = obj(vec![
        ("b1", js("true")),
        ("b2", js("false")),
        ("n", js("45.99")),
    ]);
    subst(&mut template, data);
    let expected = obj(vec![
        ("a", JsonValue::Bool(true)),
        ("b", JsonValue::Bool(false)),
        ("c", jd(4599, 2)),
    ]);
    assert!(template.deep_eq(&expected));
}

#[test]
fn javascript_eval() {
    let mut target = obj(vec![
        ("a", js("%{randomString(10)}")),
        ("ai", js("%{randomString(\"ABCDEF1234567890\", 4, 6)}")),
        ("b", js("%{randomInt(5)}")),
        ("bi", js("%{randomInt(3, 8)}")),
        ("c", js("%{randomLong(5)}")),
        ("ci", js("%{randomLong(3, 8)}")),
        ("d", js("%{UUID()}")),
    ]);
    target.substitute_seeded(&JsonValue::Null, 1234567);
    let allowed: Vec<char> = "ABCDEF1234567890".chars().collect();
    let a = target.get_all(&JsonOptic::from_path("a"));
    match &a[0] {
        JsonValue::Str(s) => assert_eq!(s.chars().count(), 10),
        _ => panic!("expected a string"),
    }
    let ai = target.get_all(&JsonOptic::from_path("ai"));
    match &ai[0] {
        JsonValue::Str(s) => {
            assert!(s.chars().all(|c| allowed.contains(&c)));
            assert!(s.chars().count() >= 4 && s.chars().count() < 6);
        },
        _ => panic!("expected a string"),
    }
    let b = target.get_all(&JsonOptic::from_path("b"));
    match &b[0] {
        JsonValue::Num(n) => assert!(n.scale == 0 && n.mant < 5),
        _ => panic!("expected a number"),
    }
    let bi = target.get_all(&JsonOptic::from_path("bi"));
    match &bi[0] {
        JsonValue::Num(n) => assert!(n.scale == 0 && n.mant >= 3 && n.mant < 8),
        _ => panic!("expected a number"),
    }
    let c = target.get_all(&JsonOptic::from_path("c"));
    match &c[0] {
        JsonValue::Num(n) => assert!(n.scale == 0 && n.mant < 5),
        _ => panic!("expected a number"),
    }
    let ci = target.get_all(&JsonOptic::from_path("ci"));
    match &ci[0] {
        JsonValue::Num(n) => assert!(n.scale == 0 && n.mant >= 3 && n.mant < 8),
        _ => panic!("expected a number"),
    }
    let d = target.get_all(&JsonOptic::from_path("d"));
    match &d[0] {
        JsonValue::Str(s) => assert!(Uuid::try_parse(s.as_str()).is_ok()),
        _ => panic!("expected a string"),
    }
}

#[test]
fn formatted_eval() {
    let mut target = obj(vec![(
        "fmt",
        js("%{randomInt(10) + ': ' + randomLong(10) + ' | ' + randomString(12)}"),
    )]);
    target.substitute_seeded(&JsonValue::Null, 424242);
    let fmt = target.get_all(&JsonOptic::from_path("fmt"));
    match &fmt[0] {
        JsonValue::Str(s) => assert_eq!(s.chars().count(), 19),
        _ => panic!("expected a string"),
    }
}

#[test]
fn json_patcher() {
    let mut target = obj(vec![
        ("f1", js("v1")),
        ("a2", JsonValue::Arr(vec![js("e1"), js("e2"), js("e3")])),
        ("o3", obj(vec![])),
    ]);
    let source = obj(vec![
        ("name", js("Peka")),
        ("surname", js("Kekovsky")),
        ("comment", js("nondesc")),
    ]);
    let schema = vec![
        (JsonOptic::from_path("a2.[4]"), String::from("${comment}")),
        (JsonOptic::from_path("o3.client"), String::from("${name} ${surname}")),
    ];
    let mut templater = JsonTemplater::new(source, 5);
    for (optic, defn) in &schema {
        if let Some(patcher) = templater.make_patcher_fn(defn.as_str()) {
            let mut slot = JsonValue::Null;
            patcher.apply(&mut slot);
            target.set(optic, &slot);
        }
    }
    let got1 = target.get_all(&JsonOptic::from_path("a2.[4]"));
    assert!(got1[0].deep_eq(&js("nondesc")));
    let got2 = target.get_all(&JsonOptic::from_path("o3.client"));
    assert!(got2[0].deep_eq(&js("Peka Kekovsky")));
}
