use kolibri::handler::ExecHandler;
use kolibri::json::{JsonNum, JsonValue};
use kolibri::optic::JsonOptic;
use kolibri::predicate::{JsonPredicate, Keyword};
use kolibri::resolver::StubResolver;
use kolibri::rx::CompiledRegex;
use kolibri::stub::{
    HttpMethod, HttpStub, HttpStubRequest, HttpStubResponse, RequestBody, Scope, State,
};

fn js(s: &str) -> JsonValue {
    JsonValue::Str(String::from(s))
}

fn jn(i: i64) -> JsonValue {
    JsonValue::Num(JsonNum { mant: i, scale: 0 })
}

fn obj(fields: Vec<(&str, JsonValue)>) -> JsonValue {
    JsonValue::Obj(fields.into_iter().map(|(k, v)| (String::from(k), v)).collect())
}

fn empty_query() -> JsonPredicate {
    JsonPredicate::from_spec(Vec::new())
}

fn base_stub(name: &str, scope: Scope, path: &str, response: HttpStubResponse) -> HttpStub {
    HttpStub {
        created: 0,
        scope,
        times: None,
        name: String::from(name),
        method: HttpMethod::Get,
        path: Some(String::from(path)),
        path_pattern: None,
        seed: None,
        state: None,
        request: HttpStubRequest::RequestWithoutBody {
            headers: Vec::new(),
            query: empty_query(),
        },
        persist: None,
        response,
    callback: None,
    }
}

fn raw_response(code: u16, body: &str, delay: Option<u64>) -> HttpStubResponse {
    HttpStubResponse::RawResponse {
        code,
        headers: Vec::new(),
        body: String::from(body),
        delay,
    }
}

fn run(
    handler: &mut ExecHandler,
    path: &str,
) -> Result<HttpStubResponse, kolibri::error::Error> {
    handler.exec(
        0,
        &HttpMethod::Get,
        path,
        &Vec::new(),
        &obj(vec![]),
        &RequestBody::AbsentRequestBody,
    )
}

#[test]
fn scenario_echo_raw() {
    let stub = base_stub("echo", Scope::Persistent, "/echo", raw_response(200, "hi", None));
    let resolver = StubResolver::new(vec![stub], Vec::new());
    let mut handler = ExecHandler::new(resolver, 11);
    let resp = run(&mut handler, "/echo").unwrap();
    match resp {
        HttpStubResponse::RawResponse { code, body, .. } => {
            assert_eq!(code, 200);
            assert_eq!(body.as_str(), "hi");
        },
        _ => panic!("expected a raw response"),
    }
}

#[test]
fn scenario_path_pattern_template() {
    let mut stub = base_stub(
        "user",
        Scope::Persistent,
        "/unused",
        HttpStubResponse::JsonResponse {
            code: 200,
            headers: Vec::new(),
            body: obj(vec![("who", js("${pathParts.id}"))]),
            delay: None,
            is_template: true,
        },
    );
    stub.path = None;
    stub.path_pattern = Some(CompiledRegex::compile("/user/(?P<id>\\d+)").unwrap());
    let resolver = StubResolver::new(vec![stub], Vec::new());
    let mut handler = ExecHandler::new(resolver, 11);
    let resp = run(&mut handler, "/user/42").unwrap();
    match resp {
        HttpStubResponse::JsonResponse { body, .. } => {
            assert!(body.deep_eq(&obj(vec![("who", js("42"))])));
        },
        _ => panic!("expected a json response"),
    }
}

#[test]
fn scenario_countdown_exhaustion() {
    let mut stub = base_stub("cd", Scope::Countdown, "/x", raw_response(200, "x", None));
    stub.times = Some(2);
    let resolver = StubResolver::new(vec![stub], Vec::new());
    let mut handler = ExecHandler::new(resolver, 11);
    for _ in 0..2 {
        let resp = run(&mut handler, "/x").unwrap();
        match resp {
            HttpStubResponse::RawResponse { body, .. } => assert_eq!(body.as_str(), "x"),
            _ => panic!("expected a raw response"),
        }
    }
    assert!(run(&mut handler, "/x").is_err());
}

#[test]
fn scenario_stateful_persist() {
    let mut stub = base_stub("st", Scope::Persistent, "/count", raw_response(200, "ok", None));
    stub.state = Some(JsonPredicate::from_spec(vec![(
        JsonOptic::from_path("counter"),
        vec![(Keyword::Gte, jn(1))],
    )]));
    stub.persist = Some(vec![(
        JsonOptic::from_path("counter"),
        js("%{counter+1}"),
    )]);
    let start = State { id: 7, created: 0, data: obj(vec![("counter", jn(1))]) };
    let resolver = StubResolver::new(vec![stub], vec![start]);
    let mut handler = ExecHandler::new(resolver, 11);
    run(&mut handler, "/count").unwrap();
    let after = &handler.stub_res.states[0];
    assert_eq!(after.id, 7);
    assert!(after.data.deep_eq(&obj(vec![("counter", jn(2))])));
}

#[test]
fn scenario_two_stateless_stubs() {
    let one = base_stub("a", Scope::Persistent, "/dup", raw_response(200, "1", None));
    let two = base_stub("b", Scope::Persistent, "/dup", raw_response(200, "2", None));
    let resolver = StubResolver::new(vec![one, two], Vec::new());
    let mut handler = ExecHandler::new(resolver, 11);
    let err = run(&mut handler, "/dup").unwrap_err();
    assert_eq!(err.text().as_str(), "More than one stateless stub found");
}

#[test]
fn scope_priority_countdown_first() {
    let mut cd = base_stub("cd", Scope::Countdown, "/p", raw_response(200, "from-cd", None));
    cd.times = Some(1);
    let ps = base_stub("ps", Scope::Persistent, "/p", raw_response(200, "from-ps", None));
    let resolver = StubResolver::new(vec![cd, ps], Vec::new());
    let mut handler = ExecHandler::new(resolver, 11);
    match run(&mut handler, "/p").unwrap() {
        HttpStubResponse::RawResponse { body, .. } => assert_eq!(body.as_str(), "from-cd"),
        _ => panic!("expected a raw response"),
    }
    match run(&mut handler, "/p").unwrap() {
        HttpStubResponse::RawResponse { body, .. } => assert_eq!(body.as_str(), "from-ps"),
        _ => panic!("expected a raw response"),
    }
}

#[test]
fn persist_merge_is_deep() {
    let mut state = obj(vec![("a", obj(vec![("c", jn(1))]))]);
    let patch = obj(vec![("a", obj(vec![("b", jn(2))]))]);
    state.merge(&patch);
    let expected = obj(vec![("a", obj(vec![("c", jn(1)), ("b", jn(2))]))]);
    assert!(state.deep_eq(&expected));
}

#[test]
fn predicate_and_joins() {
    let spec = vec![
        (JsonOptic::from_path("a"), vec![(Keyword::Equals, jn(1))]),
        (JsonOptic::from_path("b"), vec![(Keyword::Greater, jn(0))]),
    ];
    let pred = JsonPredicate::from_spec(spec);
    let good = obj(vec![("a", jn(1)), ("b", jn(5))]);
    let bad = obj(vec![("a", jn(1)), ("b", jn(0))]);
    assert_eq!(pred.validate(&good).unwrap(), true);
    assert_eq!(pred.validate(&bad).unwrap(), false);
}

#[test]
fn predicate_malformed_operand_errs() {
    let spec = vec![(
        JsonOptic::from_path("a"),
        vec![(Keyword::Size, js("not-a-number"))],
    )];
    let pred = JsonPredicate::from_spec(spec);
    let doc = obj(vec![("a", JsonValue::Arr(vec![jn(1)]))]);
    assert!(pred.validate(&doc).is_err());
}

#[test]
fn response_delay_is_carried() {
    let resp = raw_response(200, "slow", Some(50));
    assert_eq!(resp.get_delay(), Some(50));
}

#[test]
fn json_parse_round_trip() {
    let parsed = JsonValue::parse_json("{\"a\": [1, 2.5, \"x\", true, null]}").unwrap();
    let expected = obj(vec![(
        "a",
        JsonValue::Arr(vec![
            jn(1),
            JsonValue::Num(JsonNum { mant: 25, scale: 1 }),
            js("x"),
            JsonValue::Bool(true),
            JsonValue::Null,
        ]),
    )]);
    assert!(parsed.deep_eq(&expected));
    let text = expected.to_text();
    let reparsed = JsonValue::parse_json(text.as_str()).unwrap();
    assert!(reparsed.deep_eq(&expected));
}

#[test]
fn no_stub_diagnostic() {
    let resolver = StubResolver::new(Vec::new(), Vec::new());
    let mut handler = ExecHandler::new(resolver, 11);
    let err = run(&mut handler, "/nothing").unwrap_err();
    assert_eq!(err.text().as_str(), "no stub found for [GET] /nothing");
}

#[test]
fn extract_string_reads_body() {
    let body = RequestBody::SimpleRequestBody {
        raw_value: vec![104, 105],
        value: String::from("hi"),
    };
    assert_eq!(body.extract_string().unwrap().as_str(), "hi");
    assert!(RequestBody::AbsentRequestBody.extract_string().is_none());
}

#[test]
fn cast_round_trip_on_number() {
    let mut template = obj(vec![("v", js("$~{x}"))]);
    let inner = obj(vec![("x", js("$:{y}"))]);
    let mut step1 = inner;
    step1.substitute_seeded(&obj(vec![("y", jn(7))]), 3);
    let x = step1.get_all(&JsonOptic::from_path("x"));
    template.substitute_seeded(&obj(vec![("x", x[0].duplicate())]), 3);
    let got = template.get_all(&JsonOptic::from_path("v"));
    assert!(got[0].deep_eq(&jn(7)));
}
