use vstd::prelude::*;
use crate::error::Error;
use crate::json::{JsonValue, JVal, jv, jv_seq, jv_fields, lemma_jv_fields, wf, jeq};
use crate::jsontext::json_parse;
use crate::optic::{JsonOptic, OStep};
use crate::predicate::{JsonPredicate, Keyword, pred_malformed, pred_holds, pred_wf, kv_view,
    entries_view};
use crate::rx::{CompiledRegex, regex_match, regex_groups};
use crate::strutil::{lower_chars, ascii_lowercase, str_eq, str_to_chars};
use crate::template::{subst_val, tview, wf_entries};
use crate::sandbox::{run_code, env_wf};

verus! {

/// The lifetime and selection class of a stub.
#[derive(Clone, Copy, Debug, PartialEq, Eq, Structural)]
pub enum Scope {
    Persistent,
    Ephemeral,
    Countdown,
}

/// An HTTP verb.
#[derive(Clone, Copy, Debug, PartialEq, Eq, Structural)]
pub enum HttpMethod {
    Get,
    Post,
    Head,
    Options,
    Patch,
    Put,
    Delete,
}

/// An incoming request body: absent, or raw bytes with their text.
#[derive(Debug)]
pub enum RequestBody {
    AbsentRequestBody,
    SimpleRequestBody { raw_value: Vec<u8>, value: String },
}

/// The model of a request body.
pub enum RBV {
    Absent,
    Simple(Seq<u8>, Seq<char>),
}

impl View for RequestBody {
    type V = RBV;

    open spec fn view(&self) -> RBV {
        match *self {
            RequestBody::AbsentRequestBody => RBV::Absent,
            RequestBody::SimpleRequestBody { ref raw_value, ref value } => RBV::Simple(
                raw_value@,
                value@,
            ),
        }
    }
}

impl RequestBody {
    /// The body's text, when a body is present.
    pub fn extract_string(&self) -> (r: Option<String>)
        ensures
            match r {
                Some(t) => self@ is Simple && self@->Simple_1 == t@,
                None => self@ is Absent,
            },
    {
        match self {
            RequestBody::SimpleRequestBody { value, .. } => Some(value.clone()),
            _ => None,
        }
    }
}

/// The model of a header list.
pub open spec fn hview(s: Seq<(String, String)>) -> Seq<(Seq<char>, Seq<char>)>
    decreases s,
{
    if s.len() == 0 {
        Seq::empty()
    } else {
        hview(s.drop_last()).push((s.last().0@, s.last().1@))
    }
}

pub broadcast proof fn lemma_hview(s: Seq<(String, String)>)
    ensures
        (#[trigger] hview(s)).len() == s.len(),
        forall|i: int| 0 <= i < s.len() ==> hview(s)[i] == (s[i].0@, s[i].1@),
    decreases s.len(),
{
    if s.len() > 0 {
        lemma_hview(s.drop_last());
    }
}

/// The first header value under the given name, if any.
pub open spec fn hdr_lookup(hs: Seq<(Seq<char>, Seq<char>)>, name: Seq<char>) -> Option<Seq<char>>
    decreases hs.len(),
{
    if hs.len() == 0 {
        None
    } else if hs.first().0 == name {
        Some(hs.first().1)
    } else {
        hdr_lookup(hs.drop_first(), name)
    }
}

/// Every expected header is present with a value equal up to ASCII case.
pub open spec fn headers_match(
    expected: Seq<(Seq<char>, Seq<char>)>,
    hs: Seq<(Seq<char>, Seq<char>)>,
) -> bool
    decreases expected.len(),
{
    if expected.len() == 0 {
        true
    } else {
        headers_match(expected.drop_last(), hs) && {
            let w = hdr_lookup(hs, expected.last().0);
            w is Some && lower_chars(w->0) == lower_chars(expected.last().1)
        }
    }
}

pub proof fn lemma_headers_match_index(
    expected: Seq<(Seq<char>, Seq<char>)>,
    hs: Seq<(Seq<char>, Seq<char>)>,
    i: int,
)
    requires
        headers_match(expected, hs),
        0 <= i < expected.len(),
    ensures
        hdr_lookup(hs, expected[i].0) is Some,
        lower_chars(hdr_lookup(hs, expected[i].0)->0) == lower_chars(expected[i].1),
    decreases expected.len(),
{
    if i < expected.len() - 1 {
        lemma_headers_match_index(expected.drop_last(), hs, i);
    }
}

/// The first header value under the given name, executed.
pub fn find_header<'a>(hs: &'a Vec<(String, String)>, name: &str) -> (r: Option<&'a String>)
    ensures
        match r {
            Some(v) => hdr_lookup(hview(hs@), name@) == Some(v@),
            None => hdr_lookup(hview(hs@), name@) is None,
        },
{
    let ghost s = hview(hs@);
    let mut i: usize = 0;
    proof {
        lemma_hview(hs@);
        assert(s.skip(0) =~= s);
    }
    while i < hs.len()
        invariant
            i <= hs@.len(),
            s == hview(hs@),
            s.len() == hs@.len(),
            hdr_lookup(s, name@) == hdr_lookup(s.skip(i as int), name@),
        decreases hs@.len() - i,
    {
        proof {
            lemma_hview(hs@);
            assert(s.skip(i as int)[0] == s[i as int]);
        }
        if str_eq(hs[i].0.as_str(), name) {
            return Some(&hs[i].1);
        }
        proof {
            assert(s.skip(i as int).drop_first() =~= s.skip(i + 1 as int));
        }
        i += 1;
    }
    proof {
        assert(s.skip(hs@.len() as int) =~= Seq::<(Seq<char>, Seq<char>)>::empty());
    }
    None
}

/// The request match clause of a stub.
#[derive(Debug)]
pub enum HttpStubRequest {
    RequestWithoutBody { headers: Vec<(String, String)>, query: JsonPredicate },
    JsonRequest { headers: Vec<(String, String)>, query: JsonPredicate, body: JsonValue },
    RawRequest { headers: Vec<(String, String)>, query: JsonPredicate, body: String },
    JLensRequest { headers: Vec<(String, String)>, query: JsonPredicate, body: JsonPredicate },
}

/// The model of a request clause.
pub enum RqV {
    NoBody {
        headers: Seq<(Seq<char>, Seq<char>)>,
        query: Seq<(Seq<OStep>, Seq<(Keyword, JVal)>)>,
    },
    Json {
        headers: Seq<(Seq<char>, Seq<char>)>,
        query: Seq<(Seq<OStep>, Seq<(Keyword, JVal)>)>,
        body: JVal,
    },
    Raw {
        headers: Seq<(Seq<char>, Seq<char>)>,
        query: Seq<(Seq<OStep>, Seq<(Keyword, JVal)>)>,
        body: Seq<char>,
    },
    JLens {
        headers: Seq<(Seq<char>, Seq<char>)>,
        query: Seq<(Seq<OStep>, Seq<(Keyword, JVal)>)>,
        body: Seq<(Seq<OStep>, Seq<(Keyword, JVal)>)>,
    },
}

impl RqV {
    pub open spec fn headers(self) -> Seq<(Seq<char>, Seq<char>)> {
        match self {
            RqV::NoBody { headers, .. } => headers,
            RqV::Json { headers, .. } => headers,
            RqV::Raw { headers, .. } => headers,
            RqV::JLens { headers, .. } => headers,
        }
    }

    pub open spec fn query(self) -> Seq<(Seq<OStep>, Seq<(Keyword, JVal)>)> {
        match self {
            RqV::NoBody { query, .. } => query,
            RqV::Json { query, .. } => query,
            RqV::Raw { query, .. } => query,
            RqV::JLens { query, .. } => query,
        }
    }
}

impl View for HttpStubRequest {
    type V = RqV;

    open spec fn view(&self) -> RqV {
        match *self {
            HttpStubRequest::RequestWithoutBody { ref headers, ref query } => RqV::NoBody {
                headers: hview(headers@),
                query: query@,
            },
            HttpStubRequest::JsonRequest { ref headers, ref query, ref body } => RqV::Json {
                headers: hview(headers@),
                query: query@,
                body: body@,
            },
            HttpStubRequest::RawRequest { ref headers, ref query, ref body } => RqV::Raw {
                headers: hview(headers@),
                query: query@,
                body: body@,
            },
            HttpStubRequest::JLensRequest { ref headers, ref query, ref body } => RqV::JLens {
                headers: hview(headers@),
                query: query@,
                body: body@,
            },
        }
    }
}

/// Whether the query specification accepts the request's query object:
/// an empty specification accepts everything, an erring one nothing.
pub open spec fn query_ok(q: Seq<(Seq<OStep>, Seq<(Keyword, JVal)>)>, params: JVal) -> bool {
    q.len() == 0 || (!pred_malformed(q) && pred_holds(q, params))
}

/// Whether the clause accepts the request body.
pub open spec fn body_ok(rq: RqV, body: RBV) -> bool {
    match rq {
        RqV::NoBody { .. } => body is Absent,
        RqV::Json { body: expected, .. } => match body {
            RBV::Simple(_, text) => match json_parse(text) {
                Some(j) => jeq(j, expected),
                None => false,
            },
            _ => false,
        },
        RqV::Raw { body: expected, .. } => match body {
            RBV::Simple(_, text) => text == expected,
            _ => false,
        },
        RqV::JLens { body: p, .. } => match body {
            RBV::Simple(_, text) => match json_parse(text) {
                Some(j) => !pred_malformed(p) && pred_holds(p, j),
                None => false,
            },
            _ => false,
        },
    }
}

/// The JSON document a clause reads out of the body: only the JSON and
/// predicate clauses parse it.
pub open spec fn body_json_of(rq: RqV, body: RBV) -> Option<JVal> {
    match (rq, body) {
        (RqV::Json { .. }, RBV::Simple(_, text)) => json_parse(text),
        (RqV::JLens { .. }, RBV::Simple(_, text)) => json_parse(text),
        _ => None,
    }
}

/// Every predicate operand of the clause is well formed, as is a literal
/// JSON body.
pub open spec fn rq_wf(rq: RqV) -> bool {
    pred_wf(rq.query()) && match rq {
        RqV::Json { body, .. } => wf(body),
        RqV::JLens { body, .. } => pred_wf(body),
        _ => true,
    }
}

impl HttpStubRequest {
    /// The expected headers of the clause.
    pub fn headers(&self) -> (r: &Vec<(String, String)>)
        ensures
            hview(r@) == self@.headers(),
    {
        match self {
            HttpStubRequest::RequestWithoutBody { headers, .. } => headers,
            HttpStubRequest::JsonRequest { headers, .. } => headers,
            HttpStubRequest::RawRequest { headers, .. } => headers,
            HttpStubRequest::JLensRequest { headers, .. } => headers,
        }
    }

    /// The query specification of the clause.
    pub fn query(&self) -> (r: &JsonPredicate)
        ensures
            r@ == self@.query(),
    {
        match self {
            HttpStubRequest::RequestWithoutBody { query, .. } => query,
            HttpStubRequest::JsonRequest { query, .. } => query,
            HttpStubRequest::RawRequest { query, .. } => query,
            HttpStubRequest::JLensRequest { query, .. } => query,
        }
    }

    /// Whether every expected header is present in the request with a
    /// value equal up to ASCII case.
    #[verifier::loop_isolation(false)]
    pub fn check_headers(&self, hs: &Vec<(String, String)>) -> (r: bool)
        ensures
            r == headers_match(self@.headers(), hview(hs@)),
    {
        let expected = self.headers();
        let ghost exv = self@.headers();
        proof {
            lemma_hview(expected@);
        }
        let mut i: usize = 0;
        proof {
            assert(exv.take(0) =~= Seq::<(Seq<char>, Seq<char>)>::empty());
        }
        while i < expected.len()
            invariant
                i <= expected@.len(),
                exv == hview(expected@),
                exv.len() == expected@.len(),
                headers_match(exv.take(i as int), hview(hs@)),
            decreases expected@.len() - i,
        {
            proof {
                lemma_hview(expected@);
                assert(exv.take(i + 1 as int).drop_last() =~= exv.take(i as int));
                assert(exv.take(i + 1 as int).last() == exv[i as int]);
            }
            let hit: bool = match find_header(hs, expected[i].0.as_str()) {
                Some(v) => {
                    let lv = ascii_lowercase(v.as_str());
                    let le = ascii_lowercase(expected[i].1.as_str());
                    str_eq(lv.as_str(), le.as_str())
                },
                None => false,
            };
            if !hit {
                proof {
                    if headers_match(exv, hview(hs@)) {
                        lemma_headers_match_index(exv, hview(hs@), i as int);
                    }
                }
                return false;
            }
            i += 1;
        }
        proof {
            assert(exv.take(expected@.len() as int) =~= exv);
        }
        true
    }

    /// Whether the query specification accepts the request's query
    /// object; a specification that errs accepts nothing.
    pub fn check_query_params(&self, params: &JsonValue) -> (r: bool)
        requires
            wf(params@),
            pred_wf(self@.query()),
        ensures
            r == query_ok(self@.query(), params@),
    {
        let q = self.query();
        if q.is_empty() {
            true
        } else {
            match q.validate(params) {
                Ok(b) => b,
                Err(_) => false,
            }
        }
    }

    /// Whether the clause accepts the request body.
    pub fn check_body(&self, r_body: &RequestBody) -> (r: bool)
        requires
            rq_wf(self@),
        ensures
            r == body_ok(self@, r_body@),
    {
        match self {
            HttpStubRequest::RequestWithoutBody { .. } => match r_body {
                RequestBody::AbsentRequestBody => true,
                _ => false,
            },
            HttpStubRequest::JsonRequest { body, .. } => {
                match r_body {
                    RequestBody::SimpleRequestBody { value, .. } => {
                        match JsonValue::parse_json(value.as_str()) {
                            Some(j) => j.deep_eq(body),
                            None => false,
                        }
                    },
                    _ => false,
                }
            },
            HttpStubRequest::RawRequest { body, .. } => match r_body {
                RequestBody::SimpleRequestBody { value, .. } => str_eq(
                    value.as_str(),
                    body.as_str(),
                ),
                _ => false,
            },
            HttpStubRequest::JLensRequest { body, .. } => {
                match r_body {
                    RequestBody::SimpleRequestBody { value, .. } => {
                        match JsonValue::parse_json(value.as_str()) {
                            Some(j) => match body.validate(&j) {
                                Ok(b) => b,
                                Err(_) => false,
                            },
                            None => false,
                        }
                    },
                    _ => false,
                }
            },
        }
    }

    /// The JSON document the clause reads out of the body, if any.
    pub fn extract_json(&self, r_body: &RequestBody) -> (r: Option<JsonValue>)
        ensures
            match r {
                Some(j) => body_json_of(self@, r_body@) == Some(j@) && wf(j@),
                None => body_json_of(self@, r_body@) is None,
            },
    {
        match (self, r_body) {
            (HttpStubRequest::JsonRequest { .. }, RequestBody::SimpleRequestBody { value, .. }) => {
                JsonValue::parse_json(value.as_str())
            },
            (
                HttpStubRequest::JLensRequest { .. },
                RequestBody::SimpleRequestBody { value, .. },
            ) => JsonValue::parse_json(value.as_str()),
            _ => None,
        }
    }
}

/// The response a stub returns.
#[derive(Debug)]
pub enum HttpStubResponse {
    RawResponse {
        code: u16,
        headers: Vec<(String, String)>,
        body: String,
        delay: Option<u64>,
    },
    JsonResponse {
        code: u16,
        headers: Vec<(String, String)>,
        body: JsonValue,
        delay: Option<u64>,
        is_template: bool,
    },
}

/// The model of a response.
pub enum RsV {
    Raw {
        code: int,
        headers: Seq<(Seq<char>, Seq<char>)>,
        body: Seq<char>,
        delay: Option<int>,
    },
    Json {
        code: int,
        headers: Seq<(Seq<char>, Seq<char>)>,
        body: JVal,
        delay: Option<int>,
        is_template: bool,
    },
}

impl View for HttpStubResponse {
    type V = RsV;

    open spec fn view(&self) -> RsV {
        match *self {
            HttpStubResponse::RawResponse { code, ref headers, ref body, delay } => RsV::Raw {
                code: code as int,
                headers: hview(headers@),
                body: body@,
                delay: match delay {
                    Some(d) => Some(d as int),
                    None => None,
                },
            },
            HttpStubResponse::JsonResponse {
                code,
                ref headers,
                ref body,
                delay,
                is_template,
            } => RsV::Json {
                code: code as int,
                headers: hview(headers@),
                body: body@,
                delay: match delay {
                    Some(d) => Some(d as int),
                    None => None,
                },
                is_template,
            },
        }
    }
}

/// The response with its body rewritten against the data document, when
/// it is a JSON template; anything else is kept as it is.
pub open spec fn resp_subst(r: RsV, data: JVal, rng: u64) -> (RsV, u64) {
    match r {
        RsV::Json { code, headers, body, delay, is_template } => {
            if is_template {
                let out = subst_val(body, data, rng);
                (
                    RsV::Json {
                        code,
                        headers,
                        body: out.0,
                        delay,
                        is_template,
                    },
                    out.1,
                )
            } else {
                (r, rng)
            }
        },
        _ => (r, rng),
    }
}

/// A response body's model is well formed.
pub open spec fn resp_wf(r: RsV) -> bool {
    match r {
        RsV::Json { body, .. } => wf(body),
        _ => true,
    }
}

impl HttpStubResponse {
    /// The configured delay, in milliseconds.
    pub fn get_delay(&self) -> (r: Option<u64>)
        ensures
            match r {
                Some(d) => (match self@ {
                    RsV::Raw { delay, .. } => delay,
                    RsV::Json { delay, .. } => delay,
                }) == Some(d as int),
                None => (match self@ {
                    RsV::Raw { delay, .. } => delay,
                    RsV::Json { delay, .. } => delay,
                }) is None,
            },
    {
        match self {
            HttpStubResponse::RawResponse { delay, .. } => *delay,
            HttpStubResponse::JsonResponse { delay, .. } => *delay,
        }
    }

    /// Rewrites the body in place against the data document when this
    /// response is a JSON template; yields the advanced random state.
    pub fn substitute(&mut self, data: &JsonValue, seed: u64) -> (rng2: u64)
        requires
            resp_wf(old(self)@),
            wf(data@),
        ensures
            (final(self)@, rng2) == resp_subst(old(self)@, data@, seed),
            resp_wf(final(self)@),
    {
        match self {
            HttpStubResponse::JsonResponse { body, is_template, .. } => {
                if *is_template {
                    proof {
                        crate::template::lemma_subst_wf(body@, data@, seed);
                    }
                    body.substitute_seeded(data, seed)
                } else {
                    seed
                }
            },
            _ => seed,
        }
    }
}

/// The mode of an outbound callback response. The callback feature is
/// carried in the model and not exercised by the pipeline.
#[derive(Clone, Copy, Debug, PartialEq, Eq, Structural)]
pub enum CallbackResponseMode {
    Json,
}

/// An outbound callback request. Carried in the model, not exercised.
#[derive(Debug)]
pub enum CallbackRequest {
    CallbackRequestWithoutBody {
        url: String,
        method: HttpMethod,
        headers: Vec<(String, String)>,
    },
    RawCallbackRequest {
        url: String,
        method: HttpMethod,
        headers: Vec<(String, String)>,
        body: String,
    },
    JsonCallbackRequest {
        url: String,
        method: HttpMethod,
        headers: Vec<(String, String)>,
        body: JsonValue,
    },
}

/// An outbound callback. Carried in the model, not exercised.
#[derive(Debug)]
pub enum Callback {
    HttpCallback {
        request: CallbackRequest,
        response_mode: Option<CallbackResponseMode>,
        persist: Option<Vec<(JsonOptic, JsonValue)>>,
        callback: Option<Box<Callback>>,
        delay: Option<u64>,
    },
}

/// A stub: a declarative record matching a class of requests and
/// describing the response to return.
pub struct HttpStub {
    pub created: i64,
    pub scope: Scope,
    pub times: Option<i64>,
    pub name: String,
    pub method: HttpMethod,
    pub path: Option<String>,
    pub path_pattern: Option<CompiledRegex>,
    pub seed: Option<JsonValue>,
    pub state: Option<JsonPredicate>,
    pub request: HttpStubRequest,
    pub persist: Option<Vec<(JsonOptic, JsonValue)>>,
    pub response: HttpStubResponse,
    pub callback: Option<Callback>,
}

/// The model of a stub. The callback clause is carried by the record and
/// left out of the model, as the feature is not exercised.
pub struct StubV {
    pub created: int,
    pub scope: Scope,
    pub times: Option<int>,
    pub name: Seq<char>,
    pub method: HttpMethod,
    pub path: Option<Seq<char>>,
    pub path_pattern: Option<Seq<char>>,
    pub seed: Option<JVal>,
    pub state: Option<Seq<(Seq<OStep>, Seq<(Keyword, JVal)>)>>,
    pub request: RqV,
    pub persist: Option<Seq<(Seq<OStep>, JVal)>>,
    pub response: RsV,
}

impl View for HttpStub {
    type V = StubV;

    open spec fn view(&self) -> StubV {
        StubV {
            created: self.created as int,
            scope: self.scope,
            times: match self.times {
                Some(t) => Some(t as int),
                None => None,
            },
            name: self.name@,
            method: self.method,
            path: match self.path {
                Some(ref p) => Some(p@),
                None => None,
            },
            path_pattern: match self.path_pattern {
                Some(ref p) => Some(p.pattern@),
                None => None,
            },
            seed: match self.seed {
                Some(ref v) => Some(v@),
                None => None,
            },
            state: match self.state {
                Some(ref p) => Some(p@),
                None => None,
            },
            request: self.request@,
            persist: match self.persist {
                Some(ref p) => Some(tview(p@)),
                None => None,
            },
            response: self.response@,
        }
    }
}

/// Every predicate operand and template value of the stub is well
/// formed.
pub open spec fn stub_wf(s: StubV) -> bool {
    &&& rq_wf(s.request)
    &&& resp_wf(s.response)
    &&& match s.state {
        Some(p) => pred_wf(p),
        None => true,
    }
    &&& match s.persist {
        Some(p) => wf_entries(p),
        None => true,
    }
    &&& match s.seed {
        Some(v) => wf(v),
        None => true,
    }
}

/// Whether the stub's path clause accepts the request path: a literal
/// path by equality, a pattern by a regex match.
pub open spec fn path_matches(s: StubV, path: Seq<char>) -> bool {
    ||| (s.path is Some && s.path->0 == path)
    ||| (s.path_pattern is Some && regex_match(s.path_pattern->0, path))
}

/// The named capture groups the stub's pattern extracts from the path,
/// when it has a pattern that matches.
pub open spec fn groups_of(s: StubV, path: Seq<char>) -> Option<Seq<(Seq<char>, Seq<char>)>> {
    if s.path_pattern is Some && regex_match(s.path_pattern->0, path) {
        Some(regex_groups(s.path_pattern->0, path))
    } else {
        None
    }
}

impl HttpStub {
    /// Whether the stub's path clause accepts the request path.
    pub fn matches_path(&self, path: &str) -> (r: bool)
        ensures
            r == path_matches(self@, path@),
    {
        let lit: bool = match &self.path {
            Some(p) => str_eq(p.as_str(), path),
            None => false,
        };
        if lit {
            return true;
        }
        match &self.path_pattern {
            Some(re) => re.is_match(path),
            None => false,
        }
    }

    /// The named capture groups of the stub's pattern on this path.
    pub fn extract_groups(&self, path: &str) -> (r: Option<Vec<(String, String)>>)
        ensures
            match r {
                Some(gs) => {
                    &&& groups_of(self@, path@) is Some
                    &&& gs@.len() == groups_of(self@, path@)->0.len()
                    &&& forall|i: int|
                        0 <= i < gs@.len() ==> (#[trigger] gs@[i]).0@ == groups_of(
                            self@,
                            path@,
                        )->0[i].0 && gs@[i].1@ == groups_of(self@, path@)->0[i].1
                },
                None => groups_of(self@, path@) is None,
            },
    {
        match &self.path_pattern {
            Some(re) => re.named_groups(path),
            None => None,
        }
    }
}

/// A persisted state: a JSON document under a unique identifier.
#[derive(Debug)]
pub struct State {
    pub id: u128,
    pub created: i64,
    pub data: JsonValue,
}

/// The model of a state.
pub struct StateV {
    pub id: int,
    pub created: int,
    pub data: JVal,
}

impl View for State {
    type V = StateV;

    open spec fn view(&self) -> StateV {
        StateV { id: self.id as int, created: self.created as int, data: self.data@ }
    }
}

impl State {
    /// A fresh state: a new identifier, the given creation time, and an
    /// empty document.
    pub fn fresh(id: u128, created: i64) -> (r: State)
        ensures
            r@.id == id as int,
            r@.created == created as int,
            r@.data == JVal::Obj(Seq::<(Seq<char>, JVal)>::empty()),
    {
        let data = JsonValue::Obj(Vec::new());
        proof {
            assert(jv_fields(Seq::<(String, JsonValue)>::empty()) =~= Seq::<
                (Seq<char>, JVal),
            >::empty());
        }
        State { id, created, data }
    }

    /// A copy of this state.
    pub fn duplicate(&self) -> (r: State)
        ensures
            r@ == self@,
    {
        State { id: self.id, created: self.created, data: self.data.duplicate() }
    }
}

} // verus!
