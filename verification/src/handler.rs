use vstd::prelude::*;
use crate::error::Error;
use crate::json::{JsonValue, JVal, jv, jv_fields, lemma_jv_fields, wf, wf_fields, distinct_keys,
    key_absent};
use crate::merge::{jmerge, lemma_jmerge_wf};
use crate::optic::obj_set;
use crate::resolver::{StubResolver, ResolveOutcome, ResolveErr, resolve_spec, err_text, mview,
    sview, tlview, upsert_spec, lemma_mview, lemma_sview, lemma_tlview, lemma_stubs_wf_elem,
    stubs_wf, states_wf, pairs_obj, lemma_pairs_obj_wf};
use crate::rx::regex_groups;
use crate::stub::{HttpStub, StubV, State, StateV, Scope, HttpMethod, RequestBody, RBV,
    HttpStubResponse, RsV, resp_subst, resp_wf, body_json_of, groups_of, hview, lemma_hview,
    stub_wf};
use crate::template::{fill_tpls, render_patch, fill_templates, render_json, lemma_subst_wf,
    tview, wf_entries};
use crate::sandbox::rng_next;
use crate::strutil::str_eq;

verus! {

/// The template data document of a selected stub: the parsed body, the
/// matched state's document, the query object, the named path segments,
/// and the headers.
pub open spec fn handler_data(
    s: StubV,
    state_data: Option<JVal>,
    path: Seq<char>,
    query: JVal,
    headers: Seq<(Seq<char>, Seq<char>)>,
    body: RBV,
) -> JVal {
    let req: JVal = match body_json_of(s.request, body) {
        Some(j) => j,
        None => JVal::Null,
    };
    let st: JVal = match state_data {
        Some(d) => d,
        None => JVal::Null,
    };
    let segs: JVal = match groups_of(s, path) {
        Some(gs) => JVal::Obj(pairs_obj(gs)),
        None => JVal::Null,
    };
    JVal::Obj(
        seq![
            (seq!['r', 'e', 'q'], req),
            (seq!['s', 't', 'a', 't', 'e'], st),
            (seq!['q', 'u', 'e', 'r', 'y'], query),
            (seq!['p', 'a', 't', 'h', 'P', 'a', 'r', 't', 's'], segs),
            (seq!['h', 'e', 'a', 'd', 'e', 'r', 's'], JVal::Obj(pairs_obj(headers))),
        ],
    )
}

/// The template data document is well formed when its parts are.
#[verifier::rlimit(100)]
pub proof fn lemma_handler_data_wf(
    s: StubV,
    state_data: Option<JVal>,
    path: Seq<char>,
    query: JVal,
    headers: Seq<(Seq<char>, Seq<char>)>,
    body: RBV,
)
    requires
        wf(query),
        match state_data {
            Some(d) => wf(d),
            None => true,
        },
        match body_json_of(s.request, body) {
            Some(j) => wf(j),
            None => true,
        },
    ensures
        wf(handler_data(s, state_data, path, query, headers, body)),
{
    lemma_pairs_obj_wf(headers);
    if groups_of(s, path) is Some {
        lemma_pairs_obj_wf(groups_of(s, path)->0);
    }
    let req: JVal = match body_json_of(s.request, body) {
        Some(j) => j,
        None => JVal::Null,
    };
    let st: JVal = match state_data {
        Some(d) => d,
        None => JVal::Null,
    };
    let segs: JVal = match groups_of(s, path) {
        Some(gs) => JVal::Obj(pairs_obj(gs)),
        None => JVal::Null,
    };
    assert(wf(segs));
    assert(wf(JVal::Obj(pairs_obj(headers))));
    let kr = seq!['r', 'e', 'q'];
    let ks = seq!['s', 't', 'a', 't', 'e'];
    let kq = seq!['q', 'u', 'e', 'r', 'y'];
    let kp = seq!['p', 'a', 't', 'h', 'P', 'a', 'r', 't', 's'];
    let kh = seq!['h', 'e', 'a', 'd', 'e', 'r', 's'];
    assert(kr.len() == 3 && ks.len() == 5 && kq.len() == 5 && kp.len() == 9 && kh.len() == 7);
    assert(ks != kq) by {
        assert(ks[0] == 's' && kq[0] == 'q');
    }
    assert(wf(req));
    assert(wf(st));
    assert(kr != ks) by {
        assert(kr.len() == 3 && ks.len() == 5);
    }
    assert(kr != kq) by {
        assert(kr.len() == 3 && kq.len() == 5);
    }
    assert(kr != kp && ks != kp && kq != kp && kh != kp) by {
        assert(kp.len() == 9 && kr.len() == 3 && ks.len() == 5 && kq.len() == 5 && kh.len() == 7);
    }
    assert(kr != kh && ks != kh && kq != kh) by {
        assert(kh.len() == 7 && kr.len() == 3 && ks.len() == 5 && kq.len() == 5);
    }
    let e0 = Seq::<(Seq<char>, JVal)>::empty();
    let f1 = e0.push((kr, req));
    let f2 = f1.push((ks, st));
    let f3 = f2.push((kq, query));
    let f4 = f3.push((kp, segs));
    let f5 = f4.push((kh, JVal::Obj(pairs_obj(headers))));
    assert(f1.drop_last() =~= e0);
    assert(f2.drop_last() =~= f1);
    assert(f3.drop_last() =~= f2);
    assert(f4.drop_last() =~= f3);
    assert(f5.drop_last() =~= f4);
    assert(wf_fields(e0));
    assert(wf_fields(f1));
    assert(wf_fields(f2));
    assert(wf_fields(f3));
    assert(wf_fields(f4));
    assert(wf_fields(f5));
    assert(key_absent(e0, kr));
    assert(key_absent(e0, ks));
    assert(f1.last() == (kr, req));
    assert(key_absent(f1, ks));
    assert(key_absent(e0, kq));
    assert(key_absent(f1, kq));
    assert(f2.last() == (ks, st));
    assert(key_absent(f2, kq));
    assert(key_absent(e0, kp));
    assert(key_absent(f1, kp));
    assert(key_absent(f2, kp));
    assert(f3.last() == (kq, query));
    assert(key_absent(f3, kp));
    assert(key_absent(e0, kh));
    assert(key_absent(f1, kh));
    assert(key_absent(f2, kh));
    assert(key_absent(f3, kh));
    assert(f4.last() == (kp, segs));
    assert(key_absent(f4, kh));
    assert(distinct_keys(e0));
    assert(distinct_keys(f1));
    assert(distinct_keys(f2));
    assert(distinct_keys(f3));
    assert(distinct_keys(f4));
    assert(distinct_keys(f5));
    assert((match handler_data(s, state_data, path, query, headers, body) {
        JVal::Obj(fs) => fs,
        _ => Seq::<(Seq<char>, JVal)>::empty(),
    }) =~= f5);
}


/// Whether the store was upserted with a state holding the given
/// document, under some identifier and creation time.
pub open spec fn upserted_with(
    new_states: Seq<StateV>,
    old_states: Seq<StateV>,
    merged: JVal,
) -> bool {
    exists|nid: int, ncr: int|
        new_states == #[trigger] upsert_spec(
            old_states,
            StateV { id: nid, created: ncr, data: merged },
        )
}

/// The text of an HTTP verb.
pub open spec fn method_text(m: HttpMethod) -> Seq<char> {
    match m {
        HttpMethod::Get => seq!['G', 'E', 'T'],
        HttpMethod::Post => seq!['P', 'O', 'S', 'T'],
        HttpMethod::Head => seq!['H', 'E', 'A', 'D'],
        HttpMethod::Options => seq!['O', 'P', 'T', 'I', 'O', 'N', 'S'],
        HttpMethod::Patch => seq!['P', 'A', 'T', 'C', 'H'],
        HttpMethod::Put => seq!['P', 'U', 'T'],
        HttpMethod::Delete => seq!['D', 'E', 'L', 'E', 'T', 'E'],
    }
}

/// The diagnostic of a request no stub accepts.
pub open spec fn nostub_text(m: HttpMethod, path: Seq<char>) -> Seq<char> {
    "no stub found for ["@ + method_text(m) + "] "@ + path
}

/// The text of an HTTP verb, executed.
pub fn method_text_exec(m: &HttpMethod) -> (r: String)
    ensures
        r@ == method_text(*m),
{
    proof {
        reveal_strlit("GET");
        reveal_strlit("POST");
        reveal_strlit("HEAD");
        reveal_strlit("OPTIONS");
        reveal_strlit("PATCH");
        reveal_strlit("PUT");
        reveal_strlit("DELETE");
        assert("GET"@ =~= seq!['G', 'E', 'T']);
        assert("POST"@ =~= seq!['P', 'O', 'S', 'T']);
        assert("HEAD"@ =~= seq!['H', 'E', 'A', 'D']);
        assert("OPTIONS"@ =~= seq!['O', 'P', 'T', 'I', 'O', 'N', 'S']);
        assert("PATCH"@ =~= seq!['P', 'A', 'T', 'C', 'H']);
        assert("PUT"@ =~= seq!['P', 'U', 'T']);
        assert("DELETE"@ =~= seq!['D', 'E', 'L', 'E', 'T', 'E']);
    }
    match m {
        HttpMethod::Get => String::from_str("GET"),
        HttpMethod::Post => String::from_str("POST"),
        HttpMethod::Head => String::from_str("HEAD"),
        HttpMethod::Options => String::from_str("OPTIONS"),
        HttpMethod::Patch => String::from_str("PATCH"),
        HttpMethod::Put => String::from_str("PUT"),
        HttpMethod::Delete => String::from_str("DELETE"),
    }
}

/// What one request does to the handler: the outcome of resolution over
/// the scopes in priority order, and which scope won.
pub open spec fn scopes_spec(
    mocks: Seq<StubV>,
    times: Seq<Option<int>>,
    states: Seq<StateV>,
    method: HttpMethod,
    path: Seq<char>,
    headers: Seq<(Seq<char>, Seq<char>)>,
    query: JVal,
    body: RBV,
    rng: u64,
) -> (ResolveOutcome, Scope, u64) {
    let c = resolve_spec(
        mocks,
        times,
        states,
        Scope::Countdown,
        method,
        path,
        headers,
        query,
        body,
        rng,
    );
    if !(c.0 is NoMatch) {
        (c.0, Scope::Countdown, c.1)
    } else {
        let e = resolve_spec(
            mocks,
            times,
            states,
            Scope::Ephemeral,
            method,
            path,
            headers,
            query,
            body,
            c.1,
        );
        if !(e.0 is NoMatch) {
            (e.0, Scope::Ephemeral, e.1)
        } else {
            let p = resolve_spec(
                mocks,
                times,
                states,
                Scope::Persistent,
                method,
                path,
                headers,
                query,
                body,
                e.1,
            );
            (p.0, Scope::Persistent, p.1)
        }
    }
}

/// The execution handler: the resolver and the random state that seeds
/// templating and fresh identifiers.
pub struct ExecHandler {
    pub stub_res: StubResolver,
    pub rng: u64,
}

impl ExecHandler {
    /// A handler over the resolver, seeded.
    pub fn new(stub_res: StubResolver, seed: u64) -> (r: ExecHandler)
        ensures
            r.stub_res == stub_res,
            r.rng == seed,
    {
        ExecHandler { stub_res, rng: seed }
    }

    /// Handles one request: resolves over the scopes in priority order,
    /// decrements a selected countdown stub, rewrites the response body
    /// against the data document, persists the rendered patch into the
    /// matched or a fresh state, and returns the response.
    #[verifier::loop_isolation(false)]
    #[verifier::rlimit(100)]
    pub fn exec(
        &mut self,
        now_millis: i64,
        with_method: &HttpMethod,
        with_path: &str,
        with_headers: &Vec<(String, String)>,
        query_object: &JsonValue,
        body: &RequestBody,
    ) -> (r: Result<HttpStubResponse, Error>)
        requires
            old(self).stub_res.wf_res(),
            wf(query_object@),
        ensures
            final(self).stub_res.wf_res(),
            final(self).stub_res.mocks == old(self).stub_res.mocks,
            ({
                let sc = scopes_spec(
                    mview(old(self).stub_res.mocks@),
                    tlview(old(self).stub_res.times_left@),
                    sview(old(self).stub_res.states@),
                    *with_method,
                    with_path@,
                    hview(with_headers@),
                    query_object@,
                    body@,
                    old(self).rng,
                );
                match r {
                    Err(e) => {
                        &&& (sc.0 is Fault || sc.0 is NoMatch)
                        &&& (sc.0 is Fault ==> e.message@ == err_text(sc.0->Fault_0))
                        &&& (sc.0 is NoMatch ==> e.message@ == nostub_text(
                            *with_method,
                            with_path@,
                        ))
                        &&& final(self).stub_res.states == old(self).stub_res.states
                        &&& final(self).stub_res.times_left == old(self).stub_res.times_left
                        &&& final(self).rng == sc.2
                    },
                    Ok(resp) => {
                        &&& sc.0 is Found
                        &&& {
                            let c = sc.0->Found_0;
                            let stub = mview(old(self).stub_res.mocks@)[c];
                            let sdata = match sc.0->Found_1 {
                                Some(m) => Some(sview(old(self).stub_res.states@)[m].data),
                                None => None,
                            };
                            let data = handler_data(
                                stub,
                                sdata,
                                with_path@,
                                query_object@,
                                hview(with_headers@),
                                body@,
                            );
                            let sub = resp_subst(stub.response, data, sc.2);
                            &&& resp@ == sub.0
                            &&& resp_wf(resp@)
                            &&& (sc.1 == Scope::Countdown ==> tlview(
                                final(self).stub_res.times_left@,
                            ) == crate::resolver::dec_at(
                                tlview(old(self).stub_res.times_left@),
                                c,
                            ))
                            &&& (sc.1 != Scope::Countdown ==> final(self).stub_res.times_left
                                == old(self).stub_res.times_left)
                            &&& (stub.persist is None ==> final(self).stub_res.states == old(
                                self,
                            ).stub_res.states && final(self).rng == sub.1)
                            &&& (stub.persist is Some ==> {
                                let based: JVal = match sdata {
                                    Some(d) => d,
                                    None => JVal::Obj(Seq::<(Seq<char>, JVal)>::empty()),
                                };
                                let filled = fill_tpls(
                                    stub.persist->0,
                                    jmerge(based, data),
                                    sub.1,
                                );
                                let patch = render_patch(filled.0);
                                let merged = jmerge(based, patch);
                                upserted_with(
                                    sview(final(self).stub_res.states@),
                                    sview(old(self).stub_res.states@),
                                    merged,
                                )
                            })
                        }
                    },
                }
            }),
    {
        let ghost mv = mview(self.stub_res.mocks@);
        let ghost tv0 = tlview(self.stub_res.times_left@);
        let ghost sv0 = sview(self.stub_res.states@);
        proof {
            lemma_mview(self.stub_res.mocks@);
            lemma_sview(self.stub_res.states@);
            lemma_tlview(self.stub_res.times_left@);
        }
        let r1 = self.stub_res.find_stub_and_state(
            Scope::Countdown,
            with_method,
            with_path,
            with_headers,
            query_object,
            body,
            self.rng,
        );
        let mut sel: Option<(usize, Option<State>)> = None;
        let mut scope_won: Scope = Scope::Countdown;
        let mut rng_now: u64 = r1.1;
        match r1.0 {
            Err(e) => {
                self.rng = r1.1;
                return Err(e);
            },
            Ok(Some(p)) => {
                sel = Some(p);
            },
            Ok(None) => {
                let r2 = self.stub_res.find_stub_and_state(
                    Scope::Ephemeral,
                    with_method,
                    with_path,
                    with_headers,
                    query_object,
                    body,
                    r1.1,
                );
                rng_now = r2.1;
                match r2.0 {
                    Err(e) => {
                        self.rng = r2.1;
                        return Err(e);
                    },
                    Ok(Some(p)) => {
                        sel = Some(p);
                        scope_won = Scope::Ephemeral;
                    },
                    Ok(None) => {
                        let r3 = self.stub_res.find_stub_and_state(
                            Scope::Persistent,
                            with_method,
                            with_path,
                            with_headers,
                            query_object,
                            body,
                            r2.1,
                        );
                        rng_now = r3.1;
                        scope_won = Scope::Persistent;
                        match r3.0 {
                            Err(e) => {
                                self.rng = r3.1;
                                return Err(e);
                            },
                            Ok(Some(p)) => {
                                sel = Some(p);
                            },
                            Ok(None) => {
                                self.rng = r3.1;
                                proof {
                                    reveal_strlit("no stub found for [");
                                    reveal_strlit("] ");
                                }
                                let mut msg = String::from_str("no stub found for [");
                                let mt = method_text_exec(with_method);
                                msg.append(mt.as_str());
                                msg.append("] ");
                                msg.append(with_path);
                                proof {
                                    assert(msg@ =~= nostub_text(*with_method, with_path@));
                                }
                                return Err(Error::new(msg));
                            },
                        }
                    },
                }
            },
        }
        let (c, st_opt) = match sel {
            Some(p) => p,
            None => {
                proof {
                    assert(false);
                }
                (0usize, None)
            },
        };
        proof {
            let sc = scopes_spec(
                mv,
                tv0,
                sv0,
                *with_method,
                with_path@,
                hview(with_headers@),
                query_object@,
                body@,
                old(self).rng,
            );
            assert(sc.0 is Found);
            assert(sc.0->Found_0 == c as int);
            assert(sc.2 == rng_now);
            assert(sc.1 == scope_won);
            match st_opt {
                Some(ref st) => {
                    assert(sc.0->Found_1 is Some);
                    assert(st@ == sv0[sc.0->Found_1->0]);
                    assert(0 <= sc.0->Found_1->0 < sv0.len());
                    crate::resolver::lemma_states_wf_elem(sv0, sc.0->Found_1->0);
                },
                None => {
                    assert(sc.0->Found_1 is None);
                },
            }
        }
        if scope_won == Scope::Countdown {
            self.stub_res.decrement_times(c);
        }
        proof {
            lemma_stubs_wf_elem(mv, c as int);
            lemma_tlview(self.stub_res.times_left@);
        }
        let stub = &self.stub_res.mocks[c];
        let body_json = stub.request.extract_json(body);
        let groups = stub.extract_groups(with_path);
        let mut fields: Vec<(String, JsonValue)> = Vec::new();
        proof {
            reveal_strlit("req");
            reveal_strlit("state");
            reveal_strlit("query");
            reveal_strlit("pathParts");
            reveal_strlit("headers");
            assert("req"@ =~= seq!['r', 'e', 'q']);
            assert("state"@ =~= seq!['s', 't', 'a', 't', 'e']);
            assert("query"@ =~= seq!['q', 'u', 'e', 'r', 'y']);
            assert("pathParts"@ =~= seq!['p', 'a', 't', 'h', 'P', 'a', 'r', 't', 's']);
            assert("headers"@ =~= seq!['h', 'e', 'a', 'd', 'e', 'r', 's']);
        }
        let reqv: JsonValue = match &body_json {
            Some(j) => j.duplicate(),
            None => JsonValue::Null,
        };
        let statev: JsonValue = match &st_opt {
            Some(st) => st.data.duplicate(),
            None => JsonValue::Null,
        };
        let segsv: JsonValue = match &groups {
            Some(gs) => {
                proof {
                    lemma_hview(gs@);
                    assert(hview(gs@) =~= groups_of(stub@, with_path@)->0);
                }
                JsonValue::Obj(crate::resolver::build_pairs_obj(gs))
            },
            None => JsonValue::Null,
        };
        let hobj = JsonValue::Obj(crate::resolver::build_pairs_obj(with_headers));
        fields.push((String::from_str("req"), reqv));
        fields.push((String::from_str("state"), statev));
        fields.push((String::from_str("query"), query_object.duplicate()));
        fields.push((String::from_str("pathParts"), segsv));
        fields.push((String::from_str("headers"), hobj));
        let data = JsonValue::Obj(fields);
        let ghost sdata = match st_opt {
            Some(ref st) => Some(st@.data),
            None => None::<JVal>,
        };
        proof {
            lemma_jv_fields(
                (match data {
                    JsonValue::Obj(ref fs) => fs@,
                    _ => Seq::<(String, JsonValue)>::empty(),
                }),
            );
            assert((match data@ {
                JVal::Obj(fs) => fs,
                _ => Seq::<(Seq<char>, JVal)>::empty(),
            }) =~= (match handler_data(
                stub@,
                sdata,
                with_path@,
                query_object@,
                hview(with_headers@),
                body@,
            ) {
                JVal::Obj(fs) => fs,
                _ => Seq::<(Seq<char>, JVal)>::empty(),
            }));
            assert(data@ == handler_data(
                stub@,
                sdata,
                with_path@,
                query_object@,
                hview(with_headers@),
                body@,
            ));
            lemma_handler_data_wf(
                stub@,
                sdata,
                with_path@,
                query_object@,
                hview(with_headers@),
                body@,
            );
        }
        let mut response = duplicate_response(&stub.response);
        let rng_after_sub = response.substitute(&data, rng_now);
        proof {
            assert(stub@ == mv[c as int]);
            assert((response@, rng_after_sub) == resp_subst(mv[c as int].response, data@, rng_now));
        }
        match &stub.persist {
            None => {
                self.rng = rng_after_sub;
                Ok(response)
            },
            Some(pspec) => {
                let mut current: State = match st_opt {
                    Some(st) => st,
                    None => {
                        let w1 = crate::sandbox::rng_step(rng_after_sub);
                        let w2 = crate::sandbox::rng_step(w1);
                        let nid: u128 = ((w1 as u128) << 64) | (w2 as u128);
                        State::fresh(nid, now_millis)
                    },
                };
                let mut fill_data = current.data.duplicate();
                fill_data.merge(&data);
                let ghost based0: JVal = match sdata {
                    Some(d) => d,
                    None => JVal::Obj(Seq::<(Seq<char>, JVal)>::empty()),
                };
                proof {
                    assert(current@.data == based0);
                    lemma_jmerge_wf(based0, data@);
                }
                let filled = fill_templates(pspec, &fill_data, rng_after_sub);
                let patch = render_json(&filled.0);
                proof {
                    crate::template::lemma_fill_tpls_wf(
                        stub@.persist->0,
                        jmerge(based0, data@),
                        rng_after_sub,
                    );
                    lemma_render_patch_wf(
                        fill_tpls(stub@.persist->0, jmerge(based0, data@), rng_after_sub).0,
                    );
                }
                current.data.merge(&patch);
                proof {
                    lemma_jmerge_wf(
                        (match sdata {
                            Some(d) => d,
                            None => JVal::Obj(Seq::<(Seq<char>, JVal)>::empty()),
                        }),
                        patch@,
                    );
                }
                let ghost curv = current@;
                proof {
                    let based: JVal = match sdata {
                        Some(d) => d,
                        None => JVal::Obj(Seq::<(Seq<char>, JVal)>::empty()),
                    };
                    let fsp = fill_tpls(stub@.persist->0, jmerge(based, data@), rng_after_sub);
                    assert(tview(filled.0@) == fsp.0 && filled.1 == fsp.1);
                    assert(patch@ == render_patch(fsp.0));
                    assert(curv.data == jmerge(based, patch@));
                }
                self.stub_res.upsert_state(current);
                self.rng = filled.1;
                proof {
                    let based: JVal = match sdata {
                        Some(d) => d,
                        None => JVal::Obj(Seq::<(Seq<char>, JVal)>::empty()),
                    };
                    let fsp = fill_tpls(stub@.persist->0, jmerge(based, data@), rng_after_sub);
                    let merged = jmerge(based, render_patch(fsp.0));
                    let w = StateV { id: curv.id, created: curv.created, data: merged };
                    assert(curv == w);
                    assert(sview(self.stub_res.states@) == upsert_spec(sv0, w));
                    assert(mv == mview(old(self).stub_res.mocks@));
                    assert(sv0 == sview(old(self).stub_res.states@));
                    assert(tv0 == tlview(old(self).stub_res.times_left@));
                    let scx = scopes_spec(
                        mv,
                        tv0,
                        sv0,
                        *with_method,
                        with_path@,
                        hview(with_headers@),
                        query_object@,
                        body@,
                        old(self).rng,
                    );
                    let stub_e = mv[scx.0->Found_0];
                    let sdata_e: Option<JVal> = match scx.0->Found_1 {
                        Some(m) => Some(sv0[m].data),
                        None => None,
                    };
                    let data_e = handler_data(
                        stub_e,
                        sdata_e,
                        with_path@,
                        query_object@,
                        hview(with_headers@),
                        body@,
                    );
                    let sub_e = resp_subst(stub_e.response, data_e, scx.2);
                    let based_e: JVal = match sdata_e {
                        Some(d) => d,
                        None => JVal::Obj(Seq::<(Seq<char>, JVal)>::empty()),
                    };
                    let filled_e = fill_tpls(stub_e.persist->0, jmerge(based_e, data_e), sub_e.1);
                    let merged_e = jmerge(based_e, render_patch(filled_e.0));
                    assert(stub_e == stub@);
                    assert(sdata_e == sdata);
                    assert(data_e == data@);
                    assert(sub_e.1 == rng_after_sub);
                    assert(merged_e == merged);
                    assert(upserted_with(
                        sview(final(self).stub_res.states@),
                        sview(old(self).stub_res.states@),
                        merged_e,
                    )) by {
                        assert(sview(final(self).stub_res.states@) == upsert_spec(
                            sview(old(self).stub_res.states@),
                            StateV { id: curv.id, created: curv.created, data: merged_e },
                        ));
                    }
                }
                Ok(response)
            },
        }
    }
}

/// A structurally identical copy of a response.
pub fn duplicate_response(r: &HttpStubResponse) -> (out: HttpStubResponse)
    ensures
        out@ == r@,
{
    match r {
        HttpStubResponse::RawResponse { code, headers, body, delay } => {
            let ghost hv = hview(headers@);
            let hs = dup_headers(headers);
            HttpStubResponse::RawResponse {
                code: *code,
                headers: hs,
                body: body.clone(),
                delay: *delay,
            }
        },
        HttpStubResponse::JsonResponse { code, headers, body, delay, is_template } => {
            let hs = dup_headers(headers);
            HttpStubResponse::JsonResponse {
                code: *code,
                headers: hs,
                body: body.duplicate(),
                delay: *delay,
                is_template: *is_template,
            }
        },
    }
}

/// A copy of a header list, model for model.
fn dup_headers(hs: &Vec<(String, String)>) -> (r: Vec<(String, String)>)
    ensures
        hview(r@) == hview(hs@),
{
    let mut out: Vec<(String, String)> = Vec::new();
    let mut i: usize = 0;
    while i < hs.len()
        invariant
            i <= hs@.len(),
            out@.len() == i,
            forall|j: int|
                0 <= j < i ==> (#[trigger] out@[j]).0@ == hs@[j].0@ && out@[j].1@ == hs@[j].1@,
        decreases hs@.len() - i,
    {
        let k = hs[i].0.clone();
        let v = hs[i].1.clone();
        out.push((k, v));
        i += 1;
    }
    proof {
        lemma_hview_congruent(out@, hs@);
    }
    out
}

proof fn lemma_hview_congruent(s1: Seq<(String, String)>, s2: Seq<(String, String)>)
    requires
        s1.len() == s2.len(),
        forall|i: int| 0 <= i < s1.len() ==> (#[trigger] s1[i]).0@ == s2[i].0@ && s1[i].1@
            == s2[i].1@,
    ensures
        hview(s1) == hview(s2),
    decreases s1.len(),
{
    if s1.len() > 0 {
        lemma_hview_congruent(s1.drop_last(), s2.drop_last());
    }
}

/// A rendered patch is well formed when the filled entries are.
pub proof fn lemma_render_patch_wf(entries: Seq<(Seq<crate::optic::OStep>, JVal)>)
    ensures
        wf_entries(entries) ==> wf(render_patch(entries)),
    decreases entries,
{
    if entries.len() > 0 {
        lemma_render_patch_wf(entries.drop_last());
        if wf_entries(entries) {
            crate::optic::lemma_jset_wf(
                render_patch(entries.drop_last()),
                entries.last().0,
                entries.last().1,
            );
        }
    } else {
        assert(wf_fields(Seq::<(Seq<char>, JVal)>::empty()));
        assert(distinct_keys(Seq::<(Seq<char>, JVal)>::empty()));
    }
}

} // verus!
