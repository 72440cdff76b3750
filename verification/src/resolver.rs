use vstd::prelude::*;
use crate::error::Error;
use crate::json::{JsonValue, JVal, jv, jv_fields, lemma_jv_fields, wf, wf_fields, distinct_keys};
use crate::optic::{OStep, obj_set, find_key, lemma_obj_lookup_key_index, lemma_obj_set_shape,
    lemma_obj_set_wf};
use crate::predicate::{JsonPredicate, Keyword, pred_malformed, pred_holds, pred_wf,
    lemma_pred_wf_elem};
use crate::stub::{HttpStub, StubV, State, StateV, Scope, HttpMethod, RequestBody, RBV, RqV,
    query_ok, body_ok, body_json_of, headers_match, hview, lemma_hview, stub_wf, path_matches,
    groups_of};
use crate::template::{fill_pred, fill_pred_exec, lemma_fill_pred_wf_full};
use crate::strutil::str_eq;

verus! {

/// The model of the stub catalogue.
pub open spec fn mview(s: Seq<HttpStub>) -> Seq<StubV>
    decreases s,
{
    if s.len() == 0 {
        Seq::empty()
    } else {
        mview(s.drop_last()).push(s.last()@)
    }
}

pub broadcast proof fn lemma_mview(s: Seq<HttpStub>)
    ensures
        (#[trigger] mview(s)).len() == s.len(),
        forall|i: int| 0 <= i < s.len() ==> mview(s)[i] == s[i]@,
    decreases s.len(),
{
    if s.len() > 0 {
        lemma_mview(s.drop_last());
    }
}

/// The model of the state store.
pub open spec fn sview(s: Seq<State>) -> Seq<StateV>
    decreases s,
{
    if s.len() == 0 {
        Seq::empty()
    } else {
        sview(s.drop_last()).push(s.last()@)
    }
}

pub broadcast proof fn lemma_sview(s: Seq<State>)
    ensures
        (#[trigger] sview(s)).len() == s.len(),
        forall|i: int| 0 <= i < s.len() ==> sview(s)[i] == s[i]@,
    decreases s.len(),
{
    if s.len() > 0 {
        lemma_sview(s.drop_last());
    }
}

/// Every stub of the list is well formed.
pub open spec fn stubs_wf(s: Seq<StubV>) -> bool
    decreases s,
{
    if s.len() == 0 {
        true
    } else {
        stubs_wf(s.drop_last()) && stub_wf(s.last())
    }
}

pub proof fn lemma_stubs_wf_elem(s: Seq<StubV>, i: int)
    requires
        stubs_wf(s),
        0 <= i < s.len(),
    ensures
        stub_wf(s[i]),
    decreases s.len(),
{
    if i < s.len() - 1 {
        lemma_stubs_wf_elem(s.drop_last(), i);
    }
}

/// Every state document of the list is well formed.
pub open spec fn states_wf(s: Seq<StateV>) -> bool
    decreases s,
{
    if s.len() == 0 {
        true
    } else {
        states_wf(s.drop_last()) && wf(s.last().data)
    }
}

pub proof fn lemma_states_wf_elem(s: Seq<StateV>, i: int)
    requires
        states_wf(s),
        0 <= i < s.len(),
    ensures
        wf(s[i].data),
    decreases s.len(),
{
    if i < s.len() - 1 {
        lemma_states_wf_elem(s.drop_last(), i);
    }
}

/// The method-and-path prefilter: scope and method equal, the path
/// clause accepting, and for the countdown scope a positive remaining
/// count.
pub open spec fn keep1(
    s: StubV,
    rem: Option<int>,
    scope: Scope,
    method: HttpMethod,
    path: Seq<char>,
) -> bool {
    &&& s.scope == scope
    &&& s.method == method
    &&& path_matches(s, path)
    &&& (scope != Scope::Countdown || (rem is Some && rem->0 > 0))
}

/// The surviving indices of the prefilter, ascending.
pub open spec fn cands1(
    mocks: Seq<StubV>,
    times: Seq<Option<int>>,
    scope: Scope,
    method: HttpMethod,
    path: Seq<char>,
) -> Seq<int>
    decreases mocks,
{
    if mocks.len() == 0 {
        Seq::empty()
    } else {
        let prev = cands1(mocks.drop_last(), times.drop_last(), scope, method, path);
        if keep1(mocks.last(), times[mocks.len() - 1], scope, method, path) {
            prev.push(mocks.len() - 1)
        } else {
            prev
        }
    }
}

/// The indices among `prev` whose query specification accepts the query.
pub open spec fn cands2(mocks: Seq<StubV>, prev: Seq<int>, query: JVal) -> Seq<int>
    decreases prev,
{
    if prev.len() == 0 {
        Seq::empty()
    } else {
        let before = cands2(mocks, prev.drop_last(), query);
        if query_ok(mocks[prev.last()].request.query(), query) {
            before.push(prev.last())
        } else {
            before
        }
    }
}

/// The indices among `prev` whose expected headers are all present.
pub open spec fn cands3(
    mocks: Seq<StubV>,
    prev: Seq<int>,
    headers: Seq<(Seq<char>, Seq<char>)>,
) -> Seq<int>
    decreases prev,
{
    if prev.len() == 0 {
        Seq::empty()
    } else {
        let before = cands3(mocks, prev.drop_last(), headers);
        if headers_match(mocks[prev.last()].request.headers(), headers) {
            before.push(prev.last())
        } else {
            before
        }
    }
}

/// The indices among `prev` whose body clause accepts the body.
pub open spec fn cands4(mocks: Seq<StubV>, prev: Seq<int>, body: RBV) -> Seq<int>
    decreases prev,
{
    if prev.len() == 0 {
        Seq::empty()
    } else {
        let before = cands4(mocks, prev.drop_last(), body);
        if body_ok(mocks[prev.last()].request, body) {
            before.push(prev.last())
        } else {
            before
        }
    }
}

/// A list of pairs folded into an object: later pairs replace earlier
/// ones of the same name, values as strings.
pub open spec fn pairs_obj(gs: Seq<(Seq<char>, Seq<char>)>) -> Seq<(Seq<char>, JVal)>
    decreases gs,
{
    if gs.len() == 0 {
        Seq::empty()
    } else {
        obj_set(pairs_obj(gs.drop_last()), gs.last().0, JVal::Str(gs.last().1))
    }
}

pub proof fn lemma_pairs_obj_wf(gs: Seq<(Seq<char>, Seq<char>)>)
    ensures
        wf_fields(pairs_obj(gs)),
        distinct_keys(pairs_obj(gs)),
    decreases gs,
{
    if gs.len() > 0 {
        lemma_pairs_obj_wf(gs.drop_last());
        lemma_obj_set_wf(pairs_obj(gs.drop_last()), gs.last().0, JVal::Str(gs.last().1));
    }
}

/// The context document a stateful candidate's specification is filled
/// with: the query object, the named path segments, and the headers.
pub open spec fn ctx_doc(
    s: StubV,
    path: Seq<char>,
    query: JVal,
    headers: Seq<(Seq<char>, Seq<char>)>,
) -> JVal {
    let segs: JVal = match groups_of(s, path) {
        Some(gs) => JVal::Obj(pairs_obj(gs)),
        None => JVal::Null,
    };
    JVal::Obj(
        seq![
            (seq!['_', '_', 'q', 'u', 'e', 'r', 'y'], query),
            (seq!['_', '_', 's', 'e', 'g', 'm', 'e', 'n', 't', 's'], segs),
            (seq!['_', '_', 'h', 'e', 'a', 'd', 'e', 'r', 's'], JVal::Obj(pairs_obj(headers))),
        ],
    )
}

/// The stub's state specification, filled first with the context
/// document and then with the request's JSON body when there is one.
pub open spec fn fill_state_pred(
    p: Seq<(Seq<OStep>, Seq<(Keyword, JVal)>)>,
    ctx: JVal,
    body_json: Option<JVal>,
    rng: u64,
) -> (Seq<(Seq<OStep>, Seq<(Keyword, JVal)>)>, u64) {
    let step1 = fill_pred(p, ctx, rng);
    match body_json {
        Some(bj) => fill_pred(step1.0, bj, step1.1),
        None => step1,
    }
}

/// The indices of the states the filled specification accepts; a
/// specification that errs accepts none.
pub open spec fn match_states(
    p: Seq<(Seq<OStep>, Seq<(Keyword, JVal)>)>,
    states: Seq<StateV>,
) -> Seq<int>
    decreases states,
{
    if states.len() == 0 {
        Seq::empty()
    } else {
        let before = match_states(p, states.drop_last());
        if !pred_malformed(p) && pred_holds(p, states[states.len() - 1].data) {
            before.push(states.len() - 1)
        } else {
            before
        }
    }
}

/// The per-candidate state matches after filling, in candidate order,
/// with the random state threading through the fills.
pub open spec fn stage5(
    mocks: Seq<StubV>,
    cands: Seq<int>,
    states: Seq<StateV>,
    path: Seq<char>,
    query: JVal,
    headers: Seq<(Seq<char>, Seq<char>)>,
    body: RBV,
    rng: u64,
) -> (Seq<Seq<int>>, u64)
    decreases cands,
{
    if cands.len() == 0 {
        (Seq::empty(), rng)
    } else {
        let prev = stage5(mocks, cands.drop_last(), states, path, query, headers, body, rng);
        let s = mocks[cands.last()];
        match s.state {
            None => (prev.0.push(Seq::empty()), prev.1),
            Some(p) => {
                let filled = fill_state_pred(
                    p,
                    ctx_doc(s, path, query, headers),
                    body_json_of(s.request, body),
                    prev.1,
                );
                (prev.0.push(match_states(filled.0, states)), filled.1)
            },
        }
    }
}

/// Some candidate matched more than one state.
pub open spec fn any_multi(ms: Seq<Seq<int>>) -> bool
    decreases ms,
{
    if ms.len() == 0 {
        false
    } else {
        any_multi(ms.drop_last()) || ms.last().len() > 1
    }
}

/// How many candidates matched at least one state.
pub open spec fn count_nonempty(ms: Seq<Seq<int>>) -> int
    decreases ms,
{
    if ms.len() == 0 {
        0
    } else {
        count_nonempty(ms.drop_last()) + (if ms.last().len() > 0 {
            1int
        } else {
            0int
        })
    }
}

/// Every candidate carries a state specification.
pub open spec fn all_stateful(mocks: Seq<StubV>, cands: Seq<int>) -> bool
    decreases cands,
{
    if cands.len() == 0 {
        true
    } else {
        all_stateful(mocks, cands.drop_last()) && mocks[cands.last()].state is Some
    }
}

/// No candidate carries a state specification.
pub open spec fn all_stateless(mocks: Seq<StubV>, cands: Seq<int>) -> bool
    decreases cands,
{
    if cands.len() == 0 {
        true
    } else {
        all_stateless(mocks, cands.drop_last()) && mocks[cands.last()].state is None
    }
}

/// Every candidate's match list is empty.
pub open spec fn all_empty(ms: Seq<Seq<int>>) -> bool
    decreases ms,
{
    if ms.len() == 0 {
        true
    } else {
        all_empty(ms.drop_last()) && ms.last().len() == 0
    }
}

/// The first candidate that matched exactly one state, with that state.
pub open spec fn first_single(cands: Seq<int>, ms: Seq<Seq<int>>) -> Option<(int, int)>
    decreases cands.len(),
{
    if cands.len() == 0 || ms.len() == 0 {
        None
    } else if ms.first().len() == 1 {
        Some((cands.first(), ms.first()[0]))
    } else {
        first_single(cands.drop_first(), ms.drop_first())
    }
}

/// The first candidate without a state specification.
pub open spec fn first_stateless(mocks: Seq<StubV>, cands: Seq<int>) -> Option<int>
    decreases cands.len(),
{
    if cands.len() == 0 {
        None
    } else if mocks[cands.first()].state is None {
        Some(cands.first())
    } else {
        first_stateless(mocks, cands.drop_first())
    }
}

/// The uniqueness faults resolution can end in.
pub enum ResolveErr {
    MultiState,
    MultiStub,
    NoState,
    MultiStateless,
}

/// The outcome of resolution in one scope.
pub enum ResolveOutcome {
    NoMatch,
    Found(int, Option<int>),
    Fault(ResolveErr),
}

/// The diagnostic text of each uniqueness fault.
pub open spec fn err_text(e: ResolveErr) -> Seq<char> {
    match e {
        ResolveErr::MultiState => "For one or more stubs, multiple suitable states were found"@,
        ResolveErr::MultiStub => "For more than one stub, suitable states were found"@,
        ResolveErr::NoState => "No suitable state found for any stub"@,
        ResolveErr::MultiStateless => "More than one stateless stub found"@,
    }
}

/// Resolution in one scope: the staged filters, the state pairing, the
/// uniqueness faults exactly as stated, and the selection rule; with the
/// random state after all fills.
pub open spec fn resolve_spec(
    mocks: Seq<StubV>,
    times: Seq<Option<int>>,
    states: Seq<StateV>,
    scope: Scope,
    method: HttpMethod,
    path: Seq<char>,
    headers: Seq<(Seq<char>, Seq<char>)>,
    query: JVal,
    body: RBV,
    rng: u64,
) -> (ResolveOutcome, u64) {
    let c1 = cands1(mocks, times, scope, method, path);
    if c1.len() == 0 {
        (ResolveOutcome::NoMatch, rng)
    } else {
        let c2 = cands2(mocks, c1, query);
        if c2.len() == 0 {
            (ResolveOutcome::NoMatch, rng)
        } else {
            let c3 = cands3(mocks, c2, headers);
            if c3.len() == 0 {
                (ResolveOutcome::NoMatch, rng)
            } else {
                let c4 = cands4(mocks, c3, body);
                if c4.len() == 0 {
                    (ResolveOutcome::NoMatch, rng)
                } else {
                    let st5 = stage5(mocks, c4, states, path, query, headers, body, rng);
                    let ms = st5.0;
                    let rng2 = st5.1;
                    if any_multi(ms) {
                        (ResolveOutcome::Fault(ResolveErr::MultiState), rng2)
                    } else if count_nonempty(ms) > 1 {
                        (ResolveOutcome::Fault(ResolveErr::MultiStub), rng2)
                    } else if c4.len() > 1 && all_stateful(mocks, c4) && all_empty(ms) {
                        (ResolveOutcome::Fault(ResolveErr::NoState), rng2)
                    } else if c4.len() > 1 && all_stateless(mocks, c4) {
                        (ResolveOutcome::Fault(ResolveErr::MultiStateless), rng2)
                    } else {
                        match first_single(c4, ms) {
                            Some((c, m)) => (ResolveOutcome::Found(c, Some(m)), rng2),
                            None => match first_stateless(mocks, c4) {
                                Some(c) => (ResolveOutcome::Found(c, None), rng2),
                                None => (ResolveOutcome::NoMatch, rng2),
                            },
                        }
                    }
                }
            }
        }
    }
}

/// The counters with the count at `idx` decremented, when it is there
/// and positive.
pub open spec fn dec_at(times: Seq<Option<int>>, idx: int) -> Seq<Option<int>> {
    if 0 <= idx < times.len() && times[idx] is Some && times[idx]->0 > 0 {
        times.update(idx, Some(times[idx]->0 - 1))
    } else {
        times
    }
}

/// The first position bearing the given state id, or -1.
pub open spec fn state_index(states: Seq<StateV>, id: int) -> int
    decreases states.len(),
{
    if states.len() == 0 {
        -1
    } else if states.first().id == id {
        0
    } else {
        let r = state_index(states.drop_first(), id);
        if r < 0 {
            -1
        } else {
            r + 1
        }
    }
}

/// Upserting a state: the first state of the same id is replaced whole;
/// a new id is appended.
pub open spec fn upsert_spec(states: Seq<StateV>, st: StateV) -> Seq<StateV> {
    let k = state_index(states, st.id);
    if k >= 0 {
        states.update(k, st)
    } else {
        states.push(st)
    }
}

/// The resolver: the immutable catalogue, the countdown counters, and
/// the state store.
pub struct StubResolver {
    pub mocks: Vec<HttpStub>,
    pub times_left: Vec<Option<i64>>,
    pub states: Vec<State>,
}

/// The model of the countdown counters.
pub open spec fn tlview(s: Seq<Option<i64>>) -> Seq<Option<int>>
    decreases s,
{
    if s.len() == 0 {
        Seq::empty()
    } else {
        tlview(s.drop_last()).push(
            match s.last() {
                Some(t) => Some(t as int),
                None => None,
            },
        )
    }
}

pub broadcast proof fn lemma_tlview(s: Seq<Option<i64>>)
    ensures
        (#[trigger] tlview(s)).len() == s.len(),
        forall|i: int|
            0 <= i < s.len() ==> tlview(s)[i] == (match s[i] {
                Some(t) => Some(t as int),
                None => None::<int>,
            }),
    decreases s.len(),
{
    if s.len() > 0 {
        lemma_tlview(s.drop_last());
    }
}

impl StubResolver {
    /// The resolver is consistent: one counter per stub, taken from the
    /// stub, and everything well formed.
    pub open spec fn wf_res(&self) -> bool {
        &&& self.times_left@.len() == self.mocks@.len()
        &&& stubs_wf(mview(self.mocks@))
        &&& states_wf(sview(self.states@))
    }

    /// A resolver over the catalogue, counters taken from the stubs'
    /// remaining counts, and the given starting states.
    #[verifier::loop_isolation(false)]
    pub fn new(mocks: Vec<HttpStub>, states: Vec<State>) -> (r: StubResolver)
        requires
            stubs_wf(mview(mocks@)),
            states_wf(sview(states@)),
        ensures
            r.mocks@ == mocks@,
            r.states@ == states@,
            r.wf_res(),
            tlview(r.times_left@).len() == mocks@.len(),
            forall|i: int|
                0 <= i < mocks@.len() ==> tlview(r.times_left@)[i] == mview(mocks@)[i].times,
    {
        proof {
            lemma_mview(mocks@);
        }
        let mut times_left: Vec<Option<i64>> = Vec::new();
        let mut i: usize = 0;
        while i < mocks.len()
            invariant
                i <= mocks@.len(),
                times_left@.len() == i,
                forall|j: int|
                    0 <= j < i ==> tlview(times_left@)[j] == mview(mocks@)[j].times,
            decreases mocks@.len() - i,
        {
            let t: Option<i64> = match &mocks[i].times {
                Some(v) => Some(*v),
                None => None,
            };
            let ghost prev = times_left@;
            times_left.push(t);
            proof {
                lemma_tlview(times_left@);
                lemma_tlview(prev);
                assert(times_left@.drop_last() =~= prev);
            }
            i += 1;
        }
        proof {
            lemma_tlview(times_left@);
        }
        StubResolver { mocks, times_left, states }
    }

    /// Decrements the remaining count of a selected countdown stub; a
    /// stub without a positive count is left as it is.
    pub fn decrement_times(&mut self, idx: usize)
        requires
            idx < old(self).times_left@.len(),
        ensures
            final(self).mocks == old(self).mocks,
            final(self).states == old(self).states,
            tlview(final(self).times_left@) == dec_at(tlview(old(self).times_left@), idx as int),
            final(self).times_left@.len() == old(self).times_left@.len(),
    {
        proof {
            lemma_tlview(self.times_left@);
        }
        match self.times_left[idx] {
            Some(t) => {
                if t > 0 {
                    let ghost prev = self.times_left@;
                    self.times_left.set(idx, Some(t - 1));
                    proof {
                        lemma_tlview(self.times_left@);
                        lemma_tlview(prev);
                        assert(tlview(self.times_left@) =~= dec_at(tlview(prev), idx as int));
                    }
                } else {
                    proof {
                        assert(tlview(self.times_left@) =~= dec_at(
                            tlview(self.times_left@),
                            idx as int,
                        ));
                    }
                }
            },
            None => {
                proof {
                    assert(tlview(self.times_left@) =~= dec_at(
                        tlview(self.times_left@),
                        idx as int,
                    ));
                }
            },
        }
    }

    /// Replaces the first state of the same id whole, or appends the
    /// state under its new id.
    #[verifier::loop_isolation(false)]
    pub fn upsert_state(&mut self, state: State)
        requires
            wf(state@.data),
        ensures
            final(self).mocks == old(self).mocks,
            final(self).times_left == old(self).times_left,
            sview(final(self).states@) == upsert_spec(sview(old(self).states@), state@),
            states_wf(sview(old(self).states@)) ==> states_wf(sview(final(self).states@)),
    {
        let ghost sv = sview(self.states@);
        let ghost st0 = state@;
        proof {
            lemma_sview(self.states@);
            assert(sv.skip(0) =~= sv);
        }
        let mut i: usize = 0;
        while i < self.states.len()
            invariant
                i <= self.states@.len(),
                sv == sview(self.states@),
                sv.len() == self.states@.len(),
                self.mocks == old(self).mocks,
                self.times_left == old(self).times_left,
                self.states == old(self).states,
                state@ == st0,
                wf(state@.data),
                state_index(sv, state@.id) == (if state_index(sv.skip(i as int), state@.id) < 0 {
                    -1
                } else {
                    state_index(sv.skip(i as int), state@.id) + i
                }),
            decreases self.states@.len() - i,
        {
            proof {
                lemma_sview(self.states@);
                assert(sv.skip(i as int)[0] == sv[i as int]);
            }
            if self.states[i].id == state.id {
                let ghost prev = self.states@;
                self.states.set(i, state);
                proof {
                    lemma_sview(self.states@);
                    lemma_sview(prev);
                    assert(sview(self.states@) =~= sv.update(i as int, st0));
                    lemma_states_wf_update(sv, i as int, st0);
                }
                return ;
            }
            proof {
                assert(sv.skip(i as int).drop_first() =~= sv.skip(i + 1 as int));
            }
            i += 1;
        }
        proof {
            assert(sv.skip(self.states@.len() as int) =~= Seq::<StateV>::empty());
        }
        let ghost prev = self.states@;
        self.states.push(state);
        proof {
            lemma_sview(self.states@);
            lemma_sview(prev);
            assert(self.states@.drop_last() =~= prev);
            assert(sview(self.states@) =~= sv.push(st0));
            assert(sv.push(st0).drop_last() =~= sv);
            assert(sv.push(st0).last() == st0);
        }
    }
}

/// Updating one state with a well-formed document keeps the store well
/// formed.
pub proof fn lemma_states_wf_update(states: Seq<StateV>, k: int, st: StateV)
    requires
        0 <= k < states.len(),
        wf(st.data),
    ensures
        states_wf(states) ==> states_wf(states.update(k, st)),
    decreases states.len(),
{
    if states.len() > 0 {
        if k < states.len() - 1 {
            lemma_states_wf_update(states.drop_last(), k, st);
            assert(states.update(k, st).drop_last() =~= states.drop_last().update(k, st));
            assert(states.update(k, st).last() == states.last());
        } else {
            assert(states.update(k, st).drop_last() =~= states.drop_last());
            assert(states.update(k, st).last() == st);
        }
    }
}

/// The model of an index list.
pub open spec fn idxview(s: Seq<usize>) -> Seq<int>
    decreases s,
{
    if s.len() == 0 {
        Seq::empty()
    } else {
        idxview(s.drop_last()).push(s.last() as int)
    }
}

pub broadcast proof fn lemma_idxview(s: Seq<usize>)
    ensures
        (#[trigger] idxview(s)).len() == s.len(),
        forall|i: int| 0 <= i < s.len() ==> #[trigger] idxview(s)[i] == s[i] as int,
    decreases s.len(),
{
    if s.len() > 0 {
        lemma_idxview(s.drop_last());
    }
}

/// The model of a list of index lists.
pub open spec fn msview(s: Seq<Vec<usize>>) -> Seq<Seq<int>>
    decreases s,
{
    if s.len() == 0 {
        Seq::empty()
    } else {
        msview(s.drop_last()).push(idxview(s.last()@))
    }
}

pub broadcast proof fn lemma_msview(s: Seq<Vec<usize>>)
    ensures
        (#[trigger] msview(s)).len() == s.len(),
        forall|i: int| 0 <= i < s.len() ==> #[trigger] msview(s)[i] == idxview(s[i]@),
    decreases s.len(),
{
    if s.len() > 0 {
        lemma_msview(s.drop_last());
    }
}

/// The context document of a well-formed stub and query is well formed.
pub proof fn lemma_ctx_wf(
    s: StubV,
    path: Seq<char>,
    query: JVal,
    headers: Seq<(Seq<char>, Seq<char>)>,
)
    requires
        wf(query),
    ensures
        wf(ctx_doc(s, path, query, headers)),
{
    lemma_pairs_obj_wf(headers);
    let segs: JVal = match groups_of(s, path) {
        Some(gs) => JVal::Obj(pairs_obj(gs)),
        None => JVal::Null,
    };
    if groups_of(s, path) is Some {
        lemma_pairs_obj_wf(groups_of(s, path)->0);
        assert(segs == JVal::Obj(pairs_obj(groups_of(s, path)->0)));
    }
    assert(wf(segs));
    assert(wf(JVal::Obj(pairs_obj(headers))));
    let qk = seq!['_', '_', 'q', 'u', 'e', 'r', 'y'];
    let sk = seq!['_', '_', 's', 'e', 'g', 'm', 'e', 'n', 't', 's'];
    let hk = seq!['_', '_', 'h', 'e', 'a', 'd', 'e', 'r', 's'];
    assert(qk.len() == 7 && sk.len() == 10 && hk.len() == 9);
    let e0 = Seq::<(Seq<char>, JVal)>::empty();
    let f1 = e0.push((qk, query));
    let f2 = f1.push((sk, segs));
    let f3 = f2.push((hk, JVal::Obj(pairs_obj(headers))));
    assert(f1.drop_last() =~= e0);
    assert(f2.drop_last() =~= f1);
    assert(f3.drop_last() =~= f2);
    assert(crate::json::wf_fields(e0));
    assert(crate::json::wf_fields(f1));
    assert(crate::json::wf_fields(f2));
    assert(crate::json::wf_fields(f3));
    assert(crate::json::key_absent(e0, qk));
    assert(crate::json::key_absent(e0, sk));
    assert(crate::json::key_absent(f1, sk));
    assert(crate::json::key_absent(e0, hk));
    assert(crate::json::key_absent(f1, hk));
    assert(crate::json::key_absent(f2, hk));
    assert(crate::json::distinct_keys(e0));
    assert(crate::json::distinct_keys(f1));
    assert(crate::json::distinct_keys(f2));
    assert(crate::json::distinct_keys(f3));
    assert((match ctx_doc(s, path, query, headers) {
        JVal::Obj(fs) => fs,
        _ => Seq::<(Seq<char>, JVal)>::empty(),
    }) =~= f3);
}

/// A list of pairs folded into a JSON object, executed.
#[verifier::loop_isolation(false)]
pub fn build_pairs_obj(pairs: &Vec<(String, String)>) -> (r: Vec<(String, JsonValue)>)
    ensures
        jv_fields(r@) == pairs_obj(hview(pairs@)),
{
    proof {
        lemma_hview(pairs@);
    }
    let ghost pv = hview(pairs@);
    let mut out: Vec<(String, JsonValue)> = Vec::new();
    let mut k: usize = 0;
    proof {
        assert(pv.take(0) =~= Seq::<(Seq<char>, Seq<char>)>::empty());
        assert(jv_fields(out@) =~= Seq::<(Seq<char>, JVal)>::empty());
    }
    while k < pairs.len()
        invariant
            k <= pairs@.len(),
            jv_fields(out@) == pairs_obj(pv.take(k as int)),
        decreases pairs@.len() - k,
    {
        proof {
            assert(pv.take(k + 1 as int).drop_last() =~= pv.take(k as int));
            assert(pv.take(k + 1 as int).last() == pv[k as int]);
        }
        let ghost sb = jv_fields(out@);
        proof {
            lemma_obj_lookup_key_index(sb, pv[k as int].0);
            lemma_obj_set_shape(sb, pv[k as int].0, JVal::Str(pv[k as int].1));
        }
        let v = JsonValue::Str(pairs[k].1.clone());
        let found = find_key(&out, pairs[k].0.as_str());
        match found {
            Some(kidx) => {
                let key = out[kidx].0.clone();
                let ghost prevb = out@;
                out.set(kidx, (key, v));
                proof {
                    lemma_jv_fields(out@);
                    lemma_jv_fields(prevb);
                    assert(jv_fields(out@) =~= obj_set(sb, pv[k as int].0, JVal::Str(
                        pv[k as int].1,
                    )));
                }
            },
            None => {
                let key = pairs[k].0.clone();
                let ghost prevb = out@;
                out.push((key, v));
                proof {
                    lemma_jv_fields(out@);
                    lemma_jv_fields(prevb);
                    assert(out@.drop_last() =~= prevb);
                    assert(jv_fields(out@) =~= obj_set(sb, pv[k as int].0, JVal::Str(
                        pv[k as int].1,
                    )));
                }
            },
        }
        k += 1;
    }
    proof {
        assert(pv.take(pairs@.len() as int) =~= pv);
    }
    out
}

impl StubResolver {
    /// Builds the context document a stateful candidate is filled with.
    fn build_ctx(
        stub: &HttpStub,
        with_path: &str,
        query_object: &JsonValue,
        with_headers: &Vec<(String, String)>,
    ) -> (r: JsonValue)
        requires
            wf(query_object@),
        ensures
            r@ == ctx_doc(stub@, with_path@, query_object@, hview(with_headers@)),
            wf(r@),
    {
        proof {
            lemma_ctx_wf(stub@, with_path@, query_object@, hview(with_headers@));
        }
        let segs: JsonValue = match stub.extract_groups(with_path) {
            Some(gs) => {
                let ghost gsv = groups_of(stub@, with_path@)->0;
                proof {
                    lemma_hview(gs@);
                    assert(hview(gs@) =~= gsv);
                }
                JsonValue::Obj(build_pairs_obj(&gs))
            },
            None => JsonValue::Null,
        };
        let hobj = JsonValue::Obj(build_pairs_obj(with_headers));
        let mut fields: Vec<(String, JsonValue)> = Vec::new();
        proof {
            reveal_strlit("__query");
            reveal_strlit("__segments");
            reveal_strlit("__headers");
            assert("__query"@ =~= seq!['_', '_', 'q', 'u', 'e', 'r', 'y']);
            assert("__segments"@ =~= seq!['_', '_', 's', 'e', 'g', 'm', 'e', 'n', 't', 's']);
            assert("__headers"@ =~= seq!['_', '_', 'h', 'e', 'a', 'd', 'e', 'r', 's']);
        }
        fields.push((String::from_str("__query"), query_object.duplicate()));
        fields.push((String::from_str("__segments"), segs));
        fields.push((String::from_str("__headers"), hobj));
        proof {
            lemma_jv_fields(fields@);
            assert(jv_fields(fields@) =~= (match ctx_doc(
                stub@,
                with_path@,
                query_object@,
                hview(with_headers@),
            ) {
                JVal::Obj(fs) => fs,
                _ => Seq::<(Seq<char>, JVal)>::empty(),
            }));
        }
        JsonValue::Obj(fields)
    }

    /// Resolution in one scope: the staged filters over method, path,
    /// query, headers and body; the state pairing with filled
    /// specifications; the uniqueness faults; and the selection rule.
    /// Yields the selected stub's index with a copy of its matched
    /// state, and the advanced random state.
    #[verifier::loop_isolation(false)]
    #[verifier::rlimit(100)]
    pub fn find_stub_and_state(
        &self,
        in_scope: Scope,
        with_method: &HttpMethod,
        with_path: &str,
        with_headers: &Vec<(String, String)>,
        query_object: &JsonValue,
        body: &RequestBody,
        seed: u64,
    ) -> (r: (Result<Option<(usize, Option<State>)>, Error>, u64))
        requires
            self.wf_res(),
            wf(query_object@),
        ensures
            ({
                let out = resolve_spec(
                    mview(self.mocks@),
                    tlview(self.times_left@),
                    sview(self.states@),
                    in_scope,
                    *with_method,
                    with_path@,
                    hview(with_headers@),
                    query_object@,
                    body@,
                    seed,
                );
                r.1 == out.1 && (match r.0 {
                    Ok(sel) => match sel {
                        None => out.0 is NoMatch,
                        Some(p) => out.0 is Found && out.0->Found_0 == p.0 as int && p.0
                            < self.mocks@.len() && (match p.1 {
                            Some(st) => out.0->Found_1 is Some && 0 <= out.0->Found_1->0
                                < self.states@.len() && st@ == sview(
                                self.states@,
                            )[out.0->Found_1->0],
                            None => out.0->Found_1 is None,
                        }),
                    },
                    Err(e) => out.0 is Fault && e.message@ == err_text(out.0->Fault_0),
                })
            }),
    {
        let ghost mv = mview(self.mocks@);
        let ghost tv = tlview(self.times_left@);
        let ghost stv = sview(self.states@);
        proof {
            lemma_mview(self.mocks@);
            lemma_tlview(self.times_left@);
            lemma_sview(self.states@);
        }
        let mut c1: Vec<usize> = Vec::new();
        let mut i: usize = 0;
        proof {
            assert(mv.take(0) =~= Seq::<StubV>::empty());
            assert(tv.take(0) =~= Seq::<Option<int>>::empty());
            assert(idxview(c1@) =~= Seq::<int>::empty());
        }
        while i < self.mocks.len()
            invariant
                i <= self.mocks@.len(),
                idxview(c1@) == cands1(
                    mv.take(i as int),
                    tv.take(i as int),
                    in_scope,
                    *with_method,
                    with_path@,
                ),
                forall|j: int| 0 <= j < c1@.len() ==> (#[trigger] c1@[j]) < i,
            decreases self.mocks@.len() - i,
        {
            proof {
                assert(mv.take(i + 1 as int).drop_last() =~= mv.take(i as int));
                assert(tv.take(i + 1 as int).drop_last() =~= tv.take(i as int));
                assert(mv.take(i + 1 as int).last() == mv[i as int]);
            }
            let stub = &self.mocks[i];
            let scope_ok = stub.scope == in_scope && stub.method == *with_method;
            let keep = scope_ok && stub.matches_path(with_path) && (!(in_scope
                == Scope::Countdown) || (match self.times_left[i] {
                Some(t) => t > 0,
                None => false,
            }));
            if keep {
                let ghost prev = c1@;
                c1.push(i);
                proof {
                    lemma_idxview(c1@);
                    lemma_idxview(prev);
                    assert(c1@.drop_last() =~= prev);
                }
            }
            i += 1;
        }
        proof {
            assert(mv.take(self.mocks@.len() as int) =~= mv);
            assert(tv.take(self.times_left@.len() as int) =~= tv);
        }
        if c1.len() == 0 {
            proof {
                lemma_idxview(c1@);
            }
            return (Ok(None), seed);
        }
        let ghost c1v = idxview(c1@);
        let mut c2: Vec<usize> = Vec::new();
        let mut i2: usize = 0;
        proof {
            lemma_idxview(c1@);
            assert(c1v.take(0) =~= Seq::<int>::empty());
            assert(idxview(c2@) =~= Seq::<int>::empty());
        }
        while i2 < c1.len()
            invariant
                i2 <= c1@.len(),
                idxview(c2@) == cands2(mv, c1v.take(i2 as int), query_object@),
                forall|j: int| 0 <= j < c2@.len() ==> (#[trigger] c2@[j]) < self.mocks@.len(),
            decreases c1@.len() - i2,
        {
            proof {
                lemma_idxview(c1@);
                assert(c1v.take(i2 + 1 as int).drop_last() =~= c1v.take(i2 as int));
                assert(c1v.take(i2 + 1 as int).last() == c1v[i2 as int]);
                lemma_stubs_wf_elem(mv, c1@[i2 as int] as int);
            }
            let c = c1[i2];
            if self.mocks[c].request.check_query_params(query_object) {
                let ghost prev = c2@;
                c2.push(c);
                proof {
                    lemma_idxview(c2@);
                    lemma_idxview(prev);
                    assert(c2@.drop_last() =~= prev);
                }
            }
            i2 += 1;
        }
        proof {
            assert(c1v.take(c1@.len() as int) =~= c1v);
        }
        if c2.len() == 0 {
            proof {
                lemma_idxview(c2@);
            }
            return (Ok(None), seed);
        }
        let ghost c2v = idxview(c2@);
        let mut c3: Vec<usize> = Vec::new();
        let mut i3: usize = 0;
        proof {
            lemma_idxview(c2@);
            assert(c2v.take(0) =~= Seq::<int>::empty());
            assert(idxview(c3@) =~= Seq::<int>::empty());
        }
        while i3 < c2.len()
            invariant
                i3 <= c2@.len(),
                idxview(c3@) == cands3(mv, c2v.take(i3 as int), hview(with_headers@)),
                forall|j: int| 0 <= j < c3@.len() ==> (#[trigger] c3@[j]) < self.mocks@.len(),
            decreases c2@.len() - i3,
        {
            proof {
                lemma_idxview(c2@);
                assert(c2v.take(i3 + 1 as int).drop_last() =~= c2v.take(i3 as int));
                assert(c2v.take(i3 + 1 as int).last() == c2v[i3 as int]);
            }
            let c = c2[i3];
            if self.mocks[c].request.check_headers(with_headers) {
                let ghost prev = c3@;
                c3.push(c);
                proof {
                    lemma_idxview(c3@);
                    lemma_idxview(prev);
                    assert(c3@.drop_last() =~= prev);
                }
            }
            i3 += 1;
        }
        proof {
            assert(c2v.take(c2@.len() as int) =~= c2v);
        }
        if c3.len() == 0 {
            proof {
                lemma_idxview(c3@);
            }
            return (Ok(None), seed);
        }
        let ghost c3v = idxview(c3@);
        let mut c4: Vec<usize> = Vec::new();
        let mut i4: usize = 0;
        proof {
            lemma_idxview(c3@);
            assert(c3v.take(0) =~= Seq::<int>::empty());
            assert(idxview(c4@) =~= Seq::<int>::empty());
        }
        while i4 < c3.len()
            invariant
                i4 <= c3@.len(),
                idxview(c4@) == cands4(mv, c3v.take(i4 as int), body@),
                forall|j: int| 0 <= j < c4@.len() ==> (#[trigger] c4@[j]) < self.mocks@.len(),
            decreases c3@.len() - i4,
        {
            proof {
                lemma_idxview(c3@);
                assert(c3v.take(i4 + 1 as int).drop_last() =~= c3v.take(i4 as int));
                assert(c3v.take(i4 + 1 as int).last() == c3v[i4 as int]);
                lemma_stubs_wf_elem(mv, c3@[i4 as int] as int);
            }
            let c = c3[i4];
            if self.mocks[c].request.check_body(body) {
                let ghost prev = c4@;
                c4.push(c);
                proof {
                    lemma_idxview(c4@);
                    lemma_idxview(prev);
                    assert(c4@.drop_last() =~= prev);
                }
            }
            i4 += 1;
        }
        proof {
            assert(c3v.take(c3@.len() as int) =~= c3v);
        }
        if c4.len() == 0 {
            proof {
                lemma_idxview(c4@);
            }
            return (Ok(None), seed);
        }
        let ghost c4v = idxview(c4@);
        let mut ms: Vec<Vec<usize>> = Vec::new();
        let mut cur: u64 = seed;
        let mut i5: usize = 0;
        proof {
            lemma_idxview(c4@);
            assert(c4v.take(0) =~= Seq::<int>::empty());
            assert(msview(ms@) =~= Seq::<Seq<int>>::empty());
        }
        while i5 < c4.len()
            invariant
                i5 <= c4@.len(),
                stage5(
                    mv,
                    c4v.take(i5 as int),
                    stv,
                    with_path@,
                    query_object@,
                    hview(with_headers@),
                    body@,
                    seed,
                ) == (msview(ms@), cur),
                ms@.len() == i5,
                forall|a: int, b: int|
                    0 <= a < ms@.len() && 0 <= b < (#[trigger] ms@[a])@.len()
                        ==> #[trigger] (ms@[a]@[b]) < self.states@.len(),
            decreases c4@.len() - i5,
        {
            proof {
                lemma_idxview(c4@);
                assert(c4v.take(i5 + 1 as int).drop_last() =~= c4v.take(i5 as int));
                assert(c4v.take(i5 + 1 as int).last() == c4v[i5 as int]);
                lemma_stubs_wf_elem(mv, c4@[i5 as int] as int);
            }
            let c = c4[i5];
            let stub = &self.mocks[c];
            let matches: Vec<usize> = match &stub.state {
                None => {
                    proof {
                        assert(idxview(Seq::<usize>::empty()) =~= Seq::<int>::empty());
                    }
                    Vec::new()
                },
                Some(p) => {
                    let ctx = Self::build_ctx(stub, with_path, query_object, with_headers);
                    let f1 = fill_pred_exec(p, &ctx, cur);
                    let filled: JsonPredicate;
                    let rngf: u64;
                    match stub.request.extract_json(body) {
                        Some(bj) => {
                            let f2 = fill_pred_exec(&f1.0, &bj, f1.1);
                            filled = f2.0;
                            rngf = f2.1;
                        },
                        None => {
                            filled = f1.0;
                            rngf = f1.1;
                        },
                    }
                    cur = rngf;
                    let mut found: Vec<usize> = Vec::new();
                    let mut k: usize = 0;
                    proof {
                        assert(stv.take(0) =~= Seq::<StateV>::empty());
                        assert(idxview(found@) =~= Seq::<int>::empty());
                    }
                    while k < self.states.len()
                        invariant
                            k <= self.states@.len(),
                            idxview(found@) == match_states(filled@, stv.take(k as int)),
                            pred_wf(filled@),
                            forall|b: int|
                                0 <= b < found@.len() ==> (#[trigger] found@[b])
                                    < self.states@.len(),
                        decreases self.states@.len() - k,
                    {
                        proof {
                            lemma_sview(self.states@);
                            lemma_states_wf_elem(stv, k as int);
                            assert(stv.take(k + 1 as int).drop_last() =~= stv.take(k as int));
                            assert(stv.take(k + 1 as int).last() == stv[k as int]);
                        }
                        let keep: bool = match filled.validate(&self.states[k].data) {
                            Ok(b) => b,
                            Err(_) => false,
                        };
                        if keep {
                            let ghost prev = found@;
                            found.push(k);
                            proof {
                                lemma_idxview(found@);
                                lemma_idxview(prev);
                                assert(found@.drop_last() =~= prev);
                            }
                        }
                        k += 1;
                    }
                    proof {
                        assert(stv.take(self.states@.len() as int) =~= stv);
                    }
                    found
                },
            };
            let ghost prevms = ms@;
            ms.push(matches);
            proof {
                lemma_msview(ms@);
                lemma_msview(prevms);
                assert(ms@.drop_last() =~= prevms);
                assert(msview(ms@) =~= stage5(
                    mv,
                    c4v.take(i5 + 1 as int),
                    stv,
                    with_path@,
                    query_object@,
                    hview(with_headers@),
                    body@,
                    seed,
                ).0);
            }
            i5 += 1;
        }
        proof {
            assert(c4v.take(c4@.len() as int) =~= c4v);
        }
        let ghost msv = msview(ms@);
        proof {
            reveal_strlit("For one or more stubs, multiple suitable states were found");
            reveal_strlit("For more than one stub, suitable states were found");
            reveal_strlit("No suitable state found for any stub");
            reveal_strlit("More than one stateless stub found");
        }
        let mut multi = false;
        let mut nonempty: usize = 0;
        let mut stateful_all = true;
        let mut stateless_all = true;
        let mut empty_all = true;
        let mut k6: usize = 0;
        proof {
            lemma_msview(ms@);
            assert(msv.take(0) =~= Seq::<Seq<int>>::empty());
            assert(c4v.take(0) =~= Seq::<int>::empty());
        }
        while k6 < ms.len()
            invariant
                k6 <= ms@.len(),
                ms@.len() == c4@.len(),
                multi == any_multi(msv.take(k6 as int)),
                nonempty as int == count_nonempty(msv.take(k6 as int)),
                nonempty <= k6,
                stateful_all == all_stateful(mv, c4v.take(k6 as int)),
                stateless_all == all_stateless(mv, c4v.take(k6 as int)),
                empty_all == all_empty(msv.take(k6 as int)),
            decreases ms@.len() - k6,
        {
            proof {
                lemma_msview(ms@);
                lemma_idxview(ms@[k6 as int]@);
                lemma_idxview(c4@);
                assert(msv.take(k6 + 1 as int).drop_last() =~= msv.take(k6 as int));
                assert(msv.take(k6 + 1 as int).last() == msv[k6 as int]);
                assert(c4v.take(k6 + 1 as int).drop_last() =~= c4v.take(k6 as int));
                assert(c4v.take(k6 + 1 as int).last() == c4v[k6 as int]);
            }
            if ms[k6].len() > 1 {
                multi = true;
            }
            if ms[k6].len() > 0 {
                nonempty = nonempty + 1;
            }
            if ms[k6].len() != 0 {
                empty_all = false;
            }
            let c = c4[k6];
            match &self.mocks[c].state {
                Some(_) => {
                    stateless_all = false;
                },
                None => {
                    stateful_all = false;
                },
            }
            k6 += 1;
        }
        proof {
            assert(msv.take(ms@.len() as int) =~= msv);
            assert(c4v.take(c4@.len() as int) =~= c4v);
        }
        if multi {
            return (
                Err(
                    Error::new(
                        String::from_str(
                            "For one or more stubs, multiple suitable states were found",
                        ),
                    ),
                ),
                cur,
            );
        }
        if nonempty > 1 {
            return (
                Err(
                    Error::new(
                        String::from_str("For more than one stub, suitable states were found"),
                    ),
                ),
                cur,
            );
        }
        if c4.len() > 1 && stateful_all && empty_all {
            return (
                Err(Error::new(String::from_str("No suitable state found for any stub"))),
                cur,
            );
        }
        if c4.len() > 1 && stateless_all {
            return (
                Err(Error::new(String::from_str("More than one stateless stub found"))),
                cur,
            );
        }
        let mut k7: usize = 0;
        proof {
            assert(c4v.skip(0) =~= c4v);
            assert(msv.skip(0) =~= msv);
        }
        while k7 < c4.len()
            invariant
                k7 <= c4@.len(),
                ms@.len() == c4@.len(),
                first_single(c4v, msv) == first_single(
                    c4v.skip(k7 as int),
                    msv.skip(k7 as int),
                ),
                forall|a: int, b: int|
                    0 <= a < ms@.len() && 0 <= b < (#[trigger] ms@[a])@.len()
                        ==> #[trigger] (ms@[a]@[b]) < self.states@.len(),
            decreases c4@.len() - k7,
        {
            proof {
                lemma_idxview(c4@);
                lemma_msview(ms@);
                lemma_idxview(ms@[k7 as int]@);
                assert(c4v.skip(k7 as int)[0] == c4v[k7 as int]);
                assert(msv.skip(k7 as int)[0] == msv[k7 as int]);
            }
            if ms[k7].len() == 1 {
                let c = c4[k7];
                let m = ms[k7][0];
                proof {
                    assert(idxview(ms@[k7 as int]@)[0] == ms@[k7 as int]@[0] as int);
                    assert(ms@[k7 as int]@[0] < self.states@.len());
                }
                let st = self.states[m].duplicate();
                return (Ok(Some((c, Some(st)))), cur);
            }
            proof {
                assert(c4v.skip(k7 as int).drop_first() =~= c4v.skip(k7 + 1 as int));
                assert(msv.skip(k7 as int).drop_first() =~= msv.skip(k7 + 1 as int));
            }
            k7 += 1;
        }
        proof {
            assert(c4v.skip(c4@.len() as int) =~= Seq::<int>::empty());
            assert(msv.skip(ms@.len() as int) =~= Seq::<Seq<int>>::empty());
        }
        let mut k8: usize = 0;
        proof {
            assert(c4v.skip(0) =~= c4v);
        }
        while k8 < c4.len()
            invariant
                k8 <= c4@.len(),
                first_stateless(mv, c4v) == first_stateless(mv, c4v.skip(k8 as int)),
            decreases c4@.len() - k8,
        {
            proof {
                lemma_idxview(c4@);
                assert(c4v.skip(k8 as int)[0] == c4v[k8 as int]);
            }
            let c = c4[k8];
            let is_stateless = match &self.mocks[c].state {
                None => true,
                Some(_) => false,
            };
            if is_stateless {
                return (Ok(Some((c, None))), cur);
            }
            proof {
                assert(c4v.skip(k8 as int).drop_first() =~= c4v.skip(k8 + 1 as int));
            }
            k8 += 1;
        }
        proof {
            assert(c4v.skip(c4@.len() as int) =~= Seq::<int>::empty());
        }
        (Ok(None), cur)
    }
}

} // verus!
