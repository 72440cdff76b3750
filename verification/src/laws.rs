use vstd::prelude::*;
use crate::json::{JVal, wf, jeq};
use crate::optic::{ga, optic_of_path, OStep};
use crate::predicate::{Keyword, pred_holds, kvs_hold};
use crate::resolver::{resolve_spec, ResolveOutcome, ResolveErr, cands1, cands2, cands3, cands4,
    stage5, all_stateless, any_multi, count_nonempty, keep1};
use crate::stub::{StubV, StateV, Scope, HttpMethod, RBV};
use crate::template::{subst_leaf, toks_from, cast_to_string, cast_from_string};
use crate::handler::scopes_spec;

verus! {

/// Law: a template that is one whole substitution token whose path
/// resolves in the data document becomes exactly the first value the
/// path reaches there.
pub proof fn lemma_template_round_trip(s: Seq<char>, data: JVal, rng: u64, p: Seq<char>)
    requires
        toks_from(s, 0) == seq![(0int, s.len() as int, None::<char>, p)],
        ga(data, optic_of_path(p)).len() > 0,
    ensures
        subst_leaf(s, data, rng).0 == ga(data, optic_of_path(p))[0],
        subst_leaf(s, data, rng).1 == rng,
{
}

/// Law: a template that is one whole substitution token whose path
/// reaches nothing in the data document keeps its literal text.
pub proof fn lemma_template_absent_no_op(s: Seq<char>, data: JVal, rng: u64, p: Seq<char>)
    requires
        toks_from(s, 0) == seq![(0int, s.len() as int, None::<char>, p)],
        ga(data, optic_of_path(p)).len() == 0,
    ensures
        subst_leaf(s, data, rng).0 == JVal::Str(s),
        subst_leaf(s, data, rng).1 == rng,
{
}

/// Law: casting a boolean to a string yields its text, and casting that
/// text from a string recovers the boolean.
pub proof fn lemma_cast_identity_bool(b: bool)
    ensures
        cast_to_string(JVal::Bool(b)) == JVal::Str(
            (if b {
                seq!['t', 'r', 'u', 'e']
            } else {
                seq!['f', 'a', 'l', 's', 'e']
            }),
        ),
        cast_from_string(cast_to_string(JVal::Bool(b))) == JVal::Bool(b),
{
    if b {
        assert(seq!['t', 'r', 'u', 'e'].len() == 4);
    } else {
        assert(seq!['f', 'a', 'l', 's', 'e'] != seq!['t', 'r', 'u', 'e']) by {
            assert(seq!['f', 'a', 'l', 's', 'e'].len() == 5);
            assert(seq!['t', 'r', 'u', 'e'].len() == 4);
        }
    }
}

/// Law: a predicate of two entries holds exactly when each entry's
/// constraints hold on their own of what their optics gather.
pub proof fn lemma_predicate_and(
    e1: (Seq<OStep>, Seq<(Keyword, JVal)>),
    e2: (Seq<OStep>, Seq<(Keyword, JVal)>),
    doc: JVal,
)
    ensures
        pred_holds(seq![e1, e2], doc) == (kvs_hold(e1.1, ga(doc, e1.0)) && kvs_hold(
            e2.1,
            ga(doc, e2.0),
        )),
{
    let both = seq![e1, e2];
    assert(both.drop_last() =~= seq![e1]);
    assert(seq![e1].drop_last() =~= Seq::<(Seq<OStep>, Seq<(Keyword, JVal)>)>::empty());
    assert(pred_holds(Seq::<(Seq<OStep>, Seq<(Keyword, JVal)>)>::empty(), doc));
    assert(both.last() == e2);
    assert(seq![e1].last() == e1);
    assert(pred_holds(seq![e1], doc) == kvs_hold(e1.1, ga(doc, e1.0)));
}

/// Law: scope priority. The countdown scope is consulted first and its
/// selection wins; only when it yields nothing is the ephemeral scope
/// consulted, and only then the persistent one.
pub proof fn lemma_scope_priority(
    mocks: Seq<StubV>,
    times: Seq<Option<int>>,
    states: Seq<StateV>,
    method: HttpMethod,
    path: Seq<char>,
    headers: Seq<(Seq<char>, Seq<char>)>,
    query: JVal,
    body: RBV,
    rng: u64,
)
    ensures
        !(resolve_spec(
            mocks,
            times,
            states,
            Scope::Countdown,
            method,
            path,
            headers,
            query,
            body,
            rng,
        ).0 is NoMatch) ==> scopes_spec(
            mocks,
            times,
            states,
            method,
            path,
            headers,
            query,
            body,
            rng,
        ).1 == Scope::Countdown,
        (resolve_spec(
            mocks,
            times,
            states,
            Scope::Countdown,
            method,
            path,
            headers,
            query,
            body,
            rng,
        ).0 is NoMatch && !(resolve_spec(
            mocks,
            times,
            states,
            Scope::Ephemeral,
            method,
            path,
            headers,
            query,
            body,
            resolve_spec(
                mocks,
                times,
                states,
                Scope::Countdown,
                method,
                path,
                headers,
                query,
                body,
                rng,
            ).1,
        ).0 is NoMatch)) ==> scopes_spec(
            mocks,
            times,
            states,
            method,
            path,
            headers,
            query,
            body,
            rng,
        ).1 == Scope::Ephemeral,
{
}

/// Law: countdown eligibility. Every stub the countdown prefilter keeps
/// has a remaining count, and it is positive; so a countdown stub whose
/// count is exhausted is never selected, and each selection decrements
/// the count, so a stub with `times = N` resolves at most `N` times.
pub proof fn lemma_countdown_eligibility(
    mocks: Seq<StubV>,
    times: Seq<Option<int>>,
    method: HttpMethod,
    path: Seq<char>,
    j: int,
)
    requires
        times.len() == mocks.len(),
        0 <= j < cands1(mocks, times, Scope::Countdown, method, path).len(),
    ensures
        ({
            let c = cands1(mocks, times, Scope::Countdown, method, path)[j];
            &&& 0 <= c < mocks.len()
            &&& times[c] is Some
            &&& times[c]->0 > 0
        }),
    decreases mocks.len(),
{
    if mocks.len() > 0 {
        let prev = cands1(
            mocks.drop_last(),
            times.drop_last(),
            Scope::Countdown,
            method,
            path,
        );
        if j < prev.len() {
            lemma_countdown_eligibility(mocks.drop_last(), times.drop_last(), method, path, j);
            assert(times.drop_last()[prev[j]] == times[prev[j]]);
        }
    }
}

/// Law: uniqueness fault for stateless stubs. When several candidates
/// survive every filter and all of them are stateless, resolution ends
/// in the stateless-uniqueness fault rather than a selection.
pub proof fn lemma_stateless_uniqueness_fault(
    mocks: Seq<StubV>,
    times: Seq<Option<int>>,
    states: Seq<StateV>,
    method: HttpMethod,
    path: Seq<char>,
    headers: Seq<(Seq<char>, Seq<char>)>,
    query: JVal,
    body: RBV,
    rng: u64,
)
    requires
        ({
            let c4 = cands4(
                mocks,
                cands3(
                    mocks,
                    cands2(mocks, cands1(mocks, times, Scope::Persistent, method, path), query),
                    headers,
                ),
                body,
            );
            c4.len() > 1 && all_stateless(mocks, c4)
        }),
    ensures
        resolve_spec(
            mocks,
            times,
            states,
            Scope::Persistent,
            method,
            path,
            headers,
            query,
            body,
            rng,
        ).0 == ResolveOutcome::Fault(ResolveErr::MultiStateless),
{
    let c1 = cands1(mocks, times, Scope::Persistent, method, path);
    let c2 = cands2(mocks, c1, query);
    let c3 = cands3(mocks, c2, headers);
    let c4 = cands4(mocks, c3, body);
    lemma_stateless_stage5_empty(mocks, c4, states, path, query, headers, body, rng);
    let ms = stage5(mocks, c4, states, path, query, headers, body, rng).0;
    lemma_all_empty_counts(ms);
}

/// Stateless candidates gather no state matches.
proof fn lemma_stateless_stage5_empty(
    mocks: Seq<StubV>,
    cands: Seq<int>,
    states: Seq<StateV>,
    path: Seq<char>,
    query: JVal,
    headers: Seq<(Seq<char>, Seq<char>)>,
    body: RBV,
    rng: u64,
)
    requires
        all_stateless(mocks, cands),
    ensures
        crate::resolver::all_empty(stage5(mocks, cands, states, path, query, headers, body, rng).0),
        stage5(mocks, cands, states, path, query, headers, body, rng).0.len() == cands.len(),
    decreases cands,
{
    if cands.len() > 0 {
        lemma_stateless_stage5_empty(
            mocks,
            cands.drop_last(),
            states,
            path,
            query,
            headers,
            body,
            rng,
        );
        let out = stage5(mocks, cands, states, path, query, headers, body, rng).0;
        assert(out.drop_last() =~= stage5(
            mocks,
            cands.drop_last(),
            states,
            path,
            query,
            headers,
            body,
            rng,
        ).0);
    }
}

/// Lists of empty match lists show no multiplicity and no matches.
proof fn lemma_all_empty_counts(ms: Seq<Seq<int>>)
    requires
        crate::resolver::all_empty(ms),
    ensures
        !any_multi(ms),
        count_nonempty(ms) == 0,
    decreases ms,
{
    if ms.len() > 0 {
        lemma_all_empty_counts(ms.drop_last());
    }
}

} // verus!
