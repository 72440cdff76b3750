use vstd::prelude::*;
use crate::error::Error;
use crate::json::{JsonValue, JVal, jv, jv_seq, lemma_jv_seq, wf, wf_seq, wf_fields, jeq, nums_eq,
    nums_lt, num_cmp, JsonNum, lemma_wf_seq_elem, lemma_obj_lookup_wf, obj_lookup, distinct_keys};
use crate::jsontext::render_text;
use crate::optic::{JsonOptic, OStep, ga, ga_all};
use crate::rx::{CompiledRegex, regex_match, regex_valid};
use crate::strutil::{lex_lt, lex_cmp, str_to_chars, str_eq};

verus! {

/// A predicate operator of the specification language.
#[derive(Clone, Copy, Debug, PartialEq, Eq, Structural)]
pub enum Keyword {
    Equals,
    NotEq,
    Greater,
    Gte,
    Less,
    Lte,
    Rx,
    Size,
    Exists,
    In,
    NotIn,
    AllIn,
}

/// The operator's text form.
pub open spec fn kw_text(k: Keyword) -> Seq<char> {
    match k {
        Keyword::Equals => seq!['=', '='],
        Keyword::NotEq => seq!['!', '='],
        Keyword::Greater => seq!['>'],
        Keyword::Gte => seq!['>', '='],
        Keyword::Less => seq!['<'],
        Keyword::Lte => seq!['<', '='],
        Keyword::Rx => seq!['~', '='],
        Keyword::Size => seq!['s', 'i', 'z', 'e'],
        Keyword::Exists => seq!['e', 'x', 'i', 's', 't', 's'],
        Keyword::In => seq!['[', '_', ']'],
        Keyword::NotIn => seq!['!', '[', '_', ']'],
        Keyword::AllIn => seq!['&', '[', '_', ']'],
    }
}

impl Keyword {
    /// This operator's text form.
    pub fn text(&self) -> (r: String)
        ensures
            r@ == kw_text(*self),
    {
        let lit: &str = match *self {
            Keyword::Equals => "==",
            Keyword::NotEq => "!=",
            Keyword::Greater => ">",
            Keyword::Gte => ">=",
            Keyword::Less => "<",
            Keyword::Lte => "<=",
            Keyword::Rx => "~=",
            Keyword::Size => "size",
            Keyword::Exists => "exists",
            Keyword::In => "[_]",
            Keyword::NotIn => "![_]",
            Keyword::AllIn => "&[_]",
        };
        proof {
            reveal_strlit("==");
            reveal_strlit("!=");
            reveal_strlit(">");
            reveal_strlit(">=");
            reveal_strlit("<");
            reveal_strlit("<=");
            reveal_strlit("~=");
            reveal_strlit("size");
            reveal_strlit("exists");
            reveal_strlit("[_]");
            reveal_strlit("![_]");
            reveal_strlit("&[_]");
        }
        String::from_str(lit)
    }

    /// The operator a text denotes, if any.
    pub fn from_text(s: &str) -> (r: Option<Keyword>)
        ensures
            match r {
                Some(k) => kw_text(k) == s@,
                None => forall|k: Keyword| kw_text(k) != s@,
            },
    {
        proof {
            reveal_strlit("==");
            reveal_strlit("!=");
            reveal_strlit(">");
            reveal_strlit(">=");
            reveal_strlit("<");
            reveal_strlit("<=");
            reveal_strlit("~=");
            reveal_strlit("size");
            reveal_strlit("exists");
            reveal_strlit("[_]");
            reveal_strlit("![_]");
            reveal_strlit("&[_]");
        }
        proof {
            assert("=="@ =~= seq!['=', '=']);
            assert("!="@ =~= seq!['!', '=']);
            assert(">"@ =~= seq!['>']);
            assert(">="@ =~= seq!['>', '=']);
            assert("<"@ =~= seq!['<']);
            assert("<="@ =~= seq!['<', '=']);
            assert("~="@ =~= seq!['~', '=']);
            assert("size"@ =~= seq!['s', 'i', 'z', 'e']);
            assert("exists"@ =~= seq!['e', 'x', 'i', 's', 't', 's']);
            assert("[_]"@ =~= seq!['[', '_', ']']);
            assert("![_]"@ =~= seq!['!', '[', '_', ']']);
            assert("&[_]"@ =~= seq!['&', '[', '_', ']']);
        }
        if str_eq(s, "==") {
            Some(Keyword::Equals)
        } else if str_eq(s, "!=") {
            Some(Keyword::NotEq)
        } else if str_eq(s, ">") {
            Some(Keyword::Greater)
        } else if str_eq(s, ">=") {
            Some(Keyword::Gte)
        } else if str_eq(s, "<") {
            Some(Keyword::Less)
        } else if str_eq(s, "<=") {
            Some(Keyword::Lte)
        } else if str_eq(s, "~=") {
            Some(Keyword::Rx)
        } else if str_eq(s, "size") {
            Some(Keyword::Size)
        } else if str_eq(s, "exists") {
            Some(Keyword::Exists)
        } else if str_eq(s, "[_]") {
            Some(Keyword::In)
        } else if str_eq(s, "![_]") {
            Some(Keyword::NotIn)
        } else if str_eq(s, "&[_]") {
            Some(Keyword::AllIn)
        } else {
            proof {
                assert forall|k: Keyword| kw_text(k) != s@ by {
                    match k {
                        Keyword::Equals => {},
                        Keyword::NotEq => {},
                        Keyword::Greater => {},
                        Keyword::Gte => {},
                        Keyword::Less => {},
                        Keyword::Lte => {},
                        Keyword::Rx => {},
                        Keyword::Size => {},
                        Keyword::Exists => {},
                        Keyword::In => {},
                        Keyword::NotIn => {},
                        Keyword::AllIn => {},
                    }
                }
            }
            None
        }
    }
}

/// A compiled predicate: for each optic, the constraints its sub-values
/// must satisfy.
#[derive(Debug)]
pub struct JsonPredicate {
    pub entries: Vec<(JsonOptic, Vec<(Keyword, JsonValue)>)>,
}

pub open spec fn kv_view(s: Seq<(Keyword, JsonValue)>) -> Seq<(Keyword, JVal)>
    decreases s,
{
    if s.len() == 0 {
        Seq::empty()
    } else {
        kv_view(s.drop_last()).push((s.last().0, jv(s.last().1)))
    }
}

pub open spec fn entries_view(s: Seq<(JsonOptic, Vec<(Keyword, JsonValue)>)>) -> Seq<
    (Seq<OStep>, Seq<(Keyword, JVal)>),
>
    decreases s,
{
    if s.len() == 0 {
        Seq::empty()
    } else {
        entries_view(s.drop_last()).push((s.last().0@, kv_view(s.last().1@)))
    }
}

impl View for JsonPredicate {
    type V = Seq<(Seq<OStep>, Seq<(Keyword, JVal)>)>;

    open spec fn view(&self) -> Seq<(Seq<OStep>, Seq<(Keyword, JVal)>)> {
        entries_view(self.entries@)
    }
}

pub broadcast proof fn lemma_kv_view(s: Seq<(Keyword, JsonValue)>)
    ensures
        (#[trigger] kv_view(s)).len() == s.len(),
        forall|i: int| 0 <= i < s.len() ==> kv_view(s)[i] == (s[i].0, jv(s[i].1)),
    decreases s.len(),
{
    if s.len() > 0 {
        lemma_kv_view(s.drop_last());
    }
}

pub broadcast proof fn lemma_entries_view(s: Seq<(JsonOptic, Vec<(Keyword, JsonValue)>)>)
    ensures
        (#[trigger] entries_view(s)).len() == s.len(),
        forall|i: int|
            0 <= i < s.len() ==> entries_view(s)[i] == (s[i].0@, kv_view(s[i].1@)),
    decreases s.len(),
{
    if s.len() > 0 {
        lemma_entries_view(s.drop_last());
    }
}

/// Whether the operand is malformed for the operator: a regex operator
/// wants a valid pattern, `size` a number, `exists` a boolean, the
/// membership operators an array.
pub open spec fn kw_malformed(k: Keyword, operand: JVal) -> bool {
    match k {
        Keyword::Rx => match operand {
            JVal::Str(p) => !regex_valid(p),
            _ => true,
        },
        Keyword::Size => !(operand is Num),
        Keyword::Exists => !(operand is Bool),
        Keyword::In => !(operand is Arr),
        Keyword::NotIn => !(operand is Arr),
        Keyword::AllIn => !(operand is Arr),
        _ => false,
    }
}

/// Some element is deeply equal to the operand.
pub open spec fn any_eq(sub: Seq<JVal>, operand: JVal) -> bool
    decreases sub.len(),
{
    if sub.len() == 0 {
        false
    } else {
        any_eq(sub.drop_last(), operand) || jeq(sub.last(), operand)
    }
}

/// Same-kind order between an element and the operand: numbers compare
/// numerically, strings lexicographically by code point; anything else
/// does not stand in the order.
pub open spec fn ord_holds(k: Keyword, a: JVal, b: JVal) -> bool {
    match (a, b) {
        (JVal::Num(m1, s1), JVal::Num(m2, s2)) => match k {
            Keyword::Less => nums_lt(m1, s1, m2, s2),
            Keyword::Lte => !nums_lt(m2, s2, m1, s1),
            Keyword::Greater => nums_lt(m2, s2, m1, s1),
            Keyword::Gte => !nums_lt(m1, s1, m2, s2),
            _ => false,
        },
        (JVal::Str(x), JVal::Str(y)) => match k {
            Keyword::Less => lex_lt(x, y),
            Keyword::Lte => !lex_lt(y, x),
            Keyword::Greater => lex_lt(y, x),
            Keyword::Gte => !lex_lt(x, y),
            _ => false,
        },
        _ => false,
    }
}

/// Some element stands in the order against the operand.
pub open spec fn any_ord(k: Keyword, sub: Seq<JVal>, operand: JVal) -> bool
    decreases sub.len(),
{
    if sub.len() == 0 {
        false
    } else {
        any_ord(k, sub.drop_last(), operand) || ord_holds(k, sub.last(), operand)
    }
}

/// Some element's display text matches the pattern.
pub open spec fn any_rx(sub: Seq<JVal>, pattern: Seq<char>) -> bool
    decreases sub.len(),
{
    if sub.len() == 0 {
        false
    } else {
        any_rx(sub.drop_last(), pattern) || regex_match(pattern, render_text(sub.last()))
    }
}

/// Some element is an array whose length equals the operand number.
pub open spec fn any_size(sub: Seq<JVal>, m: int, sc: nat) -> bool
    decreases sub.len(),
{
    if sub.len() == 0 {
        false
    } else {
        any_size(sub.drop_last(), m, sc) || match sub.last() {
            JVal::Arr(items) => nums_eq(items.len() as int, 0, m, sc),
            _ => false,
        }
    }
}

/// The value is deeply equal to some member of the list.
pub open spec fn any_member(x: JVal, arr: Seq<JVal>) -> bool
    decreases arr.len(),
{
    if arr.len() == 0 {
        false
    } else {
        any_member(x, arr.drop_last()) || jeq(arr.last(), x)
    }
}

/// Some element is deeply equal to some member of the operand list.
pub open spec fn any_in(sub: Seq<JVal>, arr: Seq<JVal>) -> bool
    decreases sub.len(),
{
    if sub.len() == 0 {
        false
    } else {
        any_in(sub.drop_last(), arr) || any_member(sub.last(), arr)
    }
}

/// Every member of the operand list is deeply equal to some member of
/// the element list.
pub open spec fn all_members(arr: Seq<JVal>, items: Seq<JVal>) -> bool
    decreases arr.len(),
{
    if arr.len() == 0 {
        true
    } else {
        all_members(arr.drop_last(), items) && any_member(arr.last(), items)
    }
}

/// Some element is an array holding every member of the operand list.
pub open spec fn any_allin(sub: Seq<JVal>, arr: Seq<JVal>) -> bool
    decreases sub.len(),
{
    if sub.len() == 0 {
        false
    } else {
        any_allin(sub.drop_last(), arr) || match sub.last() {
            JVal::Arr(items) => all_members(arr, items),
            _ => false,
        }
    }
}

/// The operator's meaning over the gathered sub-values.
pub open spec fn kw_holds(k: Keyword, sub: Seq<JVal>, operand: JVal) -> bool {
    match k {
        Keyword::Equals => any_eq(sub, operand),
        Keyword::NotEq => !any_eq(sub, operand),
        Keyword::Less => any_ord(k, sub, operand),
        Keyword::Lte => any_ord(k, sub, operand),
        Keyword::Greater => any_ord(k, sub, operand),
        Keyword::Gte => any_ord(k, sub, operand),
        Keyword::Rx => match operand {
            JVal::Str(p) => any_rx(sub, p),
            _ => false,
        },
        Keyword::Size => match operand {
            JVal::Num(m, sc) => any_size(sub, m, sc),
            _ => false,
        },
        Keyword::Exists => match operand {
            JVal::Bool(b) => (sub.len() != 0) == b,
            _ => false,
        },
        Keyword::In => match operand {
            JVal::Arr(a) => any_in(sub, a),
            _ => false,
        },
        Keyword::NotIn => match operand {
            JVal::Arr(a) => !any_in(sub, a),
            _ => false,
        },
        Keyword::AllIn => match operand {
            JVal::Arr(a) => any_allin(sub, a),
            _ => false,
        },
    }
}

/// Some constraint of the list carries a malformed operand.
pub open spec fn kvs_malformed(kvs: Seq<(Keyword, JVal)>) -> bool
    decreases kvs.len(),
{
    if kvs.len() == 0 {
        false
    } else {
        kvs_malformed(kvs.drop_last()) || kw_malformed(kvs.last().0, kvs.last().1)
    }
}

/// Some entry of the predicate carries a malformed operand.
pub open spec fn pred_malformed(entries: Seq<(Seq<OStep>, Seq<(Keyword, JVal)>)>) -> bool
    decreases entries.len(),
{
    if entries.len() == 0 {
        false
    } else {
        pred_malformed(entries.drop_last()) || kvs_malformed(entries.last().1)
    }
}

/// The gathered sub-values satisfy every constraint of the list.
pub open spec fn kvs_hold(kvs: Seq<(Keyword, JVal)>, sub: Seq<JVal>) -> bool
    decreases kvs.len(),
{
    if kvs.len() == 0 {
        true
    } else {
        kvs_hold(kvs.drop_last(), sub) && kw_holds(kvs.last().0, sub, kvs.last().1)
    }
}

/// The document satisfies every entry of the predicate.
pub open spec fn pred_holds(entries: Seq<(Seq<OStep>, Seq<(Keyword, JVal)>)>, doc: JVal) -> bool
    decreases entries.len(),
{
    if entries.len() == 0 {
        true
    } else {
        pred_holds(entries.drop_last(), doc) && kvs_hold(entries.last().1, ga(doc, entries.last().0))
    }
}

/// Every operand of the constraint list is well formed.
pub open spec fn kvs_wf(kvs: Seq<(Keyword, JVal)>) -> bool
    decreases kvs.len(),
{
    if kvs.len() == 0 {
        true
    } else {
        kvs_wf(kvs.drop_last()) && wf(kvs.last().1)
    }
}

/// Every operand of the predicate is well formed.
pub open spec fn pred_wf(entries: Seq<(Seq<OStep>, Seq<(Keyword, JVal)>)>) -> bool
    decreases entries.len(),
{
    if entries.len() == 0 {
        true
    } else {
        pred_wf(entries.drop_last()) && kvs_wf(entries.last().1)
    }
}

pub proof fn lemma_kvs_wf_elem(kvs: Seq<(Keyword, JVal)>, i: int)
    requires
        kvs_wf(kvs),
        0 <= i < kvs.len(),
    ensures
        wf(kvs[i].1),
    decreases kvs.len(),
{
    if i < kvs.len() - 1 {
        lemma_kvs_wf_elem(kvs.drop_last(), i);
    }
}

pub proof fn lemma_pred_wf_elem(entries: Seq<(Seq<OStep>, Seq<(Keyword, JVal)>)>, i: int)
    requires
        pred_wf(entries),
        0 <= i < entries.len(),
    ensures
        kvs_wf(entries[i].1),
    decreases entries.len(),
{
    if i < entries.len() - 1 {
        lemma_pred_wf_elem(entries.drop_last(), i);
    }
}

/// Whatever the optic gathers from a well-formed document is well formed.
pub proof fn lemma_ga_wf(v: JVal, steps: Seq<OStep>)
    requires
        wf(v),
    ensures
        wf_seq(ga(v, steps)),
    decreases steps.len(), v,
{
    if steps.len() == 0 {
        assert(seq![v].drop_last() =~= Seq::<JVal>::empty());
        assert(wf_seq(Seq::<JVal>::empty()));
        assert(seq![v].last() == v);
        assert(wf_seq(seq![v]));
        assert(ga(v, steps) == seq![v]);
    } else {
        match (v, steps.first()) {
            (JVal::Obj(fields), OStep::Field(n)) => {
                if obj_lookup(fields, n) is Some {
                    lemma_obj_lookup_wf(fields, n);
                    lemma_ga_wf(obj_lookup(fields, n)->0, steps.drop_first());
                }
            },
            (JVal::Arr(items), OStep::Index(i)) => {
                if 0 <= i < items.len() {
                    lemma_wf_seq_elem(items, i);
                    lemma_ga_wf(items[i], steps.drop_first());
                }
            },
            (JVal::Arr(items), OStep::Field(_)) => {
                lemma_ga_all_wf(items, steps);
            },
            _ => {},
        }
    }
}

pub proof fn lemma_ga_all_wf(items: Seq<JVal>, steps: Seq<OStep>)
    requires
        wf_seq(items),
        steps.len() > 0,
    ensures
        wf_seq(ga_all(items, steps)),
    decreases steps.len(), items,
{
    if items.len() > 0 {
        lemma_ga_all_wf(items.drop_last(), steps);
        lemma_ga_wf(items.last(), steps);
        lemma_wf_seq_concat(ga_all(items.drop_last(), steps), ga(items.last(), steps));
    }
}

/// Concatenating well-formed lists yields a well-formed list.
pub proof fn lemma_wf_seq_concat(a: Seq<JVal>, b: Seq<JVal>)
    requires
        wf_seq(a),
        wf_seq(b),
    ensures
        wf_seq(a + b),
    decreases b.len(),
{
    if b.len() == 0 {
        assert(a + b =~= a);
    } else {
        lemma_wf_seq_concat(a, b.drop_last());
        assert((a + b).drop_last() =~= a + b.drop_last());
        assert((a + b).last() == b.last());
    }
}

pub proof fn lemma_any_eq_mono(sub: Seq<JVal>, operand: JVal, k: int)
    requires
        0 <= k <= sub.len(),
        any_eq(sub.take(k), operand),
    ensures
        any_eq(sub, operand),
    decreases sub.len(),
{
    if k == sub.len() {
        assert(sub.take(k) =~= sub);
    } else {
        assert(sub.drop_last().take(k) =~= sub.take(k));
        lemma_any_eq_mono(sub.drop_last(), operand, k);
    }
}

pub proof fn lemma_any_ord_mono(kw: Keyword, sub: Seq<JVal>, operand: JVal, k: int)
    requires
        0 <= k <= sub.len(),
        any_ord(kw, sub.take(k), operand),
    ensures
        any_ord(kw, sub, operand),
    decreases sub.len(),
{
    if k == sub.len() {
        assert(sub.take(k) =~= sub);
    } else {
        assert(sub.drop_last().take(k) =~= sub.take(k));
        lemma_any_ord_mono(kw, sub.drop_last(), operand, k);
    }
}

pub proof fn lemma_any_rx_mono(sub: Seq<JVal>, pattern: Seq<char>, k: int)
    requires
        0 <= k <= sub.len(),
        any_rx(sub.take(k), pattern),
    ensures
        any_rx(sub, pattern),
    decreases sub.len(),
{
    if k == sub.len() {
        assert(sub.take(k) =~= sub);
    } else {
        assert(sub.drop_last().take(k) =~= sub.take(k));
        lemma_any_rx_mono(sub.drop_last(), pattern, k);
    }
}

pub proof fn lemma_any_size_mono(sub: Seq<JVal>, m: int, sc: nat, k: int)
    requires
        0 <= k <= sub.len(),
        any_size(sub.take(k), m, sc),
    ensures
        any_size(sub, m, sc),
    decreases sub.len(),
{
    if k == sub.len() {
        assert(sub.take(k) =~= sub);
    } else {
        assert(sub.drop_last().take(k) =~= sub.take(k));
        lemma_any_size_mono(sub.drop_last(), m, sc, k);
    }
}

pub proof fn lemma_any_member_mono(x: JVal, arr: Seq<JVal>, k: int)
    requires
        0 <= k <= arr.len(),
        any_member(x, arr.take(k)),
    ensures
        any_member(x, arr),
    decreases arr.len(),
{
    if k == arr.len() {
        assert(arr.take(k) =~= arr);
    } else {
        assert(arr.drop_last().take(k) =~= arr.take(k));
        lemma_any_member_mono(x, arr.drop_last(), k);
    }
}

pub proof fn lemma_any_in_mono(sub: Seq<JVal>, arr: Seq<JVal>, k: int)
    requires
        0 <= k <= sub.len(),
        any_in(sub.take(k), arr),
    ensures
        any_in(sub, arr),
    decreases sub.len(),
{
    if k == sub.len() {
        assert(sub.take(k) =~= sub);
    } else {
        assert(sub.drop_last().take(k) =~= sub.take(k));
        lemma_any_in_mono(sub.drop_last(), arr, k);
    }
}

pub proof fn lemma_any_allin_mono(sub: Seq<JVal>, arr: Seq<JVal>, k: int)
    requires
        0 <= k <= sub.len(),
        any_allin(sub.take(k), arr),
    ensures
        any_allin(sub, arr),
    decreases sub.len(),
{
    if k == sub.len() {
        assert(sub.take(k) =~= sub);
    } else {
        assert(sub.drop_last().take(k) =~= sub.take(k));
        lemma_any_allin_mono(sub.drop_last(), arr, k);
    }
}

pub proof fn lemma_all_members_index(arr: Seq<JVal>, items: Seq<JVal>, i: int)
    requires
        all_members(arr, items),
        0 <= i < arr.len(),
    ensures
        any_member(arr[i], items),
    decreases arr.len(),
{
    if i < arr.len() - 1 {
        lemma_all_members_index(arr.drop_last(), items, i);
    }
}

pub proof fn lemma_kvs_malformed_mono(kvs: Seq<(Keyword, JVal)>, k: int)
    requires
        0 <= k <= kvs.len(),
        kvs_malformed(kvs.take(k)),
    ensures
        kvs_malformed(kvs),
    decreases kvs.len(),
{
    if k == kvs.len() {
        assert(kvs.take(k) =~= kvs);
    } else {
        assert(kvs.drop_last().take(k) =~= kvs.take(k));
        lemma_kvs_malformed_mono(kvs.drop_last(), k);
    }
}

pub proof fn lemma_pred_malformed_mono(
    entries: Seq<(Seq<OStep>, Seq<(Keyword, JVal)>)>,
    k: int,
)
    requires
        0 <= k <= entries.len(),
        pred_malformed(entries.take(k)),
    ensures
        pred_malformed(entries),
    decreases entries.len(),
{
    if k == entries.len() {
        assert(entries.take(k) =~= entries);
    } else {
        assert(entries.drop_last().take(k) =~= entries.take(k));
        lemma_pred_malformed_mono(entries.drop_last(), k);
    }
}

pub proof fn lemma_kvs_not_malformed_index(kvs: Seq<(Keyword, JVal)>, i: int)
    requires
        !kvs_malformed(kvs),
        0 <= i < kvs.len(),
    ensures
        !kw_malformed(kvs[i].0, kvs[i].1),
    decreases kvs.len(),
{
    if i < kvs.len() - 1 {
        lemma_kvs_not_malformed_index(kvs.drop_last(), i);
    }
}

pub proof fn lemma_pred_not_malformed_index(
    entries: Seq<(Seq<OStep>, Seq<(Keyword, JVal)>)>,
    i: int,
)
    requires
        !pred_malformed(entries),
        0 <= i < entries.len(),
    ensures
        !kvs_malformed(entries[i].1),
    decreases entries.len(),
{
    if i < entries.len() - 1 {
        lemma_pred_not_malformed_index(entries.drop_last(), i);
    }
}

pub proof fn lemma_kvs_hold_index(kvs: Seq<(Keyword, JVal)>, sub: Seq<JVal>, i: int)
    requires
        kvs_hold(kvs, sub),
        0 <= i < kvs.len(),
    ensures
        kw_holds(kvs[i].0, sub, kvs[i].1),
    decreases kvs.len(),
{
    if i < kvs.len() - 1 {
        lemma_kvs_hold_index(kvs.drop_last(), sub, i);
    }
}

pub proof fn lemma_pred_holds_index(
    entries: Seq<(Seq<OStep>, Seq<(Keyword, JVal)>)>,
    doc: JVal,
    i: int,
)
    requires
        pred_holds(entries, doc),
        0 <= i < entries.len(),
    ensures
        kvs_hold(entries[i].1, ga(doc, entries[i].0)),
    decreases entries.len(),
{
    if i < entries.len() - 1 {
        lemma_pred_holds_index(entries.drop_last(), doc, i);
    }
}

#[verifier::loop_isolation(false)]
fn eval_eq(sub: &Vec<JsonValue>, operand: &JsonValue) -> (r: bool)
    requires
        wf_seq(jv_seq(sub@)),
        wf(operand@),
    ensures
        r == any_eq(jv_seq(sub@), operand@),
{
    proof {
        lemma_jv_seq(sub@);
    }
    let ghost sv = jv_seq(sub@);
    let mut k: usize = 0;
    while k < sub.len()
        invariant
            k <= sub@.len(),
            !any_eq(sv.take(k as int), operand@),
        decreases sub@.len() - k,
    {
        proof {
            lemma_wf_seq_elem(sv, k as int);
            assert(sv.take(k + 1 as int).drop_last() =~= sv.take(k as int));
            assert(sv.take(k + 1 as int).last() == sv[k as int]);
        }
        if sub[k].deep_eq(operand) {
            proof {
                lemma_any_eq_mono(sv, operand@, k + 1);
            }
            return true;
        }
        k += 1;
    }
    proof {
        assert(sv.take(sub@.len() as int) =~= sv);
    }
    false
}

#[verifier::loop_isolation(false)]
fn eval_ord(kw: Keyword, sub: &Vec<JsonValue>, operand: &JsonValue) -> (r: bool)
    requires
        wf_seq(jv_seq(sub@)),
        wf(operand@),
    ensures
        r == any_ord(kw, jv_seq(sub@), operand@),
{
    proof {
        lemma_jv_seq(sub@);
    }
    let ghost sv = jv_seq(sub@);
    let mut k: usize = 0;
    while k < sub.len()
        invariant
            k <= sub@.len(),
            !any_ord(kw, sv.take(k as int), operand@),
        decreases sub@.len() - k,
    {
        proof {
            lemma_wf_seq_elem(sv, k as int);
            assert(sv.take(k + 1 as int).drop_last() =~= sv.take(k as int));
            assert(sv.take(k + 1 as int).last() == sv[k as int]);
        }
        let hit: bool = match (&sub[k], operand) {
            (JsonValue::Num(a), JsonValue::Num(b)) => {
                let c = num_cmp(a, b);
                match kw {
                    Keyword::Less => c < 0,
                    Keyword::Lte => c <= 0,
                    Keyword::Greater => c > 0,
                    Keyword::Gte => c >= 0,
                    _ => false,
                }
            },
            (JsonValue::Str(a), JsonValue::Str(b)) => {
                let ac = str_to_chars(a.as_str());
                let bc = str_to_chars(b.as_str());
                let c = lex_cmp(&ac, &bc);
                match kw {
                    Keyword::Less => c < 0,
                    Keyword::Lte => c <= 0,
                    Keyword::Greater => c > 0,
                    Keyword::Gte => c >= 0,
                    _ => false,
                }
            },
            _ => false,
        };
        if hit {
            proof {
                lemma_any_ord_mono(kw, sv, operand@, k + 1);
            }
            return true;
        }
        k += 1;
    }
    proof {
        assert(sv.take(sub@.len() as int) =~= sv);
    }
    false
}

#[verifier::loop_isolation(false)]
fn eval_rx(sub: &Vec<JsonValue>, re: &CompiledRegex) -> (r: bool)
    requires
        wf_seq(jv_seq(sub@)),
    ensures
        r == any_rx(jv_seq(sub@), re.pattern@),
{
    proof {
        lemma_jv_seq(sub@);
    }
    let ghost sv = jv_seq(sub@);
    let mut k: usize = 0;
    while k < sub.len()
        invariant
            k <= sub@.len(),
            !any_rx(sv.take(k as int), re.pattern@),
        decreases sub@.len() - k,
    {
        proof {
            lemma_wf_seq_elem(sv, k as int);
            assert(sv.take(k + 1 as int).drop_last() =~= sv.take(k as int));
            assert(sv.take(k + 1 as int).last() == sv[k as int]);
        }
        let text = sub[k].render();
        if re.is_match(text.as_str()) {
            proof {
                lemma_any_rx_mono(sv, re.pattern@, k + 1);
            }
            return true;
        }
        k += 1;
    }
    proof {
        assert(sv.take(sub@.len() as int) =~= sv);
    }
    false
}

#[verifier::loop_isolation(false)]
fn eval_size(sub: &Vec<JsonValue>, num: &JsonNum) -> (r: bool)
    requires
        wf_seq(jv_seq(sub@)),
        num.scale <= 18,
    ensures
        r == any_size(jv_seq(sub@), num.mant as int, num.scale as nat),
{
    proof {
        lemma_jv_seq(sub@);
    }
    let ghost sv = jv_seq(sub@);
    let mut k: usize = 0;
    while k < sub.len()
        invariant
            k <= sub@.len(),
            !any_size(sv.take(k as int), num.mant as int, num.scale as nat),
        decreases sub@.len() - k,
    {
        proof {
            lemma_wf_seq_elem(sv, k as int);
            lemma_jv_seq(sub@);
            assert(sv.take(k + 1 as int).drop_last() =~= sv.take(k as int));
            assert(sv.take(k + 1 as int).last() == sv[k as int]);
        }
        let hit: bool = match &sub[k] {
            JsonValue::Arr(items) => {
                proof {
                    crate::json::lemma_jv_seq(items@);
                }
                if items.len() as u64 <= i64::MAX as u64 {
                    let ln = JsonNum { mant: items.len() as i64, scale: 0 };
                    num_cmp(&ln, num) == 0
                } else {
                    proof {
                        crate::jsontext::lemma_pow10_pos(num.scale as nat);
                        let sl = jv_seq(items@).len() as int;
                        assert(sl == items@.len() as int);
                        assert(sl * crate::json::pow10(num.scale as nat) >= sl) by (nonlinear_arith)
                            requires
                                sl >= 0,
                                crate::json::pow10(num.scale as nat) >= 1,
                        {}
                        assert(crate::json::pow10(0) == 1);
                        assert((num.mant as int) * crate::json::pow10(0) == num.mant as int);
                        assert(sl > i64::MAX as int);
                        assert(!nums_eq(sl, 0, num.mant as int, num.scale as nat));
                    }
                    false
                }
            },
            _ => false,
        };
        if hit {
            proof {
                lemma_any_size_mono(sv, num.mant as int, num.scale as nat, k + 1);
            }
            return true;
        }
        k += 1;
    }
    proof {
        assert(sv.take(sub@.len() as int) =~= sv);
    }
    false
}

#[verifier::loop_isolation(false)]
fn eval_member(x: &JsonValue, arr: &Vec<JsonValue>) -> (r: bool)
    requires
        wf(x@),
        wf_seq(jv_seq(arr@)),
    ensures
        r == any_member(x@, jv_seq(arr@)),
{
    proof {
        lemma_jv_seq(arr@);
    }
    let ghost av = jv_seq(arr@);
    let mut k: usize = 0;
    while k < arr.len()
        invariant
            k <= arr@.len(),
            !any_member(x@, av.take(k as int)),
        decreases arr@.len() - k,
    {
        proof {
            lemma_wf_seq_elem(av, k as int);
            assert(av.take(k + 1 as int).drop_last() =~= av.take(k as int));
            assert(av.take(k + 1 as int).last() == av[k as int]);
        }
        if arr[k].deep_eq(x) {
            proof {
                lemma_any_member_mono(x@, av, k + 1);
            }
            return true;
        }
        k += 1;
    }
    proof {
        assert(av.take(arr@.len() as int) =~= av);
    }
    false
}

#[verifier::loop_isolation(false)]
fn eval_in(sub: &Vec<JsonValue>, arr: &Vec<JsonValue>) -> (r: bool)
    requires
        wf_seq(jv_seq(sub@)),
        wf_seq(jv_seq(arr@)),
    ensures
        r == any_in(jv_seq(sub@), jv_seq(arr@)),
{
    proof {
        lemma_jv_seq(sub@);
    }
    let ghost sv = jv_seq(sub@);
    let mut k: usize = 0;
    while k < sub.len()
        invariant
            k <= sub@.len(),
            !any_in(sv.take(k as int), jv_seq(arr@)),
        decreases sub@.len() - k,
    {
        proof {
            lemma_wf_seq_elem(sv, k as int);
            assert(sv.take(k + 1 as int).drop_last() =~= sv.take(k as int));
            assert(sv.take(k + 1 as int).last() == sv[k as int]);
        }
        if eval_member(&sub[k], arr) {
            proof {
                lemma_any_in_mono(sv, jv_seq(arr@), k + 1);
            }
            return true;
        }
        k += 1;
    }
    proof {
        assert(sv.take(sub@.len() as int) =~= sv);
    }
    false
}

#[verifier::loop_isolation(false)]
fn eval_all_members(arr: &Vec<JsonValue>, items: &Vec<JsonValue>) -> (r: bool)
    requires
        wf_seq(jv_seq(arr@)),
        wf_seq(jv_seq(items@)),
    ensures
        r == all_members(jv_seq(arr@), jv_seq(items@)),
{
    proof {
        lemma_jv_seq(arr@);
    }
    let ghost av = jv_seq(arr@);
    let mut k: usize = 0;
    while k < arr.len()
        invariant
            k <= arr@.len(),
            all_members(av.take(k as int), jv_seq(items@)),
        decreases arr@.len() - k,
    {
        proof {
            lemma_wf_seq_elem(av, k as int);
            assert(av.take(k + 1 as int).drop_last() =~= av.take(k as int));
            assert(av.take(k + 1 as int).last() == av[k as int]);
        }
        if !eval_member(&arr[k], items) {
            proof {
                if all_members(av, jv_seq(items@)) {
                    lemma_all_members_index(av, jv_seq(items@), k as int);
                }
            }
            return false;
        }
        k += 1;
    }
    proof {
        assert(av.take(arr@.len() as int) =~= av);
    }
    true
}

#[verifier::loop_isolation(false)]
fn eval_allin(sub: &Vec<JsonValue>, arr: &Vec<JsonValue>) -> (r: bool)
    requires
        wf_seq(jv_seq(sub@)),
        wf_seq(jv_seq(arr@)),
    ensures
        r == any_allin(jv_seq(sub@), jv_seq(arr@)),
{
    proof {
        lemma_jv_seq(sub@);
    }
    let ghost sv = jv_seq(sub@);
    let mut k: usize = 0;
    while k < sub.len()
        invariant
            k <= sub@.len(),
            !any_allin(sv.take(k as int), jv_seq(arr@)),
        decreases sub@.len() - k,
    {
        proof {
            lemma_wf_seq_elem(sv, k as int);
            assert(sv.take(k + 1 as int).drop_last() =~= sv.take(k as int));
            assert(sv.take(k + 1 as int).last() == sv[k as int]);
        }
        let hit: bool = match &sub[k] {
            JsonValue::Arr(items) => {
                proof {
                    crate::json::lemma_jv_seq(items@);
                }
                eval_all_members(arr, items)
            },
            _ => false,
        };
        if hit {
            proof {
                lemma_any_allin_mono(sv, jv_seq(arr@), k + 1);
            }
            return true;
        }
        k += 1;
    }
    proof {
        assert(sv.take(sub@.len() as int) =~= sv);
    }
    false
}

/// Evaluates one constraint over the gathered sub-values.
fn eval_kw(kw: Keyword, sub: &Vec<JsonValue>, operand: &JsonValue) -> (r: bool)
    requires
        wf_seq(jv_seq(sub@)),
        wf(operand@),
        !kw_malformed(kw, operand@),
    ensures
        r == kw_holds(kw, jv_seq(sub@), operand@),
{
    match kw {
        Keyword::Equals => eval_eq(sub, operand),
        Keyword::NotEq => !eval_eq(sub, operand),
        Keyword::Less => eval_ord(kw, sub, operand),
        Keyword::Lte => eval_ord(kw, sub, operand),
        Keyword::Greater => eval_ord(kw, sub, operand),
        Keyword::Gte => eval_ord(kw, sub, operand),
        Keyword::Rx => {
            match operand {
                JsonValue::Str(p) => {
                    match CompiledRegex::compile(p.as_str()) {
                        Some(re) => eval_rx(sub, &re),
                        None => {
                            proof {
                                assert(false);
                            }
                            false
                        },
                    }
                },
                _ => {
                    proof {
                        assert(false);
                    }
                    false
                },
            }
        },
        Keyword::Size => {
            match operand {
                JsonValue::Num(n) => eval_size(sub, n),
                _ => {
                    proof {
                        assert(false);
                    }
                    false
                },
            }
        },
        Keyword::Exists => {
            match operand {
                JsonValue::Bool(b) => (sub.len() != 0) == *b,
                _ => {
                    proof {
                        assert(false);
                    }
                    false
                },
            }
        },
        Keyword::In => {
            match operand {
                JsonValue::Arr(a) => {
                    proof {
                        crate::json::lemma_jv_seq(a@);
                    }
                    eval_in(sub, a)
                },
                _ => {
                    proof {
                        assert(false);
                    }
                    false
                },
            }
        },
        Keyword::NotIn => {
            match operand {
                JsonValue::Arr(a) => {
                    proof {
                        crate::json::lemma_jv_seq(a@);
                    }
                    !eval_in(sub, a)
                },
                _ => {
                    proof {
                        assert(false);
                    }
                    false
                },
            }
        },
        Keyword::AllIn => {
            match operand {
                JsonValue::Arr(a) => {
                    proof {
                        crate::json::lemma_jv_seq(a@);
                    }
                    eval_allin(sub, a)
                },
                _ => {
                    proof {
                        assert(false);
                    }
                    false
                },
            }
        },
    }
}

impl JsonPredicate {
    /// Wraps a list of entries as a predicate.
    pub fn from_spec(entries: Vec<(JsonOptic, Vec<(Keyword, JsonValue)>)>) -> (r: JsonPredicate)
        ensures
            r@ == entries_view(entries@),
    {
        JsonPredicate { entries }
    }

    /// Whether the predicate has no entries.
    pub fn is_empty(&self) -> (r: bool)
        ensures
            r == (self@.len() == 0),
    {
        proof {
            lemma_entries_view(self.entries@);
        }
        self.entries.len() == 0
    }

    /// Validates the document: an error exactly when some operand is
    /// malformed, else whether every entry's constraints hold of the
    /// values its optic gathers.
    #[verifier::loop_isolation(false)]
    #[verifier::rlimit(90)]
    pub fn validate(&self, doc: &JsonValue) -> (r: Result<bool, Error>)
        requires
            wf(doc@),
            pred_wf(self@),
        ensures
            (r is Err) == pred_malformed(self@),
            r is Ok ==> r->Ok_0 == pred_holds(self@, doc@),
    {
        proof {
            lemma_entries_view(self.entries@);
        }
        let ghost ev = entries_view(self.entries@);
        let mut i: usize = 0;
        while i < self.entries.len()
            invariant
                i <= self.entries@.len(),
                !pred_malformed(ev.take(i as int)),
            decreases self.entries@.len() - i,
        {
            proof {
                lemma_kv_view(self.entries@[i as int].1@);
                assert(ev.take(i + 1 as int).drop_last() =~= ev.take(i as int));
                assert(ev.take(i + 1 as int).last() == ev[i as int]);
            }
            let ghost kv = kv_view(self.entries@[i as int].1@);
            let kvs = &self.entries[i].1;
            let mut j: usize = 0;
            while j < kvs.len()
                invariant
                    j <= kvs@.len(),
                    kv == kv_view(kvs@),
                    kv.len() == kvs@.len(),
                    !kvs_malformed(kv.take(j as int)),
                decreases kvs@.len() - j,
            {
                proof {
                    lemma_kv_view(kvs@);
                    assert(kv.take(j + 1 as int).drop_last() =~= kv.take(j as int));
                    assert(kv.take(j + 1 as int).last() == kv[j as int]);
                }
                let bad: bool = match &kvs[j].0 {
                    Keyword::Rx => match &kvs[j].1 {
                        JsonValue::Str(pt) => CompiledRegex::compile(pt.as_str()).is_none(),
                        _ => true,
                    },
                    Keyword::Size => !(matches!(&kvs[j].1, JsonValue::Num(_))),
                    Keyword::Exists => !(matches!(&kvs[j].1, JsonValue::Bool(_))),
                    Keyword::In => !(matches!(&kvs[j].1, JsonValue::Arr(_))),
                    Keyword::NotIn => !(matches!(&kvs[j].1, JsonValue::Arr(_))),
                    Keyword::AllIn => !(matches!(&kvs[j].1, JsonValue::Arr(_))),
                    _ => false,
                };
                if bad {
                    proof {
                        lemma_kvs_malformed_mono(kv, j + 1);
                        lemma_pred_malformed_mono(ev, i + 1);
                    }
                    return Err(
                        Error::new(String::from_str("malformed operand in predicate spec")),
                    );
                }
                j += 1;
            }
            proof {
                assert(kv.take(kvs@.len() as int) =~= kv);
            }
            i += 1;
        }
        proof {
            assert(ev.take(self.entries@.len() as int) =~= ev);
        }
        let mut i2: usize = 0;
        while i2 < self.entries.len()
            invariant
                i2 <= self.entries@.len(),
                !pred_malformed(ev),
                pred_holds(ev.take(i2 as int), doc@),
            decreases self.entries@.len() - i2,
        {
            proof {
                lemma_kv_view(self.entries@[i2 as int].1@);
                lemma_pred_not_malformed_index(ev, i2 as int);
                lemma_pred_wf_elem(ev, i2 as int);
                assert(ev.take(i2 + 1 as int).drop_last() =~= ev.take(i2 as int));
                assert(ev.take(i2 + 1 as int).last() == ev[i2 as int]);
            }
            let ghost kv = kv_view(self.entries@[i2 as int].1@);
            let sub = doc.get_all(&self.entries[i2].0);
            proof {
                lemma_ga_wf(doc@, self.entries@[i2 as int].0@);
            }
            let kvs = &self.entries[i2].1;
            let mut j2: usize = 0;
            while j2 < kvs.len()
                invariant
                    j2 <= kvs@.len(),
                    kv == kv_view(kvs@),
                    kv.len() == kvs@.len(),
                    !kvs_malformed(kv),
                    kvs_wf(kv),
                    wf_seq(jv_seq(sub@)),
                    jv_seq(sub@) == ga(doc@, ev[i2 as int].0),
                    kvs_hold(kv.take(j2 as int), jv_seq(sub@)),
                decreases kvs@.len() - j2,
            {
                proof {
                    lemma_kv_view(kvs@);
                    lemma_kvs_not_malformed_index(kv, j2 as int);
                    lemma_kvs_wf_elem(kv, j2 as int);
                    assert(kv.take(j2 + 1 as int).drop_last() =~= kv.take(j2 as int));
                    assert(kv.take(j2 + 1 as int).last() == kv[j2 as int]);
                }
                let ok = eval_kw(kvs[j2].0, &sub, &kvs[j2].1);
                if !ok {
                    proof {
                        if pred_holds(ev, doc@) {
                            lemma_pred_holds_index(ev, doc@, i2 as int);
                            lemma_kvs_hold_index(kv, jv_seq(sub@), j2 as int);
                        }
                    }
                    return Ok(false);
                }
                j2 += 1;
            }
            proof {
                assert(kv.take(kvs@.len() as int) =~= kv);
            }
            i2 += 1;
        }
        proof {
            assert(ev.take(self.entries@.len() as int) =~= ev);
        }
        Ok(true)
    }
}

} // verus!
