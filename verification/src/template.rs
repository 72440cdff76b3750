use vstd::prelude::*;
use crate::error::Error;
use crate::json::{JsonValue, JVal, jv, jv_seq, jv_fields, lemma_jv_seq, lemma_jv_fields, wf,
    wf_seq, wf_fields, distinct_keys, num_wf, lemma_wf_seq_elem, lemma_wf_fields_elem,
    lemma_obj_lookup_wf, obj_lookup, lemma_distinct_keys_congruent, JsonNum};
use crate::jsontext::{render_text, num_text, p_number, ws_from};
use crate::optic::{JsonOptic, OStep, ga, jset, optic_of_path, obj_set, dup_fields};
use crate::sandbox::{CodeRunner, JsSandbox, run_code, env_wf, seed_fix, lemma_run_code_wf};
use crate::predicate::{JsonPredicate, Keyword, lemma_ga_wf};
use crate::strutil::{is_digit, str_to_chars, chars_to_string};

verus! {

/// Whether the character may stand in a substitution path: letters,
/// digits, `.`, `[`, `]`, `-`, `_`, and anything beyond ASCII.
pub open spec fn is_path_char(c: char) -> bool {
    ('a' <= c && c <= 'z') || ('A' <= c && c <= 'Z') || is_digit(c) || c == '.' || c == '['
        || c == ']' || c == '-' || c == '_' || (c as u32) > 127
}

/// The first position at or after `pos` that is no path character.
pub open spec fn path_end(s: Seq<char>, pos: int) -> int
    decreases s.len() - pos,
{
    if pos < 0 || pos >= s.len() {
        s.len() as int
    } else if is_path_char(s[pos]) {
        path_end(s, pos + 1)
    } else {
        pos
    }
}

pub proof fn lemma_path_end_bounds(s: Seq<char>, pos: int)
    requires
        0 <= pos <= s.len(),
    ensures
        pos <= path_end(s, pos) <= s.len(),
    decreases s.len() - pos,
{
    if pos < s.len() && is_path_char(s[pos]) {
        lemma_path_end_bounds(s, pos + 1);
    }
}

/// The substitution token starting at `i`, if one starts there:
/// `$`, an optional `:` or `~` modifier, and a braced non-empty path.
/// Yields the position after the token, the modifier and the path.
pub open spec fn tok_at(s: Seq<char>, i: int) -> Option<(int, Option<char>, Seq<char>)> {
    if !(0 <= i && i < s.len() && s[i] == '$') {
        None
    } else {
        let has_mod = i + 1 < s.len() && (s[i + 1] == ':' || s[i + 1] == '~');
        let j: int = if has_mod {
            i + 2
        } else {
            i + 1
        };
        let m: Option<char> = if has_mod {
            Some(s[i + 1])
        } else {
            None
        };
        if j < s.len() && s[j] == '{' {
            let k = path_end(s, j + 1);
            if k > j + 1 && k < s.len() && s[k] == '}' {
                Some((k + 1, m, s.subrange(j + 1, k)))
            } else {
                None
            }
        } else {
            None
        }
    }
}

pub proof fn lemma_tok_at_bounds(s: Seq<char>, i: int)
    requires
        tok_at(s, i) is Some,
    ensures
        i + 3 <= (tok_at(s, i)->0).0 <= s.len(),
{
    if 0 <= i && i < s.len() && s[i] == '$' {
        let has_mod = i + 1 < s.len() && (s[i + 1] == ':' || s[i + 1] == '~');
        let j: int = if has_mod {
            i + 2
        } else {
            i + 1
        };
        lemma_path_end_bounds(s, j + 1);
    }
}

/// The first token start at or after `pos`, or the length.
pub open spec fn find_tok(s: Seq<char>, pos: int) -> int
    decreases s.len() - pos,
{
    if pos < 0 || pos >= s.len() {
        s.len() as int
    } else if tok_at(s, pos) is Some {
        pos
    } else {
        find_tok(s, pos + 1)
    }
}

pub proof fn lemma_find_tok_bounds(s: Seq<char>, pos: int)
    requires
        0 <= pos <= s.len(),
    ensures
        pos <= find_tok(s, pos) <= s.len(),
        find_tok(s, pos) < s.len() ==> tok_at(s, find_tok(s, pos)) is Some,
    decreases s.len() - pos,
{
    if pos < s.len() && tok_at(s, pos) is None {
        lemma_find_tok_bounds(s, pos + 1);
    }
}

/// All substitution tokens of the text from `pos` on, leftmost first and
/// non-overlapping: start, end, modifier and path of each.
pub open spec fn toks_from(s: Seq<char>, pos: int) -> Seq<(int, int, Option<char>, Seq<char>)>
    decreases s.len() - pos,
    via toks_from_decreases
{
    if pos < 0 || pos >= s.len() {
        Seq::empty()
    } else {
        let i = find_tok(s, pos);
        if i >= s.len() {
            Seq::empty()
        } else {
            let t = tok_at(s, i)->0;
            seq![(i, t.0, t.1, t.2)] + toks_from(s, t.0)
        }
    }
}

#[via_fn]
proof fn toks_from_decreases(s: Seq<char>, pos: int) {
    if 0 <= pos && pos < s.len() {
        lemma_find_tok_bounds(s, pos);
        let i = find_tok(s, pos);
        if i < s.len() {
            lemma_tok_at_bounds(s, i);
        }
    }
}

/// What one token renders to in string mode: the display text of the
/// first value its path reaches, or the literal path when none.
pub open spec fn tok_repl(path: Seq<char>, data: JVal) -> Seq<char> {
    let vals = ga(data, optic_of_path(path));
    if vals.len() > 0 {
        render_text(vals[0])
    } else {
        path
    }
}

/// The text from `pos` on with every token replaced in string mode.
pub open spec fn subst_text_from(s: Seq<char>, pos: int, data: JVal) -> Seq<char>
    decreases s.len() - pos,
    via subst_text_from_decreases
{
    if pos < 0 || pos > s.len() {
        Seq::empty()
    } else {
        let i = find_tok(s, pos);
        if i >= s.len() {
            s.subrange(pos, s.len() as int)
        } else {
            let t = tok_at(s, i)->0;
            s.subrange(pos, i) + tok_repl(t.2, data) + subst_text_from(s, t.0, data)
        }
    }
}

#[via_fn]
proof fn subst_text_from_decreases(s: Seq<char>, pos: int, data: JVal) {
    if 0 <= pos && pos <= s.len() {
        lemma_find_tok_bounds(s, pos);
        let i = find_tok(s, pos);
        if i < s.len() {
            lemma_tok_at_bounds(s, i);
        }
    }
}

/// Casting a value to a string: booleans and numbers become their
/// decimal text; anything else stays as it is.
pub open spec fn cast_to_string(v: JVal) -> JVal {
    match v {
        JVal::Bool(b) => JVal::Str(
            if b {
                seq!['t', 'r', 'u', 'e']
            } else {
                seq!['f', 'a', 'l', 's', 'e']
            },
        ),
        JVal::Num(m, sc) => JVal::Str(num_text(m, sc)),
        other => other,
    }
}

/// Casting a value from a string: the texts `true` and `false` become
/// booleans, a full numeric text becomes a number; anything else stays.
pub open spec fn cast_from_string(v: JVal) -> JVal {
    match v {
        JVal::Str(t) => {
            if t == seq!['t', 'r', 'u', 'e'] {
                JVal::Bool(true)
            } else if t == seq!['f', 'a', 'l', 's', 'e'] {
                JVal::Bool(false)
            } else {
                match p_number(t, 0) {
                    Some((m, sc, q)) => if q == t.len() {
                        JVal::Num(m, sc)
                    } else {
                        JVal::Str(t)
                    },
                    None => JVal::Str(t),
                }
            }
        },
        other => other,
    }
}

/// The first `}` at or after `pos`, or the length.
pub open spec fn brace_from(s: Seq<char>, pos: int) -> int
    decreases s.len() - pos,
{
    if pos < 0 || pos >= s.len() {
        s.len() as int
    } else if s[pos] == '}' {
        pos
    } else {
        brace_from(s, pos + 1)
    }
}

pub proof fn lemma_brace_from_bounds(s: Seq<char>, pos: int)
    requires
        0 <= pos <= s.len(),
    ensures
        pos <= brace_from(s, pos) <= s.len(),
        brace_from(s, pos) < s.len() ==> s[brace_from(s, pos)] == '}',
    decreases s.len() - pos,
{
    if pos < s.len() && s[pos] != '}' {
        lemma_brace_from_bounds(s, pos + 1);
    }
}

/// The code token starting at `i`, if one starts there: `%{`, at least
/// one character of code, and the nearest closing brace. Yields the
/// code's range.
pub open spec fn code_at(s: Seq<char>, i: int) -> Option<(int, int)> {
    if 0 <= i && i + 1 < s.len() && s[i] == '%' && s[i + 1] == '{' {
        let k = brace_from(s, i + 2);
        if k < s.len() && k > i + 2 {
            Some((i + 2, k))
        } else {
            None
        }
    } else {
        None
    }
}

/// The first code token start at or after `pos`, or the length.
pub open spec fn find_code(s: Seq<char>, pos: int) -> int
    decreases s.len() - pos,
{
    if pos < 0 || pos >= s.len() {
        s.len() as int
    } else if code_at(s, pos) is Some {
        pos
    } else {
        find_code(s, pos + 1)
    }
}

pub proof fn lemma_find_code_bounds(s: Seq<char>, pos: int)
    requires
        0 <= pos <= s.len(),
    ensures
        pos <= find_code(s, pos) <= s.len(),
        find_code(s, pos) < s.len() ==> code_at(s, find_code(s, pos)) is Some,
    decreases s.len() - pos,
{
    if pos < s.len() && code_at(s, pos) is None {
        lemma_find_code_bounds(s, pos + 1);
    }
}

/// All code tokens of the text from `pos` on: each code's range.
pub open spec fn codes_from(s: Seq<char>, pos: int) -> Seq<(int, int)>
    decreases s.len() - pos,
    via codes_from_decreases
{
    if pos < 0 || pos >= s.len() {
        Seq::empty()
    } else {
        let i = find_code(s, pos);
        if i >= s.len() {
            Seq::empty()
        } else {
            let t = code_at(s, i)->0;
            seq![t] + codes_from(s, t.1 + 1)
        }
    }
}

#[via_fn]
proof fn codes_from_decreases(s: Seq<char>, pos: int) {
    if 0 <= pos && pos < s.len() {
        lemma_find_code_bounds(s, pos);
        let i = find_code(s, pos);
        if i < s.len() {
            lemma_brace_from_bounds(s, i + 2);
        }
    }
}

/// The sandbox environment a data document provides: its top-level
/// fields when it is an object, nothing otherwise.
pub open spec fn data_env(data: JVal) -> Seq<(Seq<char>, JVal)> {
    match data {
        JVal::Obj(fields) => fields,
        _ => Seq::empty(),
    }
}

/// What a string leaf of a template becomes: a single whole-string
/// substitution token resolves to the value its path reaches (cast as
/// the modifier says); several tokens, or one among other text, rewrite
/// the string; otherwise a single code token evaluates in the sandbox;
/// otherwise the leaf stays. A path that reaches nothing, or code that
/// fails, leaves the leaf unchanged.
pub open spec fn subst_leaf(s: Seq<char>, data: JVal, rng: u64) -> (JVal, u64) {
    let toks = toks_from(s, 0);
    if toks.len() == 1 && toks[0].0 == 0 && toks[0].1 == s.len() {
        let vals = ga(data, optic_of_path(toks[0].3));
        if vals.len() == 0 {
            (JVal::Str(s), rng)
        } else {
            let raw = vals[0];
            match toks[0].2 {
                None => (raw, rng),
                Some(m) => if m == ':' {
                    (cast_to_string(raw), rng)
                } else {
                    (cast_from_string(raw), rng)
                },
            }
        }
    } else if toks.len() >= 1 {
        (JVal::Str(subst_text_from(s, 0, data)), rng)
    } else {
        let codes = codes_from(s, 0);
        if codes.len() == 1 {
            let out = run_code(data_env(data), s.subrange(codes[0].0, codes[0].1), rng);
            match out.0 {
                Some(v) => (v, out.1),
                None => (JVal::Str(s), out.1),
            }
        } else {
            (JVal::Str(s), rng)
        }
    }
}

/// Rewrites a template value against the data document: only string
/// leaves change, structure is kept; the random state threads through
/// the walk in order.
pub open spec fn subst_val(t: JVal, data: JVal, rng: u64) -> (JVal, u64)
    decreases t,
{
    match t {
        JVal::Str(s) => subst_leaf(s, data, rng),
        JVal::Arr(items) => {
            let out = subst_items(items, data, rng);
            (JVal::Arr(out.0), out.1)
        },
        JVal::Obj(fields) => {
            let out = subst_flds(fields, data, rng);
            (JVal::Obj(out.0), out.1)
        },
        other => (other, rng),
    }
}

pub open spec fn subst_items(items: Seq<JVal>, data: JVal, rng: u64) -> (Seq<JVal>, u64)
    decreases items,
{
    if items.len() == 0 {
        (Seq::empty(), rng)
    } else {
        let prev = subst_items(items.drop_last(), data, rng);
        let lastv = subst_val(items.last(), data, prev.1);
        (prev.0.push(lastv.0), lastv.1)
    }
}

pub open spec fn subst_flds(
    fields: Seq<(Seq<char>, JVal)>,
    data: JVal,
    rng: u64,
) -> (Seq<(Seq<char>, JVal)>, u64)
    decreases fields,
{
    if fields.len() == 0 {
        (Seq::empty(), rng)
    } else {
        let prev = subst_flds(fields.drop_last(), data, rng);
        let lastv = subst_val(fields.last().1, data, prev.1);
        (prev.0.push((fields.last().0, lastv.0)), lastv.1)
    }
}

/// What a patch template text yields: a whole-string token gives the
/// value its path reaches, or nothing when the path reaches nothing;
/// otherwise tokens rewrite the text; otherwise one code token
/// evaluates, and a failure gives nothing; a text without tokens gives
/// nothing.
pub open spec fn patch_value(values: JVal, defn: Seq<char>, rng: u64) -> (Option<JVal>, u64) {
    let toks = toks_from(defn, 0);
    if toks.len() == 1 && toks[0].0 == 0 && toks[0].1 == defn.len() {
        let vals = ga(values, optic_of_path(toks[0].3));
        if vals.len() == 0 {
            (None, rng)
        } else {
            let raw = vals[0];
            match toks[0].2 {
                None => (Some(raw), rng),
                Some(m) => if m == ':' {
                    (Some(cast_to_string(raw)), rng)
                } else {
                    (Some(cast_from_string(raw)), rng)
                },
            }
        }
    } else if toks.len() >= 1 {
        (Some(JVal::Str(subst_text_from(defn, 0, values))), rng)
    } else {
        let codes = codes_from(defn, 0);
        if codes.len() == 1 {
            run_code(data_env(values), defn.subrange(codes[0].0, codes[0].1), rng)
        } else {
            (None, rng)
        }
    }
}

/// Resolving a path in a well-formed document yields well-formed values.
pub proof fn lemma_tok_value_wf(data: JVal, path: Seq<char>)
    requires
        wf(data),
        ga(data, optic_of_path(path)).len() > 0,
    ensures
        wf(ga(data, optic_of_path(path))[0]),
{
    lemma_ga_wf(data, optic_of_path(path));
    crate::json::lemma_wf_seq_elem(ga(data, optic_of_path(path)), 0);
}

/// A cast keeps well-formedness.
pub proof fn lemma_cast_wf(v: JVal)
    requires
        wf(v),
    ensures
        wf(cast_to_string(v)),
        wf(cast_from_string(v)),
{
    match v {
        JVal::Str(t) => {
            if p_number(t, 0) is Some {
                crate::jsontext::lemma_p_number_wf(t, 0);
            }
        },
        _ => {},
    }
}

/// What a leaf substitution yields is well formed.
pub proof fn lemma_subst_leaf_wf(s: Seq<char>, data: JVal, rng: u64)
    requires
        wf(data),
    ensures
        wf(subst_leaf(s, data, rng).0),
{
    let toks = toks_from(s, 0);
    if toks.len() == 1 && toks[0].0 == 0 && toks[0].1 == s.len() {
        let vals = ga(data, optic_of_path(toks[0].3));
        if vals.len() > 0 {
            lemma_tok_value_wf(data, toks[0].3);
            lemma_cast_wf(vals[0]);
        }
    } else if toks.len() >= 1 {
    } else {
        let codes = codes_from(s, 0);
        if codes.len() == 1 {
            lemma_run_code_wf(data_env(data), s.subrange(codes[0].0, codes[0].1), rng);
        }
    }
}

/// What a template substitution yields is well formed.
pub proof fn lemma_subst_wf(t: JVal, data: JVal, rng: u64)
    requires
        wf(t),
        wf(data),
    ensures
        wf(subst_val(t, data, rng).0),
    decreases t,
{
    match t {
        JVal::Str(s) => {
            lemma_subst_leaf_wf(s, data, rng);
        },
        JVal::Arr(items) => {
            lemma_subst_items_wf(items, data, rng);
        },
        JVal::Obj(fields) => {
            lemma_subst_flds_wf(fields, data, rng);
            lemma_subst_flds_keys(fields, data, rng);
            lemma_distinct_keys_congruent(subst_flds(fields, data, rng).0, fields);
        },
        _ => {},
    }
}

pub proof fn lemma_subst_items_wf(items: Seq<JVal>, data: JVal, rng: u64)
    requires
        wf_seq(items),
        wf(data),
    ensures
        wf_seq(subst_items(items, data, rng).0),
        subst_items(items, data, rng).0.len() == items.len(),
    decreases items,
{
    if items.len() > 0 {
        lemma_subst_items_wf(items.drop_last(), data, rng);
        let prev = subst_items(items.drop_last(), data, rng);
        lemma_subst_wf(items.last(), data, prev.1);
        assert(prev.0.push(subst_val(items.last(), data, prev.1).0).drop_last() =~= prev.0);
    }
}

pub proof fn lemma_subst_flds_wf(fields: Seq<(Seq<char>, JVal)>, data: JVal, rng: u64)
    requires
        wf_fields(fields),
        wf(data),
    ensures
        wf_fields(subst_flds(fields, data, rng).0),
        subst_flds(fields, data, rng).0.len() == fields.len(),
    decreases fields,
{
    if fields.len() > 0 {
        lemma_subst_flds_wf(fields.drop_last(), data, rng);
        let prev = subst_flds(fields.drop_last(), data, rng);
        lemma_subst_wf(fields.last().1, data, prev.1);
        assert(prev.0.push(
            (fields.last().0, subst_val(fields.last().1, data, prev.1).0),
        ).drop_last() =~= prev.0);
    }
}

/// Substitution keeps every field name in place.
pub proof fn lemma_subst_flds_keys(fields: Seq<(Seq<char>, JVal)>, data: JVal, rng: u64)
    ensures
        subst_flds(fields, data, rng).0.len() == fields.len(),
        forall|i: int|
            0 <= i < fields.len() ==> (#[trigger] subst_flds(fields, data, rng).0[i]).0
                == fields[i].0,
    decreases fields,
{
    if fields.len() > 0 {
        lemma_subst_flds_keys(fields.drop_last(), data, rng);
    }
}

/// The substitution token starting at `i`, executed: the position after
/// the token, the modifier, and the path's range.
fn tok_at_exec(cs: &Vec<char>, i: usize) -> (r: Option<(usize, Option<char>, usize, usize)>)
    requires
        i <= cs@.len(),
    ensures
        match r {
            Some(p) => tok_at(cs@, i as int) == Some(
                (p.0 as int, p.1, cs@.subrange(p.2 as int, p.3 as int)),
            ) && p.0 <= cs@.len() && p.2 <= p.3 <= cs@.len(),
            None => tok_at(cs@, i as int) is None,
        },
{
    if !(i < cs.len() && cs[i] == '$') {
        return None;
    }
    let has_mod = i + 1 < cs.len() && (cs[i + 1] == ':' || cs[i + 1] == '~');
    let j: usize = if has_mod {
        i + 2
    } else {
        i + 1
    };
    let m: Option<char> = if has_mod {
        Some(cs[i + 1])
    } else {
        None
    };
    if j < cs.len() && cs[j] == '{' {
        let mut k: usize = j + 1;
        while k < cs.len() && (('a' <= cs[k] && cs[k] <= 'z') || ('A' <= cs[k] && cs[k] <= 'Z') || (
        '0' <= cs[k] && cs[k] <= '9') || cs[k] == '.' || cs[k] == '[' || cs[k] == ']' || cs[k]
            == '-' || cs[k] == '_' || (cs[k] as u32) > 127)
            invariant
                j + 1 <= k <= cs@.len(),
                path_end(cs@, j + 1) == path_end(cs@, k as int),
            decreases cs@.len() - k,
        {
            k += 1;
        }
        if k > j + 1 && k < cs.len() && cs[k] == '}' {
            Some((k + 1, m, j + 1, k))
        } else {
            None
        }
    } else {
        None
    }
}

/// The first token start at or after `pos`, executed.
fn find_tok_exec(cs: &Vec<char>, pos: usize) -> (r: usize)
    requires
        pos <= cs@.len(),
    ensures
        r == find_tok(cs@, pos as int),
        pos <= r <= cs@.len(),
{
    let mut i: usize = pos;
    loop
        invariant
            pos <= i <= cs@.len(),
            find_tok(cs@, pos as int) == find_tok(cs@, i as int),
        decreases cs@.len() - i,
    {
        if i >= cs.len() {
            return i;
        }
        match tok_at_exec(cs, i) {
            Some(_) => {
                return i;
            },
            None => {
                i += 1;
            },
        }
    }
}

/// The text from `pos` on with every token replaced, executed.
#[verifier::loop_isolation(false)]
fn subst_text_exec(cs: &Vec<char>, pos: usize, data: &JsonValue) -> (r: Vec<char>)
    requires
        pos <= cs@.len(),
        wf(data@),
    ensures
        r@ == subst_text_from(cs@, pos as int, data@),
    decreases cs@.len() - pos,
{
    let i = find_tok_exec(cs, pos);
    if i >= cs.len() {
        return crate::sandbox::copy_range(cs, pos, cs.len());
    }
    let t = match tok_at_exec(cs, i) {
        Some(t) => t,
        None => {
            proof {
                lemma_find_tok_bounds(cs@, pos as int);
                assert(false);
            }
            (0usize, None, 0usize, 0usize)
        },
    };
    proof {
        lemma_find_tok_bounds(cs@, pos as int);
        lemma_tok_at_bounds(cs@, i as int);
    }
    let mut out = crate::sandbox::copy_range(cs, pos, i);
    let pathv = crate::sandbox::copy_range(cs, t.2, t.3);
    let paths = chars_to_string(&pathv);
    let optic = JsonOptic::from_path(paths.as_str());
    let vals = data.get_all(&optic);
    if vals.len() > 0 {
        proof {
            lemma_jv_seq(vals@);
            lemma_tok_value_wf(data@, pathv@);
        }
        let rendered = vals[0].render();
        let rc = str_to_chars(rendered.as_str());
        crate::jsontext::extend_chars(&mut out, &rc);
    } else {
        proof {
            lemma_jv_seq(vals@);
        }
        crate::jsontext::extend_chars(&mut out, &pathv);
    }
    let rest = subst_text_exec(cs, t.0, data);
    crate::jsontext::extend_chars(&mut out, &rest);
    proof {
        assert(out@ =~= subst_text_from(cs@, pos as int, data@));
    }
    out
}

/// Casting a value to a string, executed.
pub fn cast_to_string_exec(v: JsonValue) -> (r: JsonValue)
    requires
        wf(v@),
    ensures
        r@ == cast_to_string(v@),
{
    match v {
        JsonValue::Bool(b) => {
            proof {
                reveal_strlit("true");
                reveal_strlit("false");
                assert("true"@ =~= seq!['t', 'r', 'u', 'e']);
                assert("false"@ =~= seq!['f', 'a', 'l', 's', 'e']);
            }
            if b {
                JsonValue::Str(String::from_str("true"))
            } else {
                JsonValue::Str(String::from_str("false"))
            }
        },
        JsonValue::Num(n) => {
            let nc = crate::jsontext::num_chars(&n);
            JsonValue::Str(chars_to_string(&nc))
        },
        other => other,
    }
}

/// Casting a value from a string, executed.
pub fn cast_from_string_exec(v: JsonValue) -> (r: JsonValue)
    requires
        wf(v@),
    ensures
        r@ == cast_from_string(v@),
{
    match v {
        JsonValue::Str(t) => {
            proof {
                reveal_strlit("true");
                reveal_strlit("false");
                assert("true"@ =~= seq!['t', 'r', 'u', 'e']);
                assert("false"@ =~= seq!['f', 'a', 'l', 's', 'e']);
            }
            if crate::strutil::str_eq(t.as_str(), "true") {
                JsonValue::Bool(true)
            } else if crate::strutil::str_eq(t.as_str(), "false") {
                JsonValue::Bool(false)
            } else {
                let cs = str_to_chars(t.as_str());
                match crate::jsontext::p_number_exec(&cs, 0) {
                    Some((n, q)) => {
                        if q == cs.len() {
                            JsonValue::Num(n)
                        } else {
                            JsonValue::Str(t)
                        }
                    },
                    None => JsonValue::Str(t),
                }
            }
        },
        other => other,
    }
}

/// What a string leaf becomes, executed: value, new random state.
#[verifier::rlimit(100)]
fn subst_leaf_exec(t: &String, data: &JsonValue, rng: u64) -> (r: (JsonValue, u64))
    requires
        wf(data@),
    ensures
        (r.0@, r.1) == subst_leaf(t@, data@, rng),
        wf(r.0@),
{
    proof {
        lemma_subst_leaf_wf(t@, data@, rng);
    }
    let cs = str_to_chars(t.as_str());
    let t0 = find_tok_exec(&cs, 0);
    if t0 < cs.len() {
        let tk = match tok_at_exec(&cs, t0) {
            Some(tk) => tk,
            None => {
                proof {
                    lemma_find_tok_bounds(cs@, 0);
                    assert(false);
                }
                (0usize, None, 0usize, 0usize)
            },
        };
        proof {
            lemma_find_tok_bounds(cs@, 0);
            lemma_tok_at_bounds(cs@, t0 as int);
        }
        if t0 == 0 && tk.0 == cs.len() {
            proof {
                assert(toks_from(cs@, tk.0 as int) =~= Seq::<
                    (int, int, Option<char>, Seq<char>),
                >::empty());
                assert(toks_from(cs@, 0) =~= seq![
                    (0int, tk.0 as int, tk.1, cs@.subrange(tk.2 as int, tk.3 as int)),
                ]);
            }
            let pathv = crate::sandbox::copy_range(&cs, tk.2, tk.3);
            let paths = chars_to_string(&pathv);
            let optic = JsonOptic::from_path(paths.as_str());
            let vals = data.get_all(&optic);
            proof {
                lemma_jv_seq(vals@);
            }
            if vals.len() == 0 {
                (JsonValue::Str(t.clone()), rng)
            } else {
                proof {
                    lemma_tok_value_wf(data@, pathv@);
                }
                let raw = vals[0].duplicate();
                match tk.1 {
                    None => (raw, rng),
                    Some(m) => if m == ':' {
                        (cast_to_string_exec(raw), rng)
                    } else {
                        (cast_from_string_exec(raw), rng)
                    },
                }
            }
        } else {
            proof {
                assert(toks_from(cs@, 0).len() >= 1);
            }
            let outc = subst_text_exec(&cs, 0, data);
            (JsonValue::Str(chars_to_string(&outc)), rng)
        }
    } else {
        proof {
            assert(toks_from(cs@, 0) =~= Seq::<(int, int, Option<char>, Seq<char>)>::empty());
        }
        let c0 = find_code_exec(&cs, 0);
        if c0 >= cs.len() {
            proof {
                assert(codes_from(cs@, 0) =~= Seq::<(int, int)>::empty());
            }
            return (JsonValue::Str(t.clone()), rng);
        }
        let cr = code_at_exec(&cs, c0);
        let (a, b) = match cr {
            Some(p) => p,
            None => {
                proof {
                    lemma_find_code_bounds(cs@, 0);
                    assert(false);
                }
                (0usize, 0usize)
            },
        };
        proof {
            lemma_find_code_bounds(cs@, 0);
            lemma_brace_from_bounds(cs@, c0 + 2);
        }
        let next = find_code_exec(&cs, b + 1);
        if next < cs.len() {
            proof {
                assert(codes_from(cs@, (b + 1) as int).len() >= 1);
                assert(codes_from(cs@, 0).len() >= 2);
            }
            return (JsonValue::Str(t.clone()), rng);
        }
        proof {
            assert(codes_from(cs@, (b + 1) as int) =~= Seq::<(int, int)>::empty());
            assert(codes_from(cs@, 0) =~= seq![(a as int, b as int)]);
        }
        let env: Vec<(String, JsonValue)> = match data {
            JsonValue::Obj(fields) => dup_fields(fields),
            _ => Vec::new(),
        };
        proof {
            if !(data@ is Obj) {
                assert(jv_fields(env@) =~= Seq::<(Seq<char>, JVal)>::empty());
            }
        }
        let mut runner = CodeRunner { env, rng };
        let codev = crate::sandbox::copy_range(&cs, a, b);
        let codes = chars_to_string(&codev);
        let out = runner.eval(codes.as_str());
        match out {
            Ok(v) => (v, runner.rng),
            Err(_) => (JsonValue::Str(t.clone()), runner.rng),
        }
    }
}

/// The first code token start at or after `pos`, executed.
fn find_code_exec(cs: &Vec<char>, pos: usize) -> (r: usize)
    requires
        pos <= cs@.len(),
    ensures
        r == find_code(cs@, pos as int),
        pos <= r <= cs@.len(),
{
    let mut i: usize = pos;
    loop
        invariant
            pos <= i <= cs@.len(),
            find_code(cs@, pos as int) == find_code(cs@, i as int),
        decreases cs@.len() - i,
    {
        if i >= cs.len() {
            return i;
        }
        match code_at_exec(cs, i) {
            Some(_) => {
                return i;
            },
            None => {
                i += 1;
            },
        }
    }
}

/// The code token starting at `i`, executed.
fn code_at_exec(cs: &Vec<char>, i: usize) -> (r: Option<(usize, usize)>)
    requires
        i <= cs@.len(),
    ensures
        match r {
            Some(p) => code_at(cs@, i as int) == Some((p.0 as int, p.1 as int)) && p.0 <= p.1
                <= cs@.len(),
            None => code_at(cs@, i as int) is None,
        },
{
    if cs.len() - i >= 2 && cs[i] == '%' && cs[i + 1] == '{' {
        let mut k: usize = i + 2;
        while k < cs.len() && cs[k] != '}'
            invariant
                i + 2 <= k <= cs@.len(),
                brace_from(cs@, (i + 2) as int) == brace_from(cs@, k as int),
            decreases cs@.len() - k,
        {
            k += 1;
        }
        if k < cs.len() && k > i + 2 {
            Some((i + 2, k))
        } else {
            None
        }
    } else {
        None
    }
}

#[verifier::loop_isolation(false)]
fn subst_rec(t: &JsonValue, data: &JsonValue, rng: u64) -> (r: (JsonValue, u64))
    requires
        wf(t@),
        wf(data@),
    ensures
        (r.0@, r.1) == subst_val(t@, data@, rng),
        wf(r.0@),
    decreases *t,
{
    proof {
        lemma_subst_wf(t@, data@, rng);
    }
    match t {
        JsonValue::Str(s) => subst_leaf_exec(s, data, rng),
        JsonValue::Arr(items) => {
            proof {
                lemma_jv_seq(items@);
            }
            let ghost sv = jv_seq(items@);
            let mut out: Vec<JsonValue> = Vec::new();
            let mut cur: u64 = rng;
            let mut k: usize = 0;
            proof {
                assert(sv.take(0) =~= Seq::<JVal>::empty());
                assert(jv_seq(out@) =~= Seq::<JVal>::empty());
            }
            while k < items.len()
                invariant
                    k <= items@.len(),
                    subst_items(sv.take(k as int), data@, rng) == (jv_seq(out@), cur),
                decreases items@.len() - k,
            {
                proof {
                    assert(decreases_to!(*t => items@[k as int]));
                    lemma_wf_seq_elem(sv, k as int);
                    assert(sv.take(k + 1 as int).drop_last() =~= sv.take(k as int));
                    assert(sv.take(k + 1 as int).last() == sv[k as int]);
                }
                let stepped = subst_rec(&items[k], data, cur);
                let ghost prev = out@;
                out.push(stepped.0);
                proof {
                    assert(out@.drop_last() =~= prev);
                }
                cur = stepped.1;
                k += 1;
            }
            proof {
                assert(sv.take(items@.len() as int) =~= sv);
            }
            (JsonValue::Arr(out), cur)
        },
        JsonValue::Obj(fields) => {
            proof {
                lemma_jv_fields(fields@);
            }
            let ghost sf = jv_fields(fields@);
            let mut out: Vec<(String, JsonValue)> = Vec::new();
            let mut cur: u64 = rng;
            let mut k: usize = 0;
            proof {
                assert(sf.take(0) =~= Seq::<(Seq<char>, JVal)>::empty());
                assert(jv_fields(out@) =~= Seq::<(Seq<char>, JVal)>::empty());
            }
            while k < fields.len()
                invariant
                    k <= fields@.len(),
                    subst_flds(sf.take(k as int), data@, rng) == (jv_fields(out@), cur),
                decreases fields@.len() - k,
            {
                proof {
                    assert(decreases_to!(*t => fields@[k as int].1));
                    lemma_wf_fields_elem(sf, k as int);
                    assert(sf.take(k + 1 as int).drop_last() =~= sf.take(k as int));
                    assert(sf.take(k + 1 as int).last() == sf[k as int]);
                }
                let stepped = subst_rec(&fields[k].1, data, cur);
                let key = fields[k].0.clone();
                let ghost prev = out@;
                out.push((key, stepped.0));
                proof {
                    assert(out@.drop_last() =~= prev);
                }
                cur = stepped.1;
                k += 1;
            }
            proof {
                assert(sf.take(fields@.len() as int) =~= sf);
            }
            (JsonValue::Obj(out), cur)
        },
        JsonValue::Null => (JsonValue::Null, rng),
        JsonValue::Bool(b) => (JsonValue::Bool(*b), rng),
        JsonValue::Num(n) => (JsonValue::Num(*n), rng),
    }
}

impl JsonValue {
    /// Rewrites this template in place against the data document, with
    /// the given random seed for embedded expressions.
    pub fn substitute_seeded(&mut self, values: &JsonValue, seed: u64) -> (rng2: u64)
        requires
            wf(old(self)@),
            wf(values@),
        ensures
            (final(self)@, rng2) == subst_val(old(self)@, values@, seed),
            wf(final(self)@),
    {
        let mut tmp = JsonValue::Null;
        core::mem::swap(self, &mut tmp);
        let out = subst_rec(&tmp, values, seed);
        let mut res = out.0;
        core::mem::swap(self, &mut res);
        out.1
    }
}

/// In-place substitution, as the original templating surface offers it.
pub trait Substitute<B> {
    fn substitute(&mut self, b: B);
}

impl Substitute<(JsonValue, u64)> for JsonValue {
    /// Substitutes with a data document and a seed; a value that is not
    /// well formed is left unchanged.
    fn substitute(&mut self, b: (JsonValue, u64)) {
        if self.is_wf() && b.0.is_wf() {
            self.substitute_seeded(&b.0, b.1);
        }
    }
}

/// The result of one template evaluation, ready to overwrite a target.
#[derive(Debug)]
pub struct JsonPatcher {
    pub new_value: JsonValue,
}

impl JsonPatcher {
    pub fn new(new_value: JsonValue) -> (r: JsonPatcher)
        ensures
            r.new_value@ == new_value@,
    {
        JsonPatcher { new_value }
    }

    /// Overwrites the target with the held value.
    pub fn apply(&self, target: &mut JsonValue)
        ensures
            final(target)@ == self.new_value@,
    {
        let mut v = self.new_value.duplicate();
        core::mem::swap(target, &mut v);
    }
}

/// A template evaluator over a fixed data document, with its sandbox
/// runtime.
#[derive(Debug)]
pub struct JsonTemplater {
    pub values: JsonValue,
    pub runner: CodeRunner,
}

impl JsonTemplater {
    /// Whether this templater is consistent: well-formed data whose top
    /// fields are the runtime's environment.
    pub open spec fn wf_templater(&self) -> bool {
        &&& wf(self.values@)
        &&& jv_fields(self.runner.env@) == data_env(self.values@)
    }

    /// A templater over the data document, its sandbox seeded.
    pub fn new(values: JsonValue, seed: u64) -> (r: JsonTemplater)
        requires
            wf(values@),
        ensures
            r.values@ == values@,
            r.runner.rng == seed_fix(seed),
            r.wf_templater(),
    {
        let env: Vec<(String, JsonValue)> = match &values {
            JsonValue::Obj(fields) => dup_fields(fields),
            _ => Vec::new(),
        };
        proof {
            if !(values@ is Obj) {
                assert(jv_fields(env@) =~= Seq::<(Seq<char>, JVal)>::empty());
            }
        }
        let runner = match JsSandbox::make_runner(env, seed) {
            Ok(rn) => rn,
            Err(_) => CodeRunner { env: Vec::new(), rng: seed_fix_exec(seed) },
        };
        JsonTemplater { values, runner }
    }

    /// Evaluates a patch template text against the data document.
    #[verifier::rlimit(100)]
    pub fn make_patcher_fn(&mut self, defn: &str) -> (r: Option<JsonPatcher>)
        requires
            old(self).wf_templater(),
        ensures
            final(self).values == old(self).values,
            final(self).runner.env == old(self).runner.env,
            final(self).wf_templater(),
            ({
                let sp = patch_value(old(self).values@, defn@, old(self).runner.rng);
                final(self).runner.rng == sp.1 && (match r {
                    Some(p) => sp.0 == Some(p.new_value@) && wf(p.new_value@),
                    None => sp.0 is None,
                })
            }),
    {
        let cs = str_to_chars(defn);
        let t0 = find_tok_exec(&cs, 0);
        if t0 < cs.len() {
            let tk = match tok_at_exec(&cs, t0) {
                Some(tk) => tk,
                None => {
                    proof {
                        lemma_find_tok_bounds(cs@, 0);
                        assert(false);
                    }
                    (0usize, None, 0usize, 0usize)
                },
            };
            proof {
                lemma_find_tok_bounds(cs@, 0);
                lemma_tok_at_bounds(cs@, t0 as int);
            }
            if t0 == 0 && tk.0 == cs.len() {
                proof {
                    assert(toks_from(cs@, tk.0 as int) =~= Seq::<
                        (int, int, Option<char>, Seq<char>),
                    >::empty());
                    assert(toks_from(cs@, 0) =~= seq![
                        (0int, tk.0 as int, tk.1, cs@.subrange(tk.2 as int, tk.3 as int)),
                    ]);
                }
                let pathv = crate::sandbox::copy_range(&cs, tk.2, tk.3);
                let paths = chars_to_string(&pathv);
                let optic = JsonOptic::from_path(paths.as_str());
                let vals = self.values.get_all(&optic);
                proof {
                    lemma_jv_seq(vals@);
                }
                if vals.len() == 0 {
                    None
                } else {
                    proof {
                        lemma_tok_value_wf(self.values@, pathv@);
                        lemma_cast_wf(jv_seq(vals@)[0]);
                    }
                    let raw = vals[0].duplicate();
                    let outv = match tk.1 {
                        None => raw,
                        Some(m) => if m == ':' {
                            cast_to_string_exec(raw)
                        } else {
                            cast_from_string_exec(raw)
                        },
                    };
                    Some(JsonPatcher { new_value: outv })
                }
            } else {
                proof {
                    assert(toks_from(cs@, 0).len() >= 1);
                }
                let outc = subst_text_exec(&cs, 0, &self.values);
                Some(JsonPatcher { new_value: JsonValue::Str(chars_to_string(&outc)) })
            }
        } else {
            proof {
                assert(toks_from(cs@, 0) =~= Seq::<(int, int, Option<char>, Seq<char>)>::empty());
            }
            let c0 = find_code_exec(&cs, 0);
            if c0 >= cs.len() {
                proof {
                    assert(codes_from(cs@, 0) =~= Seq::<(int, int)>::empty());
                }
                return None;
            }
            let cr = code_at_exec(&cs, c0);
            let (a, b) = match cr {
                Some(p) => p,
                None => {
                    proof {
                        lemma_find_code_bounds(cs@, 0);
                        assert(false);
                    }
                    (0usize, 0usize)
                },
            };
            proof {
                lemma_find_code_bounds(cs@, 0);
                lemma_brace_from_bounds(cs@, c0 + 2);
            }
            let next = find_code_exec(&cs, b + 1);
            if next < cs.len() {
                proof {
                    assert(codes_from(cs@, (b + 1) as int).len() >= 1);
                    assert(codes_from(cs@, 0).len() >= 2);
                }
                return None;
            }
            proof {
                assert(codes_from(cs@, (b + 1) as int) =~= Seq::<(int, int)>::empty());
                assert(codes_from(cs@, 0) =~= seq![(a as int, b as int)]);
            }
            let codev = crate::sandbox::copy_range(&cs, a, b);
            let codes = chars_to_string(&codev);
            let out = self.runner.eval(codes.as_str());
            match out {
                Ok(v) => Some(JsonPatcher { new_value: v }),
                Err(_) => None,
            }
        }
    }
}

/// The fixed seed, executed.
fn seed_fix_exec(seed: u64) -> (r: u64)
    ensures
        r == seed_fix(seed),
{
    if seed == 0 {
        0x9e3779b97f4a7c15u64
    } else {
        seed
    }
}

/// The model of a persist specification: optic steps and template value
/// of each entry.
pub open spec fn tview(s: Seq<(JsonOptic, JsonValue)>) -> Seq<(Seq<OStep>, JVal)>
    decreases s,
{
    if s.len() == 0 {
        Seq::empty()
    } else {
        tview(s.drop_last()).push((s.last().0@, jv(s.last().1)))
    }
}

pub broadcast proof fn lemma_tview(s: Seq<(JsonOptic, JsonValue)>)
    ensures
        (#[trigger] tview(s)).len() == s.len(),
        forall|i: int| 0 <= i < s.len() ==> tview(s)[i] == (s[i].0@, jv(s[i].1)),
    decreases s.len(),
{
    if s.len() > 0 {
        lemma_tview(s.drop_last());
    }
}

/// Substitutes every template value of the specification against the
/// data document, threading the random state in order.
pub open spec fn fill_tpls(entries: Seq<(Seq<OStep>, JVal)>, data: JVal, rng: u64) -> (
    Seq<(Seq<OStep>, JVal)>,
    u64,
)
    decreases entries,
{
    if entries.len() == 0 {
        (Seq::empty(), rng)
    } else {
        let prev = fill_tpls(entries.drop_last(), data, rng);
        let lastv = subst_val(entries.last().1, data, prev.1);
        (prev.0.push((entries.last().0, lastv.0)), lastv.1)
    }
}

/// The patch document a filled specification renders to: every entry
/// written at its optic's place in an empty object, in order.
pub open spec fn render_patch(entries: Seq<(Seq<OStep>, JVal)>) -> JVal
    decreases entries,
{
    if entries.len() == 0 {
        JVal::Obj(Seq::empty())
    } else {
        jset(render_patch(entries.drop_last()), entries.last().0, entries.last().1)
    }
}

/// Substitutes the template values of a specification; yields the filled
/// specification and the advanced random state.
#[verifier::loop_isolation(false)]
pub fn fill_templates(entries: &Vec<(JsonOptic, JsonValue)>, data: &JsonValue, seed: u64) -> (r: (
    Vec<(JsonOptic, JsonValue)>,
    u64,
))
    requires
        wf_entries(tview(entries@)),
        wf(data@),
    ensures
        (tview(r.0@), r.1) == fill_tpls(tview(entries@), data@, seed),
{
    proof {
        lemma_tview(entries@);
    }
    let ghost ev = tview(entries@);
    let mut out: Vec<(JsonOptic, JsonValue)> = Vec::new();
    let mut cur: u64 = seed;
    let mut k: usize = 0;
    proof {
        assert(ev.take(0) =~= Seq::<(Seq<OStep>, JVal)>::empty());
        assert(tview(out@) =~= Seq::<(Seq<OStep>, JVal)>::empty());
    }
    while k < entries.len()
        invariant
            k <= entries@.len(),
            fill_tpls(ev.take(k as int), data@, seed) == (tview(out@), cur),
        decreases entries@.len() - k,
    {
        proof {
            lemma_wf_entries_elem(ev, k as int);
            assert(ev.take(k + 1 as int).drop_last() =~= ev.take(k as int));
            assert(ev.take(k + 1 as int).last() == ev[k as int]);
        }
        let optic = entries[k].0.duplicate();
        let mut tpl = entries[k].1.duplicate();
        let rng2 = tpl.substitute_seeded(data, cur);
        let ghost prev = out@;
        out.push((optic, tpl));
        proof {
            lemma_tview(out@);
            lemma_tview(prev);
            assert(out@.drop_last() =~= prev);
            assert(tview(out@) =~= fill_tpls(ev.take(k + 1 as int), data@, seed).0);
        }
        cur = rng2;
        k += 1;
    }
    proof {
        assert(ev.take(entries@.len() as int) =~= ev);
    }
    (out, cur)
}

/// Every template value of the specification is well formed.
pub open spec fn wf_entries(entries: Seq<(Seq<OStep>, JVal)>) -> bool
    decreases entries,
{
    if entries.len() == 0 {
        true
    } else {
        wf_entries(entries.drop_last()) && wf(entries.last().1)
    }
}

pub proof fn lemma_wf_entries_elem(entries: Seq<(Seq<OStep>, JVal)>, i: int)
    requires
        wf_entries(entries),
        0 <= i < entries.len(),
    ensures
        wf(entries[i].1),
    decreases entries.len(),
{
    if i < entries.len() - 1 {
        lemma_wf_entries_elem(entries.drop_last(), i);
    }
}

/// Renders a specification to its patch document.
#[verifier::loop_isolation(false)]
pub fn render_json(entries: &Vec<(JsonOptic, JsonValue)>) -> (r: JsonValue)
    ensures
        r@ == render_patch(tview(entries@)),
{
    proof {
        lemma_tview(entries@);
    }
    let ghost ev = tview(entries@);
    let mut out = JsonValue::Obj(Vec::new());
    proof {
        assert(out@ == JVal::Obj(jv_fields(Seq::<(String, JsonValue)>::empty())));
        assert(jv_fields(Seq::<(String, JsonValue)>::empty()) =~= Seq::<(Seq<char>, JVal)>::empty());
        assert(ev.take(0) =~= Seq::<(Seq<OStep>, JVal)>::empty());
    }
    let mut k: usize = 0;
    while k < entries.len()
        invariant
            k <= entries@.len(),
            out@ == render_patch(ev.take(k as int)),
        decreases entries@.len() - k,
    {
        proof {
            assert(ev.take(k + 1 as int).drop_last() =~= ev.take(k as int));
            assert(ev.take(k + 1 as int).last() == ev[k as int]);
        }
        out.set(&entries[k].0, &entries[k].1);
        k += 1;
    }
    proof {
        assert(ev.take(entries@.len() as int) =~= ev);
    }
    out
}

/// The specification with every optic extended by the parsed prefix
/// text, values untouched.
#[verifier::loop_isolation(false)]
pub fn with_prefix(entries: &Vec<(JsonOptic, JsonValue)>, prefix: &str) -> (r: Vec<
    (JsonOptic, JsonValue),
>)
    ensures
        r@.len() == entries@.len(),
        forall|i: int|
            0 <= i < entries@.len() ==> (#[trigger] r@[i]).0@ == entries@[i].0@ + optic_of_path(
                prefix@,
            ) && r@[i].1@ == entries@[i].1@,
{
    let mut out: Vec<(JsonOptic, JsonValue)> = Vec::new();
    let mut k: usize = 0;
    while k < entries.len()
        invariant
            k <= entries@.len(),
            out@.len() == k,
            forall|i: int|
                0 <= i < k ==> (#[trigger] out@[i]).0@ == entries@[i].0@ + optic_of_path(prefix@)
                    && out@[i].1@ == entries@[i].1@,
        decreases entries@.len() - k,
    {
        let newk = entries[k].0.append_path(prefix);
        let v = entries[k].1.duplicate();
        out.push((newk, v));
        k += 1;
    }
    out
}

/// Substitutes the operand values of one constraint list, threading the
/// random state.
pub open spec fn fill_kvs(kvs: Seq<(Keyword, JVal)>, data: JVal, rng: u64) -> (
    Seq<(Keyword, JVal)>,
    u64,
)
    decreases kvs,
{
    if kvs.len() == 0 {
        (Seq::empty(), rng)
    } else {
        let prev = fill_kvs(kvs.drop_last(), data, rng);
        let lastv = subst_val(kvs.last().1, data, prev.1);
        (prev.0.push((kvs.last().0, lastv.0)), lastv.1)
    }
}

/// Substitutes every operand value of a predicate, threading the random
/// state entry by entry.
pub open spec fn fill_pred(
    entries: Seq<(Seq<crate::optic::OStep>, Seq<(Keyword, JVal)>)>,
    data: JVal,
    rng: u64,
) -> (Seq<(Seq<crate::optic::OStep>, Seq<(Keyword, JVal)>)>, u64)
    decreases entries,
{
    if entries.len() == 0 {
        (Seq::empty(), rng)
    } else {
        let prev = fill_pred(entries.drop_last(), data, rng);
        let lastv = fill_kvs(entries.last().1, data, prev.1);
        (prev.0.push((entries.last().0, lastv.0)), lastv.1)
    }
}

/// A filled constraint list keeps well-formed operands.
pub proof fn lemma_fill_kvs_wf(kvs: Seq<(Keyword, JVal)>, data: JVal, rng: u64)
    requires
        crate::predicate::kvs_wf(kvs),
        wf(data),
    ensures
        crate::predicate::kvs_wf(fill_kvs(kvs, data, rng).0),
        fill_kvs(kvs, data, rng).0.len() == kvs.len(),
    decreases kvs,
{
    if kvs.len() > 0 {
        lemma_fill_kvs_wf(kvs.drop_last(), data, rng);
        let prev = fill_kvs(kvs.drop_last(), data, rng);
        crate::predicate::lemma_kvs_wf_elem(kvs, kvs.len() - 1);
        lemma_subst_wf(kvs.last().1, data, prev.1);
        assert(prev.0.push(
            (kvs.last().0, subst_val(kvs.last().1, data, prev.1).0),
        ).drop_last() =~= prev.0);
    }
}

/// A filled predicate keeps well-formed operands.
pub proof fn lemma_fill_pred_wf_full(
    entries: Seq<(Seq<crate::optic::OStep>, Seq<(Keyword, JVal)>)>,
    data: JVal,
    rng: u64,
)
    requires
        crate::predicate::pred_wf(entries),
        wf(data),
    ensures
        crate::predicate::pred_wf(fill_pred(entries, data, rng).0),
        fill_pred(entries, data, rng).0.len() == entries.len(),
    decreases entries,
{
    if entries.len() > 0 {
        lemma_fill_pred_wf_full(entries.drop_last(), data, rng);
        let prev = fill_pred(entries.drop_last(), data, rng);
        crate::predicate::lemma_pred_wf_elem(entries, entries.len() - 1);
        lemma_fill_kvs_wf(entries.last().1, data, prev.1);
        assert(prev.0.push(
            (entries.last().0, fill_kvs(entries.last().1, data, prev.1).0),
        ).drop_last() =~= prev.0);
    }
}

/// Substitutes every operand value of a predicate against the data
/// document; yields the filled predicate and the advanced random state.
#[verifier::loop_isolation(false)]
pub fn fill_pred_exec(p: &JsonPredicate, data: &JsonValue, seed: u64) -> (r: (JsonPredicate, u64))
    requires
        crate::predicate::pred_wf(p@),
        wf(data@),
    ensures
        (r.0@, r.1) == fill_pred(p@, data@, seed),
        crate::predicate::pred_wf(r.0@),
{
    proof {
        crate::predicate::lemma_entries_view(p.entries@);
        lemma_fill_pred_wf_full(p@, data@, seed);
    }
    let ghost ev = p@;
    let mut out: Vec<(JsonOptic, Vec<(Keyword, JsonValue)>)> = Vec::new();
    let mut cur: u64 = seed;
    let mut i: usize = 0;
    proof {
        assert(ev.take(0) =~= Seq::<(Seq<crate::optic::OStep>, Seq<(Keyword, JVal)>)>::empty());
        assert(crate::predicate::entries_view(out@) =~= Seq::<
            (Seq<crate::optic::OStep>, Seq<(Keyword, JVal)>),
        >::empty());
    }
    while i < p.entries.len()
        invariant
            i <= p.entries@.len(),
            ev == crate::predicate::entries_view(p.entries@),
            ev.len() == p.entries@.len(),
            fill_pred(ev.take(i as int), data@, seed) == (
                crate::predicate::entries_view(out@),
                cur,
            ),
        decreases p.entries@.len() - i,
    {
        proof {
            crate::predicate::lemma_entries_view(p.entries@);
            crate::predicate::lemma_kv_view(p.entries@[i as int].1@);
            crate::predicate::lemma_pred_wf_elem(ev, i as int);
            assert(ev.take(i + 1 as int).drop_last() =~= ev.take(i as int));
            assert(ev.take(i + 1 as int).last() == ev[i as int]);
        }
        let ghost kvv = crate::predicate::kv_view(p.entries@[i as int].1@);
        let optic = p.entries[i].0.duplicate();
        let kvs = &p.entries[i].1;
        let mut outkvs: Vec<(Keyword, JsonValue)> = Vec::new();
        let mut j: usize = 0;
        proof {
            assert(kvv.take(0) =~= Seq::<(Keyword, JVal)>::empty());
            assert(crate::predicate::kv_view(outkvs@) =~= Seq::<(Keyword, JVal)>::empty());
        }
        while j < kvs.len()
            invariant
                j <= kvs@.len(),
                kvv == crate::predicate::kv_view(kvs@),
                kvv.len() == kvs@.len(),
                crate::predicate::kvs_wf(kvv),
                fill_kvs(kvv.take(j as int), data@, cur_entry(ev, i as int, data@, seed)) == (
                    crate::predicate::kv_view(outkvs@),
                    cur,
                ),
            decreases kvs@.len() - j,
        {
            proof {
                crate::predicate::lemma_kv_view(kvs@);
                crate::predicate::lemma_kvs_wf_elem(kvv, j as int);
                assert(kvv.take(j + 1 as int).drop_last() =~= kvv.take(j as int));
                assert(kvv.take(j + 1 as int).last() == kvv[j as int]);
            }
            let mut operand = kvs[j].1.duplicate();
            let rng2 = operand.substitute_seeded(data, cur);
            let ghost prevkv = outkvs@;
            outkvs.push((kvs[j].0, operand));
            proof {
                crate::predicate::lemma_kv_view(outkvs@);
                crate::predicate::lemma_kv_view(prevkv);
                assert(outkvs@.drop_last() =~= prevkv);
                assert(crate::predicate::kv_view(outkvs@) =~= fill_kvs(
                    kvv.take(j + 1 as int),
                    data@,
                    cur_entry(ev, i as int, data@, seed),
                ).0);
            }
            cur = rng2;
            j += 1;
        }
        proof {
            assert(kvv.take(kvs@.len() as int) =~= kvv);
        }
        let ghost prevout = out@;
        out.push((optic, outkvs));
        proof {
            crate::predicate::lemma_entries_view(out@);
            crate::predicate::lemma_entries_view(prevout);
            assert(out@.drop_last() =~= prevout);
            assert(crate::predicate::entries_view(out@) =~= fill_pred(
                ev.take(i + 1 as int),
                data@,
                seed,
            ).0);
        }
        i += 1;
    }
    proof {
        assert(ev.take(p.entries@.len() as int) =~= ev);
    }
    (JsonPredicate { entries: out }, cur)
}

/// The random state after filling the first `i` entries.
pub open spec fn cur_entry(
    ev: Seq<(Seq<crate::optic::OStep>, Seq<(Keyword, JVal)>)>,
    i: int,
    data: JVal,
    seed: u64,
) -> u64 {
    fill_pred(ev.take(i), data, seed).1
}

/// Filled template entries keep well-formed values.
pub proof fn lemma_fill_tpls_wf(entries: Seq<(Seq<OStep>, JVal)>, data: JVal, rng: u64)
    requires
        wf_entries(entries),
        wf(data),
    ensures
        wf_entries(fill_tpls(entries, data, rng).0),
        fill_tpls(entries, data, rng).0.len() == entries.len(),
    decreases entries,
{
    if entries.len() > 0 {
        lemma_fill_tpls_wf(entries.drop_last(), data, rng);
        let prev = fill_tpls(entries.drop_last(), data, rng);
        lemma_subst_wf(entries.last().1, data, prev.1);
        assert(prev.0.push(
            (entries.last().0, subst_val(entries.last().1, data, prev.1).0),
        ).drop_last() =~= prev.0);
    }
}

} // verus!
