use vstd::prelude::*;
use crate::error::Error;
use crate::json::{JsonValue, JsonNum, JVal, jv, jv_seq, jv_fields, lemma_jv_seq, lemma_jv_fields,
    wf, wf_seq, wf_fields, distinct_keys, obj_lookup, pow10, lemma_obj_lookup_wf,
    lemma_obj_lookup_index, lemma_wf_fields_elem, lookup_field};
use crate::jsontext::{p_number, ws_from, render_text, p_number_exec, ws_to};
use crate::optic::{obj_set, lemma_obj_set_wf, find_key, dup_fields, lemma_obj_lookup_key_index, lemma_obj_set_shape};
use crate::strutil::{is_digit, digits_val, str_to_chars, chars_to_string};

verus! {

/// One expression of the sandbox language.
#[derive(Debug)]
pub enum Expr {
    Null,
    Bool(bool),
    Num(JsonNum),
    Str(String),
    Var(String),
    Member(Box<Expr>, String),
    Call(String, Vec<Expr>),
    Arr(Vec<Expr>),
    Obj(Vec<(String, Expr)>),
    Add(Box<Expr>, Box<Expr>),
}

/// The model of an expression.
pub enum EV {
    Null,
    Bool(bool),
    Num(int, nat),
    Str(Seq<char>),
    Var(Seq<char>),
    Member(Box<EV>, Seq<char>),
    Call(Seq<char>, Seq<EV>),
    Arr(Seq<EV>),
    Obj(Seq<(Seq<char>, EV)>),
    Add(Box<EV>, Box<EV>),
}

pub open spec fn ev(e: Expr) -> EV
    decreases e,
{
    match e {
        Expr::Null => EV::Null,
        Expr::Bool(b) => EV::Bool(b),
        Expr::Num(n) => EV::Num(n.mant as int, n.scale as nat),
        Expr::Str(s) => EV::Str(s@),
        Expr::Var(s) => EV::Var(s@),
        Expr::Member(b, n) => EV::Member(Box::new(ev(*b)), n@),
        Expr::Call(n, args) => EV::Call(n@, ev_seq(args@)),
        Expr::Arr(es) => EV::Arr(ev_seq(es@)),
        Expr::Obj(fes) => EV::Obj(ev_fields(fes@)),
        Expr::Add(a, b) => EV::Add(Box::new(ev(*a)), Box::new(ev(*b))),
    }
}

pub open spec fn ev_seq(s: Seq<Expr>) -> Seq<EV>
    decreases s,
{
    if s.len() == 0 {
        Seq::empty()
    } else {
        ev_seq(s.drop_last()).push(ev(s.last()))
    }
}

pub open spec fn ev_fields(s: Seq<(String, Expr)>) -> Seq<(Seq<char>, EV)>
    decreases s,
{
    if s.len() == 0 {
        Seq::empty()
    } else {
        ev_fields(s.drop_last()).push((s.last().0@, ev(s.last().1)))
    }
}

impl View for Expr {
    type V = EV;

    open spec fn view(&self) -> EV {
        ev(*self)
    }
}

pub broadcast proof fn lemma_ev_seq(s: Seq<Expr>)
    ensures
        (#[trigger] ev_seq(s)).len() == s.len(),
        forall|i: int| 0 <= i < s.len() ==> ev_seq(s)[i] == ev(s[i]),
    decreases s.len(),
{
    if s.len() > 0 {
        lemma_ev_seq(s.drop_last());
    }
}

pub broadcast proof fn lemma_ev_fields(s: Seq<(String, Expr)>)
    ensures
        (#[trigger] ev_fields(s)).len() == s.len(),
        forall|i: int| 0 <= i < s.len() ==> ev_fields(s)[i] == (s[i].0@, ev(s[i].1)),
    decreases s.len(),
{
    if s.len() > 0 {
        lemma_ev_fields(s.drop_last());
    }
}

/// The pseudo-random step: a 64-bit xorshift.
pub open spec fn rng_next(s: u64) -> u64 {
    let a = s ^ (s << 13);
    let b = a ^ (a >> 7);
    b ^ (b << 17)
}

/// The pseudo-random step, executed.
pub fn rng_step(s: u64) -> (r: u64)
    ensures
        r == rng_next(s),
{
    let a = s ^ (s << 13u64);
    let b = a ^ (a >> 7u64);
    b ^ (b << 17u64)
}

/// Whether the character can open an identifier.
pub open spec fn is_ident_start(c: char) -> bool {
    ('a' <= c && c <= 'z') || ('A' <= c && c <= 'Z') || c == '_' || c == '$'
}

/// Whether the character can continue an identifier.
pub open spec fn is_ident_char(c: char) -> bool {
    is_ident_start(c) || is_digit(c)
}

/// The first position at or after `pos` that cannot continue an
/// identifier, or the length.
pub open spec fn ident_end(s: Seq<char>, pos: int) -> int
    decreases s.len() - pos,
{
    if pos < 0 || pos >= s.len() {
        s.len() as int
    } else if is_ident_char(s[pos]) {
        ident_end(s, pos + 1)
    } else {
        pos
    }
}

pub proof fn lemma_ident_end_bounds(s: Seq<char>, pos: int)
    requires
        0 <= pos <= s.len(),
    ensures
        pos <= ident_end(s, pos) <= s.len(),
    decreases s.len() - pos,
{
    if pos < s.len() && is_ident_char(s[pos]) {
        lemma_ident_end_bounds(s, pos + 1);
    }
}

/// Scans a plain string literal body up to the closing quote; there are
/// no escapes in the sandbox language.
pub open spec fn scan_str(s: Seq<char>, pos: int, quote: char) -> Option<(Seq<char>, int)>
    decreases s.len() - pos,
{
    if pos < 0 || pos >= s.len() {
        None
    } else if s[pos] == quote {
        Some((Seq::empty(), pos + 1))
    } else {
        match scan_str(s, pos + 1, quote) {
            None => None,
            Some((t, q)) => Some((seq![s[pos]] + t, q)),
        }
    }
}

/// Parses one atom: a literal, an identifier (a variable or a call), an
/// array or an object literal.
pub open spec fn p_atom(s: Seq<char>, pos: int, fuel: nat) -> Option<(EV, int)>
    decreases fuel,
{
    if fuel == 0 || pos < 0 || pos >= s.len() {
        None
    } else {
        let c = s[pos];
        if c == '\'' || c == '"' {
            match scan_str(s, pos + 1, c) {
                None => None,
                Some((t, q)) => Some((EV::Str(t), q)),
            }
        } else if c == '-' || is_digit(c) {
            match p_number(s, pos) {
                None => None,
                Some((m, sc, q)) => Some((EV::Num(m, sc), q)),
            }
        } else if c == '[' {
            let q = ws_from(s, pos + 1);
            if q < s.len() && s[q] == ']' {
                Some((EV::Arr(Seq::empty()), q + 1))
            } else {
                match p_args(s, q, ']', Seq::empty(), (fuel - 1) as nat) {
                    None => None,
                    Some((es, q2)) => Some((EV::Arr(es), q2)),
                }
            }
        } else if c == '{' {
            let q = ws_from(s, pos + 1);
            if q < s.len() && s[q] == '}' {
                Some((EV::Obj(Seq::empty()), q + 1))
            } else {
                match p_pairs(s, q, Seq::empty(), (fuel - 1) as nat) {
                    None => None,
                    Some((fs, q2)) => Some((EV::Obj(fs), q2)),
                }
            }
        } else if is_ident_start(c) {
            let e = ident_end(s, pos);
            let name = s.subrange(pos, e);
            if name == seq!['t', 'r', 'u', 'e'] {
                Some((EV::Bool(true), e))
            } else if name == seq!['f', 'a', 'l', 's', 'e'] {
                Some((EV::Bool(false), e))
            } else if name == seq!['n', 'u', 'l', 'l'] {
                Some((EV::Null, e))
            } else if name == seq!['v', 'a', 'r'] {
                None
            } else if e < s.len() && s[e] == '(' {
                let q = ws_from(s, e + 1);
                if q < s.len() && s[q] == ')' {
                    Some((EV::Call(name, Seq::empty()), q + 1))
                } else {
                    match p_args(s, q, ')', Seq::empty(), (fuel - 1) as nat) {
                        None => None,
                        Some((es, q2)) => Some((EV::Call(name, es), q2)),
                    }
                }
            } else {
                Some((EV::Var(name), e))
            }
        } else {
            None
        }
    }
}

/// Parses a comma-separated expression list up to and past `term`.
pub open spec fn p_args(s: Seq<char>, pos: int, term: char, acc: Seq<EV>, fuel: nat) -> Option<
    (Seq<EV>, int),
>
    decreases fuel,
{
    if fuel == 0 {
        None
    } else {
        match p_expr(s, pos, (fuel - 1) as nat) {
            None => None,
            Some((e, q)) => {
                let q2 = ws_from(s, q);
                if q2 < s.len() && s[q2] == ',' {
                    p_args(s, ws_from(s, q2 + 1), term, acc.push(e), (fuel - 1) as nat)
                } else if q2 < s.len() && s[q2] == term {
                    Some((acc.push(e), q2 + 1))
                } else {
                    None
                }
            },
        }
    }
}

/// Parses object literal pairs up to and past the closing brace. A key
/// is a quoted string or a bare identifier.
pub open spec fn p_pairs(
    s: Seq<char>,
    pos: int,
    acc: Seq<(Seq<char>, EV)>,
    fuel: nat,
) -> Option<(Seq<(Seq<char>, EV)>, int)>
    decreases fuel,
{
    if fuel == 0 || pos < 0 || pos >= s.len() {
        None
    } else {
        let c = s[pos];
        let keyres: Option<(Seq<char>, int)> = if c == '\'' || c == '"' {
            scan_str(s, pos + 1, c)
        } else if is_ident_start(c) {
            Some((s.subrange(pos, ident_end(s, pos)), ident_end(s, pos)))
        } else {
            None
        };
        match keyres {
            None => None,
            Some((k, q)) => {
                let q2 = ws_from(s, q);
                if !(q2 < s.len() && s[q2] == ':') {
                    None
                } else {
                    match p_expr(s, ws_from(s, q2 + 1), (fuel - 1) as nat) {
                        None => None,
                        Some((e, q4)) => {
                            let q5 = ws_from(s, q4);
                            if q5 < s.len() && s[q5] == ',' {
                                p_pairs(s, ws_from(s, q5 + 1), acc.push((k, e)), (fuel - 1) as nat)
                            } else if q5 < s.len() && s[q5] == '}' {
                                Some((acc.push((k, e)), q5 + 1))
                            } else {
                                None
                            }
                        },
                    }
                }
            },
        }
    }
}

/// Parses member access steps after an atom.
pub open spec fn p_members(s: Seq<char>, pos: int, e: EV, fuel: nat) -> Option<(EV, int)>
    decreases fuel,
{
    if fuel == 0 {
        None
    } else {
        let q = ws_from(s, pos);
        if q < s.len() && s[q] == '.' {
            let q2 = ws_from(s, q + 1);
            if q2 < s.len() && is_ident_start(s[q2]) {
                let e2 = ident_end(s, q2);
                p_members(s, e2, EV::Member(Box::new(e), s.subrange(q2, e2)), (fuel - 1) as nat)
            } else {
                None
            }
        } else {
            Some((e, pos))
        }
    }
}

/// Parses a term: an atom with its member accesses.
pub open spec fn p_term(s: Seq<char>, pos: int, fuel: nat) -> Option<(EV, int)>
    decreases fuel,
{
    if fuel == 0 {
        None
    } else {
        match p_atom(s, pos, (fuel - 1) as nat) {
            None => None,
            Some((e, q)) => p_members(s, q, e, (fuel - 1) as nat),
        }
    }
}

/// Parses `+`-joined terms after the first, associating left.
pub open spec fn p_addchain(s: Seq<char>, pos: int, left: EV, fuel: nat) -> Option<(EV, int)>
    decreases fuel,
{
    if fuel == 0 {
        None
    } else {
        let q = ws_from(s, pos);
        if q < s.len() && s[q] == '+' {
            match p_term(s, ws_from(s, q + 1), (fuel - 1) as nat) {
                None => None,
                Some((t, q2)) => p_addchain(
                    s,
                    q2,
                    EV::Add(Box::new(left), Box::new(t)),
                    (fuel - 1) as nat,
                ),
            }
        } else {
            Some((left, pos))
        }
    }
}

/// Parses one expression.
pub open spec fn p_expr(s: Seq<char>, pos: int, fuel: nat) -> Option<(EV, int)>
    decreases fuel,
{
    if fuel == 0 {
        None
    } else {
        match p_term(s, pos, (fuel - 1) as nat) {
            None => None,
            Some((e, q)) => p_addchain(s, q, e, (fuel - 1) as nat),
        }
    }
}

/// Parses the statements and optional final expression of a program.
pub open spec fn p_stmts(
    s: Seq<char>,
    pos: int,
    acc: Seq<(Seq<char>, EV)>,
    fuel: nat,
) -> Option<(Seq<(Seq<char>, EV)>, Option<EV>)>
    decreases fuel,
{
    if fuel == 0 {
        None
    } else {
        let q = ws_from(s, pos);
        if q >= s.len() {
            Some((acc, None))
        } else if q < s.len() && is_ident_start(s[q]) && s.subrange(q, ident_end(s, q)) == seq![
            'v',
            'a',
            'r',
        ] {
            let i0 = ws_from(s, ident_end(s, q));
            if i0 < s.len() && is_ident_start(s[i0]) {
                let i1 = ident_end(s, i0);
                let name = s.subrange(i0, i1);
                let a0 = ws_from(s, i1);
                if a0 < s.len() && s[a0] == '=' {
                    match p_expr(s, ws_from(s, a0 + 1), (fuel - 1) as nat) {
                        None => None,
                        Some((e, q2)) => {
                            let q3 = ws_from(s, q2);
                            if q3 < s.len() && s[q3] == ';' {
                                p_stmts(s, q3 + 1, acc.push((name, e)), (fuel - 1) as nat)
                            } else {
                                None
                            }
                        },
                    }
                } else {
                    None
                }
            } else {
                None
            }
        } else {
            match p_expr(s, q, (fuel - 1) as nat) {
                None => None,
                Some((e, q2)) => {
                    let q3 = ws_from(s, q2);
                    if q3 >= s.len() {
                        Some((acc, Some(e)))
                    } else if s[q3] == ';' && ws_from(s, q3 + 1) >= s.len() {
                        Some((acc, Some(e)))
                    } else {
                        None
                    }
                },
            }
        }
    }
}

/// Parses a whole program.
pub open spec fn parse_code(s: Seq<char>) -> Option<(Seq<(Seq<char>, EV)>, Option<EV>)> {
    if 2 * s.len() + 2 > usize::MAX {
        None
    } else {
        p_stmts(s, 0, Seq::empty(), (2 * s.len() + 2) as nat)
    }
}

/// The sum of two sandbox values: numbers add numerically; if either
/// side is a string, the display texts concatenate; anything else fails.
pub open spec fn add_vals(a: JVal, b: JVal) -> Option<JVal> {
    match (a, b) {
        (JVal::Num(m1, s1), JVal::Num(m2, s2)) => {
            let sc = if s1 >= s2 {
                s1
            } else {
                s2
            };
            let m = m1 * pow10((sc - s1) as nat) + m2 * pow10((sc - s2) as nat);
            if i64::MIN <= m <= i64::MAX {
                Some(JVal::Num(m, sc))
            } else {
                None
            }
        },
        (JVal::Str(x), yb) => Some(JVal::Str(x + render_text(yb))),
        (xa, JVal::Str(y)) => Some(JVal::Str(render_text(xa) + y)),
        _ => None,
    }
}

/// The character of a hexadecimal digit value.
pub open spec fn hex_char(d: int) -> char {
    if d == 1 { '1' }
    else if d == 2 { '2' }
    else if d == 3 { '3' }
    else if d == 4 { '4' }
    else if d == 5 { '5' }
    else if d == 6 { '6' }
    else if d == 7 { '7' }
    else if d == 8 { '8' }
    else if d == 9 { '9' }
    else if d == 10 { 'a' }
    else if d == 11 { 'b' }
    else if d == 12 { 'c' }
    else if d == 13 { 'd' }
    else if d == 14 { 'e' }
    else if d == 15 { 'f' }
    else { '0' }
}

/// The first `k` hexadecimal digits of a 64-bit word, most significant
/// first.
pub open spec fn hex_seq(x: u64, k: nat) -> Seq<char>
    decreases k,
{
    if k == 0 {
        Seq::empty()
    } else {
        hex_seq(x, (k - 1) as nat).push(hex_char(((x >> ((16 - k) * 4) as u64) & 0xf) as int))
    }
}

/// A canonical version-4 UUID text drawn from two random words.
pub open spec fn uuid_text(r1: u64, r2: u64) -> Seq<char> {
    let h1 = hex_seq(r1, 16);
    let h2 = hex_seq(r2, 16);
    h1.subrange(0, 8) + seq!['-'] + h1.subrange(8, 12) + seq!['-', '4'] + h1.subrange(13, 16)
        + seq!['-'] + seq![hex_char(8 + ((r2 >> 62) & 0x3) as int)] + h2.subrange(1, 4) + seq!['-']
        + h2.subrange(4, 16)
}

/// The default alphabet of `randomString`: letters and digits.
pub open spec fn default_alpha() -> Seq<char> {
    seq![
        'a', 'b', 'c', 'd', 'e', 'f', 'g', 'h', 'i', 'j', 'k', 'l', 'm', 'n', 'o', 'p', 'q', 'r',
        's', 't', 'u', 'v', 'w', 'x', 'y', 'z', 'A', 'B', 'C', 'D', 'E', 'F', 'G', 'H', 'I', 'J',
        'K', 'L', 'M', 'N', 'O', 'P', 'Q', 'R', 'S', 'T', 'U', 'V', 'W', 'X', 'Y', 'Z', '0', '1',
        '2', '3', '4', '5', '6', '7', '8', '9',
    ]
}

/// `n` characters drawn from the alphabet by successive random steps.
pub open spec fn gen_string(alpha: Seq<char>, n: nat, rng: u64) -> (Seq<char>, u64)
    decreases n,
{
    if n == 0 {
        (Seq::empty(), rng)
    } else {
        let prev = gen_string(alpha, (n - 1) as nat, rng);
        let r = rng_next(prev.1);
        let c = if alpha.len() > 0 {
            alpha[(r as int) % (alpha.len() as int)]
        } else {
            '?'
        };
        (prev.0.push(c), r)
    }
}

/// Whether the value is a machine integer, and that integer.
pub open spec fn as_i64(v: JVal) -> Option<int> {
    match v {
        JVal::Num(m, sc) => if sc == 0 {
            Some(m)
        } else {
            None
        },
        _ => None,
    }
}

/// The largest length `randomString` will produce.
pub open spec fn max_gen_len() -> int {
    65536
}

/// The meaning of a call to a prelude function; anything else fails.
pub open spec fn call_builtin(name: Seq<char>, args: Seq<JVal>, rng: u64) -> (Option<JVal>, u64) {
    if name == seq!['r', 'a', 'n', 'd', 'o', 'm', 'I', 'n', 't'] || name == seq![
        'r', 'a', 'n', 'd', 'o', 'm', 'L', 'o', 'n', 'g',
    ] {
        if args.len() == 1 && as_i64(args[0]) is Some && as_i64(args[0])->0 > 0 {
            let m = as_i64(args[0])->0;
            let r = rng_next(rng);
            (Some(JVal::Num((r as int) % m, 0)), r)
        } else if args.len() == 2 && as_i64(args[0]) is Some && as_i64(args[1]) is Some && as_i64(
            args[1],
        )->0 > as_i64(args[0])->0 {
            let lo = as_i64(args[0])->0;
            let hi = as_i64(args[1])->0;
            let r = rng_next(rng);
            (Some(JVal::Num(lo + (r as int) % (hi - lo), 0)), r)
        } else {
            (None, rng)
        }
    } else if name == seq!['r', 'a', 'n', 'd', 'o', 'm', 'S', 't', 'r', 'i', 'n', 'g'] {
        if args.len() == 1 && as_i64(args[0]) is Some && 0 <= as_i64(args[0])->0 <= max_gen_len() {
            let n = as_i64(args[0])->0;
            let out = gen_string(default_alpha(), n as nat, rng);
            (Some(JVal::Str(out.0)), out.1)
        } else if args.len() == 3 && args[0] is Str && as_i64(args[1]) is Some && as_i64(
            args[2],
        ) is Some {
            let alpha = args[0]->Str_0;
            let lo = as_i64(args[1])->0;
            let hi = as_i64(args[2])->0;
            if alpha.len() > 0 && 0 <= lo < hi && hi <= max_gen_len() {
                let r = rng_next(rng);
                let n = lo + (r as int) % (hi - lo);
                let out = gen_string(alpha, n as nat, r);
                (Some(JVal::Str(out.0)), out.1)
            } else {
                (None, rng)
            }
        } else {
            (None, rng)
        }
    } else if name == seq!['U', 'U', 'I', 'D'] {
        if args.len() == 0 {
            let r1 = rng_next(rng);
            let r2 = rng_next(r1);
            (Some(JVal::Str(uuid_text(r1, r2))), r2)
        } else {
            (None, rng)
        }
    } else {
        (None, rng)
    }
}

/// Evaluates one expression in the environment, threading the random
/// state; `None` is an evaluation error.
pub open spec fn eval_expr(e: EV, env: Seq<(Seq<char>, JVal)>, rng: u64) -> (Option<JVal>, u64)
    decreases e,
{
    match e {
        EV::Null => (Some(JVal::Null), rng),
        EV::Bool(b) => (Some(JVal::Bool(b)), rng),
        EV::Num(m, sc) => (
            if crate::json::num_wf(m, sc) {
                Some(JVal::Num(m, sc))
            } else {
                None
            },
            rng,
        ),
        EV::Str(t) => (Some(JVal::Str(t)), rng),
        EV::Var(n) => (obj_lookup(env, n), rng),
        EV::Member(b, n) => {
            let inner = eval_expr(*b, env, rng);
            match inner.0 {
                Some(JVal::Obj(fs)) => (obj_lookup(fs, n), inner.1),
                _ => (None, inner.1),
            }
        },
        EV::Add(a, b) => {
            let left = eval_expr(*a, env, rng);
            match left.0 {
                None => (None, left.1),
                Some(lv) => {
                    let right = eval_expr(*b, env, left.1);
                    match right.0 {
                        None => (None, right.1),
                        Some(rv) => (add_vals(lv, rv), right.1),
                    }
                },
            }
        },
        EV::Arr(es) => {
            let items = eval_list(es, env, rng);
            match items.0 {
                None => (None, items.1),
                Some(vs) => (Some(JVal::Arr(vs)), items.1),
            }
        },
        EV::Obj(fes) => {
            let fields = eval_obj(fes, env, rng);
            match fields.0 {
                None => (None, fields.1),
                Some(fs) => (Some(JVal::Obj(fs)), fields.1),
            }
        },
        EV::Call(name, args) => {
            let items = eval_list(args, env, rng);
            match items.0 {
                None => (None, items.1),
                Some(vs) => call_builtin(name, vs, items.1),
            }
        },
    }
}

/// Evaluates a list of expressions left to right.
pub open spec fn eval_list(es: Seq<EV>, env: Seq<(Seq<char>, JVal)>, rng: u64) -> (
    Option<Seq<JVal>>,
    u64,
)
    decreases es,
{
    if es.len() == 0 {
        (Some(Seq::empty()), rng)
    } else {
        let prev = eval_list(es.drop_last(), env, rng);
        match prev.0 {
            None => (None, prev.1),
            Some(ps) => {
                let lastv = eval_expr(es.last(), env, prev.1);
                match lastv.0 {
                    None => (None, lastv.1),
                    Some(v) => (Some(ps.push(v)), lastv.1),
                }
            },
        }
    }
}

/// Evaluates object literal fields left to right; a repeated key
/// replaces the earlier value.
pub open spec fn eval_obj(fes: Seq<(Seq<char>, EV)>, env: Seq<(Seq<char>, JVal)>, rng: u64) -> (
    Option<Seq<(Seq<char>, JVal)>>,
    u64,
)
    decreases fes,
{
    if fes.len() == 0 {
        (Some(Seq::empty()), rng)
    } else {
        let prev = eval_obj(fes.drop_last(), env, rng);
        match prev.0 {
            None => (None, prev.1),
            Some(ps) => {
                let lastv = eval_expr(fes.last().1, env, prev.1);
                match lastv.0 {
                    None => (None, lastv.1),
                    Some(v) => (Some(obj_set(ps, fes.last().0, v)), lastv.1),
                }
            },
        }
    }
}

/// Runs the `var` statements left to right, growing the environment.
pub open spec fn run_stmts(
    stmts: Seq<(Seq<char>, EV)>,
    env: Seq<(Seq<char>, JVal)>,
    rng: u64,
) -> (Option<Seq<(Seq<char>, JVal)>>, u64)
    decreases stmts,
{
    if stmts.len() == 0 {
        (Some(env), rng)
    } else {
        let prev = run_stmts(stmts.drop_last(), env, rng);
        match prev.0 {
            None => (None, prev.1),
            Some(env2) => {
                let lastv = eval_expr(stmts.last().1, env2, prev.1);
                match lastv.0 {
                    None => (None, lastv.1),
                    Some(v) => (Some(obj_set(env2, stmts.last().0, v)), lastv.1),
                }
            },
        }
    }
}

/// Runs a parsed program: the statements, then the final expression;
/// a program without one yields null.
pub open spec fn run_program(
    stmts: Seq<(Seq<char>, EV)>,
    res: Option<EV>,
    env: Seq<(Seq<char>, JVal)>,
    rng: u64,
) -> (Option<JVal>, u64) {
    let after = run_stmts(stmts, env, rng);
    match after.0 {
        None => (None, after.1),
        Some(env2) => match res {
            None => (Some(JVal::Null), after.1),
            Some(e) => eval_expr(e, env2, after.1),
        },
    }
}

/// Runs a program text in the environment: parse, then evaluate. The
/// result depends on the environment, the text and the random state
/// alone, and the environment is left as it was.
pub open spec fn run_code(env: Seq<(Seq<char>, JVal)>, code: Seq<char>, rng: u64) -> (
    Option<JVal>,
    u64,
) {
    match parse_code(code) {
        None => (None, rng),
        Some((stmts, res)) => run_program(stmts, res, env, rng),
    }
}

/// A well-formed sandbox environment: well-formed values under pairwise
/// distinct names.
pub open spec fn env_wf(env: Seq<(Seq<char>, JVal)>) -> bool {
    wf_fields(env) && distinct_keys(env)
}

/// What a successful addition yields is well formed.
pub proof fn lemma_add_vals_wf(a: JVal, b: JVal)
    requires
        wf(a),
        wf(b),
        add_vals(a, b) is Some,
    ensures
        wf(add_vals(a, b)->0),
{
}

/// What a successful builtin call yields is well formed.
pub proof fn lemma_call_builtin_wf(name: Seq<char>, args: Seq<JVal>, rng: u64)
    requires
        wf_seq(args),
        call_builtin(name, args, rng).0 is Some,
    ensures
        wf(call_builtin(name, args, rng).0->0),
{
    if args.len() > 0 {
        crate::json::lemma_wf_seq_elem(args, 0);
    }
    if args.len() > 1 {
        crate::json::lemma_wf_seq_elem(args, 1);
    }
    if args.len() > 2 {
        crate::json::lemma_wf_seq_elem(args, 2);
    }
}

/// What a successful evaluation yields is well formed.
pub proof fn lemma_eval_wf(e: EV, env: Seq<(Seq<char>, JVal)>, rng: u64)
    requires
        env_wf(env),
    ensures
        eval_expr(e, env, rng).0 is Some ==> wf(eval_expr(e, env, rng).0->0),
    decreases e,
{
    match e {
        EV::Var(n) => {
            if obj_lookup(env, n) is Some {
                lemma_obj_lookup_wf(env, n);
            }
        },
        EV::Member(b, n) => {
            lemma_eval_wf(*b, env, rng);
            let inner = eval_expr(*b, env, rng);
            match inner.0 {
                Some(JVal::Obj(fs)) => {
                    if obj_lookup(fs, n) is Some {
                        lemma_obj_lookup_wf(fs, n);
                    }
                },
                _ => {},
            }
        },
        EV::Add(a, b) => {
            lemma_eval_wf(*a, env, rng);
            let left = eval_expr(*a, env, rng);
            match left.0 {
                Some(lv) => {
                    lemma_eval_wf(*b, env, left.1);
                    let right = eval_expr(*b, env, left.1);
                    match right.0 {
                        Some(rv) => {
                            if add_vals(lv, rv) is Some {
                                lemma_add_vals_wf(lv, rv);
                            }
                        },
                        None => {},
                    }
                },
                None => {},
            }
        },
        EV::Arr(es) => {
            lemma_eval_list_wf(es, env, rng);
        },
        EV::Obj(fes) => {
            lemma_eval_obj_wf(fes, env, rng);
        },
        EV::Call(name, args) => {
            lemma_eval_list_wf(args, env, rng);
            let items = eval_list(args, env, rng);
            match items.0 {
                Some(vs) => {
                    if call_builtin(name, vs, items.1).0 is Some {
                        lemma_call_builtin_wf(name, vs, items.1);
                    }
                },
                None => {},
            }
        },
        _ => {},
    }
}

/// What a successful list evaluation yields is well formed.
pub proof fn lemma_eval_list_wf(es: Seq<EV>, env: Seq<(Seq<char>, JVal)>, rng: u64)
    requires
        env_wf(env),
    ensures
        eval_list(es, env, rng).0 is Some ==> wf_seq(eval_list(es, env, rng).0->0),
    decreases es,
{
    if es.len() > 0 {
        lemma_eval_list_wf(es.drop_last(), env, rng);
        let prev = eval_list(es.drop_last(), env, rng);
        match prev.0 {
            Some(ps) => {
                lemma_eval_wf(es.last(), env, prev.1);
                let lastv = eval_expr(es.last(), env, prev.1);
                match lastv.0 {
                    Some(v) => {
                        assert(ps.push(v).drop_last() =~= ps);
                    },
                    None => {},
                }
            },
            None => {},
        }
    }
}

/// What a successful object literal evaluation yields is well formed.
pub proof fn lemma_eval_obj_wf(fes: Seq<(Seq<char>, EV)>, env: Seq<(Seq<char>, JVal)>, rng: u64)
    requires
        env_wf(env),
    ensures
        eval_obj(fes, env, rng).0 is Some ==> wf_fields(eval_obj(fes, env, rng).0->0)
            && distinct_keys(eval_obj(fes, env, rng).0->0),
    decreases fes,
{
    if fes.len() > 0 {
        lemma_eval_obj_wf(fes.drop_last(), env, rng);
        let prev = eval_obj(fes.drop_last(), env, rng);
        match prev.0 {
            Some(ps) => {
                lemma_eval_wf(fes.last().1, env, prev.1);
                let lastv = eval_expr(fes.last().1, env, prev.1);
                match lastv.0 {
                    Some(v) => {
                        lemma_obj_set_wf(ps, fes.last().0, v);
                    },
                    None => {},
                }
            },
            None => {},
        }
    }
}

/// Running statements keeps the environment well formed.
pub proof fn lemma_run_stmts_wf(
    stmts: Seq<(Seq<char>, EV)>,
    env: Seq<(Seq<char>, JVal)>,
    rng: u64,
)
    requires
        env_wf(env),
    ensures
        run_stmts(stmts, env, rng).0 is Some ==> env_wf(run_stmts(stmts, env, rng).0->0),
    decreases stmts,
{
    if stmts.len() > 0 {
        lemma_run_stmts_wf(stmts.drop_last(), env, rng);
        let prev = run_stmts(stmts.drop_last(), env, rng);
        match prev.0 {
            Some(env2) => {
                lemma_eval_wf(stmts.last().1, env2, prev.1);
                let lastv = eval_expr(stmts.last().1, env2, prev.1);
                match lastv.0 {
                    Some(v) => {
                        lemma_obj_set_wf(env2, stmts.last().0, v);
                    },
                    None => {},
                }
            },
            None => {},
        }
    }
}

/// What running a program text yields, when it yields, is well formed.
pub proof fn lemma_run_code_wf(env: Seq<(Seq<char>, JVal)>, code: Seq<char>, rng: u64)
    requires
        env_wf(env),
    ensures
        run_code(env, code, rng).0 is Some ==> wf(run_code(env, code, rng).0->0),
{
    match parse_code(code) {
        Some((stmts, res)) => {
            lemma_run_stmts_wf(stmts, env, rng);
            let after = run_stmts(stmts, env, rng);
            match after.0 {
                Some(env2) => {
                    match res {
                        Some(e) => {
                            lemma_eval_wf(e, env2, after.1);
                        },
                        None => {},
                    }
                },
                None => {},
            }
        },
        None => {},
    }
}

/// An error in a prefix of the list is the whole list's result.
pub proof fn lemma_eval_list_stops(es: Seq<EV>, env: Seq<(Seq<char>, JVal)>, rng: u64, k: int)
    requires
        0 <= k <= es.len(),
        eval_list(es.take(k), env, rng).0 is None,
    ensures
        eval_list(es, env, rng) == eval_list(es.take(k), env, rng),
    decreases es.len(),
{
    if k == es.len() {
        assert(es.take(k) =~= es);
    } else {
        assert(es.drop_last().take(k) =~= es.take(k));
        lemma_eval_list_stops(es.drop_last(), env, rng, k);
    }
}

/// An error in a prefix of the fields is the whole literal's result.
pub proof fn lemma_eval_obj_stops(
    fes: Seq<(Seq<char>, EV)>,
    env: Seq<(Seq<char>, JVal)>,
    rng: u64,
    k: int,
)
    requires
        0 <= k <= fes.len(),
        eval_obj(fes.take(k), env, rng).0 is None,
    ensures
        eval_obj(fes, env, rng) == eval_obj(fes.take(k), env, rng),
    decreases fes.len(),
{
    if k == fes.len() {
        assert(fes.take(k) =~= fes);
    } else {
        assert(fes.drop_last().take(k) =~= fes.take(k));
        lemma_eval_obj_stops(fes.drop_last(), env, rng, k);
    }
}

/// An error in a prefix of the statements is the whole run's result.
pub proof fn lemma_run_stmts_stops(
    stmts: Seq<(Seq<char>, EV)>,
    env: Seq<(Seq<char>, JVal)>,
    rng: u64,
    k: int,
)
    requires
        0 <= k <= stmts.len(),
        run_stmts(stmts.take(k), env, rng).0 is None,
    ensures
        run_stmts(stmts, env, rng) == run_stmts(stmts.take(k), env, rng),
    decreases stmts.len(),
{
    if k == stmts.len() {
        assert(stmts.take(k) =~= stmts);
    } else {
        assert(stmts.drop_last().take(k) =~= stmts.take(k));
        lemma_run_stmts_stops(stmts.drop_last(), env, rng, k);
    }
}

/// The first position at or after `pos` that cannot continue an
/// identifier.
fn ident_to(cs: &Vec<char>, pos: usize) -> (r: usize)
    requires
        pos <= cs@.len(),
    ensures
        r == ident_end(cs@, pos as int),
        pos <= r <= cs@.len(),
{
    let mut i: usize = pos;
    while i < cs.len() && (('a' <= cs[i] && cs[i] <= 'z') || ('A' <= cs[i] && cs[i] <= 'Z')
        || cs[i] == '_' || cs[i] == '$' || ('0' <= cs[i] && cs[i] <= '9'))
        invariant
            pos <= i <= cs@.len(),
            ident_end(cs@, pos as int) == ident_end(cs@, i as int),
        decreases cs@.len() - i,
    {
        i += 1;
    }
    i
}

/// The characters between two positions.
pub(crate) fn copy_range(cs: &Vec<char>, a: usize, b: usize) -> (r: Vec<char>)
    requires
        a <= b <= cs@.len(),
    ensures
        r@ == cs@.subrange(a as int, b as int),
{
    let mut out: Vec<char> = Vec::new();
    let mut j: usize = a;
    proof {
        assert(out@ =~= cs@.subrange(a as int, a as int));
    }
    while j < b
        invariant
            a <= j <= b <= cs@.len(),
            out@ == cs@.subrange(a as int, j as int),
        decreases b - j,
    {
        let c = cs[j];
        out.push(c);
        proof {
            assert(cs@.subrange(a as int, j as int).push(c) =~= cs@.subrange(
                a as int,
                j + 1 as int,
            ));
        }
        j += 1;
    }
    out
}

/// Scans a plain string literal body up to the closing quote.
fn scan_str_exec(cs: &Vec<char>, pos: usize, quote: char) -> (r: Option<(Vec<char>, usize)>)
    requires
        pos <= cs@.len(),
    ensures
        match r {
            Some(p) => scan_str(cs@, pos as int, quote) == Some((p.0@, p.1 as int)) && p.1
                <= cs@.len(),
            None => scan_str(cs@, pos as int, quote) is None,
        },
    decreases cs@.len() - pos,
{
    if pos >= cs.len() {
        return None;
    }
    let c = cs[pos];
    if c == quote {
        let empty: Vec<char> = Vec::new();
        proof {
            assert(empty@ =~= Seq::<char>::empty());
        }
        return Some((empty, pos + 1));
    }
    match scan_str_exec(cs, pos + 1, quote) {
        None => None,
        Some((mut t, q)) => {
            let ghost tp = t@;
            t.insert(0, c);
            proof {
                assert(t@ =~= seq![c] + tp);
            }
            Some((t, q))
        },
    }
}

/// Whether the identifier characters spell a given word.
fn word_is(cs: &Vec<char>, a: usize, b: usize, w: &str) -> (r: bool)
    requires
        a <= b <= cs@.len(),
    ensures
        r == (cs@.subrange(a as int, b as int) == w@),
{
    let seg = copy_range(cs, a, b);
    let segs = crate::strutil::chars_to_string(&seg);
    crate::strutil::str_eq(segs.as_str(), w)
}

fn atom_exec(cs: &Vec<char>, pos: usize, fuel: usize) -> (r: Option<(Expr, usize)>)
    requires
        pos <= cs@.len(),
    ensures
        match r {
            Some(p) => p_atom(cs@, pos as int, fuel as nat) == Some((p.0@, p.1 as int)) && p.1
                <= cs@.len(),
            None => p_atom(cs@, pos as int, fuel as nat) is None,
        },
    decreases fuel,
{
    if fuel == 0 || pos >= cs.len() {
        return None;
    }
    let c = cs[pos];
    if c == '\'' || c == '"' {
        match scan_str_exec(cs, pos + 1, c) {
            None => None,
            Some((t, q)) => Some((Expr::Str(crate::strutil::chars_to_string(&t)), q)),
        }
    } else if c == '-' || ('0' <= c && c <= '9') {
        match p_number_exec(cs, pos) {
            None => None,
            Some((n, q)) => Some((Expr::Num(n), q)),
        }
    } else if c == '[' {
        let q = ws_to(cs, pos + 1);
        if q < cs.len() && cs[q] == ']' {
            let empty: Vec<Expr> = Vec::new();
            proof {
                assert(ev_seq(empty@) =~= Seq::<EV>::empty());
            }
            Some((Expr::Arr(empty), q + 1))
        } else {
            let acc: Vec<Expr> = Vec::new();
            proof {
                assert(ev_seq(acc@) =~= Seq::<EV>::empty());
            }
            match args_exec(cs, q, ']', acc, fuel - 1) {
                None => None,
                Some((es, q2)) => Some((Expr::Arr(es), q2)),
            }
        }
    } else if c == '{' {
        let q = ws_to(cs, pos + 1);
        if q < cs.len() && cs[q] == '}' {
            let empty: Vec<(String, Expr)> = Vec::new();
            proof {
                assert(ev_fields(empty@) =~= Seq::<(Seq<char>, EV)>::empty());
            }
            Some((Expr::Obj(empty), q + 1))
        } else {
            let acc: Vec<(String, Expr)> = Vec::new();
            proof {
                assert(ev_fields(acc@) =~= Seq::<(Seq<char>, EV)>::empty());
            }
            match pairs_exec(cs, q, acc, fuel - 1) {
                None => None,
                Some((fs, q2)) => Some((Expr::Obj(fs), q2)),
            }
        }
    } else if ('a' <= c && c <= 'z') || ('A' <= c && c <= 'Z') || c == '_' || c == '$' {
        let e = ident_to(cs, pos);
        let namev = copy_range(cs, pos, e);
        let name = crate::strutil::chars_to_string(&namev);
        proof {
            reveal_strlit("true");
            reveal_strlit("false");
            reveal_strlit("null");
            reveal_strlit("var");
            assert("true"@ =~= seq!['t', 'r', 'u', 'e']);
            assert("false"@ =~= seq!['f', 'a', 'l', 's', 'e']);
            assert("null"@ =~= seq!['n', 'u', 'l', 'l']);
            assert("var"@ =~= seq!['v', 'a', 'r']);
        }
        if crate::strutil::str_eq(name.as_str(), "true") {
            Some((Expr::Bool(true), e))
        } else if crate::strutil::str_eq(name.as_str(), "false") {
            Some((Expr::Bool(false), e))
        } else if crate::strutil::str_eq(name.as_str(), "null") {
            Some((Expr::Null, e))
        } else if crate::strutil::str_eq(name.as_str(), "var") {
            None
        } else if e < cs.len() && cs[e] == '(' {
            let q = ws_to(cs, e + 1);
            if q < cs.len() && cs[q] == ')' {
                let empty: Vec<Expr> = Vec::new();
                proof {
                    assert(ev_seq(empty@) =~= Seq::<EV>::empty());
                }
                Some((Expr::Call(name, empty), q + 1))
            } else {
                let acc: Vec<Expr> = Vec::new();
                proof {
                    assert(ev_seq(acc@) =~= Seq::<EV>::empty());
                }
                match args_exec(cs, q, ')', acc, fuel - 1) {
                    None => None,
                    Some((es, q2)) => Some((Expr::Call(name, es), q2)),
                }
            }
        } else {
            Some((Expr::Var(name), e))
        }
    } else {
        None
    }
}

fn args_exec(cs: &Vec<char>, pos: usize, term: char, acc: Vec<Expr>, fuel: usize) -> (r: Option<
    (Vec<Expr>, usize),
>)
    requires
        pos <= cs@.len(),
    ensures
        match r {
            Some(p) => p_args(cs@, pos as int, term, ev_seq(acc@), fuel as nat) == Some(
                (ev_seq(p.0@), p.1 as int),
            ) && p.1 <= cs@.len(),
            None => p_args(cs@, pos as int, term, ev_seq(acc@), fuel as nat) is None,
        },
    decreases fuel,
{
    if fuel == 0 {
        return None;
    }
    match expr_exec(cs, pos, fuel - 1) {
        None => None,
        Some((e, q)) => {
            let q2 = ws_to(cs, q);
            let mut acc2 = acc;
            let ghost prev = acc2@;
            acc2.push(e);
            proof {
                assert(acc2@.drop_last() =~= prev);
            }
            if q2 < cs.len() && cs[q2] == ',' {
                let q3 = ws_to(cs, q2 + 1);
                args_exec(cs, q3, term, acc2, fuel - 1)
            } else if q2 < cs.len() && cs[q2] == term {
                Some((acc2, q2 + 1))
            } else {
                None
            }
        },
    }
}

fn pairs_exec(cs: &Vec<char>, pos: usize, acc: Vec<(String, Expr)>, fuel: usize) -> (r: Option<
    (Vec<(String, Expr)>, usize),
>)
    requires
        pos <= cs@.len(),
    ensures
        match r {
            Some(p) => p_pairs(cs@, pos as int, ev_fields(acc@), fuel as nat) == Some(
                (ev_fields(p.0@), p.1 as int),
            ) && p.1 <= cs@.len(),
            None => p_pairs(cs@, pos as int, ev_fields(acc@), fuel as nat) is None,
        },
    decreases fuel,
{
    if fuel == 0 || pos >= cs.len() {
        return None;
    }
    let c = cs[pos];
    let keyres: Option<(Vec<char>, usize)> = if c == '\'' || c == '"' {
        scan_str_exec(cs, pos + 1, c)
    } else if ('a' <= c && c <= 'z') || ('A' <= c && c <= 'Z') || c == '_' || c == '$' {
        let e = ident_to(cs, pos);
        Some((copy_range(cs, pos, e), e))
    } else {
        None
    };
    match keyres {
        None => None,
        Some((kcs, q)) => {
            let q2 = ws_to(cs, q);
            if !(q2 < cs.len() && cs[q2] == ':') {
                return None;
            }
            let q3 = ws_to(cs, q2 + 1);
            match expr_exec(cs, q3, fuel - 1) {
                None => None,
                Some((e, q4)) => {
                    let q5 = ws_to(cs, q4);
                    let mut acc2 = acc;
                    let ghost prev = acc2@;
                    let kname = crate::strutil::chars_to_string(&kcs);
                    acc2.push((kname, e));
                    proof {
                        assert(acc2@.drop_last() =~= prev);
                    }
                    if q5 < cs.len() && cs[q5] == ',' {
                        let q6 = ws_to(cs, q5 + 1);
                        pairs_exec(cs, q6, acc2, fuel - 1)
                    } else if q5 < cs.len() && cs[q5] == '}' {
                        Some((acc2, q5 + 1))
                    } else {
                        None
                    }
                },
            }
        },
    }
}

fn members_exec(cs: &Vec<char>, pos: usize, e: Expr, fuel: usize) -> (r: Option<(Expr, usize)>)
    requires
        pos <= cs@.len(),
    ensures
        match r {
            Some(p) => p_members(cs@, pos as int, e@, fuel as nat) == Some((p.0@, p.1 as int))
                && p.1 <= cs@.len(),
            None => p_members(cs@, pos as int, e@, fuel as nat) is None,
        },
    decreases fuel,
{
    if fuel == 0 {
        return None;
    }
    let q = ws_to(cs, pos);
    if q < cs.len() && cs[q] == '.' {
        let q2 = ws_to(cs, q + 1);
        if q2 < cs.len() && (('a' <= cs[q2] && cs[q2] <= 'z') || ('A' <= cs[q2] && cs[q2] <= 'Z')
            || cs[q2] == '_' || cs[q2] == '$') {
            let e2 = ident_to(cs, q2);
            let namev = copy_range(cs, q2, e2);
            let name = crate::strutil::chars_to_string(&namev);
            members_exec(cs, e2, Expr::Member(Box::new(e), name), fuel - 1)
        } else {
            None
        }
    } else {
        Some((e, pos))
    }
}

fn term_exec(cs: &Vec<char>, pos: usize, fuel: usize) -> (r: Option<(Expr, usize)>)
    requires
        pos <= cs@.len(),
    ensures
        match r {
            Some(p) => p_term(cs@, pos as int, fuel as nat) == Some((p.0@, p.1 as int)) && p.1
                <= cs@.len(),
            None => p_term(cs@, pos as int, fuel as nat) is None,
        },
    decreases fuel,
{
    if fuel == 0 {
        return None;
    }
    match atom_exec(cs, pos, fuel - 1) {
        None => None,
        Some((e, q)) => members_exec(cs, q, e, fuel - 1),
    }
}

fn addchain_exec(cs: &Vec<char>, pos: usize, left: Expr, fuel: usize) -> (r: Option<(Expr, usize)>)
    requires
        pos <= cs@.len(),
    ensures
        match r {
            Some(p) => p_addchain(cs@, pos as int, left@, fuel as nat) == Some((p.0@, p.1 as int))
                && p.1 <= cs@.len(),
            None => p_addchain(cs@, pos as int, left@, fuel as nat) is None,
        },
    decreases fuel,
{
    if fuel == 0 {
        return None;
    }
    let q = ws_to(cs, pos);
    if q < cs.len() && cs[q] == '+' {
        let q2 = ws_to(cs, q + 1);
        match term_exec(cs, q2, fuel - 1) {
            None => None,
            Some((t, q3)) => addchain_exec(cs, q3, Expr::Add(Box::new(left), Box::new(t)), fuel - 1),
        }
    } else {
        Some((left, pos))
    }
}

fn expr_exec(cs: &Vec<char>, pos: usize, fuel: usize) -> (r: Option<(Expr, usize)>)
    requires
        pos <= cs@.len(),
    ensures
        match r {
            Some(p) => p_expr(cs@, pos as int, fuel as nat) == Some((p.0@, p.1 as int)) && p.1
                <= cs@.len(),
            None => p_expr(cs@, pos as int, fuel as nat) is None,
        },
    decreases fuel,
{
    if fuel == 0 {
        return None;
    }
    match term_exec(cs, pos, fuel - 1) {
        None => None,
        Some((e, q)) => addchain_exec(cs, q, e, fuel - 1),
    }
}

fn stmts_exec(cs: &Vec<char>, pos: usize, acc: Vec<(String, Expr)>, fuel: usize) -> (r: Option<
    (Vec<(String, Expr)>, Option<Expr>),
>)
    requires
        pos <= cs@.len(),
    ensures
        match r {
            Some(p) => {
                let sp = p_stmts(cs@, pos as int, ev_fields(acc@), fuel as nat);
                sp is Some && (sp->0).0 == ev_fields(p.0@) && (match p.1 {
                    Some(e) => (sp->0).1 == Some(e@),
                    None => (sp->0).1 is None,
                })
            },
            None => p_stmts(cs@, pos as int, ev_fields(acc@), fuel as nat) is None,
        },
    decreases fuel,
{
    if fuel == 0 {
        return None;
    }
    let q = ws_to(cs, pos);
    if q >= cs.len() {
        return Some((acc, None));
    }
    let isword = (('a' <= cs[q] && cs[q] <= 'z') || ('A' <= cs[q] && cs[q] <= 'Z') || cs[q] == '_'
        || cs[q] == '$');
    let mut isvar = false;
    let mut ide: usize = q;
    if isword {
        ide = ident_to(cs, q);
        proof {
            reveal_strlit("var");
            assert("var"@ =~= seq!['v', 'a', 'r']);
        }
        isvar = word_is(cs, q, ide, "var");
    }
    if isvar {
        let i0 = ws_to(cs, ide);
        if i0 < cs.len() && (('a' <= cs[i0] && cs[i0] <= 'z') || ('A' <= cs[i0] && cs[i0] <= 'Z')
            || cs[i0] == '_' || cs[i0] == '$') {
            let i1 = ident_to(cs, i0);
            let namev = copy_range(cs, i0, i1);
            let name = crate::strutil::chars_to_string(&namev);
            let a0 = ws_to(cs, i1);
            if a0 < cs.len() && cs[a0] == '=' {
                let a1 = ws_to(cs, a0 + 1);
                match expr_exec(cs, a1, fuel - 1) {
                    None => None,
                    Some((e, q2)) => {
                        let q3 = ws_to(cs, q2);
                        if q3 < cs.len() && cs[q3] == ';' {
                            let mut acc2 = acc;
                            let ghost prev = acc2@;
                            acc2.push((name, e));
                            proof {
                                assert(acc2@.drop_last() =~= prev);
                            }
                            stmts_exec(cs, q3 + 1, acc2, fuel - 1)
                        } else {
                            None
                        }
                    },
                }
            } else {
                None
            }
        } else {
            None
        }
    } else {
        match expr_exec(cs, q, fuel - 1) {
            None => None,
            Some((e, q2)) => {
                let q3 = ws_to(cs, q2);
                if q3 >= cs.len() {
                    Some((acc, Some(e)))
                } else if cs[q3] == ';' {
                    let q4 = ws_to(cs, q3 + 1);
                    if q4 >= cs.len() {
                        Some((acc, Some(e)))
                    } else {
                        None
                    }
                } else {
                    None
                }
            },
        }
    }
}

/// Parses a program text.
pub fn parse_code_exec(code: &str) -> (r: Option<(Vec<(String, Expr)>, Option<Expr>)>)
    ensures
        match r {
            Some(p) => {
                let sp = parse_code(code@);
                sp is Some && (sp->0).0 == ev_fields(p.0@) && (match p.1 {
                    Some(e) => (sp->0).1 == Some(e@),
                    None => (sp->0).1 is None,
                })
            },
            None => parse_code(code@) is None,
        },
{
    let cs = str_to_chars(code);
    let doubled = match cs.len().checked_mul(2) {
        Some(d) => d,
        None => {
            return None;
        },
    };
    let fuel = match doubled.checked_add(2) {
        Some(f) => f,
        None => {
            return None;
        },
    };
    let acc: Vec<(String, Expr)> = Vec::new();
    proof {
        assert(ev_fields(acc@) =~= Seq::<(Seq<char>, EV)>::empty());
    }
    stmts_exec(&cs, 0, acc, fuel)
}

/// The seed actually used: a fixed odd constant stands in for zero,
/// which the xorshift generator would never leave.
pub open spec fn seed_fix(seed: u64) -> u64 {
    if seed == 0 {
        0x9e3779b97f4a7c15u64
    } else {
        seed
    }
}

/// The sum of two well-formed values.
fn add_vals_exec(a: &JsonValue, b: &JsonValue) -> (r: Option<JsonValue>)
    requires
        wf(a@),
        wf(b@),
    ensures
        match r {
            Some(v) => add_vals(a@, b@) == Some(v@) && wf(v@),
            None => add_vals(a@, b@) is None,
        },
{
    proof {
        if add_vals(a@, b@) is Some {
            lemma_add_vals_wf(a@, b@);
        }
    }
    match (a, b) {
        (JsonValue::Num(n1), JsonValue::Num(n2)) => {
            let sc: u8 = if n1.scale >= n2.scale {
                n1.scale
            } else {
                n2.scale
            };
            let p1 = crate::json::pow10_i128(sc - n1.scale);
            let p2 = crate::json::pow10_i128(sc - n2.scale);
            proof {
                assert((n1.mant as i128) * p1 == (n1.mant as int) * (p1 as int)
                    && -9223372036854775808000000000000000000 <= (n1.mant as int) * (p1 as int)
                    <= 9223372036854775808000000000000000000) by (nonlinear_arith)
                    requires
                        i64::MIN <= n1.mant <= i64::MAX,
                        1 <= p1 <= 1000000000000000000,
                {}
                assert((n2.mant as i128) * p2 == (n2.mant as int) * (p2 as int)
                    && -9223372036854775808000000000000000000 <= (n2.mant as int) * (p2 as int)
                    <= 9223372036854775808000000000000000000) by (nonlinear_arith)
                    requires
                        i64::MIN <= n2.mant <= i64::MAX,
                        1 <= p2 <= 1000000000000000000,
                {}
            }
            let m: i128 = (n1.mant as i128) * p1 + (n2.mant as i128) * p2;
            if (i64::MIN as i128) <= m && m <= (i64::MAX as i128) {
                Some(JsonValue::Num(JsonNum { mant: m as i64, scale: sc }))
            } else {
                None
            }
        },
        (JsonValue::Str(x), yb) => {
            let mut out = x.clone();
            let rendered = yb.render();
            out.append(rendered.as_str());
            Some(JsonValue::Str(out))
        },
        (xa, JsonValue::Str(y)) => {
            let mut out = xa.render();
            out.append(y.as_str());
            Some(JsonValue::Str(out))
        },
        _ => None,
    }
}

/// The default alphabet, executed.
fn default_alpha_exec() -> (r: Vec<char>)
    ensures
        r@ == default_alpha(),
{
    proof {
        reveal_strlit("abcdefghijklmnopqrstuvwxyzABCDEFGHIJKLMNOPQRSTUVWXYZ0123456789");
    }
    let v = str_to_chars("abcdefghijklmnopqrstuvwxyzABCDEFGHIJKLMNOPQRSTUVWXYZ0123456789");
    proof {
        assert(v@ =~= default_alpha());
    }
    v
}

/// `n` characters drawn from the alphabet.
fn gen_string_exec(alpha: &Vec<char>, n: usize, rng: u64) -> (r: (Vec<char>, u64))
    ensures
        (r.0@, r.1) == gen_string(alpha@, n as nat, rng),
{
    let mut out: Vec<char> = Vec::new();
    let mut cur: u64 = rng;
    let mut k: usize = 0;
    while k < n
        invariant
            k <= n,
            (out@, cur) == gen_string(alpha@, k as nat, rng),
        decreases n - k,
    {
        let r = rng_step(cur);
        let c: char = if alpha.len() > 0 {
            alpha[(r % (alpha.len() as u64)) as usize]
        } else {
            '?'
        };
        out.push(c);
        cur = r;
        k += 1;
    }
    (out, cur)
}

/// The character of a hexadecimal digit value.
fn hex_char_of(d: u8) -> (r: char)
    ensures
        r == hex_char(d as int),
{
    match d {
        1 => '1',
        2 => '2',
        3 => '3',
        4 => '4',
        5 => '5',
        6 => '6',
        7 => '7',
        8 => '8',
        9 => '9',
        10 => 'a',
        11 => 'b',
        12 => 'c',
        13 => 'd',
        14 => 'e',
        15 => 'f',
        _ => '0',
    }
}

/// All sixteen hexadecimal digits of a word, most significant first.
fn hex_seq_exec(x: u64) -> (r: Vec<char>)
    ensures
        r@ == hex_seq(x, 16),
        r@.len() == 16,
{
    proof {
        lemma_hex_seq_len(x, 16);
    }
    let mut out: Vec<char> = Vec::new();
    let mut j: usize = 0;
    while j < 16
        invariant
            j <= 16,
            out@ == hex_seq(x, j as nat),
            out@.len() == j,
        decreases 16 - j,
    {
        let sh: u64 = ((15 - j) as u64) * 4;
        proof {
            assert((x >> sh) & 0xf <= 15) by (bit_vector);
            assert(sh == ((16 - (j + 1 as nat)) * 4) as u64);
        }
        let nib: u8 = ((x >> sh) & 0xf) as u8;
        out.push(hex_char_of(nib));
        j += 1;
    }
    out
}

pub proof fn lemma_hex_seq_len(x: u64, k: nat)
    ensures
        hex_seq(x, k).len() == k,
    decreases k,
{
    if k > 0 {
        lemma_hex_seq_len(x, (k - 1) as nat);
    }
}

/// A canonical version-4 UUID text from two random words.
#[verifier::rlimit(80)]
fn uuid_exec(r1: u64, r2: u64) -> (r: Vec<char>)
    ensures
        r@ == uuid_text(r1, r2),
{
    let h1 = hex_seq_exec(r1);
    let h2 = hex_seq_exec(r2);
    let mut out = copy_range(&h1, 0, 8);
    out.push('-');
    let part2 = copy_range(&h1, 8, 12);
    crate::jsontext::extend_chars(&mut out, &part2);
    out.push('-');
    out.push('4');
    let part3 = copy_range(&h1, 13, 16);
    crate::jsontext::extend_chars(&mut out, &part3);
    out.push('-');
    proof {
        assert((r2 >> 62u64) & 0x3 <= 3) by (bit_vector);
    }
    let vb: u8 = (8 + ((r2 >> 62u64) & 0x3)) as u8;
    out.push(hex_char_of(vb));
    let part4 = copy_range(&h2, 1, 4);
    crate::jsontext::extend_chars(&mut out, &part4);
    out.push('-');
    let part5 = copy_range(&h2, 4, 16);
    crate::jsontext::extend_chars(&mut out, &part5);
    proof {
        assert(out@ =~= uuid_text(r1, r2));
    }
    out
}

/// Whether the value is a machine integer, and that integer.
fn as_i64_exec(v: &JsonValue) -> (r: Option<i64>)
    ensures
        match r {
            Some(m) => as_i64(v@) == Some(m as int),
            None => as_i64(v@) is None,
        },
{
    match v {
        JsonValue::Num(n) => {
            if n.scale == 0 {
                Some(n.mant)
            } else {
                None
            }
        },
        _ => None,
    }
}

/// A call of a prelude function.
#[verifier::rlimit(80)]
fn call_builtin_exec(name: &String, args: &Vec<JsonValue>, rng: u64) -> (r: (
    Option<JsonValue>,
    u64,
))
    requires
        wf_seq(jv_seq(args@)),
    ensures
        ({
            let sp = call_builtin(name@, jv_seq(args@), rng);
            r.1 == sp.1 && (match r.0 {
                Some(v) => sp.0 == Some(v@),
                None => sp.0 is None,
            })
        }),
{
    proof {
        reveal_strlit("randomInt");
        reveal_strlit("randomLong");
        reveal_strlit("randomString");
        reveal_strlit("UUID");
        assert("randomInt"@ =~= seq!['r', 'a', 'n', 'd', 'o', 'm', 'I', 'n', 't']);
        assert("randomLong"@ =~= seq!['r', 'a', 'n', 'd', 'o', 'm', 'L', 'o', 'n', 'g']);
        assert("randomString"@ =~= seq!['r', 'a', 'n', 'd', 'o', 'm', 'S', 't', 'r', 'i', 'n', 'g']);
        assert("UUID"@ =~= seq!['U', 'U', 'I', 'D']);
        lemma_jv_seq(args@);
    }
    let is_int = crate::strutil::str_eq(name.as_str(), "randomInt") || crate::strutil::str_eq(
        name.as_str(),
        "randomLong",
    );
    if is_int {
        if args.len() == 1 {
            match as_i64_exec(&args[0]) {
                Some(m) if m > 0 => {
                    let r = rng_step(rng);
                    let val: u64 = r % (m as u64);
                    (Some(JsonValue::Num(JsonNum { mant: val as i64, scale: 0 })), r)
                },
                _ => (None, rng),
            }
        } else if args.len() == 2 {
            let lo_op = as_i64_exec(&args[0]);
            let hi_op = as_i64_exec(&args[1]);
            match (lo_op, hi_op) {
                (Some(lo), Some(hi)) if hi > lo => {
                    let r = rng_step(rng);
                    let d: i128 = (hi as i128) - (lo as i128);
                    let rm: i128 = (r as i128) % d;
                    let val: i128 = (lo as i128) + rm;
                    (Some(JsonValue::Num(JsonNum { mant: val as i64, scale: 0 })), r)
                },
                _ => (None, rng),
            }
        } else {
            (None, rng)
        }
    } else if crate::strutil::str_eq(name.as_str(), "randomString") {
        if args.len() == 1 {
            match as_i64_exec(&args[0]) {
                Some(n) if 0 <= n && n <= 65536 => {
                    let alpha = default_alpha_exec();
                    let out = gen_string_exec(&alpha, n as usize, rng);
                    (Some(JsonValue::Str(chars_to_string(&out.0))), out.1)
                },
                _ => (None, rng),
            }
        } else if args.len() == 3 {
            let lo_op = as_i64_exec(&args[1]);
            let hi_op = as_i64_exec(&args[2]);
            match (&args[0], lo_op, hi_op) {
                (JsonValue::Str(alpha_s), Some(lo), Some(hi)) => {
                    let alpha = str_to_chars(alpha_s.as_str());
                    if alpha.len() > 0 && 0 <= lo && lo < hi && hi <= 65536 {
                        let r = rng_step(rng);
                        let d: i128 = (hi as i128) - (lo as i128);
                        let rm: i128 = (r as i128) % d;
                        let n: i128 = (lo as i128) + rm;
                        let out = gen_string_exec(&alpha, n as usize, r);
                        (Some(JsonValue::Str(chars_to_string(&out.0))), out.1)
                    } else {
                        (None, rng)
                    }
                },
                _ => (None, rng),
            }
        } else {
            (None, rng)
        }
    } else if crate::strutil::str_eq(name.as_str(), "UUID") {
        if args.len() == 0 {
            let r1 = rng_step(rng);
            let r2 = rng_step(r1);
            let u = uuid_exec(r1, r2);
            (Some(JsonValue::Str(chars_to_string(&u))), r2)
        } else {
            (None, rng)
        }
    } else {
        (None, rng)
    }
}

/// Evaluates one expression.
#[verifier::loop_isolation(false)]
#[verifier::rlimit(90)]
fn eval_expr_exec(e: &Expr, env: &Vec<(String, JsonValue)>, rng: u64) -> (r: (
    Option<JsonValue>,
    u64,
))
    requires
        env_wf(jv_fields(env@)),
    ensures
        ({
            let sp = eval_expr(e@, jv_fields(env@), rng);
            r.1 == sp.1 && (match r.0 {
                Some(v) => sp.0 == Some(v@) && wf(v@),
                None => sp.0 is None,
            })
        }),
    decreases *e,
{
    proof {
        lemma_eval_wf(e@, jv_fields(env@), rng);
    }
    match e {
        Expr::Null => (Some(JsonValue::Null), rng),
        Expr::Bool(b) => (Some(JsonValue::Bool(*b)), rng),
        Expr::Num(n) => {
            if n.scale <= 18 {
                (Some(JsonValue::Num(*n)), rng)
            } else {
                (None, rng)
            }
        },
        Expr::Str(t) => (Some(JsonValue::Str(t.clone())), rng),
        Expr::Var(n) => {
            match lookup_field(env, n.as_str()) {
                Some(v) => {
                    proof {
                        lemma_obj_lookup_wf(jv_fields(env@), n@);
                    }
                    (Some(v.duplicate()), rng)
                },
                None => (None, rng),
            }
        },
        Expr::Member(b, n) => {
            proof {
                assert(decreases_to!(*e => **b));
            }
            let inner = eval_expr_exec(&**b, env, rng);
            match inner.0 {
                Some(JsonValue::Obj(fs)) => {
                    match lookup_field(&fs, n.as_str()) {
                        Some(v) => {
                            proof {
                                lemma_obj_lookup_wf(jv_fields(fs@), n@);
                            }
                            (Some(v.duplicate()), inner.1)
                        },
                        None => (None, inner.1),
                    }
                },
                Some(_) => (None, inner.1),
                None => (None, inner.1),
            }
        },
        Expr::Add(a, b) => {
            proof {
                assert(decreases_to!(*e => **a));
                assert(decreases_to!(*e => **b));
            }
            let left = eval_expr_exec(&**a, env, rng);
            match left.0 {
                None => (None, left.1),
                Some(lv) => {
                    let right = eval_expr_exec(&**b, env, left.1);
                    match right.0 {
                        None => (None, right.1),
                        Some(rv) => (add_vals_exec(&lv, &rv), right.1),
                    }
                },
            }
        },
        Expr::Arr(es) => {
            let out = eval_list_exec(es, env, rng);
            match out.0 {
                None => (None, out.1),
                Some(vs) => (Some(JsonValue::Arr(vs)), out.1),
            }
        },
        Expr::Obj(fes) => {
            proof {
                lemma_ev_fields(fes@);
            }
            let ghost fv = ev_fields(fes@);
            let mut accv: Vec<(String, JsonValue)> = Vec::new();
            let mut cur: u64 = rng;
            let mut k: usize = 0;
            proof {
                assert(jv_fields(accv@) =~= Seq::<(Seq<char>, JVal)>::empty());
                assert(fv.take(0) =~= Seq::<(Seq<char>, EV)>::empty());
            }
            while k < fes.len()
                invariant
                    k <= fes@.len(),
                    eval_obj(fv.take(k as int), jv_fields(env@), rng) == (
                        Some(jv_fields(accv@)),
                        cur,
                    ),
                decreases fes@.len() - k,
            {
                proof {
                    assert(decreases_to!(*e => fes@[k as int].1));
                    assert(fv.take(k + 1 as int).drop_last() =~= fv.take(k as int));
                    assert(fv.take(k + 1 as int).last() == fv[k as int]);
                    lemma_eval_obj_wf(fv.take(k as int), jv_fields(env@), rng);
                }
                let stepped = eval_expr_exec(&fes[k].1, env, cur);
                match stepped.0 {
                    None => {
                        proof {
                            lemma_eval_obj_stops(fv, jv_fields(env@), rng, k + 1);
                        }
                        return (None, stepped.1);
                    },
                    Some(v) => {
                        let ghost sb = jv_fields(accv@);
                        proof {
                            lemma_obj_lookup_key_index(sb, fes@[k as int].0@);
                            lemma_obj_set_shape(sb, fes@[k as int].0@, v@);
                        }
                        let found = find_key(&accv, fes[k].0.as_str());
                        match found {
                            Some(kidx) => {
                                let key = accv[kidx].0.clone();
                                let ghost prevb = accv@;
                                accv.set(kidx, (key, v));
                                proof {
                                    lemma_jv_fields(accv@);
                                    lemma_jv_fields(prevb);
                                    assert(jv_fields(accv@) =~= obj_set(
                                        sb,
                                        fes@[k as int].0@,
                                        stepped.0->0@,
                                    ));
                                }
                            },
                            None => {
                                let key = fes[k].0.clone();
                                let ghost prevb = accv@;
                                accv.push((key, v));
                                proof {
                                    lemma_jv_fields(accv@);
                                    lemma_jv_fields(prevb);
                                    assert(accv@.drop_last() =~= prevb);
                                    assert(jv_fields(accv@) =~= obj_set(
                                        sb,
                                        fes@[k as int].0@,
                                        stepped.0->0@,
                                    ));
                                }
                            },
                        }
                        cur = stepped.1;
                    },
                }
                k += 1;
            }
            proof {
                assert(fv.take(fes@.len() as int) =~= fv);
            }
            (Some(JsonValue::Obj(accv)), cur)
        },
        Expr::Call(name, args) => {
            let out = eval_list_exec(args, env, rng);
            match out.0 {
                None => (None, out.1),
                Some(vs) => {
                    proof {
                        lemma_eval_list_wf(ev_seq(args@), jv_fields(env@), rng);
                    }
                    call_builtin_exec(name, &vs, out.1)
                },
            }
        },
    }
}

/// Evaluates a list of expressions left to right.
#[verifier::loop_isolation(false)]
fn eval_list_exec(es: &Vec<Expr>, env: &Vec<(String, JsonValue)>, rng: u64) -> (r: (
    Option<Vec<JsonValue>>,
    u64,
))
    requires
        env_wf(jv_fields(env@)),
    ensures
        ({
            let sp = eval_list(ev_seq(es@), jv_fields(env@), rng);
            r.1 == sp.1 && (match r.0 {
                Some(vs) => sp.0 == Some(jv_seq(vs@)),
                None => sp.0 is None,
            })
        }),
    decreases es@,
{
    proof {
        lemma_ev_seq(es@);
    }
    let ghost esv = ev_seq(es@);
    let mut out: Vec<JsonValue> = Vec::new();
    let mut cur: u64 = rng;
    let mut k: usize = 0;
    proof {
        assert(jv_seq(out@) =~= Seq::<JVal>::empty());
        assert(esv.take(0) =~= Seq::<EV>::empty());
    }
    while k < es.len()
        invariant
            k <= es@.len(),
            eval_list(esv.take(k as int), jv_fields(env@), rng) == (Some(jv_seq(out@)), cur),
        decreases es@.len() - k,
    {
        proof {
            assert(decreases_to!(es@ => es@[k as int]));
            assert(esv.take(k + 1 as int).drop_last() =~= esv.take(k as int));
            assert(esv.take(k + 1 as int).last() == esv[k as int]);
        }
        let stepped = eval_expr_exec(&es[k], env, cur);
        match stepped.0 {
            None => {
                proof {
                    lemma_eval_list_stops(esv, jv_fields(env@), rng, k + 1);
                }
                return (None, stepped.1);
            },
            Some(v) => {
                let ghost prev = out@;
                out.push(v);
                proof {
                    assert(out@.drop_last() =~= prev);
                }
                cur = stepped.1;
            },
        }
        k += 1;
    }
    proof {
        assert(esv.take(es@.len() as int) =~= esv);
    }
    (Some(out), cur)
}

/// An isolated expression runtime: an environment fixed at construction
/// and a random state. Evaluations read the environment and advance the
/// random state; nothing else is shared between evaluations.
#[derive(Debug)]
pub struct CodeRunner {
    pub env: Vec<(String, JsonValue)>,
    pub rng: u64,
}

impl CodeRunner {
    /// Evaluates a program text. The result is a function of the
    /// environment, the text and the random state alone; the environment
    /// is left exactly as it was, so no evaluation can leak a variable
    /// into a later one.
    #[verifier::loop_isolation(false)]
    #[verifier::rlimit(90)]
    pub fn eval(&mut self, code: &str) -> (r: Result<JsonValue, Error>)
        requires
            env_wf(jv_fields(old(self).env@)),
        ensures
            final(self).env == old(self).env,
            ({
                let sp = run_code(jv_fields(old(self).env@), code@, old(self).rng);
                final(self).rng == sp.1 && (match r {
                    Ok(v) => sp.0 == Some(v@) && wf(v@),
                    Err(_) => sp.0 is None,
                })
            }),
    {
        proof {
            lemma_run_code_wf(jv_fields(self.env@), code@, self.rng);
        }
        let parsed = parse_code_exec(code);
        match parsed {
            None => {
                return Err(Error::new(String::from_str("evaluation failed: parse error")));
            },
            Some((stmts, resop)) => {
                proof {
                    lemma_ev_fields(stmts@);
                }
                let ghost env0 = jv_fields(self.env@);
                let ghost rng0 = self.rng;
                let ghost sv = ev_fields(stmts@);
                let mut env2 = dup_fields(&self.env);
                let mut cur: u64 = self.rng;
                let mut k: usize = 0;
                proof {
                    assert(sv.take(0) =~= Seq::<(Seq<char>, EV)>::empty());
                }
                while k < stmts.len()
                    invariant
                        k <= stmts@.len(),
                        run_stmts(sv.take(k as int), env0, rng0) == (
                            Some(jv_fields(env2@)),
                            cur,
                        ),
                        env_wf(jv_fields(env2@)),
                        self == old(self),
                    decreases stmts@.len() - k,
                {
                    proof {
                        assert(sv.take(k + 1 as int).drop_last() =~= sv.take(k as int));
                        assert(sv.take(k + 1 as int).last() == sv[k as int]);
                    }
                    let stepped = eval_expr_exec(&stmts[k].1, &env2, cur);
                    match stepped.0 {
                        None => {
                            proof {
                                lemma_run_stmts_stops(sv, env0, rng0, k + 1);
                            }
                            self.rng = stepped.1;
                            return Err(
                                Error::new(String::from_str("evaluation failed")),
                            );
                        },
                        Some(v) => {
                            let ghost sb = jv_fields(env2@);
                            proof {
                                lemma_obj_lookup_key_index(sb, stmts@[k as int].0@);
                                lemma_obj_set_shape(sb, stmts@[k as int].0@, v@);
                                lemma_obj_set_wf(sb, stmts@[k as int].0@, v@);
                            }
                            let found = find_key(&env2, stmts[k].0.as_str());
                            match found {
                                Some(kidx) => {
                                    let key = env2[kidx].0.clone();
                                    let ghost prevb = env2@;
                                    env2.set(kidx, (key, v));
                                    proof {
                                        lemma_jv_fields(env2@);
                                        lemma_jv_fields(prevb);
                                        assert(jv_fields(env2@) =~= obj_set(
                                            sb,
                                            stmts@[k as int].0@,
                                            stepped.0->0@,
                                        ));
                                    }
                                },
                                None => {
                                    let key = stmts[k].0.clone();
                                    let ghost prevb = env2@;
                                    env2.push((key, v));
                                    proof {
                                        lemma_jv_fields(env2@);
                                        lemma_jv_fields(prevb);
                                        assert(env2@.drop_last() =~= prevb);
                                        assert(jv_fields(env2@) =~= obj_set(
                                            sb,
                                            stmts@[k as int].0@,
                                            stepped.0->0@,
                                        ));
                                    }
                                },
                            }
                            cur = stepped.1;
                        },
                    }
                    k += 1;
                }
                proof {
                    assert(sv.take(stmts@.len() as int) =~= sv);
                }
                match resop {
                    None => {
                        self.rng = cur;
                        Ok(JsonValue::Null)
                    },
                    Some(re) => {
                        let fin = eval_expr_exec(&re, &env2, cur);
                        self.rng = fin.1;
                        match fin.0 {
                            None => Err(Error::new(String::from_str("evaluation failed"))),
                            Some(v) => Ok(v),
                        }
                    },
                }
            },
        }
    }
}

/// The factory of isolated runtimes.
pub struct JsSandbox {}

impl JsSandbox {
    /// A fresh runtime over the given variables, seeded for its random
    /// functions. Each runtime is isolated: it holds its own copy of the
    /// environment and its own random state.
    pub fn make_runner(environment: Vec<(String, JsonValue)>, seed: u64) -> (r: Result<
        CodeRunner,
        Error,
    >)
        ensures
            r is Ok,
            r->Ok_0.env == environment,
            r->Ok_0.rng == seed_fix(seed),
    {
        let rng: u64 = if seed == 0 {
            0x9e3779b97f4a7c15u64
        } else {
            seed
        };
        Ok(CodeRunner { env: environment, rng })
    }
}

} // verus!
