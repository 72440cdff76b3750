use vstd::prelude::*;
use crate::json::{JsonValue, JsonNum, JVal, jv, jv_seq, jv_fields, lemma_jv_seq, lemma_jv_fields,
    wf, num_wf, pow10, obj_lookup, lemma_wf_seq_elem, lemma_wf_fields_elem};
use crate::optic::{key_index, find_key, lemma_obj_lookup_key_index, lemma_obj_set_shape, obj_set};
use crate::strutil::{is_digit, digit_val, digits_val, all_digits, digit_of, lemma_digits_val_nonneg,
    lemma_digits_val_prefix, lemma_all_digits_index, push_char, str_to_chars, chars_to_string};

verus! {

/// The character of a decimal digit value; '0' for anything above 9.
pub open spec fn digit_char(d: int) -> char {
    if d == 1 { '1' }
    else if d == 2 { '2' }
    else if d == 3 { '3' }
    else if d == 4 { '4' }
    else if d == 5 { '5' }
    else if d == 6 { '6' }
    else if d == 7 { '7' }
    else if d == 8 { '8' }
    else if d == 9 { '9' }
    else { '0' }
}

/// The decimal digits of a number, most significant first.
pub open spec fn dec_digits(n: nat) -> Seq<char>
    decreases n,
{
    if n < 10 {
        seq![digit_char(n as int)]
    } else {
        dec_digits(n / 10).push(digit_char((n % 10) as int))
    }
}

/// `k` zero characters.
pub open spec fn zeros(k: nat) -> Seq<char> {
    Seq::new(k, |i: int| '0')
}

/// The text of an unsigned scaled decimal: the digits with a point put
/// `scale` places from the right, zero-padded when short.
pub open spec fn unum_text(n: nat, scale: nat) -> Seq<char> {
    let ds = dec_digits(n);
    if scale == 0 {
        ds
    } else {
        let p = if ds.len() >= scale + 1 {
            ds
        } else {
            zeros((scale + 1 - ds.len()) as nat) + ds
        };
        p.take(p.len() - scale) + seq!['.'] + p.skip(p.len() - scale)
    }
}

/// The decimal text of a scaled number.
pub open spec fn num_text(m: int, scale: nat) -> Seq<char> {
    if m < 0 {
        seq!['-'] + unum_text((-m) as nat, scale)
    } else {
        unum_text(m as nat, scale)
    }
}

/// The escape of one character inside a JSON string literal.
pub open spec fn esc_char(c: char) -> Seq<char> {
    if c == '"' {
        seq!['\\', '"']
    } else if c == '\\' {
        seq!['\\', '\\']
    } else if c == '\n' {
        seq!['\\', 'n']
    } else if c == '\t' {
        seq!['\\', 't']
    } else if c == '\r' {
        seq!['\\', 'r']
    } else {
        seq![c]
    }
}

/// The body of a JSON string literal: each character escaped.
pub open spec fn escape_text(s: Seq<char>) -> Seq<char>
    decreases s.len(),
{
    if s.len() == 0 {
        Seq::empty()
    } else {
        escape_text(s.drop_last()) + esc_char(s.last())
    }
}

/// A JSON string literal with its quotes.
pub open spec fn str_text(s: Seq<char>) -> Seq<char> {
    seq!['"'] + escape_text(s) + seq!['"']
}

/// The canonical JSON text of a value.
pub open spec fn json_text(v: JVal) -> Seq<char>
    decreases v,
{
    match v {
        JVal::Null => seq!['n', 'u', 'l', 'l'],
        JVal::Bool(b) => if b {
            seq!['t', 'r', 'u', 'e']
        } else {
            seq!['f', 'a', 'l', 's', 'e']
        },
        JVal::Num(m, s) => num_text(m, s),
        JVal::Str(s) => str_text(s),
        JVal::Arr(items) => seq!['['] + arr_text(items) + seq![']'],
        JVal::Obj(fields) => seq!['{'] + obj_text(fields) + seq!['}'],
    }
}

/// The comma-joined texts of array elements.
pub open spec fn arr_text(items: Seq<JVal>) -> Seq<char>
    decreases items,
{
    if items.len() == 0 {
        Seq::empty()
    } else if items.len() == 1 {
        json_text(items.last())
    } else {
        arr_text(items.drop_last()) + seq![','] + json_text(items.last())
    }
}

/// The comma-joined `"name":value` texts of object fields.
pub open spec fn obj_text(fields: Seq<(Seq<char>, JVal)>) -> Seq<char>
    decreases fields,
{
    if fields.len() == 0 {
        Seq::empty()
    } else if fields.len() == 1 {
        str_text(fields.last().0) + seq![':'] + json_text(fields.last().1)
    } else {
        obj_text(fields.drop_last()) + seq![','] + str_text(fields.last().0) + seq![':']
            + json_text(fields.last().1)
    }
}

/// The character of a digit value.
pub fn digit_char_of(d: u8) -> (r: char)
    ensures
        r == digit_char(d as int),
{
    match d {
        1 => '1',
        2 => '2',
        3 => '3',
        4 => '4',
        5 => '5',
        6 => '6',
        7 => '7',
        8 => '8',
        9 => '9',
        _ => '0',
    }
}

/// The decimal digits of a machine number, most significant first.
pub fn dec_digits_exec(n: u64) -> (r: Vec<char>)
    ensures
        r@ == dec_digits(n as nat),
        r@.len() >= 1,
    decreases n,
{
    if n < 10 {
        let mut out: Vec<char> = Vec::new();
        out.push(digit_char_of(n as u8));
        proof {
            assert(out@ =~= seq![digit_char(n as int)]);
        }
        out
    } else {
        let mut out = dec_digits_exec(n / 10);
        out.push(digit_char_of((n % 10) as u8));
        out
    }
}

/// Appends the characters of `src` to `dst`.
pub fn extend_chars(dst: &mut Vec<char>, src: &Vec<char>)
    ensures
        final(dst)@ == old(dst)@ + src@,
{
    let mut i: usize = 0;
    proof {
        assert(old(dst)@ + src@.take(0) =~= old(dst)@);
    }
    while i < src.len()
        invariant
            i <= src@.len(),
            dst@ == old(dst)@ + src@.take(i as int),
        decreases src@.len() - i,
    {
        let c = src[i];
        dst.push(c);
        proof {
            assert((old(dst)@ + src@.take(i as int)).push(c) =~= old(dst)@ + src@.take(
                i + 1 as int,
            ));
        }
        i += 1;
    }
    proof {
        assert(src@.take(src@.len() as int) =~= src@);
    }
}

/// The decimal text of a well-formed number.
pub fn num_chars(n: &JsonNum) -> (r: Vec<char>)
    requires
        n.scale <= 18,
    ensures
        r@ == num_text(n.mant as int, n.scale as nat),
{
    let neg = n.mant < 0;
    let abs: u64 = if n.mant < 0 {
        (-(n.mant as i128)) as u64
    } else {
        n.mant as u64
    };
    let ds = dec_digits_exec(abs);
    let mut p: Vec<char> = Vec::new();
    if n.scale > 0 {
        let want: usize = (n.scale as usize) + 1;
        let mut pad: usize = 0;
        if ds.len() < want {
            pad = want - ds.len();
        }
        let mut k: usize = 0;
        while k < pad
            invariant
                k <= pad,
                p@ == zeros(k as nat),
                pad == (if ds@.len() >= n.scale + 1 {
                    0int
                } else {
                    n.scale + 1 - ds@.len()
                }),
            decreases pad - k,
        {
            p.push('0');
            proof {
                assert(p@ =~= zeros((k + 1) as nat));
            }
            k += 1;
        }
        extend_chars(&mut p, &ds);
        proof {
            if ds@.len() >= n.scale + 1 {
                assert(p@ =~= ds@);
            } else {
                assert(p@ =~= zeros((n.scale + 1 - ds@.len()) as nat) + ds@);
            }
        }
        let cut: usize = p.len() - (n.scale as usize);
        let mut out: Vec<char> = Vec::new();
        let mut k2: usize = 0;
        while k2 < cut
            invariant
                k2 <= cut,
                cut <= p@.len(),
                out@ == p@.take(k2 as int),
            decreases cut - k2,
        {
            let c = p[k2];
            out.push(c);
            proof {
                assert(p@.take(k2 as int).push(c) =~= p@.take(k2 + 1 as int));
            }
            k2 += 1;
        }
        out.push('.');
        let ghost mid = out@;
        let mut k3: usize = cut;
        proof {
            assert(mid + p@.skip(cut as int).take(0) =~= mid);
        }
        while k3 < p.len()
            invariant
                cut <= k3 <= p@.len(),
                out@ == mid + p@.skip(cut as int).take(k3 - cut),
            decreases p@.len() - k3,
        {
            let c = p[k3];
            out.push(c);
            proof {
                assert(p@.skip(cut as int)[k3 - cut] == p@[k3 as int]);
                assert((mid + p@.skip(cut as int).take(k3 - cut)).push(c) =~= mid + p@.skip(
                    cut as int,
                ).take(k3 + 1 - cut));
            }
            k3 += 1;
        }
        proof {
            assert(p@.skip(cut as int).take(p@.len() - cut) =~= p@.skip(cut as int));
            assert(p@.take(cut as int) + seq!['.'] + p@.skip(cut as int) =~= out@);
        }
        if neg {
            let mut res: Vec<char> = Vec::new();
            res.push('-');
            extend_chars(&mut res, &out);
            proof {
                assert(res@ =~= seq!['-'] + out@);
            }
            res
        } else {
            out
        }
    } else {
        if neg {
            let mut res: Vec<char> = Vec::new();
            res.push('-');
            extend_chars(&mut res, &ds);
            proof {
                assert(res@ =~= seq!['-'] + ds@);
            }
            res
        } else {
            ds
        }
    }
}

/// Appends the escaped body of a string to the output.
fn push_escaped(out: &mut Vec<char>, s: &str)
    ensures
        final(out)@ == old(out)@ + escape_text(s@),
{
    let cs = str_to_chars(s);
    let mut i: usize = 0;
    proof {
        assert(escape_text(cs@.take(0)) =~= Seq::<char>::empty());
        assert(old(out)@ + escape_text(cs@.take(0)) =~= old(out)@);
    }
    while i < cs.len()
        invariant
            i <= cs@.len(),
            cs@ == s@,
            out@ == old(out)@ + escape_text(cs@.take(i as int)),
        decreases cs@.len() - i,
    {
        let c = cs[i];
        proof {
            assert(cs@.take(i + 1 as int).drop_last() =~= cs@.take(i as int));
            assert(cs@.take(i + 1 as int).last() == c);
        }
        if c == '"' {
            out.push('\\');
            out.push('"');
        } else if c == '\\' {
            out.push('\\');
            out.push('\\');
        } else if c == '\n' {
            out.push('\\');
            out.push('n');
        } else if c == '\t' {
            out.push('\\');
            out.push('t');
        } else if c == '\r' {
            out.push('\\');
            out.push('r');
        } else {
            out.push(c);
        }
        proof {
            assert(out@ =~= old(out)@ + escape_text(cs@.take(i + 1 as int)));
        }
        i += 1;
    }
    proof {
        assert(cs@.take(cs@.len() as int) =~= cs@);
    }
}

#[verifier::loop_isolation(false)]
#[verifier::rlimit(80)]
fn text_rec(v: &JsonValue, out: &mut Vec<char>)
    requires
        wf(v@),
    ensures
        final(out)@ == old(out)@ + json_text(v@),
    decreases *v,
{
    match v {
        JsonValue::Null => {
            out.push('n');
            out.push('u');
            out.push('l');
            out.push('l');
            proof {
                assert(out@ =~= old(out)@ + json_text(v@));
            }
        },
        JsonValue::Bool(b) => {
            if *b {
                out.push('t');
                out.push('r');
                out.push('u');
                out.push('e');
            } else {
                out.push('f');
                out.push('a');
                out.push('l');
                out.push('s');
                out.push('e');
            }
            proof {
                assert(out@ =~= old(out)@ + json_text(v@));
            }
        },
        JsonValue::Num(n) => {
            let nc = num_chars(n);
            extend_chars(out, &nc);
        },
        JsonValue::Str(s) => {
            out.push('"');
            push_escaped(out, s.as_str());
            out.push('"');
            proof {
                assert(out@ =~= old(out)@ + str_text(s@));
            }
        },
        JsonValue::Arr(items) => {
            proof {
                lemma_jv_seq(items@);
            }
            let ghost sv = jv_seq(items@);
            out.push('[');
            let ghost head = out@;
            let mut k: usize = 0;
            while k < items.len()
                invariant
                    k <= items@.len(),
                    out@ == head + arr_text(sv.take(k as int)),
                decreases items@.len() - k,
            {
                proof {
                    assert(decreases_to!(*v => items@[k as int]));
                    lemma_wf_seq_elem(sv, k as int);
                }
                if k > 0 {
                    out.push(',');
                }
                text_rec(&items[k], out);
                proof {
                    assert(sv.take(k + 1 as int).drop_last() =~= sv.take(k as int));
                    assert(sv.take(k + 1 as int).last() == sv[k as int]);
                    assert(out@ =~= head + arr_text(sv.take(k + 1 as int)));
                }
                k += 1;
            }
            out.push(']');
            proof {
                assert(sv.take(items@.len() as int) =~= sv);
                assert(out@ =~= old(out)@ + json_text(v@));
            }
        },
        JsonValue::Obj(fields) => {
            proof {
                lemma_jv_fields(fields@);
            }
            let ghost sf = jv_fields(fields@);
            out.push('{');
            let ghost head = out@;
            let mut k: usize = 0;
            while k < fields.len()
                invariant
                    k <= fields@.len(),
                    out@ == head + obj_text(sf.take(k as int)),
                decreases fields@.len() - k,
            {
                proof {
                    assert(decreases_to!(*v => fields@[k as int].1));
                    lemma_wf_fields_elem(sf, k as int);
                }
                if k > 0 {
                    out.push(',');
                }
                out.push('"');
                push_escaped(out, fields[k].0.as_str());
                out.push('"');
                out.push(':');
                text_rec(&fields[k].1, out);
                proof {
                    assert(sf.take(k + 1 as int).drop_last() =~= sf.take(k as int));
                    assert(sf.take(k + 1 as int).last() == sf[k as int]);
                    assert(out@ =~= head + obj_text(sf.take(k + 1 as int)));
                }
                k += 1;
            }
            out.push('}');
            proof {
                assert(sf.take(fields@.len() as int) =~= sf);
                assert(out@ =~= old(out)@ + json_text(v@));
            }
        },
    }
}

impl JsonValue {
    /// The canonical JSON text of this value.
    pub fn to_text(&self) -> (r: String)
        requires
            wf(self@),
        ensures
            r@ == json_text(self@),
    {
        let mut out: Vec<char> = Vec::new();
        text_rec(self, &mut out);
        proof {
            assert(Seq::<char>::empty() + json_text(self@) =~= json_text(self@));
        }
        chars_to_string(&out)
    }
}

/// Whether the character is JSON whitespace.
pub open spec fn is_ws(c: char) -> bool {
    c == ' ' || c == '\t' || c == '\n' || c == '\r'
}

/// The first position at or after `pos` holding a non-whitespace
/// character, or the length.
pub open spec fn ws_from(s: Seq<char>, pos: int) -> int
    decreases s.len() - pos,
{
    if pos < 0 || pos >= s.len() {
        s.len() as int
    } else if is_ws(s[pos]) {
        ws_from(s, pos + 1)
    } else {
        pos
    }
}

pub proof fn lemma_ws_from_bounds(s: Seq<char>, pos: int)
    requires
        0 <= pos <= s.len(),
    ensures
        pos <= ws_from(s, pos) <= s.len(),
    decreases s.len() - pos,
{
    if pos < s.len() && is_ws(s[pos]) {
        lemma_ws_from_bounds(s, pos + 1);
    }
}

/// The first position at or after `pos` holding a non-digit, or the length.
pub open spec fn digits_end(s: Seq<char>, pos: int) -> int
    decreases s.len() - pos,
{
    if pos < 0 || pos >= s.len() {
        s.len() as int
    } else if is_digit(s[pos]) {
        digits_end(s, pos + 1)
    } else {
        pos
    }
}

pub proof fn lemma_digits_end_bounds(s: Seq<char>, pos: int)
    requires
        0 <= pos <= s.len(),
    ensures
        pos <= digits_end(s, pos) <= s.len(),
    decreases s.len() - pos,
{
    if pos < s.len() && is_digit(s[pos]) {
        lemma_digits_end_bounds(s, pos + 1);
    }
}

/// Every character between `pos` and `digits_end` is a digit.
pub proof fn lemma_digits_end_range(s: Seq<char>, pos: int, i: int)
    requires
        0 <= pos <= i < digits_end(s, pos),
    ensures
        is_digit(s[i]),
    decreases s.len() - pos,
{
    lemma_digits_end_bounds(s, pos);
    if i > pos {
        lemma_digits_end_range(s, pos + 1, i);
    }
}

/// The unescaped meaning of a character after a backslash, if the
/// escape is one this parser takes.
pub open spec fn esc_decode(c: char) -> Option<char> {
    if c == '"' {
        Some('"')
    } else if c == '\\' {
        Some('\\')
    } else if c == '/' {
        Some('/')
    } else if c == 'n' {
        Some('\n')
    } else if c == 't' {
        Some('\t')
    } else if c == 'r' {
        Some('\r')
    } else if c == 'b' {
        Some('\u{0008}')
    } else if c == 'f' {
        Some('\u{000C}')
    } else {
        None
    }
}

/// Parses a string body from just after the opening quote; yields the
/// content and the position after the closing quote.
pub open spec fn p_string_body(s: Seq<char>, pos: int) -> Option<(Seq<char>, int)>
    decreases s.len() - pos,
{
    if pos < 0 || pos >= s.len() {
        None
    } else if s[pos] == '"' {
        Some((Seq::empty(), pos + 1))
    } else if s[pos] == '\\' {
        if pos + 1 >= s.len() {
            None
        } else if esc_decode(s[pos + 1]) is Some {
            match p_string_body(s, pos + 2) {
                None => None,
                Some((t, q)) => Some((seq![esc_decode(s[pos + 1])->0] + t, q)),
            }
        } else {
            None
        }
    } else {
        match p_string_body(s, pos + 1) {
            None => None,
            Some((t, q)) => Some((seq![s[pos]] + t, q)),
        }
    }
}

/// Parses a number at `pos`: optional minus, digits, optional fraction.
/// Yields mantissa, scale and the position after, when the value fits a
/// 64-bit mantissa with scale up to 18.
pub open spec fn p_number(s: Seq<char>, pos: int) -> Option<(int, nat, int)> {
    let neg = 0 <= pos < s.len() && s[pos] == '-';
    let ip = if neg {
        pos + 1
    } else {
        pos
    };
    let ie = digits_end(s, ip);
    if ie == ip {
        None
    } else {
        let ival = digits_val(s.subrange(ip, ie));
        if ie < s.len() && s[ie] == '.' {
            let fs = ie + 1;
            let fe = digits_end(s, fs);
            if fe == fs {
                None
            } else {
                let scale = fe - fs;
                let m = ival * pow10(scale as nat) + digits_val(s.subrange(fs, fe));
                if scale <= 18 && m <= i64::MAX {
                    Some(((if neg { -m } else { m }), scale as nat, fe))
                } else {
                    None
                }
            }
        } else {
            if ival <= i64::MAX {
                Some(((if neg { -ival } else { ival }), 0, ie))
            } else {
                None
            }
        }
    }
}

/// Parses one JSON value at `pos`, spending one unit of fuel per nested
/// parse, and yields it with the position after.
pub open spec fn p_value(s: Seq<char>, pos: int, fuel: nat) -> Option<(JVal, int)>
    decreases fuel,
{
    if fuel == 0 || pos < 0 || pos >= s.len() {
        None
    } else {
        let c = s[pos];
        if c == 'n' {
            if pos + 4 <= s.len() && s[pos + 1] == 'u' && s[pos + 2] == 'l' && s[pos + 3] == 'l' {
                Some((JVal::Null, pos + 4))
            } else {
                None
            }
        } else if c == 't' {
            if pos + 4 <= s.len() && s[pos + 1] == 'r' && s[pos + 2] == 'u' && s[pos + 3] == 'e' {
                Some((JVal::Bool(true), pos + 4))
            } else {
                None
            }
        } else if c == 'f' {
            if pos + 5 <= s.len() && s[pos + 1] == 'a' && s[pos + 2] == 'l' && s[pos + 3] == 's'
                && s[pos + 4] == 'e' {
                Some((JVal::Bool(false), pos + 5))
            } else {
                None
            }
        } else if c == '"' {
            match p_string_body(s, pos + 1) {
                None => None,
                Some((t, q)) => Some((JVal::Str(t), q)),
            }
        } else if c == '[' {
            let q = ws_from(s, pos + 1);
            if q < s.len() && s[q] == ']' {
                Some((JVal::Arr(Seq::empty()), q + 1))
            } else {
                match p_elems(s, q, Seq::empty(), (fuel - 1) as nat) {
                    None => None,
                    Some((items, q2)) => Some((JVal::Arr(items), q2)),
                }
            }
        } else if c == '{' {
            let q = ws_from(s, pos + 1);
            if q < s.len() && s[q] == '}' {
                Some((JVal::Obj(Seq::empty()), q + 1))
            } else {
                match p_fields(s, q, Seq::empty(), (fuel - 1) as nat) {
                    None => None,
                    Some((fields, q2)) => Some((JVal::Obj(fields), q2)),
                }
            }
        } else if c == '-' || is_digit(c) {
            match p_number(s, pos) {
                None => None,
                Some((m, sc, q)) => Some((JVal::Num(m, sc), q)),
            }
        } else {
            None
        }
    }
}

/// Parses the elements of an array from the first element on, the
/// accumulated prefix given, up to and past the closing bracket.
pub open spec fn p_elems(s: Seq<char>, pos: int, acc: Seq<JVal>, fuel: nat) -> Option<
    (Seq<JVal>, int),
>
    decreases fuel,
{
    if fuel == 0 {
        None
    } else {
        match p_value(s, pos, (fuel - 1) as nat) {
            None => None,
            Some((v, q)) => {
                let q2 = ws_from(s, q);
                if q2 < s.len() && s[q2] == ',' {
                    p_elems(s, ws_from(s, q2 + 1), acc.push(v), (fuel - 1) as nat)
                } else if q2 < s.len() && s[q2] == ']' {
                    Some((acc.push(v), q2 + 1))
                } else {
                    None
                }
            },
        }
    }
}

/// Parses the fields of an object from the first name on; a repeated
/// name replaces the earlier field's value.
pub open spec fn p_fields(
    s: Seq<char>,
    pos: int,
    acc: Seq<(Seq<char>, JVal)>,
    fuel: nat,
) -> Option<(Seq<(Seq<char>, JVal)>, int)>
    decreases fuel,
{
    if fuel == 0 || pos < 0 || pos >= s.len() || s[pos] != '"' {
        None
    } else {
        match p_string_body(s, pos + 1) {
            None => None,
            Some((k, q)) => {
                let q2 = ws_from(s, q);
                if !(q2 < s.len() && s[q2] == ':') {
                    None
                } else {
                    match p_value(s, ws_from(s, q2 + 1), (fuel - 1) as nat) {
                        None => None,
                        Some((v, q4)) => {
                            let acc2 = obj_set(acc, k, v);
                            let q5 = ws_from(s, q4);
                            if q5 < s.len() && s[q5] == ',' {
                                p_fields(s, ws_from(s, q5 + 1), acc2, (fuel - 1) as nat)
                            } else if q5 < s.len() && s[q5] == '}' {
                                Some((acc2, q5 + 1))
                            } else {
                                None
                            }
                        },
                    }
                }
            },
        }
    }
}

/// Parses a whole JSON document: one value between optional whitespace,
/// accepted only when well formed.
pub open spec fn json_parse(s: Seq<char>) -> Option<JVal> {
    if 2 * s.len() + 2 > usize::MAX {
        None
    } else {
        match p_value(s, ws_from(s, 0), (2 * s.len() + 2) as nat) {
            None => None,
            Some((v, q)) => {
                if ws_from(s, q) == s.len() && wf(v) {
                    Some(v)
                } else {
                    None
                }
            },
        }
    }
}

/// The first non-whitespace position at or after `pos`.
pub(crate) fn ws_to(cs: &Vec<char>, pos: usize) -> (r: usize)
    requires
        pos <= cs@.len(),
    ensures
        r == ws_from(cs@, pos as int),
        pos <= r <= cs@.len(),
{
    let mut i: usize = pos;
    while i < cs.len() && (cs[i] == ' ' || cs[i] == '\t' || cs[i] == '\n' || cs[i] == '\r')
        invariant
            pos <= i <= cs@.len(),
            ws_from(cs@, pos as int) == ws_from(cs@, i as int),
        decreases cs@.len() - i,
    {
        i += 1;
    }
    i
}

/// The first non-digit position at or after `pos`.
fn digits_to(cs: &Vec<char>, pos: usize) -> (r: usize)
    requires
        pos <= cs@.len(),
    ensures
        r == digits_end(cs@, pos as int),
        pos <= r <= cs@.len(),
{
    let mut i: usize = pos;
    while i < cs.len() && '0' <= cs[i] && cs[i] <= '9'
        invariant
            pos <= i <= cs@.len(),
            digits_end(cs@, pos as int) == digits_end(cs@, i as int),
        decreases cs@.len() - i,
    {
        i += 1;
    }
    i
}

/// The digits between `ip` and `ie` as a machine number, or nothing when
/// they denote more than an `i64` can hold.
fn digits_to_u64(cs: &Vec<char>, ip: usize, ie: usize) -> (r: Option<u64>)
    requires
        ip <= ie <= cs@.len(),
        forall|k: int| ip <= k < ie ==> is_digit(cs@[k]),
    ensures
        match r {
            Some(v) => v == digits_val(cs@.subrange(ip as int, ie as int)) && v <= i64::MAX,
            None => digits_val(cs@.subrange(ip as int, ie as int)) > i64::MAX,
        },
{
    let ghost whole = cs@.subrange(ip as int, ie as int);
    let mut val: u64 = 0;
    let mut k: usize = ip;
    proof {
        assert(whole.take(0) =~= Seq::<char>::empty());
    }
    while k < ie
        invariant
            ip <= k <= ie <= cs@.len(),
            whole == cs@.subrange(ip as int, ie as int),
            val == digits_val(whole.take(k - ip)),
            val <= i64::MAX,
            forall|t: int| ip <= t < ie ==> is_digit(cs@[t]),
        decreases ie - k,
    {
        let c = cs[k];
        proof {
            assert(whole[k - ip] == cs@[k as int]);
            assert(whole.take(k + 1 - ip).drop_last() =~= whole.take(k - ip));
            assert(whole.take(k + 1 - ip).last() == whole[k - ip]);
        }
        let d = digit_of(c);
        if val > (i64::MAX as u64 - d as u64) / 10 {
            proof {
                lemma_digits_val_prefix(whole, (k + 1 - ip) as int);
                lemma_digits_val_nonneg(whole.take(k - ip));
            }
            return None;
        }
        val = val * 10 + d as u64;
        k += 1;
    }
    proof {
        assert(whole.take((ie - ip) as int) =~= whole);
    }
    Some(val)
}

/// Parses a number at `pos`.
pub(crate) fn p_number_exec(cs: &Vec<char>, pos: usize) -> (r: Option<(JsonNum, usize)>)
    requires
        pos <= cs@.len(),
    ensures
        match r {
            Some(p) => p_number(cs@, pos as int) == Some(
                (p.0.mant as int, p.0.scale as nat, p.1 as int),
            ) && p.1 <= cs@.len() && p.0.scale <= 18,
            None => p_number(cs@, pos as int) is None,
        },
{
    let neg = pos < cs.len() && cs[pos] == '-';
    let ip: usize = if neg {
        pos + 1
    } else {
        pos
    };
    let ie = digits_to(cs, ip);
    if ie == ip {
        return None;
    }
    proof {
        assert forall|t: int| ip <= t < ie implies is_digit(cs@[t]) by {
            lemma_digits_end_range(cs@, ip as int, t);
        }
    }
    let ival = match digits_to_u64(cs, ip, ie) {
        Some(v) => v,
        None => {
            proof {
                let iv = digits_val(cs@.subrange(ip as int, ie as int));
                if ie < cs@.len() && cs@[ie as int] == '.' {
                    let fs = ie + 1;
                    let fe = digits_end(cs@, fs as int);
                    let sc = fe - fs;
                    if fe != fs && sc <= 18 {
                        lemma_pow10_pos(sc as nat);
                        lemma_digits_val_nonneg(cs@.subrange(fs, fe));
                        assert(iv * pow10(sc as nat) >= iv) by (nonlinear_arith)
                            requires
                                iv > i64::MAX as int,
                                pow10(sc as nat) >= 1,
                        {}
                    }
                }
            }
            return None;
        },
    };
    if ie < cs.len() && cs[ie] == '.' {
        let fs: usize = ie + 1;
        let fe = digits_to(cs, fs);
        if fe == fs {
            return None;
        }
        let scale: usize = fe - fs;
        if scale > 18 {
            return None;
        }
        proof {
            assert forall|t: int| fs <= t < fe implies is_digit(cs@[t]) by {
                lemma_digits_end_range(cs@, fs as int, t);
            }
        }
        let fval = match digits_to_u64(cs, fs, fe) {
            Some(v) => v,
            None => {
                proof {
                    let iv = digits_val(cs@.subrange(ip as int, ie as int));
                    lemma_pow10_pos(scale as nat);
                    lemma_digits_val_nonneg(cs@.subrange(ip as int, ie as int));
                    assert(iv * pow10(scale as nat) >= 0) by (nonlinear_arith)
                        requires
                            iv >= 0,
                            pow10(scale as nat) >= 1,
                    {}
                }
                return None;
            },
        };
        let pmul = crate::json::pow10_i128(scale as u8);
        proof {
            assert((ival as int) * (pmul as int) <= 0x7fffffffffffffff * 1000000000000000000
                && (ival as int) * (pmul as int) >= 0) by (nonlinear_arith)
                requires
                    0 <= ival <= i64::MAX,
                    1 <= pmul <= 1000000000000000000,
            {}
        }
        let m128: u128 = (ival as u128) * (pmul as u128) + (fval as u128);
        if m128 > i64::MAX as u128 {
            return None;
        }
        let m: i64 = m128 as i64;
        let mant: i64 = if neg {
            -m
        } else {
            m
        };
        Some((JsonNum { mant, scale: scale as u8 }, fe))
    } else {
        let m: u64 = ival;
        let mant: i64 = if neg {
            -(m as i64)
        } else {
            m as i64
        };
        Some((JsonNum { mant, scale: 0 }, ie))
    }
}

/// `pow10` is at least one.
pub proof fn lemma_pow10_pos(n: nat)
    ensures
        pow10(n) >= 1,
    decreases n,
{
    if n > 0 {
        lemma_pow10_pos((n - 1) as nat);
    }
}

/// Parses a string body from just after the opening quote.
fn p_string_exec(cs: &Vec<char>, pos: usize) -> (r: Option<(Vec<char>, usize)>)
    requires
        pos <= cs@.len(),
    ensures
        match r {
            Some(p) => p_string_body(cs@, pos as int) == Some((p.0@, p.1 as int)) && p.1
                <= cs@.len(),
            None => p_string_body(cs@, pos as int) is None,
        },
    decreases cs@.len() - pos,
{
    if pos >= cs.len() {
        return None;
    }
    let c = cs[pos];
    if c == '"' {
        let empty: Vec<char> = Vec::new();
        proof {
            assert(empty@ =~= Seq::<char>::empty());
        }
        return Some((empty, pos + 1));
    }
    if c == '\\' {
        if pos + 1 >= cs.len() {
            return None;
        }
        let e = cs[pos + 1];
        let dec: Option<char> = if e == '"' {
            Some('"')
        } else if e == '\\' {
            Some('\\')
        } else if e == '/' {
            Some('/')
        } else if e == 'n' {
            Some('\n')
        } else if e == 't' {
            Some('\t')
        } else if e == 'r' {
            Some('\r')
        } else if e == 'b' {
            Some('\u{0008}')
        } else if e == 'f' {
            Some('\u{000C}')
        } else {
            None
        };
        match dec {
            None => {
                return None;
            },
            Some(dc) => {
                match p_string_exec(cs, pos + 2) {
                    None => {
                        return None;
                    },
                    Some((mut t, q)) => {
                        let ghost tp = t@;
                        t.insert(0, dc);
                        proof {
                            assert(t@ =~= seq![dc] + tp);
                        }
                        return Some((t, q));
                    },
                }
            },
        }
    }
    match p_string_exec(cs, pos + 1) {
        None => None,
        Some((mut t, q)) => {
            let ghost tp = t@;
            t.insert(0, c);
            proof {
                assert(t@ =~= seq![c] + tp);
            }
            Some((t, q))
        },
    }
}

/// Parses one JSON value at `pos`.
fn p_value_exec(cs: &Vec<char>, pos: usize, fuel: usize) -> (r: Option<(JsonValue, usize)>)
    requires
        pos <= cs@.len(),
    ensures
        match r {
            Some(p) => p_value(cs@, pos as int, fuel as nat) == Some((p.0@, p.1 as int)) && p.1
                <= cs@.len(),
            None => p_value(cs@, pos as int, fuel as nat) is None,
        },
    decreases fuel,
{
    if fuel == 0 || pos >= cs.len() {
        return None;
    }
    let c = cs[pos];
    if c == 'n' {
        if cs.len() - pos >= 4 && cs[pos + 1] == 'u' && cs[pos + 2] == 'l' && cs[pos + 3] == 'l' {
            Some((JsonValue::Null, pos + 4))
        } else {
            None
        }
    } else if c == 't' {
        if cs.len() - pos >= 4 && cs[pos + 1] == 'r' && cs[pos + 2] == 'u' && cs[pos + 3] == 'e' {
            Some((JsonValue::Bool(true), pos + 4))
        } else {
            None
        }
    } else if c == 'f' {
        if cs.len() - pos >= 5 && cs[pos + 1] == 'a' && cs[pos + 2] == 'l' && cs[pos + 3] == 's'
            && cs[pos + 4] == 'e' {
            Some((JsonValue::Bool(false), pos + 5))
        } else {
            None
        }
    } else if c == '"' {
        match p_string_exec(cs, pos + 1) {
            None => None,
            Some((t, q)) => Some((JsonValue::Str(chars_to_string(&t)), q)),
        }
    } else if c == '[' {
        let q = ws_to(cs, pos + 1);
        if q < cs.len() && cs[q] == ']' {
            let empty: Vec<JsonValue> = Vec::new();
            proof {
                assert(jv_seq(empty@) =~= Seq::<JVal>::empty());
            }
            Some((JsonValue::Arr(empty), q + 1))
        } else {
            let acc: Vec<JsonValue> = Vec::new();
            proof {
                assert(jv_seq(acc@) =~= Seq::<JVal>::empty());
            }
            match p_elems_exec(cs, q, acc, fuel - 1) {
                None => None,
                Some((items, q2)) => Some((JsonValue::Arr(items), q2)),
            }
        }
    } else if c == '{' {
        let q = ws_to(cs, pos + 1);
        if q < cs.len() && cs[q] == '}' {
            let empty: Vec<(String, JsonValue)> = Vec::new();
            proof {
                assert(jv_fields(empty@) =~= Seq::<(Seq<char>, JVal)>::empty());
            }
            Some((JsonValue::Obj(empty), q + 1))
        } else {
            let acc: Vec<(String, JsonValue)> = Vec::new();
            proof {
                assert(jv_fields(acc@) =~= Seq::<(Seq<char>, JVal)>::empty());
            }
            match p_fields_exec(cs, q, acc, fuel - 1) {
                None => None,
                Some((fields, q2)) => Some((JsonValue::Obj(fields), q2)),
            }
        }
    } else if c == '-' || ('0' <= c && c <= '9') {
        match p_number_exec(cs, pos) {
            None => None,
            Some((n, q)) => Some((JsonValue::Num(n), q)),
        }
    } else {
        None
    }
}

/// Parses the elements of an array from the first element on.
fn p_elems_exec(cs: &Vec<char>, pos: usize, acc: Vec<JsonValue>, fuel: usize) -> (r: Option<
    (Vec<JsonValue>, usize),
>)
    requires
        pos <= cs@.len(),
    ensures
        match r {
            Some(p) => p_elems(cs@, pos as int, jv_seq(acc@), fuel as nat) == Some(
                (jv_seq(p.0@), p.1 as int),
            ) && p.1 <= cs@.len(),
            None => p_elems(cs@, pos as int, jv_seq(acc@), fuel as nat) is None,
        },
    decreases fuel,
{
    if fuel == 0 {
        return None;
    }
    match p_value_exec(cs, pos, fuel - 1) {
        None => None,
        Some((v, q)) => {
            let q2 = ws_to(cs, q);
            let mut acc2 = acc;
            let ghost prev = acc2@;
            acc2.push(v);
            proof {
                assert(acc2@.drop_last() =~= prev);
                assert(jv_seq(acc2@) == jv_seq(prev).push(v@));
            }
            if q2 < cs.len() && cs[q2] == ',' {
                let q3 = ws_to(cs, q2 + 1);
                p_elems_exec(cs, q3, acc2, fuel - 1)
            } else if q2 < cs.len() && cs[q2] == ']' {
                Some((acc2, q2 + 1))
            } else {
                None
            }
        },
    }
}

/// Parses the fields of an object from the first name on; a repeated
/// name replaces the earlier field's value.
fn p_fields_exec(
    cs: &Vec<char>,
    pos: usize,
    acc: Vec<(String, JsonValue)>,
    fuel: usize,
) -> (r: Option<(Vec<(String, JsonValue)>, usize)>)
    requires
        pos <= cs@.len(),
    ensures
        match r {
            Some(p) => p_fields(cs@, pos as int, jv_fields(acc@), fuel as nat) == Some(
                (jv_fields(p.0@), p.1 as int),
            ) && p.1 <= cs@.len(),
            None => p_fields(cs@, pos as int, jv_fields(acc@), fuel as nat) is None,
        },
    decreases fuel,
{
    if fuel == 0 || pos >= cs.len() {
        return None;
    }
    if cs[pos] != '"' {
        return None;
    }
    match p_string_exec(cs, pos + 1) {
        None => None,
        Some((kcs, q)) => {
            let q2 = ws_to(cs, q);
            if !(q2 < cs.len() && cs[q2] == ':') {
                return None;
            }
            let q3 = ws_to(cs, q2 + 1);
            match p_value_exec(cs, q3, fuel - 1) {
                None => None,
                Some((v, q4)) => {
                    let kname = chars_to_string(&kcs);
                    let ghost sb = jv_fields(acc@);
                    let mut acc2 = acc;
                    proof {
                        lemma_obj_lookup_key_index(sb, kname@);
                        lemma_obj_set_shape(sb, kname@, v@);
                    }
                    let found = find_key(&acc2, kname.as_str());
                    match found {
                        Some(kidx) => {
                            let ghost prevb = acc2@;
                            acc2.set(kidx, (kname, v));
                            proof {
                                lemma_jv_fields(acc2@);
                                lemma_jv_fields(prevb);
                                assert(jv_fields(acc2@) =~= obj_set(sb, kcs@, v@));
                            }
                        },
                        None => {
                            let ghost prevb = acc2@;
                            acc2.push((kname, v));
                            proof {
                                lemma_jv_fields(acc2@);
                                lemma_jv_fields(prevb);
                                assert(acc2@.drop_last() =~= prevb);
                                assert(jv_fields(acc2@) =~= obj_set(sb, kcs@, v@));
                            }
                        },
                    }
                    let q5 = ws_to(cs, q4);
                    if q5 < cs.len() && cs[q5] == ',' {
                        let q6 = ws_to(cs, q5 + 1);
                        p_fields_exec(cs, q6, acc2, fuel - 1)
                    } else if q5 < cs.len() && cs[q5] == '}' {
                        Some((acc2, q5 + 1))
                    } else {
                        None
                    }
                },
            }
        },
    }
}

impl JsonValue {
    /// Parses a JSON document: one value between optional whitespace.
    pub fn parse_json(s: &str) -> (r: Option<JsonValue>)
        ensures
            match r {
                Some(v) => json_parse(s@) == Some(v@) && wf(v@),
                None => json_parse(s@) is None,
            },
    {
        let cs = str_to_chars(s);
        let doubled = match cs.len().checked_mul(2) {
            Some(d) => d,
            None => {
                return None;
            },
        };
        let fuel = match doubled.checked_add(2) {
            Some(f) => f,
            None => {
                return None;
            },
        };
        let p0 = ws_to(&cs, 0);
        match p_value_exec(&cs, p0, fuel) {
            None => None,
            Some((v, q)) => {
                let p1 = ws_to(&cs, q);
                if p1 == cs.len() && v.is_wf() {
                    Some(v)
                } else {
                    None
                }
            },
        }
    }
}

/// The display text of a value in a substitution: strings stand bare,
/// scalars as their JSON text, arrays as their elements' display texts
/// joined by ", ", objects as their JSON text.
pub open spec fn render_text(v: JVal) -> Seq<char>
    decreases v,
{
    match v {
        JVal::Null => seq!['n', 'u', 'l', 'l'],
        JVal::Bool(b) => if b {
            seq!['t', 'r', 'u', 'e']
        } else {
            seq!['f', 'a', 'l', 's', 'e']
        },
        JVal::Num(m, sc) => num_text(m, sc),
        JVal::Str(t) => t,
        JVal::Arr(items) => render_items(items),
        JVal::Obj(fields) => seq!['{'] + obj_text(fields) + seq!['}'],
    }
}

/// The ", "-joined display texts of array elements.
pub open spec fn render_items(items: Seq<JVal>) -> Seq<char>
    decreases items,
{
    if items.len() == 0 {
        Seq::empty()
    } else if items.len() == 1 {
        render_text(items.last())
    } else {
        render_items(items.drop_last()) + seq![',', ' '] + render_text(items.last())
    }
}

#[verifier::loop_isolation(false)]
#[verifier::rlimit(80)]
fn render_rec(v: &JsonValue, out: &mut Vec<char>)
    requires
        wf(v@),
    ensures
        final(out)@ == old(out)@ + render_text(v@),
    decreases *v,
{
    match v {
        JsonValue::Null => {
            out.push('n');
            out.push('u');
            out.push('l');
            out.push('l');
            proof {
                assert(out@ =~= old(out)@ + render_text(v@));
            }
        },
        JsonValue::Bool(b) => {
            if *b {
                out.push('t');
                out.push('r');
                out.push('u');
                out.push('e');
            } else {
                out.push('f');
                out.push('a');
                out.push('l');
                out.push('s');
                out.push('e');
            }
            proof {
                assert(out@ =~= old(out)@ + render_text(v@));
            }
        },
        JsonValue::Num(n) => {
            let nc = num_chars(n);
            extend_chars(out, &nc);
        },
        JsonValue::Str(t) => {
            let tc = str_to_chars(t.as_str());
            extend_chars(out, &tc);
        },
        JsonValue::Arr(items) => {
            proof {
                lemma_jv_seq(items@);
            }
            let ghost sv = jv_seq(items@);
            let ghost head = out@;
            let mut k: usize = 0;
            proof {
                assert(render_items(sv.take(0)) =~= Seq::<char>::empty());
                assert(head + render_items(sv.take(0)) =~= head);
            }
            while k < items.len()
                invariant
                    k <= items@.len(),
                    out@ == head + render_items(sv.take(k as int)),
                decreases items@.len() - k,
            {
                proof {
                    assert(decreases_to!(*v => items@[k as int]));
                    lemma_wf_seq_elem(sv, k as int);
                }
                if k > 0 {
                    out.push(',');
                    out.push(' ');
                }
                render_rec(&items[k], out);
                proof {
                    assert(sv.take(k + 1 as int).drop_last() =~= sv.take(k as int));
                    assert(sv.take(k + 1 as int).last() == sv[k as int]);
                    assert(out@ =~= head + render_items(sv.take(k + 1 as int)));
                }
                k += 1;
            }
            proof {
                assert(sv.take(items@.len() as int) =~= sv);
            }
        },
        JsonValue::Obj(_) => {
            text_rec(v, out);
        },
    }
}

impl JsonValue {
    /// The display text of this value in a substitution.
    pub fn render(&self) -> (r: String)
        requires
            wf(self@),
        ensures
            r@ == render_text(self@),
    {
        let mut out: Vec<char> = Vec::new();
        render_rec(self, &mut out);
        proof {
            assert(Seq::<char>::empty() + render_text(self@) =~= render_text(self@));
        }
        chars_to_string(&out)
    }
}

/// What the number parser accepts is a well-formed number.
pub proof fn lemma_p_number_wf(s: Seq<char>, pos: int)
    requires
        p_number(s, pos) is Some,
    ensures
        num_wf((p_number(s, pos)->0).0, (p_number(s, pos)->0).1),
{
    let neg = 0 <= pos < s.len() && s[pos] == '-';
    let ip = if neg {
        pos + 1
    } else {
        pos
    };
    let ie = digits_end(s, ip);
    if 0 <= ip <= s.len() {
        lemma_digits_end_bounds(s, ip);
    }
    if ie != ip {
        let iv = digits_val(s.subrange(ip, ie));
        lemma_digits_val_nonneg(s.subrange(ip, ie));
        if ie < s.len() && s[ie] == '.' {
            let fs = ie + 1;
            if 0 <= fs <= s.len() {
                lemma_digits_end_bounds(s, fs);
            }
            let fe = digits_end(s, fs);
            if fe != fs {
                let sc = fe - fs;
                let fv = digits_val(s.subrange(fs, fe));
                lemma_digits_val_nonneg(s.subrange(fs, fe));
                if sc <= 18 {
                    lemma_pow10_pos(sc as nat);
                    assert(iv * pow10(sc as nat) >= 0) by (nonlinear_arith)
                        requires
                            iv >= 0,
                            pow10(sc as nat) >= 1,
                    {}
                    let m = iv * pow10(sc as nat) + fv;
                    if m <= i64::MAX {
                        assert(0 <= m <= i64::MAX);
                        assert(num_wf(m, sc as nat));
                        assert(num_wf(-m, sc as nat));
                    }
                }
            }
        } else {
            if iv <= i64::MAX {
                assert(num_wf(iv, 0));
                assert(num_wf(-iv, 0));
            }
        }
    }
}

} // verus!
