use vstd::prelude::*;

verus! {

/// A JSON number, held as a scaled decimal: the value denoted is
/// `mant / 10^scale`. `45.99` is held as mantissa 4599, scale 2.
#[derive(Clone, Copy, Debug)]
pub struct JsonNum {
    pub mant: i64,
    pub scale: u8,
}

/// A JSON value: the generic carrier of the whole library.
#[derive(Debug)]
pub enum JsonValue {
    Null,
    Bool(bool),
    Num(JsonNum),
    Str(String),
    Arr(Vec<JsonValue>),
    Obj(Vec<(String, JsonValue)>),
}

/// The mathematical model of a JSON value. Numbers carry their mantissa
/// and scale; strings are character sequences; objects are field lists.
pub enum JVal {
    Null,
    Bool(bool),
    Num(int, nat),
    Str(Seq<char>),
    Arr(Seq<JVal>),
    Obj(Seq<(Seq<char>, JVal)>),
}

/// The model of a JSON value.
pub open spec fn jv(v: JsonValue) -> JVal
    decreases v,
{
    match v {
        JsonValue::Null => JVal::Null,
        JsonValue::Bool(b) => JVal::Bool(b),
        JsonValue::Num(n) => JVal::Num(n.mant as int, n.scale as nat),
        JsonValue::Str(s) => JVal::Str(s@),
        JsonValue::Arr(items) => JVal::Arr(jv_seq(items@)),
        JsonValue::Obj(fields) => JVal::Obj(jv_fields(fields@)),
    }
}

pub open spec fn jv_seq(s: Seq<JsonValue>) -> Seq<JVal>
    decreases s,
{
    if s.len() == 0 {
        Seq::empty()
    } else {
        jv_seq(s.drop_last()).push(jv(s.last()))
    }
}

pub open spec fn jv_fields(s: Seq<(String, JsonValue)>) -> Seq<(Seq<char>, JVal)>
    decreases s,
{
    if s.len() == 0 {
        Seq::empty()
    } else {
        jv_fields(s.drop_last()).push((s.last().0@, jv(s.last().1)))
    }
}

impl View for JsonValue {
    type V = JVal;

    open spec fn view(&self) -> JVal {
        jv(*self)
    }
}

pub broadcast proof fn lemma_jv_seq(s: Seq<JsonValue>)
    ensures
        (#[trigger] jv_seq(s)).len() == s.len(),
        forall|i: int| 0 <= i < s.len() ==> jv_seq(s)[i] == jv(s[i]),
    decreases s.len(),
{
    if s.len() > 0 {
        lemma_jv_seq(s.drop_last());
    }
}

pub broadcast proof fn lemma_jv_fields(s: Seq<(String, JsonValue)>)
    ensures
        (#[trigger] jv_fields(s)).len() == s.len(),
        forall|i: int| 0 <= i < s.len() ==> jv_fields(s)[i] == (s[i].0@, jv(s[i].1)),
    decreases s.len(),
{
    if s.len() > 0 {
        lemma_jv_fields(s.drop_last());
    }
}

/// Two value lists with the same models have the same model list.
pub proof fn lemma_jv_seq_congruent(s1: Seq<JsonValue>, s2: Seq<JsonValue>)
    requires
        s1.len() == s2.len(),
        forall|i: int| 0 <= i < s1.len() ==> jv(s1[i]) == jv(s2[i]),
    ensures
        jv_seq(s1) == jv_seq(s2),
    decreases s1.len(),
{
    if s1.len() > 0 {
        lemma_jv_seq_congruent(s1.drop_last(), s2.drop_last());
    }
}

/// Two field lists with the same names and value models have the same model.
pub proof fn lemma_jv_fields_congruent(s1: Seq<(String, JsonValue)>, s2: Seq<(String, JsonValue)>)
    requires
        s1.len() == s2.len(),
        forall|i: int| 0 <= i < s1.len() ==> s1[i].0@ == s2[i].0@ && jv(s1[i].1) == jv(s2[i].1),
    ensures
        jv_fields(s1) == jv_fields(s2),
    decreases s1.len(),
{
    if s1.len() > 0 {
        lemma_jv_fields_congruent(s1.drop_last(), s2.drop_last());
    }
}

/// 10^n.
pub open spec fn pow10(n: nat) -> nat
    decreases n,
{
    if n == 0 {
        1
    } else {
        10 * pow10((n - 1) as nat)
    }
}

/// Numeric equality of two scaled decimals.
pub open spec fn nums_eq(m1: int, s1: nat, m2: int, s2: nat) -> bool {
    m1 * pow10(s2) == m2 * pow10(s1)
}

/// Numeric strict order of two scaled decimals.
pub open spec fn nums_lt(m1: int, s1: nat, m2: int, s2: nat) -> bool {
    m1 * pow10(s2) < m2 * pow10(s1)
}

/// Well-formed numbers keep the scale small enough that comparisons
/// cannot overflow a 128-bit intermediate.
pub open spec fn num_wf(m: int, s: nat) -> bool {
    &&& i64::MIN <= m <= i64::MAX
    &&& s <= 18
}

/// Well-formedness of a model value: every number in it is well formed
/// and every object has pairwise distinct field names.
pub open spec fn wf(v: JVal) -> bool
    decreases v,
{
    match v {
        JVal::Null => true,
        JVal::Bool(_) => true,
        JVal::Num(m, s) => num_wf(m, s),
        JVal::Str(_) => true,
        JVal::Arr(items) => wf_seq(items),
        JVal::Obj(fields) => wf_fields(fields) && distinct_keys(fields),
    }
}

/// Every element of the list is well formed.
pub open spec fn wf_seq(items: Seq<JVal>) -> bool
    decreases items,
{
    if items.len() == 0 {
        true
    } else {
        wf_seq(items.drop_last()) && wf(items.last())
    }
}

/// Every field value of the list is well formed.
pub open spec fn wf_fields(fields: Seq<(Seq<char>, JVal)>) -> bool
    decreases fields,
{
    if fields.len() == 0 {
        true
    } else {
        wf_fields(fields.drop_last()) && wf(fields.last().1)
    }
}

/// No field of the list bears the given name.
pub open spec fn key_absent(fields: Seq<(Seq<char>, JVal)>, name: Seq<char>) -> bool
    decreases fields.len(),
{
    if fields.len() == 0 {
        true
    } else {
        key_absent(fields.drop_last(), name) && fields.last().0 != name
    }
}

/// The field names of the list are pairwise distinct.
pub open spec fn distinct_keys(fields: Seq<(Seq<char>, JVal)>) -> bool
    decreases fields.len(),
{
    if fields.len() == 0 {
        true
    } else {
        distinct_keys(fields.drop_last()) && key_absent(fields.drop_last(), fields.last().0)
    }
}

/// An element of a well-formed list is well formed.
pub proof fn lemma_wf_seq_elem(items: Seq<JVal>, i: int)
    requires
        wf_seq(items),
        0 <= i < items.len(),
    ensures
        wf(items[i]),
    decreases items.len(),
{
    if i < items.len() - 1 {
        lemma_wf_seq_elem(items.drop_last(), i);
    }
}

/// A field value of a well-formed field list is well formed.
pub proof fn lemma_wf_fields_elem(fields: Seq<(Seq<char>, JVal)>, i: int)
    requires
        wf_fields(fields),
        0 <= i < fields.len(),
    ensures
        wf(fields[i].1),
    decreases fields.len(),
{
    if i < fields.len() - 1 {
        lemma_wf_fields_elem(fields.drop_last(), i);
    }
}

/// In a list with pairwise distinct field names, two positions bear
/// different names.
pub proof fn lemma_distinct_keys_index(fields: Seq<(Seq<char>, JVal)>, i: int, j: int)
    requires
        distinct_keys(fields),
        0 <= i < j < fields.len(),
    ensures
        fields[i].0 != fields[j].0,
    decreases fields.len(),
{
    if j < fields.len() - 1 {
        lemma_distinct_keys_index(fields.drop_last(), i, j);
    } else {
        lemma_key_absent_index(fields.drop_last(), fields.last().0, i);
    }
}

/// A name absent from a list differs from the name at every position.
pub proof fn lemma_key_absent_index(fields: Seq<(Seq<char>, JVal)>, name: Seq<char>, i: int)
    requires
        key_absent(fields, name),
        0 <= i < fields.len(),
    ensures
        fields[i].0 != name,
    decreases fields.len(),
{
    if i < fields.len() - 1 {
        lemma_key_absent_index(fields.drop_last(), name, i);
    }
}

/// The value of the first field with the given name, if any.
pub open spec fn obj_lookup(fields: Seq<(Seq<char>, JVal)>, name: Seq<char>) -> Option<JVal>
    decreases fields.len(),
{
    if fields.len() == 0 {
        None
    } else if fields.first().0 == name {
        Some(fields.first().1)
    } else {
        obj_lookup(fields.drop_first(), name)
    }
}

/// A found field value stands at some position of the list.
pub proof fn lemma_obj_lookup_index(fields: Seq<(Seq<char>, JVal)>, name: Seq<char>)
    requires
        obj_lookup(fields, name) is Some,
    ensures
        exists|k: int|
            0 <= k < fields.len() && (#[trigger] fields[k]).0 == name && fields[k].1 == obj_lookup(
                fields,
                name,
            )->0,
    decreases fields.len(),
{
    if fields.len() > 0 && fields.first().0 != name {
        lemma_obj_lookup_index(fields.drop_first(), name);
        let k = choose|k: int|
            0 <= k < fields.drop_first().len() && (#[trigger] fields.drop_first()[k]).0 == name
                && fields.drop_first()[k].1 == obj_lookup(fields.drop_first(), name)->0;
        assert(fields[k + 1] == fields.drop_first()[k]);
    }
}

/// Whatever `obj_lookup` finds among well-formed field values is well formed.
pub proof fn lemma_obj_lookup_wf(fields: Seq<(Seq<char>, JVal)>, name: Seq<char>)
    requires
        wf_fields(fields),
        obj_lookup(fields, name) is Some,
    ensures
        wf(obj_lookup(fields, name)->0),
{
    lemma_obj_lookup_index(fields, name);
    let k = choose|k: int|
        0 <= k < fields.len() && (#[trigger] fields[k]).0 == name && fields[k].1 == obj_lookup(
            fields,
            name,
        )->0;
    lemma_wf_fields_elem(fields, k);
}

/// Deep JSON equality: numbers compare numerically, arrays element by
/// element in order, objects field by field regardless of order.
pub open spec fn jeq(a: JVal, b: JVal) -> bool
    decreases a,
{
    match (a, b) {
        (JVal::Null, JVal::Null) => true,
        (JVal::Bool(x), JVal::Bool(y)) => x == y,
        (JVal::Num(m1, s1), JVal::Num(m2, s2)) => nums_eq(m1, s1, m2, s2),
        (JVal::Str(x), JVal::Str(y)) => x == y,
        (JVal::Arr(xs), JVal::Arr(ys)) => xs.len() == ys.len() && jeq_seq(xs, ys),
        (JVal::Obj(fa), JVal::Obj(fb)) => fa.len() == fb.len() && jeq_obj(fa, fb),
        _ => false,
    }
}

/// Element-wise deep equality of two equally long lists.
pub open spec fn jeq_seq(xs: Seq<JVal>, ys: Seq<JVal>) -> bool
    decreases xs,
{
    if xs.len() == 0 || ys.len() == 0 {
        true
    } else {
        jeq_seq(xs.drop_last(), ys.drop_last()) && jeq(xs.last(), ys.last())
    }
}

/// Every field of the first list is found in the second with a deeply
/// equal value.
pub open spec fn jeq_obj(fa: Seq<(Seq<char>, JVal)>, fb: Seq<(Seq<char>, JVal)>) -> bool
    decreases fa,
{
    if fa.len() == 0 {
        true
    } else {
        jeq_obj(fa.drop_last(), fb) && {
            let w = obj_lookup(fb, fa.last().0);
            w is Some && jeq(fa.last().1, w->0)
        }
    }
}

pub proof fn lemma_jeq_seq_index(xs: Seq<JVal>, ys: Seq<JVal>, i: int)
    requires
        xs.len() == ys.len(),
        jeq_seq(xs, ys),
        0 <= i < xs.len(),
    ensures
        jeq(xs[i], ys[i]),
    decreases xs.len(),
{
    if i < xs.len() - 1 {
        lemma_jeq_seq_index(xs.drop_last(), ys.drop_last(), i);
    }
}

pub proof fn lemma_jeq_obj_index(fa: Seq<(Seq<char>, JVal)>, fb: Seq<(Seq<char>, JVal)>, i: int)
    requires
        jeq_obj(fa, fb),
        0 <= i < fa.len(),
    ensures
        obj_lookup(fb, fa[i].0) is Some,
        jeq(fa[i].1, obj_lookup(fb, fa[i].0)->0),
    decreases fa.len(),
{
    if i < fa.len() - 1 {
        lemma_jeq_obj_index(fa.drop_last(), fb, i);
    }
}

/// 10^e for e up to 18, in a 128-bit integer.
pub fn pow10_i128(e: u8) -> (r: i128)
    requires
        e <= 18,
    ensures
        r == pow10(e as nat),
        1 <= r <= 1000000000000000000,
{
    proof {
        reveal_with_fuel(pow10, 19);
    }
    if e == 0 { 1 }
    else if e == 1 { 10 }
    else if e == 2 { 100 }
    else if e == 3 { 1000 }
    else if e == 4 { 10000 }
    else if e == 5 { 100000 }
    else if e == 6 { 1000000 }
    else if e == 7 { 10000000 }
    else if e == 8 { 100000000 }
    else if e == 9 { 1000000000 }
    else if e == 10 { 10000000000 }
    else if e == 11 { 100000000000 }
    else if e == 12 { 1000000000000 }
    else if e == 13 { 10000000000000 }
    else if e == 14 { 100000000000000 }
    else if e == 15 { 1000000000000000 }
    else if e == 16 { 10000000000000000 }
    else if e == 17 { 100000000000000000 }
    else { 1000000000000000000 }
}

/// Compares two well-formed numbers numerically; negative, zero or
/// positive as the first is below, equal to or above the second.
pub fn num_cmp(a: &JsonNum, b: &JsonNum) -> (r: i8)
    requires
        a.scale <= 18,
        b.scale <= 18,
    ensures
        (r == 0) == nums_eq(a.mant as int, a.scale as nat, b.mant as int, b.scale as nat),
        (r < 0) == nums_lt(a.mant as int, a.scale as nat, b.mant as int, b.scale as nat),
        (r > 0) == nums_lt(b.mant as int, b.scale as nat, a.mant as int, a.scale as nat),
{
    let pa = pow10_i128(b.scale);
    let pb = pow10_i128(a.scale);
    proof {
        assert((a.mant as i128) * pa == (a.mant as int) * pow10(b.scale as nat) && i128::MIN <= (
        a.mant as int) * pow10(b.scale as nat) <= i128::MAX) by (nonlinear_arith)
            requires
                i64::MIN <= a.mant <= i64::MAX,
                1 <= pa <= 1000000000000000000,
                pa == pow10(b.scale as nat),
        {}
        assert((b.mant as i128) * pb == (b.mant as int) * pow10(a.scale as nat) && i128::MIN <= (
        b.mant as int) * pow10(a.scale as nat) <= i128::MAX) by (nonlinear_arith)
            requires
                i64::MIN <= b.mant <= i64::MAX,
                1 <= pb <= 1000000000000000000,
                pb == pow10(a.scale as nat),
        {}
    }
    let lhs: i128 = (a.mant as i128) * pa;
    let rhs: i128 = (b.mant as i128) * pb;
    if lhs < rhs {
        -1
    } else if lhs == rhs {
        0
    } else {
        1
    }
}

/// The value of the first field with the given name, if any.
pub fn lookup_field<'a>(fields: &'a Vec<(String, JsonValue)>, name: &str) -> (r: Option<
    &'a JsonValue,
>)
    ensures
        match r {
            Some(v) => obj_lookup(jv_fields(fields@), name@) == Some(v@),
            None => obj_lookup(jv_fields(fields@), name@) is None,
        },
{
    let mut i: usize = 0;
    proof {
        lemma_jv_fields(fields@);
        assert(jv_fields(fields@).skip(0) =~= jv_fields(fields@));
    }
    while i < fields.len()
        invariant
            i <= fields@.len(),
            obj_lookup(jv_fields(fields@), name@) == obj_lookup(
                jv_fields(fields@).skip(i as int),
                name@,
            ),
        decreases fields@.len() - i,
    {
        proof {
            lemma_jv_fields(fields@);
            assert(jv_fields(fields@).skip(i as int)[0] == jv_fields(fields@)[i as int]);
        }
        if crate::strutil::str_eq(fields[i].0.as_str(), name) {
            return Some(&fields[i].1);
        }
        proof {
            lemma_jv_fields(fields@);
            assert(jv_fields(fields@).skip(i as int).drop_first() =~= jv_fields(fields@).skip(
                i + 1 as int,
            ));
        }
        i += 1;
    }
    proof {
        lemma_jv_fields(fields@);
        assert(jv_fields(fields@).skip(fields@.len() as int) =~= Seq::<(Seq<char>, JVal)>::empty());
    }
    None
}

impl JsonValue {
    /// Deep equality with another value, as `jeq` states it.
    #[verifier::loop_isolation(false)]
    pub fn deep_eq(&self, other: &JsonValue) -> (r: bool)
        requires
            wf(self@),
            wf(other@),
        ensures
            r == jeq(self@, other@),
        decreases *self,
    {
        match (self, other) {
            (JsonValue::Null, JsonValue::Null) => true,
            (JsonValue::Bool(x), JsonValue::Bool(y)) => *x == *y,
            (JsonValue::Num(x), JsonValue::Num(y)) => num_cmp(x, y) == 0,
            (JsonValue::Str(x), JsonValue::Str(y)) => crate::strutil::str_eq(
                x.as_str(),
                y.as_str(),
            ),
            (JsonValue::Arr(xs), JsonValue::Arr(ys)) => {
                proof {
                    lemma_jv_seq(xs@);
                    lemma_jv_seq(ys@);
                }
                if xs.len() != ys.len() {
                    return false;
                }
                let ghost sx = jv_seq(xs@);
                let ghost sy = jv_seq(ys@);
                let mut i: usize = 0;
                while i < xs.len()
                    invariant
                        i <= xs@.len(),
                        xs@.len() == ys@.len(),
                        jeq_seq(sx.take(i as int), sy.take(i as int)),
                    decreases xs@.len() - i,
                {
                    proof {
                        lemma_wf_seq_elem(sx, i as int);
                        lemma_wf_seq_elem(sy, i as int);
                        assert(decreases_to!(*self => xs@[i as int]));
                    }
                    if !xs[i].deep_eq(&ys[i]) {
                        proof {
                            if jeq_seq(sx, sy) {
                                lemma_jeq_seq_index(sx, sy, i as int);
                            }
                        }
                        return false;
                    }
                    proof {
                        assert(sx.take(i + 1 as int).drop_last() =~= sx.take(i as int));
                        assert(sy.take(i + 1 as int).drop_last() =~= sy.take(i as int));
                    }
                    i += 1;
                }
                proof {
                    assert(sx.take(xs@.len() as int) =~= sx);
                    assert(sy.take(ys@.len() as int) =~= sy);
                }
                true
            },
            (JsonValue::Obj(fa), JsonValue::Obj(fb)) => {
                proof {
                    lemma_jv_fields(fa@);
                    lemma_jv_fields(fb@);
                }
                if fa.len() != fb.len() {
                    return false;
                }
                let ghost sa = jv_fields(fa@);
                let ghost sb = jv_fields(fb@);
                let mut i: usize = 0;
                while i < fa.len()
                    invariant
                        i <= fa@.len(),
                        fa@.len() == fb@.len(),
                        jeq_obj(sa.take(i as int), sb),
                    decreases fa@.len() - i,
                {
                    proof {
                        lemma_wf_fields_elem(sa, i as int);
                        assert(decreases_to!(*self => fa@[i as int].1));
                    }
                    let found = lookup_field(fb, fa[i].0.as_str());
                    match found {
                        None => {
                            proof {
                                if jeq_obj(sa, sb) {
                                    lemma_jeq_obj_index(sa, sb, i as int);
                                }
                            }
                            return false;
                        },
                        Some(w) => {
                            proof {
                                lemma_obj_lookup_wf(sb, sa[i as int].0);
                            }
                            if !fa[i].1.deep_eq(w) {
                                proof {
                                    if jeq_obj(sa, sb) {
                                        lemma_jeq_obj_index(sa, sb, i as int);
                                    }
                                }
                                return false;
                            }
                        },
                    }
                    proof {
                        assert(sa.take(i + 1 as int).drop_last() =~= sa.take(i as int));
                        assert(sa.take(i + 1 as int).last() == sa[i as int]);
                    }
                    i += 1;
                }
                proof {
                    assert(sa.take(fa@.len() as int) =~= sa);
                }
                true
            },
            _ => false,
        }
    }

    /// A structurally identical copy of this value.
    #[verifier::loop_isolation(false)]
    pub fn duplicate(&self) -> (r: JsonValue)
        ensures
            r@ == self@,
        decreases *self,
    {
        match self {
            JsonValue::Null => JsonValue::Null,
            JsonValue::Bool(b) => JsonValue::Bool(*b),
            JsonValue::Num(n) => JsonValue::Num(*n),
            JsonValue::Str(s) => JsonValue::Str(s.clone()),
            JsonValue::Arr(items) => {
                let mut out: Vec<JsonValue> = Vec::new();
                let mut i: usize = 0;
                while i < items.len()
                    invariant
                        i <= items@.len(),
                        out@.len() == i,
                        forall|j: int| 0 <= j < i ==> jv(#[trigger] out@[j]) == jv(items@[j]),
                    decreases items@.len() - i,
                {
                    proof {
                        assert(decreases_to!(*self => items@[i as int]));
                    }
                    let d = items[i].duplicate();
                    out.push(d);
                    i += 1;
                }
                proof {
                    lemma_jv_seq_congruent(out@, items@);
                }
                JsonValue::Arr(out)
            },
            JsonValue::Obj(fields) => {
                let mut out: Vec<(String, JsonValue)> = Vec::new();
                let mut i: usize = 0;
                while i < fields.len()
                    invariant
                        i <= fields@.len(),
                        out@.len() == i,
                        forall|j: int|
                            0 <= j < i ==> (#[trigger] out@[j]).0@ == fields@[j].0@ && jv(
                                out@[j].1,
                            ) == jv(fields@[j].1),
                    decreases fields@.len() - i,
                {
                    proof {
                        assert(decreases_to!(*self => fields@[i as int].1));
                    }
                    let k = fields[i].0.clone();
                    let d = fields[i].1.duplicate();
                    out.push((k, d));
                    i += 1;
                }
                proof {
                    lemma_jv_fields_congruent(out@, fields@);
                }
                JsonValue::Obj(out)
            },
        }
    }

    /// Whether this value is well formed.
    #[verifier::loop_isolation(false)]
    pub fn is_wf(&self) -> (r: bool)
        ensures
            r == wf(self@),
        decreases *self,
    {
        match self {
            JsonValue::Null => true,
            JsonValue::Bool(_) => true,
            JsonValue::Num(n) => n.scale <= 18,
            JsonValue::Str(_) => true,
            JsonValue::Arr(items) => {
                proof {
                    lemma_jv_seq(items@);
                }
                let ghost s = jv_seq(items@);
                let mut i: usize = 0;
                while i < items.len()
                    invariant
                        i <= items@.len(),
                        wf_seq(s.take(i as int)),
                    decreases items@.len() - i,
                {
                    proof {
                        assert(decreases_to!(*self => items@[i as int]));
                    }
                    if !items[i].is_wf() {
                        proof {
                            if wf_seq(s) {
                                lemma_wf_seq_elem(s, i as int);
                            }
                        }
                        return false;
                    }
                    proof {
                        assert(s.take(i + 1 as int).drop_last() =~= s.take(i as int));
                    }
                    i += 1;
                }
                proof {
                    assert(s.take(items@.len() as int) =~= s);
                }
                true
            },
            JsonValue::Obj(fields) => {
                proof {
                    lemma_jv_fields(fields@);
                }
                let ghost s = jv_fields(fields@);
                let mut i: usize = 0;
                while i < fields.len()
                    invariant
                        i <= fields@.len(),
                        wf_fields(s.take(i as int)),
                        distinct_keys(s.take(i as int)),
                    decreases fields@.len() - i,
                {
                    proof {
                        assert(decreases_to!(*self => fields@[i as int].1));
                    }
                    if !fields[i].1.is_wf() {
                        proof {
                            if wf_fields(s) {
                                lemma_wf_fields_elem(s, i as int);
                            }
                        }
                        return false;
                    }
                    let mut j: usize = 0;
                    while j < i
                        invariant
                            j <= i,
                            i < fields@.len(),
                            key_absent(s.take(j as int), s[i as int].0),
                        decreases i - j,
                    {
                        if crate::strutil::str_eq(fields[j].0.as_str(), fields[i].0.as_str()) {
                            proof {
                                if distinct_keys(s) {
                                    lemma_distinct_keys_index(s, j as int, i as int);
                                }
                            }
                            return false;
                        }
                        proof {
                            assert(s.take(j + 1 as int).drop_last() =~= s.take(j as int));
                        }
                        j += 1;
                    }
                    proof {
                        assert(s.take(i + 1 as int).drop_last() =~= s.take(i as int));
                        assert(s.take(i as int) =~= s.take(i + 1 as int).drop_last());
                    }
                    i += 1;
                }
                proof {
                    assert(s.take(fields@.len() as int) =~= s);
                }
                true
            },
        }
    }
}

/// Name absence depends on the names alone.
pub proof fn lemma_key_absent_congruent(
    f1: Seq<(Seq<char>, JVal)>,
    f2: Seq<(Seq<char>, JVal)>,
    name: Seq<char>,
)
    requires
        f1.len() == f2.len(),
        forall|i: int| 0 <= i < f1.len() ==> (#[trigger] f1[i]).0 == f2[i].0,
    ensures
        key_absent(f1, name) == key_absent(f2, name),
    decreases f1.len(),
{
    if f1.len() > 0 {
        lemma_key_absent_congruent(f1.drop_last(), f2.drop_last(), name);
    }
}

/// Distinctness of names depends on the names alone.
pub proof fn lemma_distinct_keys_congruent(f1: Seq<(Seq<char>, JVal)>, f2: Seq<(Seq<char>, JVal)>)
    requires
        f1.len() == f2.len(),
        forall|i: int| 0 <= i < f1.len() ==> (#[trigger] f1[i]).0 == f2[i].0,
    ensures
        distinct_keys(f1) == distinct_keys(f2),
    decreases f1.len(),
{
    if f1.len() > 0 {
        lemma_distinct_keys_congruent(f1.drop_last(), f2.drop_last());
        lemma_key_absent_congruent(f1.drop_last(), f2.drop_last(), f1.last().0);
    }
}

} // verus!
