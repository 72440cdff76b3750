use vstd::prelude::*;
use crate::json::{JsonValue, JVal, jv, jv_seq, jv_fields, lemma_jv_seq, lemma_jv_fields, lemma_jv_seq_congruent, lemma_jv_fields_congruent, obj_lookup, lookup_field, wf, wf_fields, distinct_keys, key_absent, lemma_key_absent_index};

verus! {

/// One step of a path expression: descend into a named field or into an
/// array element.
#[derive(Debug)]
pub enum OpticStep {
    Field(String),
    Index(usize),
}

/// The model of a step.
pub enum OStep {
    Field(Seq<char>),
    Index(int),
}

impl View for OpticStep {
    type V = OStep;

    open spec fn view(&self) -> OStep {
        match *self {
            OpticStep::Field(ref s) => OStep::Field(s@),
            OpticStep::Index(i) => OStep::Index(i as int),
        }
    }
}

/// A path expression over JSON documents: an ordered list of steps.
/// Text form uses `.` separators and `[i]` for indices.
#[derive(Debug)]
pub struct JsonOptic {
    pub steps: Vec<OpticStep>,
}

pub open spec fn oview(s: Seq<OpticStep>) -> Seq<OStep>
    decreases s,
{
    if s.len() == 0 {
        Seq::empty()
    } else {
        oview(s.drop_last()).push(s.last()@)
    }
}

impl View for JsonOptic {
    type V = Seq<OStep>;

    open spec fn view(&self) -> Seq<OStep> {
        oview(self.steps@)
    }
}

pub broadcast proof fn lemma_oview(s: Seq<OpticStep>)
    ensures
        (#[trigger] oview(s)).len() == s.len(),
        forall|i: int| 0 <= i < s.len() ==> oview(s)[i] == s[i]@,
    decreases s.len(),
{
    if s.len() > 0 {
        lemma_oview(s.drop_last());
    }
}

/// All sub-values of a document reached by the given steps. A missing
/// step yields nothing; a field step on an array applies to each element.
pub open spec fn ga(v: JVal, steps: Seq<OStep>) -> Seq<JVal>
    decreases steps.len(), v,
{
    if steps.len() == 0 {
        seq![v]
    } else {
        match (v, steps.first()) {
            (JVal::Obj(fields), OStep::Field(n)) => {
                if obj_lookup(fields, n) is Some {
                    ga(obj_lookup(fields, n)->0, steps.drop_first())
                } else {
                    Seq::empty()
                }
            },
            (JVal::Arr(items), OStep::Index(i)) => {
                if 0 <= i < items.len() {
                    ga(items[i], steps.drop_first())
                } else {
                    Seq::empty()
                }
            },
            (JVal::Arr(items), OStep::Field(_)) => ga_all(items, steps),
            _ => Seq::empty(),
        }
    }
}

/// The concatenation of `ga` over the elements of an array, in order.
pub open spec fn ga_all(items: Seq<JVal>, steps: Seq<OStep>) -> Seq<JVal>
    decreases steps.len(), items,
{
    if items.len() == 0 {
        Seq::empty()
    } else {
        ga_all(items.drop_last(), steps) + ga(items.last(), steps)
    }
}

/// Replaces the first field with the given name, or appends a new one.
pub open spec fn obj_set(fields: Seq<(Seq<char>, JVal)>, name: Seq<char>, w: JVal) -> Seq<
    (Seq<char>, JVal),
>
    decreases fields.len(),
{
    if fields.len() == 0 {
        seq![(name, w)]
    } else if fields.first().0 == name {
        seq![(fields.first().0, w)] + fields.drop_first()
    } else {
        seq![fields.first()] + obj_set(fields.drop_first(), name, w)
    }
}

/// `k` null values.
pub open spec fn nulls(k: nat) -> Seq<JVal> {
    Seq::new(k, |i: int| JVal::Null)
}

/// The list grown with nulls until it holds at least `n` elements.
pub open spec fn arr_pad(items: Seq<JVal>, n: int) -> Seq<JVal> {
    if items.len() >= n {
        items
    } else {
        items + nulls((n - items.len()) as nat)
    }
}

/// Writes `new` at the location the steps describe, creating objects and
/// padding arrays with nulls on the way down. A field step turns any
/// non-object into an object; an index step turns any non-array into an
/// array.
pub open spec fn jset(v: JVal, steps: Seq<OStep>, new: JVal) -> JVal
    decreases steps.len(),
{
    if steps.len() == 0 {
        new
    } else {
        match steps.first() {
            OStep::Field(n) => {
                let base = match v {
                    JVal::Obj(fields) => fields,
                    _ => Seq::empty(),
                };
                let child = if obj_lookup(base, n) is Some {
                    obj_lookup(base, n)->0
                } else {
                    JVal::Null
                };
                JVal::Obj(obj_set(base, n, jset(child, steps.drop_first(), new)))
            },
            OStep::Index(i) => {
                if i < 0 {
                    v
                } else {
                    let base = match v {
                        JVal::Arr(items) => items,
                        _ => Seq::empty(),
                    };
                    let padded = arr_pad(base, i + 1);
                    JVal::Arr(padded.update(i, jset(padded[i], steps.drop_first(), new)))
                }
            },
        }
    }
}

/// The first position bearing the given name, or -1.
pub open spec fn key_index(fields: Seq<(Seq<char>, JVal)>, name: Seq<char>) -> int
    decreases fields.len(),
{
    if fields.len() == 0 {
        -1
    } else if fields.first().0 == name {
        0
    } else {
        let r = key_index(fields.drop_first(), name);
        if r < 0 {
            -1
        } else {
            r + 1
        }
    }
}

/// `obj_lookup` finds exactly the value at `key_index`.
pub proof fn lemma_obj_lookup_key_index(fields: Seq<(Seq<char>, JVal)>, name: Seq<char>)
    ensures
        key_index(fields, name) < 0 <==> obj_lookup(fields, name) is None,
        key_index(fields, name) >= 0 ==> key_index(fields, name) < fields.len() && fields[key_index(
            fields,
            name,
        )].0 == name && obj_lookup(fields, name) == Some(fields[key_index(fields, name)].1),
    decreases fields.len(),
{
    if fields.len() > 0 && fields.first().0 != name {
        lemma_obj_lookup_key_index(fields.drop_first(), name);
    }
}

/// What `obj_set` does, stated over positions: replace at `key_index`,
/// or append when the name is absent.
pub proof fn lemma_obj_set_shape(fields: Seq<(Seq<char>, JVal)>, name: Seq<char>, w: JVal)
    ensures
        key_index(fields, name) < 0 ==> obj_set(fields, name, w) == fields.push((name, w)),
        key_index(fields, name) >= 0 ==> obj_set(fields, name, w) == fields.update(
            key_index(fields, name),
            (name, w),
        ),
    decreases fields.len(),
{
    if fields.len() == 0 {
        assert(obj_set(fields, name, w) =~= fields.push((name, w)));
    } else if fields.first().0 == name {
        assert(obj_set(fields, name, w) =~= fields.update(0, (name, w)));
    } else {
        lemma_obj_set_shape(fields.drop_first(), name, w);
        if key_index(fields.drop_first(), name) < 0 {
            assert(obj_set(fields, name, w) =~= fields.push((name, w)));
        } else {
            let k = key_index(fields.drop_first(), name);
            lemma_obj_lookup_key_index(fields.drop_first(), name);
            let lhs = seq![fields.first()] + fields.drop_first().update(k, (name, w));
            let rhs = fields.update(k + 1, (name, w));
            assert(fields.drop_first().len() == fields.len() - 1);
            assert(lhs.len() == rhs.len());
            assert forall|j: int| 0 <= j < lhs.len() implies lhs[j] == rhs[j] by {
                if j == 0 {
                } else if j == k + 1 {
                } else {
                    assert(fields.drop_first()[j - 1] == fields[j]);
                }
            }
            assert(lhs =~= rhs);
        }
    }
}

/// The first position, in a field list of an executable object, bearing
/// the given name, or none.
pub fn find_key(fields: &Vec<(String, JsonValue)>, name: &str) -> (r: Option<usize>)
    ensures
        match r {
            Some(k) => k < fields@.len() && key_index(jv_fields(fields@), name@) == k as int,
            None => key_index(jv_fields(fields@), name@) < 0,
        },
{
    let ghost s = jv_fields(fields@);
    let mut i: usize = 0;
    proof {
        lemma_jv_fields(fields@);
        assert(s.skip(0) =~= s);
    }
    while i < fields.len()
        invariant
            i <= fields@.len(),
            s == jv_fields(fields@),
            s.len() == fields@.len(),
            key_index(s, name@) == (if key_index(s.skip(i as int), name@) < 0 {
                -1
            } else {
                key_index(s.skip(i as int), name@) + i
            }),
        decreases fields@.len() - i,
    {
        proof {
            lemma_jv_fields(fields@);
            assert(s.skip(i as int)[0] == s[i as int]);
        }
        if crate::strutil::str_eq(fields[i].0.as_str(), name) {
            return Some(i);
        }
        proof {
            assert(s.skip(i as int).drop_first() =~= s.skip(i + 1 as int));
        }
        i += 1;
    }
    proof {
        assert(s.skip(fields@.len() as int) =~= Seq::<(Seq<char>, JVal)>::empty());
    }
    None
}

/// A copy of a field list, model for model.
pub(crate) fn dup_fields(fields: &Vec<(String, JsonValue)>) -> (r: Vec<(String, JsonValue)>)
    ensures
        jv_fields(r@) == jv_fields(fields@),
        r@.len() == fields@.len(),
{
    let mut out: Vec<(String, JsonValue)> = Vec::new();
    let mut i: usize = 0;
    while i < fields.len()
        invariant
            i <= fields@.len(),
            out@.len() == i,
            forall|j: int|
                0 <= j < i ==> (#[trigger] out@[j]).0@ == fields@[j].0@ && jv(out@[j].1) == jv(
                    fields@[j].1,
                ),
        decreases fields@.len() - i,
    {
        let k = fields[i].0.clone();
        let d = fields[i].1.duplicate();
        out.push((k, d));
        i += 1;
    }
    proof {
        lemma_jv_fields_congruent(out@, fields@);
    }
    out
}

/// A copy of a value list, model for model.
fn dup_items(items: &Vec<JsonValue>) -> (r: Vec<JsonValue>)
    ensures
        jv_seq(r@) == jv_seq(items@),
        r@.len() == items@.len(),
{
    let mut out: Vec<JsonValue> = Vec::new();
    let mut i: usize = 0;
    while i < items.len()
        invariant
            i <= items@.len(),
            out@.len() == i,
            forall|j: int| 0 <= j < i ==> jv(#[trigger] out@[j]) == jv(items@[j]),
        decreases items@.len() - i,
    {
        let d = items[i].duplicate();
        out.push(d);
        i += 1;
    }
    proof {
        lemma_jv_seq_congruent(out@, items@);
    }
    out
}

#[verifier::loop_isolation(false)]
fn ga_rec(v: &JsonValue, steps: &Vec<OpticStep>, idx: usize) -> (r: Vec<JsonValue>)
    requires
        idx <= steps@.len(),
    ensures
        jv_seq(r@) == ga(v@, oview(steps@).skip(idx as int)),
    decreases steps@.len() - idx, *v,
{
    proof {
        lemma_oview(steps@);
    }
    let ghost rest = oview(steps@).skip(idx as int);
    if idx == steps.len() {
        proof {
            assert(rest =~= Seq::<OStep>::empty());
        }
        let mut out: Vec<JsonValue> = Vec::new();
        out.push(v.duplicate());
        proof {
            lemma_jv_seq(out@);
            assert(out@.drop_last() =~= Seq::<JsonValue>::empty());
            assert(jv_seq(out@) =~= seq![v@]);
        }
        return out;
    }
    proof {
        assert(rest[0] == oview(steps@)[idx as int]);
        assert(rest.drop_first() =~= oview(steps@).skip(idx + 1 as int));
    }
    match (v, &steps[idx]) {
        (JsonValue::Obj(fields), OpticStep::Field(n)) => {
            match lookup_field(fields, n.as_str()) {
                Some(child) => ga_rec(child, steps, idx + 1),
                None => Vec::new(),
            }
        },
        (JsonValue::Arr(items), OpticStep::Index(i)) => {
            if *i < items.len() {
                proof {
                    lemma_jv_seq(items@);
                }
                ga_rec(&items[*i], steps, idx + 1)
            } else {
                proof {
                    lemma_jv_seq(items@);
                }
                Vec::new()
            }
        },
        (JsonValue::Arr(items), OpticStep::Field(_)) => {
            proof {
                lemma_jv_seq(items@);
            }
            let ghost sv = jv_seq(items@);
            let mut out: Vec<JsonValue> = Vec::new();
            let mut k: usize = 0;
            while k < items.len()
                invariant
                    k <= items@.len(),
                    jv_seq(out@) == ga_all(sv.take(k as int), rest),
                decreases items@.len() - k,
            {
                proof {
                    assert(decreases_to!(*v => items@[k as int]));
                }
                let mut part = ga_rec(&items[k], steps, idx);
                let ghost out_before = out@;
                let mut t: usize = 0;
                while t < part.len()
                    invariant
                        t <= part@.len(),
                        out@.len() == out_before.len() + t,
                        jv_seq(out@) == jv_seq(out_before) + jv_seq(part@).take(t as int),
                    decreases part@.len() - t,
                {
                    proof {
                        lemma_jv_seq(part@);
                    }
                    let d = part[t].duplicate();
                    let ghost prev = out@;
                    out.push(d);
                    proof {
                        lemma_jv_seq(part@);
                        assert(out@.drop_last() =~= prev);
                        assert(jv_seq(out@) == jv_seq(prev).push(jv(d)));
                        assert(jv_seq(part@).take(t as int).push(jv_seq(part@)[t as int])
                            =~= jv_seq(part@).take(t + 1 as int));
                        assert(jv_seq(out@) =~= jv_seq(out_before) + jv_seq(part@).take(
                            t + 1 as int,
                        ));
                    }
                    t += 1;
                }
                proof {
                    lemma_jv_seq(part@);
                    assert(jv_seq(part@).take(part@.len() as int) =~= jv_seq(part@));
                    assert(sv.take(k + 1 as int).drop_last() =~= sv.take(k as int));
                    assert(sv.take(k + 1 as int).last() == sv[k as int]);
                }
                k += 1;
            }
            proof {
                assert(sv.take(items@.len() as int) =~= sv);
            }
            out
        },
        _ => {
            proof {
                match v@ {
                    JVal::Obj(_) => {},
                    JVal::Arr(_) => {},
                    _ => {},
                }
            }
            Vec::new()
        },
    }
}

#[verifier::loop_isolation(false)]
fn set_rec(v: JsonValue, steps: &Vec<OpticStep>, idx: usize, new: &JsonValue) -> (r: JsonValue)
    requires
        idx <= steps@.len(),
    ensures
        r@ == jset(v@, oview(steps@).skip(idx as int), new@),
    decreases steps@.len() - idx,
{
    proof {
        lemma_oview(steps@);
    }
    let ghost rest = oview(steps@).skip(idx as int);
    if idx == steps.len() {
        proof {
            assert(rest =~= Seq::<OStep>::empty());
        }
        return new.duplicate();
    }
    proof {
        assert(rest[0] == oview(steps@)[idx as int]);
        assert(rest.drop_first() =~= oview(steps@).skip(idx + 1 as int));
    }
    match &steps[idx] {
        OpticStep::Field(n) => {
            let mut base: Vec<(String, JsonValue)> = match v {
                JsonValue::Obj(fields) => fields,
                _ => Vec::new(),
            };
            proof {
                if !(v@ is Obj) {
                    assert(jv_fields(base@) =~= Seq::<(Seq<char>, JVal)>::empty());
                }
            }
            let ghost bfields = jv_fields(base@);
            let found = find_key(&base, n.as_str());
            proof {
                lemma_obj_lookup_key_index(bfields, n@);
                lemma_obj_set_shape(bfields, n@, jset(
                    (if obj_lookup(bfields, n@) is Some {
                        obj_lookup(bfields, n@)->0
                    } else {
                        JVal::Null
                    }),
                    rest.drop_first(),
                    new@,
                ));
            }
            match found {
                Some(k) => {
                    let child = base[k].1.duplicate();
                    let newchild = set_rec(child, steps, idx + 1, new);
                    let key = base[k].0.clone();
                    let ghost prevb = base@;
                    base.set(k, (key, newchild));
                    proof {
                        lemma_jv_fields(base@);
                        lemma_jv_fields(prevb);
                        assert(jv_fields(base@) =~= bfields.update(
                            key_index(bfields, n@),
                            (n@, jset(obj_lookup(bfields, n@)->0, rest.drop_first(), new@)),
                        ));
                    }
                    JsonValue::Obj(base)
                },
                None => {
                    let newchild = set_rec(JsonValue::Null, steps, idx + 1, new);
                    let key = String::from_str(n.as_str());
                    let ghost prevb = base@;
                    base.push((key, newchild));
                    proof {
                        lemma_jv_fields(base@);
                        lemma_jv_fields(prevb);
                        assert(base@.drop_last() =~= prevb);
                        assert(jv_fields(base@) =~= bfields.push(
                            (n@, jset(JVal::Null, rest.drop_first(), new@)),
                        ));
                    }
                    JsonValue::Obj(base)
                },
            }
        },
        OpticStep::Index(i) => {
            let i: usize = *i;
            let mut base: Vec<JsonValue> = match v {
                JsonValue::Arr(items) => items,
                _ => Vec::new(),
            };
            proof {
                if !(v@ is Arr) {
                    assert(jv_seq(base@) =~= Seq::<JVal>::empty());
                }
            }
            let ghost bitems = jv_seq(base@);
            proof {
                lemma_jv_seq(base@);
            }
            while base.len() <= i
                invariant
                    jv_seq(base@) == arr_pad(bitems, base@.len() as int),
                    base@.len() >= bitems.len(),
                    base@.len() <= i + 1 || base@.len() == bitems.len(),
                decreases i + 1 - base@.len(),
            {
                let ghost prevb = base@;
                base.push(JsonValue::Null);
                proof {
                    assert(base@.drop_last() =~= prevb);
                    assert(jv_seq(base@) == jv_seq(prevb).push(JVal::Null));
                    assert(jv_seq(base@) =~= arr_pad(bitems, base@.len() as int));
                }
            }
            proof {
                lemma_jv_seq(base@);
                assert(jv_seq(base@) =~= arr_pad(bitems, i + 1));
            }
            let ghost padded = arr_pad(bitems, i + 1);
            let child = base[i].duplicate();
            let newchild = set_rec(child, steps, idx + 1, new);
            let ghost prevb = base@;
            base.set(i, newchild);
            proof {
                lemma_jv_seq(base@);
                lemma_jv_seq(prevb);
                assert(jv_seq(base@) =~= padded.update(
                    i as int,
                    jset(padded[i as int], rest.drop_first(), new@),
                ));
            }
            JsonValue::Arr(base)
        },
    }
}

impl JsonValue {
    /// All sub-values the optic reaches in this document, in order.
    pub fn get_all(&self, optic: &JsonOptic) -> (r: Vec<JsonValue>)
        ensures
            jv_seq(r@) == ga(self@, optic@),
    {
        proof {
            assert(oview(optic.steps@).skip(0) =~= oview(optic.steps@));
        }
        ga_rec(self, &optic.steps, 0)
    }

    /// Whether the optic reaches at least one sub-value.
    pub fn exists_at(&self, optic: &JsonOptic) -> (r: bool)
        ensures
            r == (ga(self@, optic@).len() != 0),
    {
        let found = self.get_all(optic);
        proof {
            lemma_jv_seq(found@);
        }
        found.len() != 0
    }

    /// Writes `new` at the optic's location, creating intermediate
    /// objects and padding arrays with nulls as needed.
    pub fn set(&mut self, optic: &JsonOptic, new: &JsonValue)
        ensures
            final(self)@ == jset(old(self)@, optic@, new@),
    {
        let mut tmp = JsonValue::Null;
        core::mem::swap(self, &mut tmp);
        proof {
            assert(oview(optic.steps@).skip(0) =~= oview(optic.steps@));
        }
        let mut out = set_rec(tmp, &optic.steps, 0, new);
        core::mem::swap(self, &mut out);
    }
}

/// The step a path segment denotes: `[N]` with decimal digits that fit a
/// machine index is an index step, anything else a field step.
pub open spec fn seg_step(seg: Seq<char>) -> OStep {
    let inner = seg.subrange(1, seg.len() - 1);
    if seg.len() >= 3 && seg[0] == '[' && seg[seg.len() - 1] == ']'
        && crate::strutil::all_digits(inner) && crate::strutil::digits_val(inner) <= usize::MAX {
        OStep::Index(crate::strutil::digits_val(inner))
    } else {
        OStep::Field(seg)
    }
}

/// The first position at or after `pos` holding a dot, or the length.
pub open spec fn dot_from(s: Seq<char>, pos: int) -> int
    decreases s.len() - pos,
{
    if pos < 0 || pos >= s.len() {
        s.len() as int
    } else if s[pos] == '.' {
        pos
    } else {
        dot_from(s, pos + 1)
    }
}

pub proof fn lemma_dot_from_bounds(s: Seq<char>, pos: int)
    requires
        0 <= pos <= s.len(),
    ensures
        pos <= dot_from(s, pos) <= s.len(),
    decreases s.len() - pos,
{
    if pos < s.len() && s[pos] != '.' {
        lemma_dot_from_bounds(s, pos + 1);
    }
}

/// The steps of the path text from `pos` on: segments split on dots.
pub open spec fn path_steps_from(s: Seq<char>, pos: int) -> Seq<OStep>
    decreases s.len() - pos,
    via path_steps_from_decreases
{
    let d = dot_from(s, pos);
    let seg = s.subrange(pos, d);
    if pos < 0 || pos > s.len() {
        Seq::empty()
    } else if d >= s.len() {
        seq![seg_step(seg)]
    } else {
        seq![seg_step(seg)] + path_steps_from(s, d + 1)
    }
}

#[via_fn]
proof fn path_steps_from_decreases(s: Seq<char>, pos: int) {
    if 0 <= pos <= s.len() {
        lemma_dot_from_bounds(s, pos);
    }
}

/// The steps of a whole path text.
pub open spec fn optic_of_path(s: Seq<char>) -> Seq<OStep> {
    path_steps_from(s, 0)
}

/// The step a segment denotes.
fn seg_step_exec(seg: &Vec<char>) -> (r: OpticStep)
    ensures
        r@ == seg_step(seg@),
{
    let ghost inner = seg@.subrange(1, seg@.len() - 1);
    if !(seg.len() >= 3 && seg[0] == '[' && seg[seg.len() - 1] == ']') {
        return OpticStep::Field(crate::strutil::chars_to_string(seg));
    }
    let mut val: usize = 0;
    let mut k: usize = 1;
    proof {
        assert(inner.take(0) =~= Seq::<char>::empty());
    }
    while k < seg.len() - 1
        invariant
            1 <= k <= seg@.len() - 1,
            seg@.len() >= 3,
            inner == seg@.subrange(1, seg@.len() - 1),
            crate::strutil::all_digits(inner.take(k - 1)),
            val == crate::strutil::digits_val(inner.take(k - 1)),
        decreases seg@.len() - k,
    {
        let c = seg[k];
        proof {
            assert(inner[k - 1] == seg@[k as int]);
            assert(inner.take(k as int).drop_last() =~= inner.take(k - 1));
            assert(inner.take(k as int).last() == inner[k - 1]);
        }
        if !('0' <= c && c <= '9') {
            proof {
                if crate::strutil::all_digits(inner) {
                    crate::strutil::lemma_all_digits_index(inner, k - 1);
                }
            }
            return OpticStep::Field(crate::strutil::chars_to_string(seg));
        }
        let d = crate::strutil::digit_of(c);
        let stepped = val.checked_mul(10);
        let next: Option<usize> = match stepped {
            Some(m) => m.checked_add(d as usize),
            None => None,
        };
        match next {
            Some(nv) => {
                val = nv;
            },
            None => {
                proof {
                    crate::strutil::lemma_digits_val_prefix(inner, k as int);
                    crate::strutil::lemma_digits_val_nonneg(inner.take(k - 1));
                }
                return OpticStep::Field(crate::strutil::chars_to_string(seg));
            },
        }
        k += 1;
    }
    proof {
        assert(inner.take(seg@.len() - 2) =~= inner);
    }
    OpticStep::Index(val)
}

/// Splits the path text from `pos` on and appends the steps to `out`.
fn collect_steps(cs: &Vec<char>, pos: usize, out: &mut Vec<OpticStep>)
    requires
        pos <= cs@.len(),
    ensures
        oview(final(out)@) == oview(old(out)@) + path_steps_from(cs@, pos as int),
    decreases cs@.len() - pos,
{
    let mut d: usize = pos;
    while d < cs.len() && cs[d] != '.'
        invariant
            pos <= d <= cs@.len(),
            dot_from(cs@, pos as int) == dot_from(cs@, d as int),
        decreases cs@.len() - d,
    {
        d += 1;
    }
    proof {
        assert(dot_from(cs@, d as int) == d);
    }
    let mut seg: Vec<char> = Vec::new();
    let mut j: usize = pos;
    proof {
        assert(seg@ =~= cs@.subrange(pos as int, pos as int));
    }
    while j < d
        invariant
            pos <= j <= d <= cs@.len(),
            seg@ == cs@.subrange(pos as int, j as int),
        decreases d - j,
    {
        let c = cs[j];
        seg.push(c);
        proof {
            assert(cs@.subrange(pos as int, j as int).push(c) =~= cs@.subrange(
                pos as int,
                j + 1 as int,
            ));
        }
        j += 1;
    }
    let step = seg_step_exec(&seg);
    let ghost prev = out@;
    out.push(step);
    proof {
        lemma_oview(out@);
        assert(out@.drop_last() =~= prev);
        assert(oview(out@) == oview(prev).push(step@));
    }
    if d < cs.len() {
        collect_steps(cs, d + 1, out);
        proof {
            assert(oview(prev).push(step@) + path_steps_from(cs@, d + 1) =~= oview(prev) + (seq![
                step@,
            ] + path_steps_from(cs@, d + 1)));
        }
    } else {
        proof {
            assert(oview(prev).push(step@) =~= oview(prev) + seq![step@]);
        }
    }
}

impl JsonOptic {
    /// Parses a path text: segments split on `.`, `[N]` as indices.
    pub fn from_path(path: &str) -> (r: JsonOptic)
        ensures
            r@ == optic_of_path(path@),
    {
        let cs = crate::strutil::str_to_chars(path);
        let mut steps: Vec<OpticStep> = Vec::new();
        proof {
            assert(oview(steps@) =~= Seq::<OStep>::empty());
        }
        collect_steps(&cs, 0, &mut steps);
        proof {
            assert(Seq::<OStep>::empty() + path_steps_from(path@, 0) =~= path_steps_from(
                path@,
                0,
            ));
        }
        JsonOptic { steps }
    }

    /// A copy of this optic.
    pub fn duplicate(&self) -> (r: JsonOptic)
        ensures
            r@ == self@,
    {
        let mut steps: Vec<OpticStep> = Vec::new();
        let mut i: usize = 0;
        proof {
            lemma_oview(self.steps@);
        }
        while i < self.steps.len()
            invariant
                i <= self.steps@.len(),
                steps@.len() == i,
                forall|j: int| 0 <= j < i ==> (#[trigger] steps@[j])@ == self.steps@[j]@,
            decreases self.steps@.len() - i,
        {
            let st: OpticStep = match &self.steps[i] {
                OpticStep::Field(n) => OpticStep::Field(n.clone()),
                OpticStep::Index(k) => OpticStep::Index(*k),
            };
            steps.push(st);
            i += 1;
        }
        proof {
            lemma_oview(steps@);
            lemma_oview(self.steps@);
            assert(oview(steps@) =~= oview(self.steps@));
        }
        JsonOptic { steps }
    }

    /// This optic with the parsed suffix appended after its own steps.
    pub fn append_path(&self, suffix: &str) -> (r: JsonOptic)
        ensures
            r@ == self@ + optic_of_path(suffix@),
    {
        let mut steps: Vec<OpticStep> = Vec::new();
        let mut i: usize = 0;
        proof {
            lemma_oview(self.steps@);
        }
        while i < self.steps.len()
            invariant
                i <= self.steps@.len(),
                steps@.len() == i,
                forall|j: int| 0 <= j < i ==> (#[trigger] steps@[j])@ == self.steps@[j]@,
            decreases self.steps@.len() - i,
        {
            let st: OpticStep = match &self.steps[i] {
                OpticStep::Field(n) => OpticStep::Field(n.clone()),
                OpticStep::Index(k) => OpticStep::Index(*k),
            };
            steps.push(st);
            i += 1;
        }
        proof {
            lemma_oview(steps@);
            lemma_oview(self.steps@);
            assert(oview(steps@) =~= oview(self.steps@));
        }
        let cs = crate::strutil::str_to_chars(suffix);
        collect_steps(&cs, 0, &mut steps);
        JsonOptic { steps }
    }
}

/// A name at no position of the list is absent from it.
pub proof fn lemma_key_absent_intro(fields: Seq<(Seq<char>, JVal)>, name: Seq<char>)
    requires
        forall|i: int| 0 <= i < fields.len() ==> (#[trigger] fields[i]).0 != name,
    ensures
        key_absent(fields, name),
    decreases fields.len(),
{
    if fields.len() > 0 {
        lemma_key_absent_intro(fields.drop_last(), name);
    }
}

/// A negative `key_index` means the name stands at no position.
pub proof fn lemma_key_index_neg_all(fields: Seq<(Seq<char>, JVal)>, name: Seq<char>)
    requires
        key_index(fields, name) < 0,
    ensures
        forall|i: int| 0 <= i < fields.len() ==> (#[trigger] fields[i]).0 != name,
    decreases fields.len(),
{
    if fields.len() > 0 {
        lemma_key_index_neg_all(fields.drop_first(), name);
        assert forall|i: int| 0 <= i < fields.len() implies (#[trigger] fields[i]).0 != name by {
            if i > 0 {
                assert(fields.drop_first()[i - 1] == fields[i]);
            }
        }
    }
}

/// Replacing a field by one with the same name keeps every name absence.
pub proof fn lemma_key_absent_update(
    fields: Seq<(Seq<char>, JVal)>,
    name: Seq<char>,
    k: int,
    p: (Seq<char>, JVal),
)
    requires
        0 <= k < fields.len(),
        p.0 == fields[k].0,
    ensures
        key_absent(fields.update(k, p), name) == key_absent(fields, name),
    decreases fields.len(),
{
    if fields.len() > 0 {
        if k < fields.len() - 1 {
            lemma_key_absent_update(fields.drop_last(), name, k, p);
            assert(fields.update(k, p).drop_last() =~= fields.drop_last().update(k, p));
            assert(fields.update(k, p).last() == fields.last());
        } else {
            assert(fields.update(k, p).drop_last() =~= fields.drop_last());
        }
    }
}

/// Replacing a field by one with the same name keeps the names distinct.
pub proof fn lemma_distinct_keys_update_same(
    fields: Seq<(Seq<char>, JVal)>,
    k: int,
    p: (Seq<char>, JVal),
)
    requires
        distinct_keys(fields),
        0 <= k < fields.len(),
        p.0 == fields[k].0,
    ensures
        distinct_keys(fields.update(k, p)),
    decreases fields.len(),
{
    if fields.len() > 0 {
        if k < fields.len() - 1 {
            lemma_distinct_keys_update_same(fields.drop_last(), k, p);
            assert(fields.update(k, p).drop_last() =~= fields.drop_last().update(k, p));
            assert(fields.update(k, p).last() == fields.last());
            lemma_key_absent_update(fields.drop_last(), fields.last().0, k, p);
        } else {
            assert(fields.update(k, p).drop_last() =~= fields.drop_last());
            assert(fields.update(k, p).last() == p);
        }
    }
}

/// Replacing one field value by a well-formed one keeps the values well
/// formed.
pub proof fn lemma_wf_fields_update(
    fields: Seq<(Seq<char>, JVal)>,
    k: int,
    p: (Seq<char>, JVal),
)
    requires
        wf_fields(fields),
        wf(p.1),
        0 <= k < fields.len(),
    ensures
        wf_fields(fields.update(k, p)),
    decreases fields.len(),
{
    if fields.len() > 0 {
        if k < fields.len() - 1 {
            lemma_wf_fields_update(fields.drop_last(), k, p);
            assert(fields.update(k, p).drop_last() =~= fields.drop_last().update(k, p));
            assert(fields.update(k, p).last() == fields.last());
        } else {
            assert(fields.update(k, p).drop_last() =~= fields.drop_last());
            assert(fields.update(k, p).last() == p);
        }
    }
}

/// Setting a field in a well-formed field list keeps it well formed.
pub proof fn lemma_obj_set_wf(fields: Seq<(Seq<char>, JVal)>, name: Seq<char>, w: JVal)
    requires
        wf_fields(fields),
        distinct_keys(fields),
        wf(w),
    ensures
        wf_fields(obj_set(fields, name, w)),
        distinct_keys(obj_set(fields, name, w)),
{
    lemma_obj_set_shape(fields, name, w);
    lemma_obj_lookup_key_index(fields, name);
    let k = key_index(fields, name);
    if k < 0 {
        assert(obj_set(fields, name, w) == fields.push((name, w)));
        assert(fields.push((name, w)).drop_last() =~= fields);
        lemma_key_index_neg_all(fields, name);
        lemma_key_absent_intro(fields, name);
    } else {
        lemma_wf_fields_update(fields, k, (name, w));
        lemma_distinct_keys_update_same(fields, k, (name, w));
    }
}

/// Padding with nulls keeps a list well formed.
pub proof fn lemma_arr_pad_wf(items: Seq<JVal>, n: int)
    requires
        crate::json::wf_seq(items),
    ensures
        crate::json::wf_seq(arr_pad(items, n)),
{
    if items.len() < n {
        lemma_wf_seq_nulls(items, (n - items.len()) as nat);
    }
}

proof fn lemma_wf_seq_nulls(items: Seq<JVal>, k: nat)
    requires
        crate::json::wf_seq(items),
    ensures
        crate::json::wf_seq(items + nulls(k)),
    decreases k,
{
    if k == 0 {
        assert(items + nulls(k) =~= items);
    } else {
        lemma_wf_seq_nulls(items, (k - 1) as nat);
        let shorter = items + nulls((k - 1) as nat);
        let longer = items + nulls(k);
        assert(longer.drop_last() =~= shorter);
        assert(longer.last() == JVal::Null);
        assert(crate::json::wf_seq(longer.drop_last()));
        assert(wf(JVal::Null));
        assert(crate::json::wf_seq(longer));
    }
}

/// Replacing one element by a well-formed one keeps a list well formed.
pub proof fn lemma_wf_seq_update(items: Seq<JVal>, k: int, v: JVal)
    requires
        crate::json::wf_seq(items),
        wf(v),
        0 <= k < items.len(),
    ensures
        crate::json::wf_seq(items.update(k, v)),
    decreases items.len(),
{
    if k < items.len() - 1 {
        lemma_wf_seq_update(items.drop_last(), k, v);
        assert(items.update(k, v).drop_last() =~= items.drop_last().update(k, v));
        assert(items.update(k, v).last() == items.last());
    } else {
        assert(items.update(k, v).drop_last() =~= items.drop_last());
        assert(items.update(k, v).last() == v);
    }
}

/// Writing a well-formed value into a well-formed document keeps it
/// well formed.
pub proof fn lemma_jset_wf(v: JVal, steps: Seq<OStep>, new: JVal)
    requires
        wf(v),
        wf(new),
    ensures
        wf(jset(v, steps, new)),
    decreases steps.len(),
{
    if steps.len() > 0 {
        match steps.first() {
            OStep::Field(n) => {
                let base = (match v {
                    JVal::Obj(fields) => fields,
                    _ => Seq::<(Seq<char>, JVal)>::empty(),
                });
                assert(crate::json::wf_fields(Seq::<(Seq<char>, JVal)>::empty()));
                assert(crate::json::distinct_keys(Seq::<(Seq<char>, JVal)>::empty()));
                let child = if obj_lookup(base, n) is Some {
                    obj_lookup(base, n)->0
                } else {
                    JVal::Null
                };
                if obj_lookup(base, n) is Some {
                    crate::json::lemma_obj_lookup_wf(base, n);
                }
                lemma_jset_wf(child, steps.drop_first(), new);
                lemma_obj_set_wf(base, n, jset(child, steps.drop_first(), new));
                assert(wf(JVal::Obj(obj_set(base, n, jset(child, steps.drop_first(), new)))));
            },
            OStep::Index(i) => {
                let base = (match v {
                    JVal::Arr(items) => items,
                    _ => Seq::<JVal>::empty(),
                });
                assert(crate::json::wf_seq(Seq::<JVal>::empty()));
                lemma_arr_pad_wf(base, i + 1);
                let padded = arr_pad(base, i + 1);
                if 0 <= i && i < padded.len() {
                    crate::json::lemma_wf_seq_elem(padded, i);
                    lemma_jset_wf(padded[i], steps.drop_first(), new);
                    lemma_wf_seq_update(padded, i, jset(padded[i], steps.drop_first(), new));
                    assert(wf(JVal::Arr(padded.update(i, jset(padded[i], steps.drop_first(), new)))));
                }
            },
        }
    }
}

} // verus!
