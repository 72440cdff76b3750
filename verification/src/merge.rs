use vstd::prelude::*;
use crate::json::{JsonValue, JVal, jv, jv_fields, lemma_jv_fields, obj_lookup, wf, wf_fields, distinct_keys, lemma_wf_fields_elem};
use crate::optic::{key_index, find_key, lemma_obj_lookup_key_index, lemma_key_index_neg_all, lemma_key_absent_intro, lemma_wf_fields_update, lemma_distinct_keys_update_same};

verus! {

/// Recursive JSON merge: objects merge key by key, everything else is
/// replaced by the patch wholesale (arrays included).
pub open spec fn jmerge(base: JVal, patch: JVal) -> JVal
    decreases patch,
{
    match (base, patch) {
        (JVal::Obj(fb), JVal::Obj(fp)) => JVal::Obj(merge_fields(fb, fp)),
        (_, p) => p,
    }
}

/// Folds the patch fields into the base fields, left to right.
pub open spec fn merge_fields(
    fb: Seq<(Seq<char>, JVal)>,
    fp: Seq<(Seq<char>, JVal)>,
) -> Seq<(Seq<char>, JVal)>
    decreases fp,
{
    if fp.len() == 0 {
        fb
    } else {
        merge_fields(merge_one(fb, fp.first()), fp.drop_first())
    }
}

/// Inserts one patch field: merges into an existing field of the same
/// name, or appends a new one.
pub open spec fn merge_one(fb: Seq<(Seq<char>, JVal)>, f: (Seq<char>, JVal)) -> Seq<
    (Seq<char>, JVal),
>
    decreases f,
{
    let k = key_index(fb, f.0);
    if k >= 0 {
        fb.update(k, (fb[k].0, jmerge(fb[k].1, f.1)))
    } else {
        fb.push(f)
    }
}

#[verifier::loop_isolation(false)]
fn merge_rec(base: JsonValue, patch: &JsonValue) -> (r: JsonValue)
    ensures
        r@ == jmerge(base@, patch@),
    decreases *patch,
{
    match (base, patch) {
        (JsonValue::Obj(mut fb), JsonValue::Obj(fp)) => {
            proof {
                lemma_jv_fields(fp@);
            }
            let ghost sp = jv_fields(fp@);
            let ghost sb0 = jv_fields(fb@);
            let mut i: usize = 0;
            proof {
                assert(sp.skip(0) =~= sp);
            }
            while i < fp.len()
                invariant
                    i <= fp@.len(),
                    merge_fields(sb0, sp) == merge_fields(jv_fields(fb@), sp.skip(i as int)),
                decreases fp@.len() - i,
            {
                let ghost sb = jv_fields(fb@);
                proof {
                    assert(sp.skip(i as int)[0] == sp[i as int]);
                    assert(sp.skip(i as int).drop_first() =~= sp.skip(i + 1 as int));
                    lemma_obj_lookup_key_index(sb, sp[i as int].0);
                    assert(decreases_to!(*patch => fp@[i as int].1));
                }
                let found = find_key(&fb, fp[i].0.as_str());
                match found {
                    Some(k) => {
                        let child = fb[k].1.duplicate();
                        let merged = merge_rec(child, &fp[i].1);
                        let key = fb[k].0.clone();
                        let ghost prevb = fb@;
                        fb.set(k, (key, merged));
                        proof {
                            lemma_jv_fields(fb@);
                            lemma_jv_fields(prevb);
                            assert(jv_fields(fb@) =~= merge_one(sb, sp[i as int]));
                        }
                    },
                    None => {
                        let key = fp[i].0.clone();
                        let dupv = fp[i].1.duplicate();
                        let ghost prevb = fb@;
                        fb.push((key, dupv));
                        proof {
                            lemma_jv_fields(fb@);
                            lemma_jv_fields(prevb);
                            assert(fb@.drop_last() =~= prevb);
                            assert(jv_fields(fb@) =~= merge_one(sb, sp[i as int]));
                        }
                    },
                }
                i += 1;
            }
            proof {
                assert(sp.skip(fp@.len() as int) =~= Seq::<(Seq<char>, JVal)>::empty());
            }
            JsonValue::Obj(fb)
        },
        (_, p) => p.duplicate(),
    }
}

impl JsonValue {
    /// Merges the patch into this value: objects merge recursively,
    /// arrays and scalars are replaced by the patch.
    pub fn merge(&mut self, patch: &JsonValue)
        ensures
            final(self)@ == jmerge(old(self)@, patch@),
    {
        let mut tmp = JsonValue::Null;
        core::mem::swap(self, &mut tmp);
        let mut out = merge_rec(tmp, patch);
        core::mem::swap(self, &mut out);
    }
}

/// Merging well-formed documents yields a well-formed document.
pub proof fn lemma_jmerge_wf(base: JVal, patch: JVal)
    requires
        wf(base),
        wf(patch),
    ensures
        wf(jmerge(base, patch)),
    decreases patch,
{
    match (base, patch) {
        (JVal::Obj(fb), JVal::Obj(fp)) => {
            lemma_merge_fields_wf(fb, fp);
        },
        _ => {},
    }
}

/// Folding well-formed patch fields into a well-formed base keeps it
/// well formed.
pub proof fn lemma_merge_fields_wf(fb: Seq<(Seq<char>, JVal)>, fp: Seq<(Seq<char>, JVal)>)
    requires
        wf_fields(fb),
        distinct_keys(fb),
        wf_fields(fp),
        distinct_keys(fp),
    ensures
        wf_fields(merge_fields(fb, fp)),
        distinct_keys(merge_fields(fb, fp)),
    decreases fp,
{
    if fp.len() > 0 {
        let f = fp.first();
        assert(wf(f.1)) by {
            lemma_wf_fields_elem(fp, 0);
        }
        let k = key_index(fb, f.0);
        if k >= 0 {
            lemma_obj_lookup_key_index(fb, f.0);
            lemma_wf_fields_elem(fb, k);
            lemma_jmerge_wf(fb[k].1, f.1);
            lemma_wf_fields_update(fb, k, (fb[k].0, jmerge(fb[k].1, f.1)));
            lemma_distinct_keys_update_same(fb, k, (fb[k].0, jmerge(fb[k].1, f.1)));
        } else {
            assert(merge_one(fb, f) == fb.push(f));
            assert(fb.push(f).drop_last() =~= fb);
            lemma_key_index_neg_all(fb, f.0);
            lemma_key_absent_intro(fb, f.0);
        }
        lemma_wf_fields_drop_first(fp);
        lemma_merge_fields_wf(merge_one(fb, f), fp.drop_first());
    }
}

/// Dropping the first field keeps well-formedness and distinctness.
pub proof fn lemma_wf_fields_drop_first(fp: Seq<(Seq<char>, JVal)>)
    requires
        fp.len() > 0,
        wf_fields(fp),
        distinct_keys(fp),
    ensures
        wf_fields(fp.drop_first()),
        distinct_keys(fp.drop_first()),
    decreases fp.len(),
{
    if fp.len() == 1 {
        assert(fp.drop_first() =~= Seq::<(Seq<char>, JVal)>::empty());
    } else {
        lemma_wf_fields_drop_first(fp.drop_last());
        assert(fp.drop_first().drop_last() =~= fp.drop_last().drop_first());
        assert(fp.drop_first().last() == fp.last());
        lemma_key_absent_drop_first(fp.drop_last(), fp.last().0);
    }
}

proof fn lemma_key_absent_drop_first(fields: Seq<(Seq<char>, JVal)>, name: Seq<char>)
    requires
        fields.len() > 0,
        crate::json::key_absent(fields, name),
    ensures
        crate::json::key_absent(fields.drop_first(), name),
    decreases fields.len(),
{
    if fields.len() > 1 {
        lemma_key_absent_drop_first(fields.drop_last(), name);
        assert(fields.drop_first().drop_last() =~= fields.drop_last().drop_first());
        assert(fields.drop_first().last() == fields.last());
    } else {
        assert(fields.drop_first() =~= Seq::<(Seq<char>, JVal)>::empty());
    }
}

} // verus!
