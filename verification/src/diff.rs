//! Field-level difference between the last-known and the current snapshot.
//!
//! The result is a sparse field map with one entry per field name appearing
//! in either snapshot: a changed field carries its old value, a new or
//! unchanged field carries `Null`, and a removed field carries its old value.
//! The caller consults the new snapshot for current values.

use crate::json::{fields_eq, json_eq, keys_unique, JsonValue};
use vstd::prelude::*;

verus! {

/// The prior snapshot as a spec-level optional value.
pub open spec fn opt_deref(o: Option<&JsonValue>) -> Option<JsonValue> {
    match o {
        Some(v) => Some(*v),
        None => None,
    }
}

/// Field lookup in the optional prior snapshot.
pub open spec fn old_get(old: Option<JsonValue>, key: Seq<char>) -> Option<JsonValue> {
    match old {
        Some(o) => o.spec_get(key),
        None => None,
    }
}

/// The prior snapshot's field list, empty when there is no prior snapshot.
pub open spec fn old_fields_of(old: Option<JsonValue>) -> Seq<(String, JsonValue)> {
    match old {
        Some(o) => o->Obj_0@,
        None => Seq::empty(),
    }
}

/// What the diff records for one field of the new snapshot: the old value
/// when present and different, `Null` otherwise.
pub open spec fn diff_field(old_val: Option<JsonValue>, new_val: JsonValue) -> JsonValue {
    match old_val {
        Some(o) => if !json_eq(o, new_val) {
            o
        } else {
            JsonValue::Null
        },
        None => JsonValue::Null,
    }
}

/// One diff entry per field of the new snapshot, in the new snapshot's order.
pub open spec fn diff_new_part(old: Option<JsonValue>, new_fields: Seq<(String, JsonValue)>) -> Seq<
    (String, JsonValue),
> {
    Seq::new(
        new_fields.len(),
        |i: int| (new_fields[i].0, diff_field(old_get(old, new_fields[i].0@), new_fields[i].1)),
    )
}

/// The prior snapshot's fields that the new snapshot dropped, in the prior
/// snapshot's order, each carrying its old value.
pub open spec fn diff_old_part(
    old_fields: Seq<(String, JsonValue)>,
    newv: JsonValue,
) -> Seq<(String, JsonValue)>
    decreases old_fields.len(),
{
    if old_fields.len() == 0 {
        Seq::empty()
    } else {
        diff_old_part(old_fields.drop_last(), newv) + if newv.spec_get(
            old_fields.last().0@,
        ) is None {
            seq![old_fields.last()]
        } else {
            Seq::empty()
        }
    }
}

/// The sparse field map described above.
pub open spec fn diff_spec(old: Option<JsonValue>, newv: JsonValue) -> Seq<(String, JsonValue)> {
    diff_new_part(old, newv->Obj_0@) + diff_old_part(old_fields_of(old), newv)
}

/// Computes the sparse old-field map of a snapshot pair.
///
/// Pure: the result is fixed by the two arguments alone.
pub fn get_updated_items(old_issue: Option<&JsonValue>, new_issue: &JsonValue) -> (r: JsonValue)
    requires
        *new_issue is Obj,
        old_issue matches Some(o) ==> *o is Obj,
    ensures
        r is Obj,
        fields_eq(r->Obj_0@, diff_spec(opt_deref(old_issue), *new_issue)),
{
    let new_fields: &Vec<(String, JsonValue)> = match new_issue {
        JsonValue::Obj(f) => f,
        _ => vstd::pervasive::unreached(),
    };
    let ghost old_spec: Option<JsonValue> = opt_deref(old_issue);
    let mut out: Vec<(String, JsonValue)> = Vec::new();
    for i in it: 0..new_fields.len()
        invariant
            *new_issue == JsonValue::Obj(*new_fields),
            old_issue matches Some(o) ==> *o is Obj,
            old_spec == opt_deref(old_issue),
            out@.len() == i,
            forall|j: int|
                0 <= j < i ==> (#[trigger] out@[j]).0@ == new_fields@[j].0@ && json_eq(
                    out@[j].1,
                    diff_field(old_get(old_spec, new_fields@[j].0@), new_fields@[j].1),
                ),
    {
        let key: &String = &new_fields[i].0;
        let old_val: Option<&JsonValue> = match old_issue {
            Some(o) => o.get(key.as_str()),
            None => None,
        };
        let dv: JsonValue = match old_val {
            Some(ov) => {
                if !ov.eq_value(&new_fields[i].1) {
                    ov.deep_clone()
                } else {
                    JsonValue::Null
                }
            },
            None => JsonValue::Null,
        };
        proof {
            crate::json::lemma_json_eq_refl(new_fields@[i as int].1);
        }
        out.push((key.clone(), dv));
    }
    let old_fields: Option<&Vec<(String, JsonValue)>> = match old_issue {
        Some(JsonValue::Obj(of)) => Some(of),
        Some(_) => vstd::pervasive::unreached(),
        None => None,
    };
    if let Some(of) = old_fields {
        for j in jt: 0..of.len()
            invariant
                *new_issue == JsonValue::Obj(*new_fields),
                old_issue matches Some(o) ==> *o == JsonValue::Obj(*of),
                old_issue is Some,
                old_spec == opt_deref(old_issue),
                out@.len() >= new_fields@.len(),
                fields_eq(
                    out@,
                    diff_new_part(old_spec, new_fields@) + diff_old_part(
                        of@.take(j as int),
                        *new_issue,
                    ),
                ),
        {
            let keep: bool = match new_issue.get(of[j].0.as_str()) {
                Some(_) => false,
                None => true,
            };
            proof {
                assert(of@.take(j + 1).drop_last() =~= of@.take(j as int));
                assert(of@.take(j + 1).last() == of@[j as int]);
            }
            if keep {
                proof {
                    crate::json::lemma_json_eq_refl(of@[j as int].1);
                }
                out.push((of[j].0.clone(), of[j].1.deep_clone()));
            }
        }
        proof {
            assert(of@.take(of@.len() as int) =~= of@);
            assert(old_fields_of(old_spec) == of@);
        }
    } else {
        proof {
            assert(diff_old_part(old_fields_of(old_spec), *new_issue) =~= Seq::<(
                String,
                JsonValue,
            )>::empty());
        }
    }
    JsonValue::Obj(out)
}

/// Every field of the prior snapshot that the new snapshot still carries is
/// absent from the removed-field part of the diff.
proof fn lemma_diff_old_part_all_present(old_fields: Seq<(String, JsonValue)>, newv: JsonValue)
    requires
        forall|i: int|
            0 <= i < old_fields.len() ==> newv.spec_get((#[trigger] old_fields[i]).0@) is Some,
    ensures
        diff_old_part(old_fields, newv) =~= Seq::<(String, JsonValue)>::empty(),
    decreases old_fields.len(),
{
    if old_fields.len() > 0 {
        assert forall|i: int|
            0 <= i < old_fields.drop_last().len() implies newv.spec_get(
            (#[trigger] old_fields.drop_last()[i]).0@,
        ) is Some by {
            assert(old_fields.drop_last()[i] == old_fields[i]);
        }
        lemma_diff_old_part_all_present(old_fields.drop_last(), newv);
        assert(newv.spec_get(old_fields.last().0@) is Some);
    }
}

/// Diffing a snapshot against itself records no old value: the diff has
/// exactly the snapshot's own fields, each bound to `Null`.
pub proof fn lemma_diff_self(s: JsonValue)
    requires
        s is Obj,
        keys_unique(s->Obj_0@),
    ensures
        diff_spec(Some(s), s).len() == s->Obj_0@.len(),
        forall|i: int|
            0 <= i < s->Obj_0@.len() ==> (#[trigger] diff_spec(Some(s), s)[i]).0@ == s->Obj_0@[i].0@
                && diff_spec(Some(s), s)[i].1 is Null,
{
    let fields = s->Obj_0@;
    assert forall|i: int|
        0 <= i < fields.len() implies newpart_entry_null(s, i) && (#[trigger] diff_new_part(
        Some(s),
        fields,
    )[i]).0@ == fields[i].0@ by {
        crate::json::lemma_obj_get_unique(fields, i);
        crate::json::lemma_json_eq_refl(fields[i].1);
        assert(diff_field(old_get(Some(s), fields[i].0@), fields[i].1) is Null);
    }
    assert forall|i: int| 0 <= i < fields.len() implies s.spec_get(
        (#[trigger] fields[i]).0@,
    ) is Some by {
        crate::json::lemma_obj_get_unique(fields, i);
    }
    lemma_diff_old_part_all_present(fields, s);
}

/// Helper naming the shape of one new-part entry of a self-diff.
spec fn newpart_entry_null(s: JsonValue, i: int) -> bool {
    diff_new_part(Some(s), s->Obj_0@)[i].1 is Null
}

/// Diffing is deterministic: any two results that meet the diff contract on
/// the same pair of snapshots are structurally equal.
pub proof fn lemma_diff_deterministic(
    r1: JsonValue,
    r2: JsonValue,
    old: Option<JsonValue>,
    newv: JsonValue,
)
    requires
        r1 is Obj,
        r2 is Obj,
        fields_eq(r1->Obj_0@, diff_spec(old, newv)),
        fields_eq(r2->Obj_0@, diff_spec(old, newv)),
    ensures
        json_eq(r1, r2),
{
    let a = r1->Obj_0@;
    let b = r2->Obj_0@;
    let d = diff_spec(old, newv);
    assert forall|i: int|
        0 <= i < a.len() implies (#[trigger] a[i]).0@ == b[i].0@ && json_eq(a[i].1, b[i].1) by {
        crate::json::lemma_json_eq_sym(b[i].1, d[i].1);
        crate::json::lemma_json_eq_trans(a[i].1, d[i].1, b[i].1);
    }
}

} // verus!
