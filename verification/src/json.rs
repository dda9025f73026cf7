//! A tagged union for the server-defined, extensible field set of a snapshot.
//!
//! Snapshot fields arrive as dynamic JSON-like data; the diff engine works
//! generically over this union by structural equality.

use vstd::prelude::*;

verus! {

/// One JSON-like value: the type of a snapshot field.
///
/// Objects keep their fields as an ordered list of key/value pairs; the
/// canonical order is whatever the producer supplied (the REST endpoint
/// delivers objects with sorted, unique keys).
pub enum JsonValue {
    Null,
    Bool(bool),
    Int(i64),
    Str(String),
    Arr(Vec<JsonValue>),
    Obj(Vec<(String, JsonValue)>),
}

/// Structural equality on values: same shape, same scalars, and for
/// arrays/objects the same entries in the same order.
pub open spec fn json_eq(a: JsonValue, b: JsonValue) -> bool
    decreases a,
{
    match (a, b) {
        (JsonValue::Null, JsonValue::Null) => true,
        (JsonValue::Bool(x), JsonValue::Bool(y)) => x == y,
        (JsonValue::Int(x), JsonValue::Int(y)) => x == y,
        (JsonValue::Str(x), JsonValue::Str(y)) => x@ == y@,
        (JsonValue::Arr(x), JsonValue::Arr(y)) => {
            &&& x@.len() == y@.len()
            &&& forall|i: int| 0 <= i < x@.len() ==> json_eq(#[trigger] x@[i], y@[i])
        },
        (JsonValue::Obj(x), JsonValue::Obj(y)) => {
            &&& x@.len() == y@.len()
            &&& forall|i: int|
                0 <= i < x@.len() ==> (#[trigger] x@[i]).0@ == y@[i].0@ && json_eq(
                    x@[i].1,
                    y@[i].1,
                )
        },
        _ => false,
    }
}

/// Character-sequence equality of two string slices.
pub fn str_eq(a: &str, b: &str) -> (r: bool)
    ensures
        r == (a@ == b@),
{
    let la = a.unicode_len();
    let lb = b.unicode_len();
    if la != lb {
        return false;
    }
    for i in it: 0..la
        invariant
            la == a@.len(),
            lb == b@.len(),
            la == lb,
            forall|j: int| 0 <= j < i ==> a@[j] == b@[j],
    {
        if a.get_char(i) != b.get_char(i) {
            return false;
        }
    }
    proof {
        assert(a@ =~= b@);
    }
    true
}

impl JsonValue {
    /// Decides structural equality, matching `json_eq`.
    pub fn eq_value(&self, other: &JsonValue) -> (r: bool)
        ensures
            r == json_eq(*self, *other),
        decreases *self,
    {
        match (self, other) {
            (JsonValue::Null, JsonValue::Null) => true,
            (JsonValue::Bool(x), JsonValue::Bool(y)) => *x == *y,
            (JsonValue::Int(x), JsonValue::Int(y)) => *x == *y,
            (JsonValue::Str(x), JsonValue::Str(y)) => str_eq(x.as_str(), y.as_str()),
            (JsonValue::Arr(x), JsonValue::Arr(y)) => {
                if x.len() != y.len() {
                    return false;
                }
                for i in it: 0..x.len()
                    invariant
                        *self == JsonValue::Arr(*x),
                        *other == JsonValue::Arr(*y),
                        x@.len() == y@.len(),
                        forall|j: int| 0 <= j < i ==> json_eq(#[trigger] x@[j], y@[j]),
                {
                    proof {
                        broadcast use vstd::std_specs::vec::group_vec_axioms;

                        assert(decreases_to!(*self => self->Arr_0));
                        assert(self->Arr_0 == *x);
                        assert(decreases_to!(*x => x@[i as int]));
                    }
                    if !x[i].eq_value(&y[i]) {
                        return false;
                    }
                }
                true
            },
            (JsonValue::Obj(x), JsonValue::Obj(y)) => {
                if x.len() != y.len() {
                    return false;
                }
                for i in it: 0..x.len()
                    invariant
                        *self == JsonValue::Obj(*x),
                        *other == JsonValue::Obj(*y),
                        x@.len() == y@.len(),
                        forall|j: int|
                            0 <= j < i ==> (#[trigger] x@[j]).0@ == y@[j].0@ && json_eq(
                                x@[j].1,
                                y@[j].1,
                            ),
                {
                    proof {
                        broadcast use vstd::std_specs::vec::group_vec_axioms;

                        assert(decreases_to!(*self => self->Obj_0));
                        assert(self->Obj_0 == *x);
                        assert(decreases_to!(*x => x@[i as int]));
                        assert(decreases_to!(x@[i as int] => x@[i as int].1));
                    }
                    if !str_eq(x[i].0.as_str(), y[i].0.as_str()) {
                        return false;
                    }
                    if !x[i].1.eq_value(&y[i].1) {
                        return false;
                    }
                }
                true
            },
            _ => false,
        }
    }
}

/// First value bound to `key` in an ordered field list, or `None`.
pub open spec fn obj_get(fields: Seq<(String, JsonValue)>, key: Seq<char>) -> Option<JsonValue>
    decreases fields.len(),
{
    if fields.len() == 0 {
        None
    } else if fields[0].0@ == key {
        Some(fields[0].1)
    } else {
        obj_get(fields.drop_first(), key)
    }
}

/// The keys of a field list are pairwise distinct, as in a JSON object.
pub open spec fn keys_unique(fields: Seq<(String, JsonValue)>) -> bool {
    forall|i: int, j: int|
        0 <= i < j < fields.len() ==> (#[trigger] fields[i]).0@ != (#[trigger] fields[j]).0@
}

proof fn lemma_obj_get_skip(fields: Seq<(String, JsonValue)>, key: Seq<char>, i: int)
    requires
        0 <= i < fields.len(),
        fields[i].0@ != key,
    ensures
        obj_get(fields.skip(i), key) == obj_get(fields.skip(i + 1), key),
{
    assert(fields.skip(i).len() > 0);
    assert(fields.skip(i)[0] == fields[i]);
    assert(fields.skip(i).drop_first() =~= fields.skip(i + 1));
}

proof fn lemma_obj_get_found(fields: Seq<(String, JsonValue)>, key: Seq<char>, i: int)
    requires
        0 <= i < fields.len(),
        fields[i].0@ == key,
    ensures
        obj_get(fields.skip(i), key) == Some(fields[i].1),
{
    assert(fields.skip(i).len() > 0);
    assert(fields.skip(i)[0] == fields[i]);
}

impl JsonValue {
    /// Field lookup: the value under `key` when this is an object that
    /// carries that key.
    pub open spec fn spec_get(self, key: Seq<char>) -> Option<JsonValue> {
        match self {
            JsonValue::Obj(fields) => obj_get(fields@, key),
            _ => None,
        }
    }

    /// Looks a field up in an object value.
    pub fn get<'a>(&'a self, key: &str) -> (r: Option<&'a JsonValue>)
        ensures
            match r {
                Some(v) => self.spec_get(key@) == Some(*v),
                None => self.spec_get(key@) is None,
            },
    {
        match self {
            JsonValue::Obj(fields) => {
                proof {
                    assert(fields@.skip(0) =~= fields@);
                }
                for i in it: 0..fields.len()
                    invariant
                        *self == JsonValue::Obj(*fields),
                        obj_get(fields@, key@) == obj_get(fields@.skip(i as int), key@),
                {
                    if str_eq(fields[i].0.as_str(), key) {
                        proof {
                            lemma_obj_get_found(fields@, key@, i as int);
                        }
                        return Some(&fields[i].1);
                    }
                    proof {
                        lemma_obj_get_skip(fields@, key@, i as int);
                    }
                }
                proof {
                    assert(fields@.skip(fields@.len() as int) =~= Seq::<(
                        String,
                        JsonValue,
                    )>::empty());
                }
                None
            },
            _ => None,
        }
    }

    /// The boolean carried by a `Bool` value.
    pub open spec fn spec_as_bool(self) -> Option<bool> {
        match self {
            JsonValue::Bool(b) => Some(b),
            _ => None,
        }
    }

    /// Reads this value as a boolean.
    pub fn as_bool(&self) -> (r: Option<bool>)
        ensures
            r == self.spec_as_bool(),
    {
        match self {
            JsonValue::Bool(b) => Some(*b),
            _ => None,
        }
    }

    /// The non-negative integer carried by an `Int` value.
    pub open spec fn spec_as_u64(self) -> Option<u64> {
        match self {
            JsonValue::Int(i) => if i >= 0 {
                Some(i as u64)
            } else {
                None
            },
            _ => None,
        }
    }

    /// Reads this value as a non-negative integer identifier.
    pub fn as_u64(&self) -> (r: Option<u64>)
        ensures
            r == self.spec_as_u64(),
    {
        match self {
            JsonValue::Int(i) => if *i >= 0 {
                Some(*i as u64)
            } else {
                None
            },
            _ => None,
        }
    }

    /// The character sequence carried by a `Str` value.
    pub open spec fn spec_as_str(self) -> Option<Seq<char>> {
        match self {
            JsonValue::Str(s) => Some(s@),
            _ => None,
        }
    }

    /// Reads this value as a string.
    pub fn as_str<'a>(&'a self) -> (r: Option<&'a String>)
        ensures
            match r {
                Some(s) => self.spec_as_str() == Some(s@),
                None => self.spec_as_str() is None,
            },
    {
        match self {
            JsonValue::Str(s) => Some(s),
            _ => None,
        }
    }
}

/// Structural equality of two ordered field lists: same keys in the same
/// order, values structurally equal.
pub open spec fn fields_eq(a: Seq<(String, JsonValue)>, b: Seq<(String, JsonValue)>) -> bool {
    &&& a.len() == b.len()
    &&& forall|i: int|
        0 <= i < a.len() ==> (#[trigger] a[i]).0@ == b[i].0@ && json_eq(a[i].1, b[i].1)
}

/// Structural equality of two optional values.
pub open spec fn opt_json_eq(a: Option<JsonValue>, b: Option<JsonValue>) -> bool {
    match (a, b) {
        (Some(x), Some(y)) => json_eq(x, y),
        (None, None) => true,
        _ => false,
    }
}

impl JsonValue {
    /// Copies a value; the copy is structurally equal to the original.
    pub fn deep_clone(&self) -> (r: JsonValue)
        ensures
            json_eq(r, *self),
        decreases *self,
    {
        match self {
            JsonValue::Null => JsonValue::Null,
            JsonValue::Bool(b) => JsonValue::Bool(*b),
            JsonValue::Int(i) => JsonValue::Int(*i),
            JsonValue::Str(s) => JsonValue::Str(s.clone()),
            JsonValue::Arr(x) => {
                let mut out: Vec<JsonValue> = Vec::new();
                for i in it: 0..x.len()
                    invariant
                        *self == JsonValue::Arr(*x),
                        out@.len() == i,
                        forall|j: int| 0 <= j < i ==> json_eq(#[trigger] out@[j], x@[j]),
                {
                    proof {
                        broadcast use vstd::std_specs::vec::group_vec_axioms;

                        assert(decreases_to!(*self => self->Arr_0));
                        assert(self->Arr_0 == *x);
                        assert(decreases_to!(*x => x@[i as int]));
                    }
                    out.push(x[i].deep_clone());
                }
                JsonValue::Arr(out)
            },
            JsonValue::Obj(x) => {
                let mut out: Vec<(String, JsonValue)> = Vec::new();
                for i in it: 0..x.len()
                    invariant
                        *self == JsonValue::Obj(*x),
                        out@.len() == i,
                        forall|j: int|
                            0 <= j < i ==> (#[trigger] out@[j]).0@ == x@[j].0@ && json_eq(
                                out@[j].1,
                                x@[j].1,
                            ),
                {
                    proof {
                        broadcast use vstd::std_specs::vec::group_vec_axioms;

                        assert(decreases_to!(*self => self->Obj_0));
                        assert(self->Obj_0 == *x);
                        assert(decreases_to!(*x => x@[i as int]));
                        assert(decreases_to!(x@[i as int] => x@[i as int].1));
                    }
                    out.push((x[i].0.clone(), x[i].1.deep_clone()));
                }
                JsonValue::Obj(out)
            },
        }
    }
}

/// Structural equality is reflexive: every value equals itself.
pub proof fn lemma_json_eq_refl(v: JsonValue)
    ensures
        json_eq(v, v),
    decreases v,
{
    match v {
        JsonValue::Arr(x) => {
            assert forall|i: int| 0 <= i < x@.len() implies json_eq(#[trigger] x@[i], x@[i]) by {
                lemma_json_eq_refl(x@[i]);
            }
        },
        JsonValue::Obj(x) => {
            assert forall|i: int|
                0 <= i < x@.len() implies (#[trigger] x@[i]).0@ == x@[i].0@ && json_eq(
                x@[i].1,
                x@[i].1,
            ) by {
                lemma_json_eq_refl(x@[i].1);
            }
        },
        _ => {},
    }
}

/// Structural equality is symmetric.
pub proof fn lemma_json_eq_sym(a: JsonValue, b: JsonValue)
    requires
        json_eq(a, b),
    ensures
        json_eq(b, a),
    decreases a,
{
    match (a, b) {
        (JsonValue::Arr(x), JsonValue::Arr(y)) => {
            assert forall|i: int| 0 <= i < y@.len() implies json_eq(#[trigger] y@[i], x@[i]) by {
                lemma_json_eq_sym(x@[i], y@[i]);
            }
        },
        (JsonValue::Obj(x), JsonValue::Obj(y)) => {
            assert forall|i: int|
                0 <= i < y@.len() implies (#[trigger] y@[i]).0@ == x@[i].0@ && json_eq(
                y@[i].1,
                x@[i].1,
            ) by {
                lemma_json_eq_sym(x@[i].1, y@[i].1);
            }
        },
        _ => {},
    }
}

/// Structural equality is transitive.
pub proof fn lemma_json_eq_trans(a: JsonValue, b: JsonValue, c: JsonValue)
    requires
        json_eq(a, b),
        json_eq(b, c),
    ensures
        json_eq(a, c),
    decreases a,
{
    match (a, b) {
        (JsonValue::Arr(x), JsonValue::Arr(y)) => {
            let z = c->Arr_0;
            assert forall|i: int| 0 <= i < x@.len() implies json_eq(#[trigger] x@[i], z@[i]) by {
                lemma_json_eq_trans(x@[i], y@[i], z@[i]);
            }
        },
        (JsonValue::Obj(x), JsonValue::Obj(y)) => {
            let z = c->Obj_0;
            assert forall|i: int|
                0 <= i < x@.len() implies (#[trigger] x@[i]).0@ == z@[i].0@ && json_eq(
                x@[i].1,
                z@[i].1,
            ) by {
                lemma_json_eq_trans(x@[i].1, y@[i].1, z@[i].1);
            }
        },
        _ => {},
    }
}

/// With unique keys, looking a field's own key up yields that field's value.
pub proof fn lemma_obj_get_unique(fields: Seq<(String, JsonValue)>, i: int)
    requires
        keys_unique(fields),
        0 <= i < fields.len(),
    ensures
        obj_get(fields, fields[i].0@) == Some(fields[i].1),
    decreases fields.len(),
{
    if i == 0 {
    } else {
        assert(fields[0].0@ != fields[i].0@);
        assert(keys_unique(fields.drop_first())) by {
            assert forall|p: int, q: int|
                0 <= p < q < fields.drop_first().len() implies (#[trigger] fields.drop_first()[p]).0@
                != (#[trigger] fields.drop_first()[q]).0@ by {
                assert(fields[p + 1].0@ != fields[q + 1].0@);
            }
        }
        lemma_obj_get_unique(fields.drop_first(), i - 1);
        assert(fields.drop_first()[i - 1] == fields[i]);
    }
}

} // verus!
