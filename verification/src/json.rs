//! The library's model of a JSON document.
//!
//! A document is a tree of values: null, booleans, signed 64-bit integers
//! (this wire format carries no fractional numbers), strings, arrays, and
//! objects held as ordered key–value pairs. Two documents are structurally
//! equal when they have the same keys, nesting and values, regardless of key
//! order.

use vstd::prelude::*;

verus! {

/// A JSON value.
#[derive(Debug)]
pub enum Json {
    Null,
    Bool(bool),
    Int(i64),
    Str(String),
    Arr(Vec<Json>),
    Obj(Vec<(String, Json)>),
}

/// The mathematical shape of a JSON value.
pub enum JsonVal {
    Null,
    Bool(bool),
    Int(int),
    Str(Seq<char>),
    Arr(Seq<JsonVal>),
    Obj(Seq<(Seq<char>, JsonVal)>),
}

/// The shape of a JSON value.
pub open spec fn jview(j: Json) -> JsonVal
    decreases j,
    via jview_dec
{
    match j {
        Json::Null => JsonVal::Null,
        Json::Bool(b) => JsonVal::Bool(b),
        Json::Int(i) => JsonVal::Int(i as int),
        Json::Str(s) => JsonVal::Str(s@),
        Json::Arr(items) => JsonVal::Arr(jviews(items@)),
        Json::Obj(fields) => JsonVal::Obj(jfields(fields@)),
    }
}

/// The shapes of a sequence of JSON values.
pub open spec fn jviews(items: Seq<Json>) -> Seq<JsonVal>
    decreases items,
{
    if items.len() == 0 {
        Seq::<JsonVal>::empty()
    } else {
        seq![jview(items[0])] + jviews(items.subrange(1, items.len() as int))
    }
}

/// The shapes of a sequence of object fields.
pub open spec fn jfields(fields: Seq<(String, Json)>) -> Seq<(Seq<char>, JsonVal)>
    decreases fields,
{
    if fields.len() == 0 {
        Seq::<(Seq<char>, JsonVal)>::empty()
    } else {
        seq![(fields[0].0@, jview(fields[0].1))] + jfields(
            fields.subrange(1, fields.len() as int),
        )
    }
}

#[via_fn]
proof fn jview_dec(j: Json) {
    match j {
        Json::Arr(items) => {
            assert(items == j->Arr_0);
            assert(decreases_to!(j => j->Arr_0));
            assert(decreases_to!(items => items@));
        },
        Json::Obj(fields) => {
            assert(fields == j->Obj_0);
            assert(decreases_to!(j => j->Obj_0));
            assert(decreases_to!(fields => fields@));
        },
        _ => {},
    }
}

impl View for Json {
    type V = JsonVal;

    open spec fn view(&self) -> JsonVal {
        jview(*self)
    }
}

/// The shapes of a sequence of values, element by element.
pub proof fn lemma_jviews_index(items: Seq<Json>)
    ensures
        jviews(items).len() == items.len(),
        forall|i: int|
            #![trigger jviews(items)[i]]
            #![trigger items[i]]
            0 <= i < items.len() ==> jviews(items)[i] == jview(items[i]),
    decreases items.len(),
{
    if items.len() > 0 {
        let rest = items.subrange(1, items.len() as int);
        lemma_jviews_index(rest);
        assert forall|i: int| 0 <= i < items.len() implies jviews(items)[i] == jview(
            #[trigger] items[i],
        ) by {
            if i > 0 {
                assert(rest[i - 1] == items[i]);
                assert(jviews(items)[i] == jviews(rest)[i - 1]);
            }
        }
    }
}

/// The shapes of a sequence of fields, element by element.
pub proof fn lemma_jfields_index(fields: Seq<(String, Json)>)
    ensures
        jfields(fields).len() == fields.len(),
        forall|i: int|
            #![trigger jfields(fields)[i]]
            #![trigger fields[i]]
            0 <= i < fields.len() ==> jfields(fields)[i] == (fields[i].0@, jview(fields[i].1)),
    decreases fields.len(),
{
    if fields.len() > 0 {
        let rest = fields.subrange(1, fields.len() as int);
        lemma_jfields_index(rest);
        assert forall|i: int| 0 <= i < fields.len() implies jfields(fields)[i] == ((
        #[trigger] fields[i]).0@, jview(fields[i].1)) by {
            if i > 0 {
                assert(rest[i - 1] == fields[i]);
                assert(jfields(fields)[i] == jfields(rest)[i - 1]);
            }
        }
    }
}

/// The keys of an object, in order.
pub open spec fn keys_of(fields: Seq<(Seq<char>, JsonVal)>) -> Seq<Seq<char>> {
    fields.map_values(|f: (Seq<char>, JsonVal)| f.0)
}

/// Whether no key occurs twice.
pub open spec fn unique_keys(fields: Seq<(Seq<char>, JsonVal)>) -> bool {
    keys_of(fields).no_duplicates()
}

/// The value under the first occurrence of key `k`, if any.
pub open spec fn jv_get(fields: Seq<(Seq<char>, JsonVal)>, k: Seq<char>) -> Option<JsonVal>
    decreases fields.len(),
{
    if fields.len() == 0 {
        Option::None
    } else if fields[0].0 == k {
        Option::Some(fields[0].1)
    } else {
        jv_get(fields.drop_first(), k)
    }
}

/// Whether key `k` is present.
pub open spec fn jv_has(fields: Seq<(Seq<char>, JsonVal)>, k: Seq<char>) -> bool {
    jv_get(fields, k) is Some
}

/// Structural JSON equality: same keys, nesting and values; key order is
/// free, duplicate-free keys are required of both objects.
pub open spec fn json_eq(a: JsonVal, b: JsonVal) -> bool
    decreases a,
{
    match (a, b) {
        (JsonVal::Null, JsonVal::Null) => true,
        (JsonVal::Bool(x), JsonVal::Bool(y)) => x == y,
        (JsonVal::Int(x), JsonVal::Int(y)) => x == y,
        (JsonVal::Str(x), JsonVal::Str(y)) => x == y,
        (JsonVal::Arr(x), JsonVal::Arr(y)) => {
            &&& x.len() == y.len()
            &&& forall|i: int| #![trigger x[i]] 0 <= i < x.len() ==> json_eq(x[i], y[i])
        },
        (JsonVal::Obj(x), JsonVal::Obj(y)) => {
            &&& unique_keys(x)
            &&& unique_keys(y)
            &&& x.len() == y.len()
            &&& forall|i: int|
                #![trigger x[i]]
                0 <= i < x.len() ==> match jv_get(y, x[i].0) {
                    Option::Some(v) => json_eq(x[i].1, v),
                    Option::None => false,
                }
        },
        _ => false,
    }
}

/// When the first `i` keys differ from `k` and the key at `i` is `k`, the
/// lookup returns the value at `i`.
pub proof fn lemma_jv_get_at(fields: Seq<(Seq<char>, JsonVal)>, k: Seq<char>, i: int)
    requires
        0 <= i < fields.len(),
        fields[i].0 == k,
        forall|j: int| 0 <= j < i ==> (#[trigger] fields[j]).0 != k,
    ensures
        jv_get(fields, k) == Option::Some(fields[i].1),
    decreases i,
{
    if i > 0 {
        lemma_jv_get_at(fields.drop_first(), k, i - 1);
    }
}

/// When no key equals `k`, the lookup fails.
pub proof fn lemma_jv_get_none(fields: Seq<(Seq<char>, JsonVal)>, k: Seq<char>)
    requires
        forall|j: int| 0 <= j < fields.len() ==> (#[trigger] fields[j]).0 != k,
    ensures
        jv_get(fields, k) is None,
    decreases fields.len(),
{
    if fields.len() > 0 {
        lemma_jv_get_none(fields.drop_first(), k);
    }
}

/// A found value is one of the fields' values.
pub proof fn lemma_jv_get_member(fields: Seq<(Seq<char>, JsonVal)>, k: Seq<char>)
    ensures
        jv_get(fields, k) matches Option::Some(v) ==> exists|i: int|
            0 <= i < fields.len() && #[trigger] fields[i] == (k, v),
    decreases fields.len(),
{
    if fields.len() > 0 {
        if fields[0].0 == k {
            assert(fields[0] == (k, fields[0].1));
        } else {
            lemma_jv_get_member(fields.drop_first(), k);
            if jv_get(fields, k) is Some {
                let v = jv_get(fields, k)->Some_0;
                let i = choose|i: int|
                    0 <= i < fields.drop_first().len() && #[trigger] fields.drop_first()[i] == (
                    k,
                    v,
                );
                assert(fields[i + 1] == (k, v));
            }
        }
    }
}

/// Whether the keys of `fields` are pairwise distinct, checked exactly.
pub fn fields_unique(fields: &Vec<(String, Json)>) -> (r: bool)
    ensures
        r == unique_keys(jfields(fields@)),
{
    proof {
        lemma_jfields_index(fields@);
    }
    let ghost fv = jfields(fields@);
    let mut i: usize = 0;
    while i < fields.len()
        invariant
            i <= fields.len(),
            fv == jfields(fields@),
            fv.len() == fields@.len(),
            forall|p: int|
                0 <= p < fields@.len() ==> (#[trigger] fv[p]) == (fields@[p].0@, jview(
                    fields@[p].1,
                )),
            forall|p: int, q: int| 0 <= p < q < fields@.len() && p < i ==> fv[p].0 != fv[q].0,
        decreases fields.len() - i,
    {
        let mut j: usize = i + 1;
        while j < fields.len()
            invariant
                j == i + 1 || i < j,
                i < fields.len(),
                j <= fields.len(),
                i < j,
                fv == jfields(fields@),
                fv.len() == fields@.len(),
                forall|p: int|
                    0 <= p < fields@.len() ==> (#[trigger] fv[p]) == (fields@[p].0@, jview(
                        fields@[p].1,
                    )),
                forall|q: int| i < q < j ==> fv[i as int].0 != (#[trigger] fv[q]).0,
            decreases fields.len() - j,
        {
            if fields[i].0.eq(&fields[j].0) {
                proof {
                    assert(keys_of(fv)[i as int] == keys_of(fv)[j as int]);
                }
                return false;
            }
            j = j + 1;
        }
        i = i + 1;
    }
    proof {
        assert forall|p: int, q: int|
            0 <= p < keys_of(fv).len() && 0 <= q < keys_of(fv).len() && p != q implies keys_of(
            fv,
        )[p] != keys_of(fv)[q] by {
            if p < q {
                assert(fv[p].0 != fv[q].0);
            } else {
                assert(fv[q].0 != fv[p].0);
            }
        }
    }
    true
}

/// Look key `k` up in an object's fields, first occurrence first.
pub fn get_field<'a>(fields: &'a Vec<(String, Json)>, k: &String) -> (r: Option<&'a Json>)
    ensures
        match r {
            Option::Some(v) => jv_get(jfields(fields@), k@) == Option::Some(v@) && exists|i: int|
                0 <= i < fields@.len() && *v == (#[trigger] fields@[i]).1,
            Option::None => jv_get(jfields(fields@), k@) is None,
        },
{
    proof {
        lemma_jfields_index(fields@);
    }
    let ghost fv = jfields(fields@);
    let mut i: usize = 0;
    while i < fields.len()
        invariant
            i <= fields.len(),
            fv == jfields(fields@),
            fv.len() == fields@.len(),
            forall|p: int|
                0 <= p < fields@.len() ==> (#[trigger] fv[p]) == (fields@[p].0@, jview(
                    fields@[p].1,
                )),
            forall|j: int| 0 <= j < i ==> (#[trigger] fv[j]).0 != k@,
        decreases fields.len() - i,
    {
        if fields[i].0.eq(k) {
            proof {
                lemma_jv_get_at(fv, k@, i as int);
            }
            return Option::Some(&fields[i].1);
        }
        i = i + 1;
    }
    proof {
        lemma_jv_get_none(fv, k@);
    }
    Option::None
}

/// Decide structural JSON equality of two documents.
pub fn json_equal(a: &Json, b: &Json) -> (r: bool)
    ensures
        r == json_eq(a@, b@),
    decreases a@,
{
    match (a, b) {
        (Json::Null, Json::Null) => true,
        (Json::Bool(x), Json::Bool(y)) => x == y,
        (Json::Int(x), Json::Int(y)) => x == y,
        (Json::Str(x), Json::Str(y)) => x.eq(y),
        (Json::Arr(x), Json::Arr(y)) => {
            proof {
                lemma_jviews_index(x@);
                lemma_jviews_index(y@);
            }
            let ghost xv = a@->Arr_0;
            let ghost yv = b@->Arr_0;
            if x.len() != y.len() {
                return false;
            }
            let mut i: usize = 0;
            while i < x.len()
                invariant
                    i <= x@.len(),
                    x@.len() == y@.len(),
                    a@ == JsonVal::Arr(xv),
                    b@ == JsonVal::Arr(yv),
                    xv == jviews(x@),
                    yv == jviews(y@),
                    xv.len() == x@.len(),
                    yv.len() == y@.len(),
                    forall|j: int| 0 <= j < x@.len() ==> xv[j] == jview(#[trigger] x@[j]),
                    forall|j: int| 0 <= j < y@.len() ==> yv[j] == jview(#[trigger] y@[j]),
                    forall|j: int| 0 <= j < i ==> json_eq(#[trigger] xv[j], yv[j]),
                decreases x@.len() - i,
            {
                proof {
                    assert(decreases_to!(a@ => a@->Arr_0));
                    assert(decreases_to!(xv => xv[i as int]));
                }
                if !json_equal(&x[i], &y[i]) {
                    return false;
                }
                i = i + 1;
            }
            true
        },
        (Json::Obj(x), Json::Obj(y)) => {
            proof {
                lemma_jfields_index(x@);
                lemma_jfields_index(y@);
            }
            let ghost xv = a@->Obj_0;
            let ghost yv = b@->Obj_0;
            if !fields_unique(x) {
                return false;
            }
            if !fields_unique(y) {
                return false;
            }
            if x.len() != y.len() {
                return false;
            }
            let mut i: usize = 0;
            while i < x.len()
                invariant
                    i <= x@.len(),
                    x@.len() == y@.len(),
                    a@ == JsonVal::Obj(xv),
                    b@ == JsonVal::Obj(yv),
                    xv == jfields(x@),
                    yv == jfields(y@),
                    xv.len() == x@.len(),
                    yv.len() == y@.len(),
                    unique_keys(xv),
                    unique_keys(yv),
                    forall|p: int|
                        0 <= p < x@.len() ==> (#[trigger] xv[p]) == (x@[p].0@, jview(x@[p].1)),
                    forall|j: int|
                        #![trigger xv[j]]
                        0 <= j < i ==> match jv_get(yv, xv[j].0) {
                            Option::Some(v) => json_eq(xv[j].1, v),
                            Option::None => false,
                        },
                decreases x@.len() - i,
            {
                match get_field(y, &x[i].0) {
                    Option::Some(v) => {
                        proof {
                            assert(decreases_to!(a@ => a@->Obj_0));
                            assert(decreases_to!(xv => xv[i as int]));
                            assert(decreases_to!(xv[i as int] => xv[i as int].1));
                            assert(xv[i as int].1 == jview(x@[i as int].1));
                        }
                        if !json_equal(&x[i].1, v) {
                            return false;
                        }
                    },
                    Option::None => {
                        return false;
                    },
                }
                i = i + 1;
            }
            true
        },
        _ => false,
    }
}

} // verus!
