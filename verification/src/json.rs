//! The JSON value model: a tagged variant with ordered objects.
//!
//! Numbers are stored as their numeral text, so a loaded document
//! serializes back to exactly the numerals it was read from.  Objects are
//! ordered association lists with unique keys, preserving insertion order.

use vstd::prelude::*;

verus! {

/// An executable JSON value.
pub enum JsonValue {
    Null,
    Bool(bool),
    /// The numeral text of a JSON number, kept verbatim.
    Num(Vec<char>),
    /// The (unescaped) content of a JSON string.
    Str(Vec<char>),
    Arr(Vec<JsonValue>),
    /// Ordered key/value pairs.
    Obj(Vec<(Vec<char>, JsonValue)>),
}

/// The mathematical model of a JSON value.
#[verifier::ext_equal]
pub enum JsonData {
    Null,
    Bool(bool),
    Num(Seq<char>),
    Str(Seq<char>),
    Arr(Seq<JsonData>),
    Obj(Seq<(Seq<char>, JsonData)>),
}

/// The models of a sequence of values, in order.
pub open spec fn views_of(items: Seq<JsonValue>) -> Seq<JsonData>
    decreases items,
{
    if items.len() == 0 {
        Seq::empty()
    } else {
        views_of(items.drop_last()).push(items.last().view())
    }
}

/// The models of a sequence of object entries, in order.
pub open spec fn entry_views_of(entries: Seq<(Vec<char>, JsonValue)>) -> Seq<
    (Seq<char>, JsonData),
>
    decreases entries,
{
    if entries.len() == 0 {
        Seq::empty()
    } else {
        entry_views_of(entries.drop_last()).push(
            (entries.last().0@, entries.last().1.view()),
        )
    }
}

impl JsonValue {
    /// The model of this value.
    pub open spec fn view(self) -> JsonData
        decreases self,
    {
        match self {
            JsonValue::Null => JsonData::Null,
            JsonValue::Bool(b) => JsonData::Bool(b),
            JsonValue::Num(t) => JsonData::Num(t@),
            JsonValue::Str(t) => JsonData::Str(t@),
            JsonValue::Arr(items) => JsonData::Arr(views_of(items@)),
            JsonValue::Obj(entries) => JsonData::Obj(entry_views_of(entries@)),
        }
    }
}

/// `views_of` maps each element to its model.
pub broadcast proof fn lemma_views_of(items: Seq<JsonValue>)
    ensures
        (#[trigger] views_of(items)).len() == items.len(),
        forall|i: int|
            #![trigger views_of(items)[i]]
            #![trigger items[i]@]
            0 <= i < items.len() ==> views_of(items)[i] == items[i]@,
    decreases items.len(),
{
    if items.len() > 0 {
        lemma_views_of(items.drop_last());
        assert forall|i: int| 0 <= i < items.len() implies views_of(items)[i] == #[trigger] items[i]@ by {
            if i < items.len() - 1 {
                assert(items.drop_last()[i] == items[i]);
                assert(views_of(items)[i] == views_of(items.drop_last())[i]);
            }
        }
    }
}

/// `entry_views_of` maps each entry to its model.
pub broadcast proof fn lemma_entry_views_of(entries: Seq<(Vec<char>, JsonValue)>)
    ensures
        (#[trigger] entry_views_of(entries)).len() == entries.len(),
        forall|i: int|
            #![trigger entry_views_of(entries)[i]]
            #![trigger entries[i].1@]
            0 <= i < entries.len() ==> entry_views_of(entries)[i] == (
                entries[i].0@,
                entries[i].1@,
            ),
    decreases entries.len(),
{
    if entries.len() > 0 {
        lemma_entry_views_of(entries.drop_last());
        assert forall|i: int|
            0 <= i < entries.len() implies entry_views_of(entries)[i] == (
            (#[trigger] entries[i]).0@,
            entries[i].1@,
        ) by {
            if i < entries.len() - 1 {
                assert(entries.drop_last()[i] == entries[i]);
                assert(entry_views_of(entries)[i] == entry_views_of(entries.drop_last())[i]);
            }
        }
    }
}

/// True when `c` may appear in a numeral.
pub open spec fn is_num_char(c: char) -> bool {
    ('0' <= c && c <= '9') || c == '-' || c == '+' || c == '.' || c == 'e' || c == 'E'
}

/// True when `t` is accepted as a numeral: nonempty, made of numeral
/// characters, and starting with a digit or a minus sign.
pub open spec fn is_numeral(t: Seq<char>) -> bool {
    &&& t.len() > 0
    &&& (forall|i: int| 0 <= i < t.len() ==> is_num_char(#[trigger] t[i]))
    &&& (('0' <= t[0] && t[0] <= '9') || t[0] == '-')
}

/// The keys of an object entry sequence, in order.
pub open spec fn keys_of(entries: Seq<(Seq<char>, JsonData)>) -> Seq<Seq<char>> {
    entries.map(|i: int, e: (Seq<char>, JsonData)| e.0)
}

/// True when no key occurs twice in `entries`.
pub open spec fn keys_unique(entries: Seq<(Seq<char>, JsonData)>) -> bool {
    forall|i: int, j: int|
        0 <= i < j < entries.len() ==> (#[trigger] entries[i]).0 != (#[trigger] entries[j]).0
}

/// Well-formedness of a JSON value: numerals follow the numeral shape and
/// object keys are unique, recursively.
pub open spec fn wf_json(d: JsonData) -> bool
    decreases d,
{
    match d {
        JsonData::Null => true,
        JsonData::Bool(_) => true,
        JsonData::Num(t) => is_numeral(t),
        JsonData::Str(_) => true,
        JsonData::Arr(items) => forall|i: int|
            0 <= i < items.len() ==> wf_json(#[trigger] items[i]),
        JsonData::Obj(entries) => {
            &&& keys_unique(entries)
            &&& forall|i: int| 0 <= i < entries.len() ==> wf_json((#[trigger] entries[i]).1)
        },
    }
}

/// The value at `key` in an entry sequence, if present (first match).
pub open spec fn obj_get(entries: Seq<(Seq<char>, JsonData)>, key: Seq<char>) -> Option<JsonData>
    decreases entries.len(),
{
    if entries.len() == 0 {
        None
    } else if entries[0].0 == key {
        Some(entries[0].1)
    } else {
        obj_get(entries.skip(1), key)
    }
}

/// Entries with the binding for `key` replaced in place, or appended when
/// absent.
pub open spec fn obj_set(
    entries: Seq<(Seq<char>, JsonData)>,
    key: Seq<char>,
    value: JsonData,
) -> Seq<(Seq<char>, JsonData)>
    decreases entries.len(),
{
    if entries.len() == 0 {
        seq![(key, value)]
    } else if entries[0].0 == key {
        seq![(key, value)] + entries.skip(1)
    } else {
        seq![entries[0]] + obj_set(entries.skip(1), key, value)
    }
}

/// Entries with the binding for `key` removed, if present.
pub open spec fn obj_remove(
    entries: Seq<(Seq<char>, JsonData)>,
    key: Seq<char>,
) -> Seq<(Seq<char>, JsonData)>
    decreases entries.len(),
{
    if entries.len() == 0 {
        entries
    } else if entries[0].0 == key {
        entries.skip(1)
    } else {
        seq![entries[0]] + obj_remove(entries.skip(1), key)
    }
}

impl JsonValue {
    /// Look up `key` in an object; `None` on other variants or when absent.
    pub fn get<'a>(&'a self, key: &Vec<char>) -> (r: Option<&'a JsonValue>)
        ensures
            match self@ {
                JsonData::Obj(entries) => match obj_get(entries, key@) {
                    Some(d) => r.is_some() && r->0@ == d,
                    None => r.is_none(),
                },
                _ => r.is_none(),
            },
    {
        broadcast use lemma_entry_views_of;

        match self {
            JsonValue::Obj(entries) => {
                let ghost model = entry_views_of(entries@);
                proof {
                    assert(model.skip(0) =~= model);
                }
                let mut i: usize = 0;
                while i < entries.len()
                    invariant
                        i <= entries.len(),
                        self@ == JsonData::Obj(model),
                        model == entry_views_of(entries@),
                        model.len() == entries@.len(),
                        forall|j: int|
                            0 <= j < entries@.len() ==> #[trigger] model[j] == (
                                entries@[j].0@,
                                entries@[j].1@,
                            ),
                        obj_get(model, key@) == obj_get(model.skip(i as int), key@),
                    decreases entries.len() - i,
                {
                    proof {
                        assert(model.skip(i as int)[0] == model[i as int]);
                        assert(model.skip(i as int).skip(1) =~= model.skip(i + 1));
                    }
                    if crate::text::text_eq(&entries[i].0, key) {
                        proof {
                            assert(model.skip(i as int)[0].0 == key@);
                            assert(obj_get(model.skip(i as int), key@) == Some(
                                model[i as int].1,
                            ));
                            assert(self@ == JsonData::Obj(model));
                        }
                        return Some(&entries[i].1);
                    }
                    i += 1;
                }
                proof {
                    assert(model.skip(entries@.len() as int).len() == 0);
                }
                None
            },
            _ => None,
        }
    }
}

} // verus!

verus! {

/// A copy of a character vector.
pub fn copy_text(t: &Vec<char>) -> (r: Vec<char>)
    ensures
        r@ == t@,
{
    let mut r: Vec<char> = Vec::new();
    crate::text::append_text(&mut r, t);
    r
}

/// A structural copy of `v`.
pub fn copy_json(v: &JsonValue) -> (r: JsonValue)
    ensures
        r@ == v@,
    decreases v,
{
    broadcast use lemma_views_of, lemma_entry_views_of;

    match v {
        JsonValue::Null => JsonValue::Null,
        JsonValue::Bool(b) => JsonValue::Bool(*b),
        JsonValue::Num(t) => JsonValue::Num(copy_text(t)),
        JsonValue::Str(t) => JsonValue::Str(copy_text(t)),
        JsonValue::Arr(items) => {
            let mut out: Vec<JsonValue> = Vec::new();
            let mut i: usize = 0;
            while i < items.len()
                invariant
                    i <= items.len(),
                    *v == JsonValue::Arr(*items),
                    out@.len() == i,
                    forall|j: int| 0 <= j < i ==> #[trigger] out@[j]@ == items@[j]@,
                decreases items.len() - i,
            {
                proof {
                    assert(decreases_to!(*v => v->Arr_0));
                    assert(v->Arr_0 == *items);
                    assert(decreases_to!(*items => items@));
                    assert(decreases_to!(items@ => items@[i as int]));
                    assert(decreases_to!(*v => items@[i as int]));
                }
                let c = copy_json(&items[i]);
                let ghost cv = c@;
                out.push(c);
                proof {
                    assert(out@[i as int]@ == cv);
                }
                i += 1;
            }
            proof {
                assert(views_of(out@) =~= views_of(items@));
            }
            JsonValue::Arr(out)
        },
        JsonValue::Obj(entries) => {
            let mut out: Vec<(Vec<char>, JsonValue)> = Vec::new();
            let mut i: usize = 0;
            while i < entries.len()
                invariant
                    i <= entries.len(),
                    *v == JsonValue::Obj(*entries),
                    out@.len() == i,
                    forall|j: int|
                        0 <= j < i ==> #[trigger] out@[j].0@ == entries@[j].0@ && out@[j].1@
                            == entries@[j].1@,
                decreases entries.len() - i,
            {
                proof {
                    assert(decreases_to!(*v => v->Obj_0));
                    assert(v->Obj_0 == *entries);
                    assert(decreases_to!(*entries => entries@));
                    assert(decreases_to!(entries@ => entries@[i as int]));
                    assert(decreases_to!(entries@[i as int] => entries@[i as int].1));
                    assert(decreases_to!(*v => entries@[i as int].1));
                }
                let k = copy_text(&entries[i].0);
                let c = copy_json(&entries[i].1);
                let ghost kv = k@;
                let ghost cv = c@;
                out.push((k, c));
                proof {
                    assert(out@[i as int].0@ == kv);
                    assert(out@[i as int].1@ == cv);
                }
                i += 1;
            }
            proof {
                assert(entry_views_of(out@) =~= entry_views_of(entries@));
            }
            JsonValue::Obj(out)
        },
    }
}

impl JsonValue {
    /// A structural copy of this value.
    pub fn deep_copy(&self) -> (r: JsonValue)
        ensures
            r@ == self@,
    {
        copy_json(self)
    }
}

} // verus!

verus! {

/// A key is found exactly when some entry bears it.
pub proof fn lemma_obj_get_has_key(entries: Seq<(Seq<char>, JsonData)>, key: Seq<char>)
    ensures
        (obj_get(entries, key) is Some) <==> (exists|i: int|
            0 <= i < entries.len() && (#[trigger] entries[i]).0 == key),
    decreases entries.len(),
{
    if entries.len() > 0 {
        lemma_obj_get_has_key(entries.skip(1), key);
        if entries[0].0 == key {
        } else {
            assert forall|i: int|
                0 <= i < entries.len() && (#[trigger] entries[i]).0 == key implies obj_get(
                entries,
                key,
            ) is Some by {
                assert(entries.skip(1)[i - 1] == entries[i]);
            }
            if obj_get(entries, key) is Some {
                let w = choose|i: int|
                    0 <= i < entries.skip(1).len() && (#[trigger] entries.skip(1)[i]).0 == key;
                assert(entries[w + 1] == entries.skip(1)[w]);
            }
        }
    }
}

/// Look up `key` in an entry vector; the first match is returned.
pub fn obj_find<'a>(entries: &'a Vec<(Vec<char>, JsonValue)>, key: &Vec<char>) -> (r: Option<
    &'a JsonValue,
>)
    ensures
        match obj_get(entry_views_of(entries@), key@) {
            Some(d) => r.is_some() && r->0@ == d,
            None => r.is_none(),
        },
{
    broadcast use lemma_entry_views_of;

    let ghost model = entry_views_of(entries@);
    proof {
        assert(model.skip(0) =~= model);
    }
    let mut i: usize = 0;
    while i < entries.len()
        invariant
            i <= entries.len(),
            model == entry_views_of(entries@),
            model.len() == entries@.len(),
            forall|j: int|
                0 <= j < entries@.len() ==> #[trigger] model[j] == (
                    entries@[j].0@,
                    entries@[j].1@,
                ),
            obj_get(model, key@) == obj_get(model.skip(i as int), key@),
        decreases entries.len() - i,
    {
        proof {
            assert(model.skip(i as int)[0] == model[i as int]);
            assert(model.skip(i as int).skip(1) =~= model.skip(i + 1));
        }
        if crate::text::text_eq(&entries[i].0, key) {
            proof {
                assert(model.skip(i as int)[0].0 == key@);
                assert(obj_get(model.skip(i as int), key@) == Some(model[i as int].1));
            }
            return Some(&entries[i].1);
        }
        i += 1;
    }
    proof {
        assert(model.skip(entries@.len() as int).len() == 0);
    }
    None
}

} // verus!
