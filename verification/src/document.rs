//! The bar configuration document: three ordered placement slots and an
//! ordered mapping of module definitions, with conversion to and from
//! JSON and a proved save/load round trip.

use vstd::prelude::*;

use crate::json::{JsonData, JsonValue, keys_unique, obj_get, entry_views_of, wf_json};
use crate::codec::{ParseError, print_json, parse_json, strip_comments_of};

verus! {

/// One of the three top-level placement lists.
#[derive(Clone, Copy, PartialEq, Eq, Structural)]
pub enum Slot {
    Left,
    Center,
    Right,
}

/// The configuration document.
pub struct WaybarConfig {
    pub modules_left: Vec<Vec<char>>,
    pub modules_center: Vec<Vec<char>>,
    pub modules_right: Vec<Vec<char>>,
    /// Ordered module definitions; keys are unique module identifiers.
    pub module_definitions: Vec<(Vec<char>, JsonValue)>,
}

/// The mathematical model of a configuration document.
#[verifier::ext_equal]
pub struct ConfigData {
    pub left: Seq<Seq<char>>,
    pub center: Seq<Seq<char>>,
    pub right: Seq<Seq<char>>,
    pub defs: Seq<(Seq<char>, JsonData)>,
}

/// The models of a sequence of identifiers.
pub open spec fn texts_of(s: Seq<Vec<char>>) -> Seq<Seq<char>> {
    s.map_values(|t: Vec<char>| t@)
}

impl View for WaybarConfig {
    type V = ConfigData;

    open spec fn view(&self) -> ConfigData {
        ConfigData {
            left: texts_of(self.modules_left@),
            center: texts_of(self.modules_center@),
            right: texts_of(self.modules_right@),
            defs: entry_views_of(self.module_definitions@),
        }
    }
}

/// The key of the left slot in the serialized form.
pub open spec fn left_key() -> Seq<char> {
    "modules-left"@
}

/// The key of the center slot in the serialized form.
pub open spec fn center_key() -> Seq<char> {
    "modules-center"@
}

/// The key of the right slot in the serialized form.
pub open spec fn right_key() -> Seq<char> {
    "modules-right"@
}

/// True when `k` is one of the three slot keys.
pub open spec fn is_reserved(k: Seq<char>) -> bool {
    k == left_key() || k == center_key() || k == right_key()
}

/// Well-formedness of a document: definition keys unique and not slot
/// keys, and each definition a well-formed JSON value.
pub open spec fn wf_config(cd: ConfigData) -> bool {
    &&& keys_unique(cd.defs)
    &&& forall|i: int| 0 <= i < cd.defs.len() ==> !is_reserved((#[trigger] cd.defs[i]).0)
    &&& forall|i: int| 0 <= i < cd.defs.len() ==> wf_json((#[trigger] cd.defs[i]).1)
}

/// Identifiers as an array of JSON strings.
pub open spec fn ids_to_json(ids: Seq<Seq<char>>) -> Seq<JsonData> {
    ids.map_values(|s: Seq<char>| JsonData::Str(s))
}

/// The serialized form of a document: slot arrays first, then the
/// definitions, flattened into one object.
pub open spec fn config_to_json(cd: ConfigData) -> JsonData {
    JsonData::Obj(
        seq![
            (left_key(), JsonData::Arr(ids_to_json(cd.left))),
            (center_key(), JsonData::Arr(ids_to_json(cd.center))),
            (right_key(), JsonData::Arr(ids_to_json(cd.right))),
        ] + cd.defs,
    )
}

/// Identifiers of an array of JSON strings; `None` when some element is
/// not a string.
pub open spec fn ids_of_json(items: Seq<JsonData>) -> Option<Seq<Seq<char>>>
    decreases items.len(),
{
    if items.len() == 0 {
        Some(Seq::empty())
    } else {
        match items[0] {
            JsonData::Str(s) => match ids_of_json(items.skip(1)) {
                Some(r) => Some(seq![s] + r),
                None => None,
            },
            _ => None,
        }
    }
}

/// The slot stored under `key`: absent means empty; a non-array or an
/// array with a non-string element is malformed.
pub open spec fn slot_of_json(
    entries: Seq<(Seq<char>, JsonData)>,
    key: Seq<char>,
) -> Option<Seq<Seq<char>>> {
    match obj_get(entries, key) {
        None => Some(Seq::empty()),
        Some(JsonData::Arr(items)) => ids_of_json(items),
        Some(_) => None,
    }
}

/// Entries without the slot keys, in order.
pub open spec fn drop_reserved(entries: Seq<(Seq<char>, JsonData)>) -> Seq<
    (Seq<char>, JsonData),
>
    decreases entries.len(),
{
    if entries.len() == 0 {
        entries
    } else if is_reserved(entries[0].0) {
        drop_reserved(entries.skip(1))
    } else {
        seq![entries[0]] + drop_reserved(entries.skip(1))
    }
}

/// Read a document back from its serialized form.
pub open spec fn config_of_json(d: JsonData) -> Option<ConfigData> {
    match d {
        JsonData::Obj(entries) => {
            let defs = drop_reserved(entries);
            if keys_unique(defs) {
                match slot_of_json(entries, left_key()) {
                    Some(l) => match slot_of_json(entries, center_key()) {
                        Some(c) => match slot_of_json(entries, right_key()) {
                            Some(r) => Some(ConfigData { left: l, center: c, right: r, defs }),
                            None => None,
                        },
                        None => None,
                    },
                    None => None,
                }
            } else {
                None
            }
        },
        _ => None,
    }
}

/// The three slot keys are pairwise distinct.
pub proof fn lemma_keys_distinct()
    ensures
        left_key() != center_key(),
        left_key() != right_key(),
        center_key() != right_key(),
{
    reveal_strlit("modules-left");
    reveal_strlit("modules-center");
    reveal_strlit("modules-right");
    assert(left_key().len() == 12);
    assert(center_key().len() == 14);
    assert(right_key().len() == 13);
}

/// Reading back an array of strings yields the identifiers.
pub proof fn lemma_ids_round_trip(ids: Seq<Seq<char>>)
    ensures
        ids_of_json(ids_to_json(ids)) == Some(ids),
    decreases ids.len(),
{
    let items = ids_to_json(ids);
    if ids.len() == 0 {
        assert(ids =~= Seq::<Seq<char>>::empty());
    } else {
        assert(items[0] == JsonData::Str(ids[0]));
        assert(items.skip(1) =~= ids_to_json(ids.skip(1)));
        lemma_ids_round_trip(ids.skip(1));
        assert(seq![ids[0]] + ids.skip(1) =~= ids);
    }
}

/// Dropping slot keys from entries that have none is the identity.
pub proof fn lemma_drop_reserved_id(entries: Seq<(Seq<char>, JsonData)>)
    requires
        forall|i: int| 0 <= i < entries.len() ==> !is_reserved((#[trigger] entries[i]).0),
    ensures
        drop_reserved(entries) == entries,
    decreases entries.len(),
{
    if entries.len() > 0 {
        lemma_drop_reserved_id(entries.skip(1));
        assert(seq![entries[0]] + entries.skip(1) =~= entries);
    }
}

/// Dropping slot keys distributes over concatenation.
pub proof fn lemma_drop_reserved_concat(
    a: Seq<(Seq<char>, JsonData)>,
    b: Seq<(Seq<char>, JsonData)>,
)
    ensures
        drop_reserved(a + b) == drop_reserved(a) + drop_reserved(b),
    decreases a.len(),
{
    if a.len() == 0 {
        assert(a + b =~= b);
        assert(drop_reserved(a) + drop_reserved(b) =~= drop_reserved(b));
    } else {
        assert((a + b)[0] == a[0]);
        assert((a + b).skip(1) =~= a.skip(1) + b);
        lemma_drop_reserved_concat(a.skip(1), b);
        if is_reserved(a[0].0) {
        } else {
            assert(seq![a[0]] + (drop_reserved(a.skip(1)) + drop_reserved(b)) =~= (seq![a[0]]
                + drop_reserved(a.skip(1))) + drop_reserved(b));
        }
    }
}

/// Law: reading back a serialized well-formed document yields the
/// document.
pub proof fn lemma_config_json_round_trip(cd: ConfigData)
    requires
        wf_config(cd),
    ensures
        config_of_json(config_to_json(cd)) == Some(cd),
{
    lemma_keys_distinct();
    let head = seq![
        (left_key(), JsonData::Arr(ids_to_json(cd.left))),
        (center_key(), JsonData::Arr(ids_to_json(cd.center))),
        (right_key(), JsonData::Arr(ids_to_json(cd.right))),
    ];
    let entries = head + cd.defs;
    assert(entries[0] == head[0]);
    assert(entries[1] == head[1]);
    assert(entries[2] == head[2]);

    // the three slots are found directly
    assert(obj_get(entries, left_key()) == Some(JsonData::Arr(ids_to_json(cd.left))));
    assert(entries.skip(1)[0] == head[1]);
    assert(entries.skip(1).skip(1) =~= entries.skip(2));
    assert(entries.skip(2)[0] == head[2]);
    assert(obj_get(entries.skip(1), center_key()) == Some(
        JsonData::Arr(ids_to_json(cd.center)),
    ));
    assert(obj_get(entries, center_key()) == Some(JsonData::Arr(ids_to_json(cd.center))));
    assert(obj_get(entries.skip(2), right_key()) == Some(JsonData::Arr(ids_to_json(cd.right))));
    assert(obj_get(entries.skip(1), right_key()) == Some(JsonData::Arr(ids_to_json(cd.right))));
    assert(obj_get(entries, right_key()) == Some(JsonData::Arr(ids_to_json(cd.right))));
    lemma_ids_round_trip(cd.left);
    lemma_ids_round_trip(cd.center);
    lemma_ids_round_trip(cd.right);

    // the remaining entries are exactly the definitions
    lemma_drop_reserved_concat(head, cd.defs);
    assert(head.skip(1)[0] == head[1]);
    assert(head.skip(1).skip(1) =~= head.skip(2));
    assert(head.skip(2)[0] == head[2]);
    assert(head.skip(2).skip(1) =~= Seq::<(Seq<char>, JsonData)>::empty());
    assert(drop_reserved(head.skip(2).skip(1)) =~= Seq::<(Seq<char>, JsonData)>::empty());
    assert(drop_reserved(head.skip(2)) =~= Seq::<(Seq<char>, JsonData)>::empty());
    assert(drop_reserved(head.skip(1)) == drop_reserved(head.skip(1).skip(1)));
    assert(drop_reserved(head.skip(1)) =~= Seq::<(Seq<char>, JsonData)>::empty());
    assert(drop_reserved(head) =~= Seq::<(Seq<char>, JsonData)>::empty());
    lemma_drop_reserved_id(cd.defs);
    assert(drop_reserved(entries) =~= cd.defs);
    assert(config_of_json(config_to_json(cd)) == Some(
        ConfigData { left: cd.left, center: cd.center, right: cd.right, defs: cd.defs },
    ));
    assert(ConfigData { left: cd.left, center: cd.center, right: cd.right, defs: cd.defs }
        =~= cd);
}

} // verus!

verus! {

/// Identifiers as a JSON array value.
pub(crate) fn slot_json(ids: &Vec<Vec<char>>) -> (r: JsonValue)
    ensures
        r@ == JsonData::Arr(ids_to_json(texts_of(ids@))),
{
    broadcast use crate::json::lemma_views_of;

    let mut out: Vec<JsonValue> = Vec::new();
    let mut i: usize = 0;
    while i < ids.len()
        invariant
            i <= ids.len(),
            out@.len() == i,
            forall|j: int| 0 <= j < i ==> #[trigger] out@[j]@ == JsonData::Str(ids@[j]@),
        decreases ids.len() - i,
    {
        let s = crate::json::copy_text(&ids[i]);
        let ghost sv = s@;
        out.push(JsonValue::Str(s));
        proof {
            assert(out@[i as int]@ == JsonData::Str(sv));
        }
        i += 1;
    }
    proof {
        assert(crate::json::views_of(out@) =~= ids_to_json(texts_of(ids@)));
    }
    JsonValue::Arr(out)
}

impl WaybarConfig {
    /// The serialized form of this document as a JSON value.
    pub fn to_json(&self) -> (r: JsonValue)
        ensures
            r@ == config_to_json(self@),
    {
        broadcast use crate::json::lemma_entry_views_of;

        let mut entries: Vec<(Vec<char>, JsonValue)> = Vec::new();
        entries.push((crate::text::text_of("modules-left"), slot_json(&self.modules_left)));
        entries.push((crate::text::text_of("modules-center"), slot_json(&self.modules_center)));
        entries.push((crate::text::text_of("modules-right"), slot_json(&self.modules_right)));
        proof {
            assert(entries@[0].0@ == left_key());
            assert(entries@[1].0@ == center_key());
            assert(entries@[2].0@ == right_key());
        }
        let ghost defs_model = entry_views_of(self.module_definitions@);
        let mut i: usize = 0;
        while i < self.module_definitions.len()
            invariant
                i <= self.module_definitions.len(),
                defs_model == entry_views_of(self.module_definitions@),
                defs_model.len() == self.module_definitions@.len(),
                forall|j: int|
                    0 <= j < self.module_definitions@.len() ==> #[trigger] defs_model[j] == (
                        self.module_definitions@[j].0@,
                        self.module_definitions@[j].1@,
                    ),
                entries@.len() == 3 + i,
                entries@[0].0@ == left_key(),
                entries@[0].1@ == JsonData::Arr(ids_to_json(self@.left)),
                entries@[1].0@ == center_key(),
                entries@[1].1@ == JsonData::Arr(ids_to_json(self@.center)),
                entries@[2].0@ == right_key(),
                entries@[2].1@ == JsonData::Arr(ids_to_json(self@.right)),
                forall|j: int|
                    #![trigger entries@[j]]
                    3 <= j < 3 + i ==> entries@[j].0@ == defs_model[j - 3].0 && entries@[j].1@
                        == defs_model[j - 3].1,
            decreases self.module_definitions.len() - i,
        {
            let k = crate::json::copy_text(&self.module_definitions[i].0);
            let v = crate::json::copy_json(&self.module_definitions[i].1);
            let ghost kv = k@;
            let ghost vv = v@;
            entries.push((k, v));
            proof {
                assert(entries@[3 + i as int].0@ == kv);
                assert(entries@[3 + i as int].1@ == vv);
            }
            i += 1;
        }
        proof {
            assert(entry_views_of(entries@) =~= seq![
                (left_key(), JsonData::Arr(ids_to_json(self@.left))),
                (center_key(), JsonData::Arr(ids_to_json(self@.center))),
                (right_key(), JsonData::Arr(ids_to_json(self@.right))),
            ] + self@.defs);
        }
        JsonValue::Obj(entries)
    }
}

/// Identifiers of a JSON array; an error when some element is not a
/// string.
pub(crate) fn ids_from_json(items: &Vec<JsonValue>) -> (r: Result<Vec<Vec<char>>, ParseError>)
    ensures
        match ids_of_json(crate::json::views_of(items@)) {
            Some(ids) => r is Ok && texts_of(r->Ok_0@) == ids,
            None => r is Err,
        },
{
    broadcast use crate::json::lemma_views_of;

    let ghost model = crate::json::views_of(items@);
    proof {
        assert(model.skip(0) =~= model);
    }
    let mut out: Vec<Vec<char>> = Vec::new();
    let mut i: usize = 0;
    while i < items.len()
        invariant
            i <= items.len(),
            model == crate::json::views_of(items@),
            model.len() == items@.len(),
            forall|j: int| 0 <= j < items@.len() ==> #[trigger] model[j] == items@[j]@,
            out@.len() == i,
            match ids_of_json(model.skip(i as int)) {
                Some(rest) => ids_of_json(model) == Some(texts_of(out@) + rest),
                None => ids_of_json(model) is None,
            },
        decreases items.len() - i,
    {
        proof {
            assert(model.skip(i as int)[0] == model[i as int]);
            assert(model.skip(i as int).skip(1) =~= model.skip(i + 1));
        }
        match &items[i] {
            JsonValue::Str(s) => {
                let c = crate::json::copy_text(s);
                let ghost cv = c@;
                out.push(c);
                proof {
                    assert(model[i as int] == JsonData::Str(cv));
                    match ids_of_json(model.skip(i + 1)) {
                        Some(rest) => {
                            assert(ids_of_json(model.skip(i as int)) == Some(
                                seq![cv] + rest,
                            ));
                            assert(texts_of(out@.drop_last()) + (seq![cv] + rest) =~= texts_of(
                                out@,
                            ) + rest);
                        },
                        None => {},
                    }
                }
                i += 1;
            },
            _ => {
                proof {
                    assert(ids_of_json(model.skip(i as int)) is None);
                }
                return Err(ParseError::Malformed);
            },
        }
    }
    proof {
        assert(model.skip(i as int).len() == 0);
        assert(texts_of(out@) + Seq::<Seq<char>>::empty() =~= texts_of(out@));
    }
    Ok(out)
}

/// The slot stored under `key` in an entry vector.
fn slot_from(entries: &Vec<(Vec<char>, JsonValue)>, key: &Vec<char>) -> (r: Result<
    Vec<Vec<char>>,
    ParseError,
>)
    ensures
        match slot_of_json(entry_views_of(entries@), key@) {
            Some(ids) => r is Ok && texts_of(r->Ok_0@) == ids,
            None => r is Err,
        },
{
    match crate::json::obj_find(entries, key) {
        None => {
            let out: Vec<Vec<char>> = Vec::new();
            proof {
                assert(texts_of(out@) =~= Seq::<Seq<char>>::empty());
            }
            Ok(out)
        },
        Some(v) => match v {
            JsonValue::Arr(items) => ids_from_json(items),
            _ => Err(ParseError::Malformed),
        },
    }
}

} // verus!

verus! {

impl WaybarConfig {
    /// Read a document from its serialized form.  Fails when a slot is
    /// not an array of strings or a module identifier is defined twice.
    pub fn from_json(v: &JsonValue) -> (r: Result<WaybarConfig, ParseError>)
        ensures
            match config_of_json(v@) {
                Some(cd) => r is Ok && r->Ok_0@ == cd,
                None => r is Err,
            },
    {
        broadcast use crate::json::lemma_entry_views_of;

        match v {
            JsonValue::Obj(entries) => {
                let ghost model = entry_views_of(entries@);
                let mut defs: Vec<(Vec<char>, JsonValue)> = Vec::new();
                let mut i: usize = 0;
                proof {
                    assert(model.take(0) =~= Seq::<(Seq<char>, JsonData)>::empty());
                    assert(entry_views_of(defs@) =~= drop_reserved(model.take(0)));
                }
                while i < entries.len()
                    invariant
                        i <= entries.len(),
                        *v == JsonValue::Obj(*entries),
                        v@ == JsonData::Obj(model),
                        model == entry_views_of(entries@),
                        model.len() == entries@.len(),
                        forall|j: int|
                            0 <= j < entries@.len() ==> #[trigger] model[j] == (
                                entries@[j].0@,
                                entries@[j].1@,
                            ),
                        entry_views_of(defs@) == drop_reserved(model.take(i as int)),
                        keys_unique(entry_views_of(defs@)),
                    decreases entries.len() - i,
                {
                    let ghost kept = entry_views_of(defs@);
                    let ghost cur = model[i as int];
                    proof {
                        assert(model.take(i + 1) =~= model.take(i as int) + seq![cur]);
                        lemma_drop_reserved_concat(model.take(i as int), seq![cur]);
                        assert(seq![cur].skip(1) =~= Seq::<(Seq<char>, JsonData)>::empty());
                        assert(drop_reserved(Seq::<(Seq<char>, JsonData)>::empty()) =~= Seq::<
                            (Seq<char>, JsonData),
                        >::empty());
                    }
                    let key = &entries[i].0;
                    let reserved = crate::text::text_eq_str(key, "modules-left")
                        || crate::text::text_eq_str(key, "modules-center")
                        || crate::text::text_eq_str(key, "modules-right");
                    proof {
                        assert(key@ == cur.0);
                        assert(reserved == is_reserved(cur.0));
                    }
                    if reserved {
                        proof {
                            assert(drop_reserved(seq![cur]) =~= Seq::<
                                (Seq<char>, JsonData),
                            >::empty());
                            assert(drop_reserved(model.take(i + 1)) =~= kept);
                        }
                    } else {
                        proof {
                            assert(drop_reserved(seq![cur]) =~= seq![cur]);
                        }
                        let dup = crate::json::obj_find(&defs, key).is_some();
                        if dup {
                            proof {
                                crate::json::lemma_obj_get_has_key(kept, key@);
                                let w = choose|j: int|
                                    0 <= j < kept.len() && (#[trigger] kept[j]).0 == key@;
                                assert(model.take(i as int) + model.skip(i as int) =~= model);
                                lemma_drop_reserved_concat(
                                    model.take(i as int),
                                    model.skip(i as int),
                                );
                                assert(model.skip(i as int)[0] == cur);
                                assert(model.skip(i as int).skip(1) =~= model.skip(i + 1));
                                assert(drop_reserved(model.skip(i as int)) == seq![cur]
                                    + drop_reserved(model.skip(i + 1)));
                                let dm = drop_reserved(model);
                                assert(dm == kept + (seq![cur] + drop_reserved(
                                    model.skip(i + 1),
                                )));
                                assert(dm[w].0 == key@);
                                assert(dm[kept.len() as int] == cur);
                                assert(!keys_unique(dm));
                            }
                            return Err(ParseError::Malformed);
                        }
                        proof {
                            crate::json::lemma_obj_get_has_key(kept, key@);
                        }
                        let k2 = crate::json::copy_text(key);
                        let v2 = crate::json::copy_json(&entries[i].1);
                        let ghost kv = k2@;
                        let ghost vv = v2@;
                        let ghost olddefs = defs@;
                        defs.push((k2, v2));
                        proof {
                            crate::json::lemma_entry_views_of(olddefs);
                            crate::json::lemma_entry_views_of(defs@);
                            assert(defs@.len() == olddefs.len() + 1);
                            assert(defs@[olddefs.len() as int].0@ == kv);
                            assert(defs@[olddefs.len() as int].1@ == vv);
                            assert((kv, vv) == cur);
                            assert(entry_views_of(defs@) =~= kept + seq![cur]);
                            assert(drop_reserved(model.take(i + 1)) =~= kept + seq![cur]);
                            assert forall|p: int, q: int|
                                0 <= p < q < entry_views_of(defs@).len() implies (
                            #[trigger] entry_views_of(defs@)[p]).0 != (#[trigger] entry_views_of(
                                defs@,
                            )[q]).0 by {
                                if q == entry_views_of(defs@).len() - 1 {
                                    assert(entry_views_of(defs@)[p] == kept[p]);
                                }
                            }
                        }
                    }
                    i += 1;
                }
                proof {
                    assert(model.take(model.len() as int) =~= model);
                }
                let lkey = crate::text::text_of("modules-left");
                let ckey = crate::text::text_of("modules-center");
                let rkey = crate::text::text_of("modules-right");
                let left = match slot_from(entries, &lkey) {
                    Ok(x) => x,
                    Err(e) => {
                        return Err(e);
                    },
                };
                let center = match slot_from(entries, &ckey) {
                    Ok(x) => x,
                    Err(e) => {
                        return Err(e);
                    },
                };
                let right = match slot_from(entries, &rkey) {
                    Ok(x) => x,
                    Err(e) => {
                        return Err(e);
                    },
                };
                let out = WaybarConfig {
                    modules_left: left,
                    modules_center: center,
                    modules_right: right,
                    module_definitions: defs,
                };
                proof {
                    assert(out@ =~= config_of_json(v@)->Some_0);
                }
                Ok(out)
            },
            _ => Err(ParseError::Malformed),
        }
    }
}

} // verus!

verus! {

/// Identifiers with empty ones removed, as on save.
pub open spec fn keep_nonempty(ids: Seq<Seq<char>>) -> Seq<Seq<char>>
    decreases ids.len(),
{
    if ids.len() == 0 {
        ids
    } else if ids[0].len() > 0 {
        seq![ids[0]] + keep_nonempty(ids.skip(1))
    } else {
        keep_nonempty(ids.skip(1))
    }
}

/// Removing empty identifiers distributes over concatenation.
pub proof fn lemma_keep_nonempty_concat(a: Seq<Seq<char>>, b: Seq<Seq<char>>)
    ensures
        keep_nonempty(a + b) == keep_nonempty(a) + keep_nonempty(b),
    decreases a.len(),
{
    if a.len() == 0 {
        assert(a + b =~= b);
        assert(keep_nonempty(a) + keep_nonempty(b) =~= keep_nonempty(b));
    } else {
        assert((a + b)[0] == a[0]);
        assert((a + b).skip(1) =~= a.skip(1) + b);
        lemma_keep_nonempty_concat(a.skip(1), b);
        if a[0].len() > 0 {
            assert(seq![a[0]] + (keep_nonempty(a.skip(1)) + keep_nonempty(b)) =~= (seq![a[0]]
                + keep_nonempty(a.skip(1))) + keep_nonempty(b));
        }
    }
}

/// Removing empty identifiers from a list without any is the identity.
pub proof fn lemma_keep_nonempty_id(ids: Seq<Seq<char>>)
    requires
        forall|i: int| 0 <= i < ids.len() ==> (#[trigger] ids[i]).len() > 0,
    ensures
        keep_nonempty(ids) == ids,
    decreases ids.len(),
{
    if ids.len() > 0 {
        lemma_keep_nonempty_id(ids.skip(1));
        assert(seq![ids[0]] + ids.skip(1) =~= ids);
    }
}

/// The document as saved: empty identifiers dropped from every slot.
pub open spec fn clean_config(cd: ConfigData) -> ConfigData {
    ConfigData {
        left: keep_nonempty(cd.left),
        center: keep_nonempty(cd.center),
        right: keep_nonempty(cd.right),
        defs: cd.defs,
    }
}

/// A slot vector with empty identifiers dropped.
fn cleaned_slot(ids: &Vec<Vec<char>>) -> (r: Vec<Vec<char>>)
    ensures
        texts_of(r@) == keep_nonempty(texts_of(ids@)),
{
    let ghost model = texts_of(ids@);
    let mut out: Vec<Vec<char>> = Vec::new();
    let mut i: usize = 0;
    proof {
        assert(model.take(0) =~= Seq::<Seq<char>>::empty());
        assert(texts_of(out@) =~= keep_nonempty(model.take(0)));
    }
    while i < ids.len()
        invariant
            i <= ids.len(),
            model == texts_of(ids@),
            model.len() == ids@.len(),
            texts_of(out@) == keep_nonempty(model.take(i as int)),
        decreases ids.len() - i,
    {
        proof {
            assert(model.take(i + 1) =~= model.take(i as int) + seq![model[i as int]]);
            lemma_keep_nonempty_concat(model.take(i as int), seq![model[i as int]]);
            assert(seq![model[i as int]].skip(1) =~= Seq::<Seq<char>>::empty());
            assert(keep_nonempty(Seq::<Seq<char>>::empty()) =~= Seq::<Seq<char>>::empty());
        }
        if ids[i].len() > 0 {
            let c = crate::json::copy_text(&ids[i]);
            let ghost cv = c@;
            out.push(c);
            proof {
                assert(keep_nonempty(seq![model[i as int]]) =~= seq![model[i as int]]);
                assert(texts_of(out@) =~= keep_nonempty(model.take(i as int)) + seq![
                    model[i as int],
                ]);
            }
        } else {
            proof {
                assert(keep_nonempty(seq![model[i as int]]) =~= Seq::<Seq<char>>::empty());
                assert(texts_of(out@) =~= keep_nonempty(model.take(i + 1)));
            }
        }
        i += 1;
    }
    proof {
        assert(model.take(model.len() as int) =~= model);
    }
    out
}

/// Reading a document from text: strip comments, parse, convert.
pub open spec fn config_of_text(t: Seq<char>) -> Option<ConfigData> {
    match parse_json(strip_comments_of(t)) {
        Some(d) => config_of_json(d),
        None => None,
    }
}

impl WaybarConfig {
    /// The exact serialized text of this document, nothing dropped.
    pub fn to_text(&self) -> (r: Vec<char>)
        ensures
            r@ == print_json(config_to_json(self@)),
    {
        let j = self.to_json();
        crate::codec::to_text(&j)
    }

    /// The saved text of this document: empty identifiers are dropped
    /// from the slots, as the editor does on save.
    pub fn save_text(&self) -> (r: Vec<char>)
        ensures
            r@ == print_json(config_to_json(clean_config(self@))),
    {
        let cleaned = WaybarConfig {
            modules_left: cleaned_slot(&self.modules_left),
            modules_center: cleaned_slot(&self.modules_center),
            modules_right: cleaned_slot(&self.modules_right),
            module_definitions: copy_defs(&self.module_definitions),
        };
        proof {
            assert(cleaned@ =~= clean_config(self@));
        }
        cleaned.to_text()
    }

    /// Read a document from text in the commented JSON dialect.
    pub fn from_text(t: &Vec<char>) -> (r: Result<WaybarConfig, ParseError>)
        ensures
            match config_of_text(t@) {
                Some(cd) => r is Ok && r->Ok_0@ == cd,
                None => r is Err,
            },
    {
        let stripped = crate::codec::strip_comments(t);
        let v = match crate::codec::parse_text(&stripped) {
            Ok(v) => v,
            Err(e) => {
                return Err(e);
            },
        };
        WaybarConfig::from_json(&v)
    }
}

/// A copy of a definition list.
pub(crate) fn copy_defs(defs: &Vec<(Vec<char>, JsonValue)>) -> (r: Vec<(Vec<char>, JsonValue)>)
    ensures
        entry_views_of(r@) == entry_views_of(defs@),
{
    broadcast use crate::json::lemma_entry_views_of;

    let mut out: Vec<(Vec<char>, JsonValue)> = Vec::new();
    let mut i: usize = 0;
    while i < defs.len()
        invariant
            i <= defs.len(),
            out@.len() == i,
            forall|j: int|
                #![trigger out@[j]]
                0 <= j < i ==> out@[j].0@ == defs@[j].0@ && out@[j].1@ == defs@[j].1@,
        decreases defs.len() - i,
    {
        let k = crate::json::copy_text(&defs[i].0);
        let v = crate::json::copy_json(&defs[i].1);
        let ghost kv = k@;
        let ghost vv = v@;
        out.push((k, v));
        proof {
            assert(out@[i as int].0@ == kv);
            assert(out@[i as int].1@ == vv);
        }
        i += 1;
    }
    proof {
        assert(entry_views_of(out@) =~= entry_views_of(defs@));
    }
    out
}

} // verus!

verus! {

/// The persisted bundle: document, style variables and stylesheet text.
pub struct WaybarProfile {
    pub config: WaybarConfig,
    /// Ordered style variables: name and value.
    pub style_vars: Vec<(Vec<char>, Vec<char>)>,
    pub layout_css: Vec<char>,
}

/// The mathematical model of a profile.
#[verifier::ext_equal]
pub struct ProfileData {
    pub config: ConfigData,
    pub style_vars: Seq<(Seq<char>, Seq<char>)>,
    pub layout_css: Seq<char>,
}

/// The models of a sequence of name/value pairs.
pub open spec fn pairs_of(s: Seq<(Vec<char>, Vec<char>)>) -> Seq<(Seq<char>, Seq<char>)> {
    s.map_values(|p: (Vec<char>, Vec<char>)| (p.0@, p.1@))
}

impl View for WaybarProfile {
    type V = ProfileData;

    open spec fn view(&self) -> ProfileData {
        ProfileData {
            config: self.config@,
            style_vars: pairs_of(self.style_vars@),
            layout_css: self.layout_css@,
        }
    }
}

/// True when no style variable name occurs twice.
pub open spec fn var_keys_unique(vars: Seq<(Seq<char>, Seq<char>)>) -> bool {
    forall|i: int, j: int|
        0 <= i < j < vars.len() ==> (#[trigger] vars[i]).0 != (#[trigger] vars[j]).0
}

/// Well-formedness of a profile.
pub open spec fn wf_profile(p: ProfileData) -> bool {
    &&& wf_config(p.config)
    &&& var_keys_unique(p.style_vars)
}

/// Style variables as JSON object entries.
pub open spec fn vars_to_json(vars: Seq<(Seq<char>, Seq<char>)>) -> Seq<(Seq<char>, JsonData)> {
    vars.map_values(|p: (Seq<char>, Seq<char>)| (p.0, JsonData::Str(p.1)))
}

/// Style variables of JSON object entries; `None` when some value is not
/// a string.
pub open spec fn vars_of_json(entries: Seq<(Seq<char>, JsonData)>) -> Option<
    Seq<(Seq<char>, Seq<char>)>,
>
    decreases entries.len(),
{
    if entries.len() == 0 {
        Some(Seq::empty())
    } else {
        match entries[0].1 {
            JsonData::Str(s) => match vars_of_json(entries.skip(1)) {
                Some(r) => Some(seq![(entries[0].0, s)] + r),
                None => None,
            },
            _ => None,
        }
    }
}

/// The key of the document in a serialized profile.
pub open spec fn config_key() -> Seq<char> {
    "config"@
}

/// The key of the style variables in a serialized profile.
pub open spec fn style_vars_key() -> Seq<char> {
    "style_vars"@
}

/// The key of the stylesheet text in a serialized profile.
pub open spec fn layout_css_key() -> Seq<char> {
    "layout_css"@
}

/// The serialized form of a profile.
pub open spec fn profile_to_json(p: ProfileData) -> JsonData {
    JsonData::Obj(
        seq![
            (config_key(), config_to_json(p.config)),
            (style_vars_key(), JsonData::Obj(vars_to_json(p.style_vars))),
            (layout_css_key(), JsonData::Str(p.layout_css)),
        ],
    )
}

/// Read a profile back from its serialized form.  The document must be
/// present; style variables and stylesheet text default to empty.
pub open spec fn profile_of_json(d: JsonData) -> Option<ProfileData> {
    match d {
        JsonData::Obj(entries) => match obj_get(entries, config_key()) {
            Some(dc) => match config_of_json(dc) {
                Some(config) => {
                    let vars = match obj_get(entries, style_vars_key()) {
                        None => Some(Seq::<(Seq<char>, Seq<char>)>::empty()),
                        Some(JsonData::Obj(es)) => vars_of_json(es),
                        Some(_) => None,
                    };
                    let css = match obj_get(entries, layout_css_key()) {
                        None => Some(Seq::<char>::empty()),
                        Some(JsonData::Str(s)) => Some(s),
                        Some(_) => None,
                    };
                    match vars {
                        Some(style_vars) => match css {
                            Some(layout_css) => Some(
                                ProfileData { config, style_vars, layout_css },
                            ),
                            None => None,
                        },
                        None => None,
                    }
                },
                None => None,
            },
            None => None,
        },
        _ => None,
    }
}

/// Reading a profile from text: parse it as a profile; when that fails,
/// fall back to reading the text as a bare document.
pub open spec fn profile_of_text(t: Seq<char>) -> Option<ProfileData> {
    let direct = match parse_json(t) {
        Some(d) => profile_of_json(d),
        None => None,
    };
    match direct {
        Some(p) => Some(p),
        None => match config_of_text(t) {
            Some(cd) => Some(
                ProfileData {
                    config: cd,
                    style_vars: Seq::empty(),
                    layout_css: Seq::empty(),
                },
            ),
            None => None,
        },
    }
}

/// The three profile keys are pairwise distinct.
pub proof fn lemma_profile_keys_distinct()
    ensures
        config_key() != style_vars_key(),
        config_key() != layout_css_key(),
        style_vars_key() != layout_css_key(),
{
    reveal_strlit("config");
    reveal_strlit("style_vars");
    reveal_strlit("layout_css");
    assert(config_key().len() == 6);
    assert(style_vars_key().len() == 10);
    assert(layout_css_key().len() == 10);
    assert(style_vars_key()[0] == 's');
    assert(layout_css_key()[0] == 'l');
}

/// Reading back serialized style variables yields the variables.
pub proof fn lemma_vars_round_trip(vars: Seq<(Seq<char>, Seq<char>)>)
    ensures
        vars_of_json(vars_to_json(vars)) == Some(vars),
    decreases vars.len(),
{
    let entries = vars_to_json(vars);
    if vars.len() == 0 {
        assert(vars =~= Seq::<(Seq<char>, Seq<char>)>::empty());
    } else {
        assert(entries[0] == (vars[0].0, JsonData::Str(vars[0].1)));
        assert(entries.skip(1) =~= vars_to_json(vars.skip(1)));
        lemma_vars_round_trip(vars.skip(1));
        assert(seq![(vars[0].0, vars[0].1)] + vars.skip(1) =~= vars);
        assert((vars[0].0, vars[0].1) == vars[0]);
    }
}

/// Law: reading back a serialized well-formed profile yields the profile.
pub proof fn lemma_profile_json_round_trip(p: ProfileData)
    requires
        wf_profile(p),
    ensures
        profile_of_json(profile_to_json(p)) == Some(p),
{
    lemma_profile_keys_distinct();
    let entries = profile_to_json(p)->Obj_0;
    assert(obj_get(entries, config_key()) == Some(config_to_json(p.config)));
    assert(entries.skip(1)[0] == entries[1]);
    assert(entries.skip(1).skip(1) =~= entries.skip(2));
    assert(entries.skip(2)[0] == entries[2]);
    assert(obj_get(entries.skip(1), style_vars_key()) == Some(
        JsonData::Obj(vars_to_json(p.style_vars)),
    ));
    assert(obj_get(entries, style_vars_key()) == Some(
        JsonData::Obj(vars_to_json(p.style_vars)),
    ));
    assert(obj_get(entries.skip(2), layout_css_key()) == Some(JsonData::Str(p.layout_css)));
    assert(obj_get(entries.skip(1), layout_css_key()) == Some(JsonData::Str(p.layout_css)));
    assert(obj_get(entries, layout_css_key()) == Some(JsonData::Str(p.layout_css)));
    lemma_config_json_round_trip(p.config);
    lemma_vars_round_trip(p.style_vars);
    assert(profile_of_json(profile_to_json(p))->Some_0 =~= p);
}

} // verus!

verus! {

/// A serialized well-formed document is a well-formed JSON value.
pub proof fn lemma_wf_config_json(cd: ConfigData)
    requires
        wf_config(cd),
    ensures
        wf_json(config_to_json(cd)),
{
    lemma_keys_distinct();
    let head = seq![
        (left_key(), JsonData::Arr(ids_to_json(cd.left))),
        (center_key(), JsonData::Arr(ids_to_json(cd.center))),
        (right_key(), JsonData::Arr(ids_to_json(cd.right))),
    ];
    let entries = head + cd.defs;
    assert forall|i: int, j: int|
        0 <= i < j < entries.len() implies (#[trigger] entries[i]).0 != (
    #[trigger] entries[j]).0 by {
        if i < 3 {
            assert(entries[i] == head[i]);
            assert(is_reserved(entries[i].0));
        } else {
            assert(entries[i] == cd.defs[i - 3]);
        }
        if j < 3 {
            assert(entries[j] == head[j]);
        } else {
            assert(entries[j] == cd.defs[j - 3]);
            assert(!is_reserved(cd.defs[j - 3].0));
        }
    }
    assert forall|i: int| 0 <= i < entries.len() implies wf_json((#[trigger] entries[i]).1) by {
        if i < 3 {
            let ids = if i == 0 {
                cd.left
            } else if i == 1 {
                cd.center
            } else {
                cd.right
            };
            assert(entries[i] == head[i]);
            assert(entries[i].1 == JsonData::Arr(ids_to_json(ids)));
            assert forall|k: int|
                0 <= k < ids_to_json(ids).len() implies wf_json(
                #[trigger] ids_to_json(ids)[k]) by {
                assert(ids_to_json(ids)[k] == JsonData::Str(ids[k]));
            }
        } else {
            assert(entries[i] == cd.defs[i - 3]);
        }
    }
}

/// A serialized well-formed profile is a well-formed JSON value.
pub proof fn lemma_wf_profile_json(p: ProfileData)
    requires
        wf_profile(p),
    ensures
        wf_json(profile_to_json(p)),
{
    lemma_profile_keys_distinct();
    lemma_wf_config_json(p.config);
    let entries = profile_to_json(p)->Obj_0;
    let vars = vars_to_json(p.style_vars);
    assert forall|i: int, j: int|
        0 <= i < j < vars.len() implies (#[trigger] vars[i]).0 != (#[trigger] vars[j]).0 by {
        assert(vars[i].0 == p.style_vars[i].0);
        assert(vars[j].0 == p.style_vars[j].0);
    }
    assert forall|i: int| 0 <= i < vars.len() implies wf_json((#[trigger] vars[i]).1) by {
        assert(vars[i].1 == JsonData::Str(p.style_vars[i].1));
    }
    assert(wf_json(JsonData::Obj(vars)));
    assert forall|i: int, j: int|
        0 <= i < j < entries.len() implies (#[trigger] entries[i]).0 != (
    #[trigger] entries[j]).0 by {}
    assert forall|i: int| 0 <= i < entries.len() implies wf_json((#[trigger] entries[i]).1) by {
        assert(entries[0].1 == config_to_json(p.config));
        assert(entries[1].1 == JsonData::Obj(vars));
        assert(entries[2].1 == JsonData::Str(p.layout_css));
    }
}

/// The saved text of a profile.
pub open spec fn profile_save_text(p: ProfileData) -> Seq<char> {
    print_json(profile_to_json(p))
}

/// Law: saving a well-formed profile and loading the text yields the same
/// slot sequences, definitions, style variables and stylesheet text.
pub proof fn lemma_profile_save_load(p: ProfileData)
    requires
        wf_profile(p),
    ensures
        profile_of_text(profile_save_text(p)) == Some(p),
{
    lemma_wf_profile_json(p);
    crate::codec::lemma_json_round_trip(profile_to_json(p));
    lemma_profile_json_round_trip(p);
}

} // verus!

verus! {

/// Style variable pairs of a JSON object; an error when some value is
/// not a string.
fn vars_from_json(entries: &Vec<(Vec<char>, JsonValue)>) -> (r: Result<
    Vec<(Vec<char>, Vec<char>)>,
    ParseError,
>)
    ensures
        match vars_of_json(entry_views_of(entries@)) {
            Some(vars) => r is Ok && pairs_of(r->Ok_0@) == vars,
            None => r is Err,
        },
{
    broadcast use crate::json::lemma_entry_views_of;

    let ghost model = entry_views_of(entries@);
    proof {
        assert(model.skip(0) =~= model);
    }
    let mut out: Vec<(Vec<char>, Vec<char>)> = Vec::new();
    let mut i: usize = 0;
    while i < entries.len()
        invariant
            i <= entries.len(),
            model == entry_views_of(entries@),
            model.len() == entries@.len(),
            forall|j: int|
                0 <= j < entries@.len() ==> #[trigger] model[j] == (
                    entries@[j].0@,
                    entries@[j].1@,
                ),
            out@.len() == i,
            match vars_of_json(model.skip(i as int)) {
                Some(rest) => vars_of_json(model) == Some(pairs_of(out@) + rest),
                None => vars_of_json(model) is None,
            },
        decreases entries.len() - i,
    {
        proof {
            assert(model.skip(i as int)[0] == model[i as int]);
            assert(model.skip(i as int).skip(1) =~= model.skip(i + 1));
        }
        match &entries[i].1 {
            JsonValue::Str(s) => {
                let k = crate::json::copy_text(&entries[i].0);
                let c = crate::json::copy_text(s);
                let ghost kv = k@;
                let ghost cv = c@;
                out.push((k, c));
                proof {
                    assert(model[i as int].1 == JsonData::Str(cv));
                    assert(model[i as int].0 == kv);
                    match vars_of_json(model.skip(i + 1)) {
                        Some(rest) => {
                            assert(vars_of_json(model.skip(i as int)) == Some(
                                seq![(kv, cv)] + rest,
                            ));
                            assert(pairs_of(out@.drop_last()) + (seq![(kv, cv)] + rest)
                                =~= pairs_of(out@) + rest);
                        },
                        None => {},
                    }
                }
                i += 1;
            },
            _ => {
                proof {
                    assert(vars_of_json(model.skip(i as int)) is None);
                }
                return Err(ParseError::Malformed);
            },
        }
    }
    proof {
        assert(model.skip(i as int).len() == 0);
        assert(pairs_of(out@) + Seq::<(Seq<char>, Seq<char>)>::empty() =~= pairs_of(out@));
    }
    Ok(out)
}

impl WaybarProfile {
    /// The serialized form of this profile as a JSON value.
    pub fn to_json(&self) -> (r: JsonValue)
        ensures
            r@ == profile_to_json(self@),
    {
        broadcast use crate::json::lemma_entry_views_of;

        let config_json = self.config.to_json();
        let mut vars: Vec<(Vec<char>, JsonValue)> = Vec::new();
        let mut i: usize = 0;
        while i < self.style_vars.len()
            invariant
                i <= self.style_vars.len(),
                vars@.len() == i,
                forall|j: int|
                    #![trigger vars@[j]]
                    0 <= j < i ==> vars@[j].0@ == self.style_vars@[j].0@ && vars@[j].1@
                        == JsonData::Str(self.style_vars@[j].1@),
            decreases self.style_vars.len() - i,
        {
            let k = crate::json::copy_text(&self.style_vars[i].0);
            let c = crate::json::copy_text(&self.style_vars[i].1);
            let ghost kv = k@;
            let ghost cv = c@;
            vars.push((k, JsonValue::Str(c)));
            proof {
                assert(vars@[i as int].0@ == kv);
                assert(vars@[i as int].1@ == JsonData::Str(cv));
            }
            i += 1;
        }
        proof {
            assert(entry_views_of(vars@) =~= vars_to_json(self@.style_vars));
        }
        let mut entries: Vec<(Vec<char>, JsonValue)> = Vec::new();
        entries.push((crate::text::text_of("config"), config_json));
        entries.push((crate::text::text_of("style_vars"), JsonValue::Obj(vars)));
        entries.push(
            (crate::text::text_of("layout_css"), JsonValue::Str(
                crate::json::copy_text(&self.layout_css),
            )),
        );
        proof {
            assert(entry_views_of(entries@) =~= profile_to_json(self@)->Obj_0);
        }
        JsonValue::Obj(entries)
    }

    /// The saved text of this profile.
    pub fn save_text(&self) -> (r: Vec<char>)
        ensures
            r@ == profile_save_text(self@),
    {
        let j = self.to_json();
        crate::codec::to_text(&j)
    }

    /// Read a profile from its serialized form.
    pub fn from_json(v: &JsonValue) -> (r: Result<WaybarProfile, ParseError>)
        ensures
            match profile_of_json(v@) {
                Some(p) => r is Ok && r->Ok_0@ == p,
                None => r is Err,
            },
    {
        match v {
            JsonValue::Obj(entries) => {
                let ckey = crate::text::text_of("config");
                let config = match crate::json::obj_find(entries, &ckey) {
                    Some(dc) => match WaybarConfig::from_json(dc) {
                        Ok(c) => c,
                        Err(e) => {
                            return Err(e);
                        },
                    },
                    None => {
                        return Err(ParseError::Malformed);
                    },
                };
                let skey = crate::text::text_of("style_vars");
                let style_vars = match crate::json::obj_find(entries, &skey) {
                    None => {
                        let empty_vars: Vec<(Vec<char>, Vec<char>)> = Vec::new();
                        proof {
                            assert(pairs_of(empty_vars@) =~= Seq::<
                                (Seq<char>, Seq<char>),
                            >::empty());
                        }
                        empty_vars
                    },
                    Some(sv) => match sv {
                        JsonValue::Obj(es) => match vars_from_json(es) {
                            Ok(vs) => vs,
                            Err(e) => {
                                return Err(e);
                            },
                        },
                        _ => {
                            return Err(ParseError::Malformed);
                        },
                    },
                };
                let lkey = crate::text::text_of("layout_css");
                let layout_css = match crate::json::obj_find(entries, &lkey) {
                    None => Vec::<char>::new(),
                    Some(lc) => match lc {
                        JsonValue::Str(s) => crate::json::copy_text(s),
                        _ => {
                            return Err(ParseError::Malformed);
                        },
                    },
                };
                let out = WaybarProfile { config, style_vars, layout_css };
                proof {
                    assert(out@ =~= profile_of_json(v@)->Some_0);
                }
                Ok(out)
            },
            _ => Err(ParseError::Malformed),
        }
    }

    /// Read a profile from text; text that is not a profile is read as a
    /// bare document with empty style variables and stylesheet text.
    pub fn from_text(t: &Vec<char>) -> (r: Result<WaybarProfile, ParseError>)
        ensures
            match profile_of_text(t@) {
                Some(p) => r is Ok && r->Ok_0@ == p,
                None => r is Err,
            },
    {
        match crate::codec::parse_text(t) {
            Ok(v) => match WaybarProfile::from_json(&v) {
                Ok(p) => {
                    return Ok(p);
                },
                Err(_) => {},
            },
            Err(_) => {},
        }
        match WaybarConfig::from_text(t) {
            Ok(config) => {
                let out = WaybarProfile {
                    config,
                    style_vars: Vec::new(),
                    layout_css: Vec::new(),
                };
                proof {
                    assert(pairs_of(out.style_vars@) =~= Seq::<(Seq<char>, Seq<char>)>::empty());
                    assert(out@ =~= profile_of_text(t@)->Some_0);
                }
                Ok(out)
            },
            Err(e) => Err(e),
        }
    }
}

} // verus!

verus! {

/// Law: saving a well-formed document whose slots hold no empty
/// identifiers and loading the text back — through the comment-stripping
/// reader — yields the same document.
pub proof fn lemma_config_save_load(cd: ConfigData)
    requires
        wf_config(cd),
        forall|i: int| 0 <= i < cd.left.len() ==> (#[trigger] cd.left[i]).len() > 0,
        forall|i: int| 0 <= i < cd.center.len() ==> (#[trigger] cd.center[i]).len() > 0,
        forall|i: int| 0 <= i < cd.right.len() ==> (#[trigger] cd.right[i]).len() > 0,
    ensures
        config_of_text(print_json(config_to_json(clean_config(cd)))) == Some(cd),
{
    lemma_keep_nonempty_id(cd.left);
    lemma_keep_nonempty_id(cd.center);
    lemma_keep_nonempty_id(cd.right);
    assert(clean_config(cd) =~= cd);
    lemma_wf_config_json(cd);
    crate::codec::lemma_strip_print(config_to_json(cd));
    crate::codec::lemma_json_round_trip(config_to_json(cd));
    lemma_config_json_round_trip(cd);
}

} // verus!
