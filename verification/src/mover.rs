//! The drag/reorder resolver: a module is removed from wherever it lives
//! (a top-level slot or a group's child list) and re-inserted at a visual
//! target position resolved against the flattened display rows.

use vstd::prelude::*;

use crate::json::{JsonData, JsonValue, obj_get, obj_set, entry_views_of};
use crate::document::{ConfigData, WaybarConfig, Slot, ids_of_json, ids_to_json, texts_of};
use crate::tree::{is_group, modules_key, flatten_slot};

verus! {

/// Why a move was refused.
#[derive(Debug)]
pub enum MoveError {
    /// The module is in no slot and no group.
    NotFound,
    /// A group refers to one of its ancestors.
    CyclicStructure,
}

/// The identifier list of one slot.
pub open spec fn slot_ids_of(cd: ConfigData, slot: Slot) -> Seq<Seq<char>> {
    match slot {
        Slot::Left => cd.left,
        Slot::Center => cd.center,
        Slot::Right => cd.right,
    }
}

/// The document with one slot's identifier list replaced.
pub open spec fn with_slot(cd: ConfigData, slot: Slot, ids: Seq<Seq<char>>) -> ConfigData {
    match slot {
        Slot::Left => ConfigData { left: ids, ..cd },
        Slot::Center => ConfigData { center: ids, ..cd },
        Slot::Right => ConfigData { right: ids, ..cd },
    }
}

/// The list with the first occurrence of `id` removed.
pub open spec fn remove_first(ids: Seq<Seq<char>>, id: Seq<char>) -> Seq<Seq<char>>
    decreases ids.len(),
{
    if ids.len() == 0 {
        ids
    } else if ids[0] == id {
        ids.skip(1)
    } else {
        seq![ids[0]] + remove_first(ids.skip(1), id)
    }
}

/// The list with `id` inserted immediately before the first occurrence of
/// `before`, or appended when `before` is absent.
pub open spec fn insert_before(ids: Seq<Seq<char>>, before: Seq<char>, id: Seq<char>) -> Seq<
    Seq<char>,
>
    decreases ids.len(),
{
    if ids.len() == 0 {
        seq![id]
    } else if ids[0] == before {
        seq![id] + ids
    } else {
        seq![ids[0]] + insert_before(ids.skip(1), before, id)
    }
}

/// The child identifiers held directly by a definition value; empty when
/// the `modules` list is missing or malformed.
pub open spec fn value_child_ids(v: JsonData) -> Seq<Seq<char>> {
    match v {
        JsonData::Obj(entries) => match obj_get(entries, modules_key()) {
            Some(JsonData::Arr(items)) => match ids_of_json(items) {
                Some(ids) => ids,
                None => Seq::empty(),
            },
            _ => Seq::empty(),
        },
        _ => Seq::empty(),
    }
}

/// The definition value with its child list replaced (created if the
/// value was not an object).
pub open spec fn set_value_children(v: JsonData, ids: Seq<Seq<char>>) -> JsonData {
    match v {
        JsonData::Obj(entries) => JsonData::Obj(
            obj_set(entries, modules_key(), JsonData::Arr(ids_to_json(ids))),
        ),
        _ => JsonData::Obj(seq![(modules_key(), JsonData::Arr(ids_to_json(ids)))]),
    }
}

/// Scan the definitions in order for the first group whose child list
/// holds `id`, and remove the first occurrence from it.
pub open spec fn locate_remove_defs(defs: Seq<(Seq<char>, JsonData)>, id: Seq<char>) -> Option<
    Seq<(Seq<char>, JsonData)>,
>
    decreases defs.len(),
{
    if defs.len() == 0 {
        None
    } else if is_group(defs[0].0) && value_child_ids(defs[0].1).contains(id) {
        Some(
            seq![
                (
                    defs[0].0,
                    set_value_children(
                        defs[0].1,
                        remove_first(value_child_ids(defs[0].1), id),
                    ),
                ),
            ] + defs.skip(1),
        )
    } else {
        match locate_remove_defs(defs.skip(1), id) {
            Some(rest) => Some(seq![defs[0]] + rest),
            None => None,
        }
    }
}

/// Remove `id` from wherever it lives: the slots in left, center, right
/// order, then the groups in definition order.
pub open spec fn remove_module(cd: ConfigData, id: Seq<char>) -> Option<ConfigData> {
    if cd.left.contains(id) {
        Some(ConfigData { left: remove_first(cd.left, id), ..cd })
    } else if cd.center.contains(id) {
        Some(ConfigData { center: remove_first(cd.center, id), ..cd })
    } else if cd.right.contains(id) {
        Some(ConfigData { right: remove_first(cd.right, id), ..cd })
    } else {
        match locate_remove_defs(cd.defs, id) {
            Some(defs) => Some(ConfigData { defs, ..cd }),
            None => None,
        }
    }
}

/// The definitions with the first entry for `gid` given the child list
/// `ids`; a missing definition is created at the end.
pub open spec fn defs_set_children(
    defs: Seq<(Seq<char>, JsonData)>,
    gid: Seq<char>,
    ids: Seq<Seq<char>>,
) -> Seq<(Seq<char>, JsonData)>
    decreases defs.len(),
{
    if defs.len() == 0 {
        seq![(gid, JsonData::Obj(seq![(modules_key(), JsonData::Arr(ids_to_json(ids)))]))]
    } else if defs[0].0 == gid {
        seq![(gid, set_value_children(defs[0].1, ids))] + defs.skip(1)
    } else {
        seq![defs[0]] + defs_set_children(defs.skip(1), gid, ids)
    }
}

/// The children of `gid` as the definitions hold them.
pub open spec fn group_children(defs: Seq<(Seq<char>, JsonData)>, gid: Seq<char>) -> Seq<
    Seq<char>,
> {
    match obj_get(defs, gid) {
        Some(v) => value_child_ids(v),
        None => Seq::empty(),
    }
}

/// Move `id` to the visual position `idx` of `slot`: remove it from
/// wherever it lives, then land it on the row at that position — into the
/// row's group, before the row inside its parent group, or before the row
/// at the slot's top level; past the end it is appended to the slot.
pub open spec fn move_module_spec(cd: ConfigData, id: Seq<char>, slot: Slot, idx: int) -> Result<
    ConfigData,
    MoveError,
> {
    match remove_module(cd, id) {
        None => Err(MoveError::NotFound),
        Some(cd1) => match flatten_slot(cd1.defs, slot_ids_of(cd1, slot)) {
            None => Err(MoveError::CyclicStructure),
            Some(rows) => if idx >= rows.len() {
                Ok(with_slot(cd1, slot, slot_ids_of(cd1, slot).push(id)))
            } else {
                let row = rows[idx];
                if is_group(row.id) {
                    Ok(
                        ConfigData {
                            defs: defs_set_children(
                                cd1.defs,
                                row.id,
                                seq![id] + group_children(cd1.defs, row.id),
                            ),
                            ..cd1
                        },
                    )
                } else {
                    match row.parent {
                        Some(p) => Ok(
                            ConfigData {
                                defs: defs_set_children(
                                    cd1.defs,
                                    p,
                                    insert_before(group_children(cd1.defs, p), row.id, id),
                                ),
                                ..cd1
                            },
                        ),
                        None => Ok(
                            with_slot(
                                cd1,
                                slot,
                                insert_before(slot_ids_of(cd1, slot), row.id, id),
                            ),
                        ),
                    }
                }
            },
        },
    }
}

} // verus!

verus! {

/// Removing the first occurrence removes exactly the entry at its index.
pub proof fn lemma_remove_first_at(ids: Seq<Seq<char>>, id: Seq<char>, k: int)
    requires
        0 <= k < ids.len(),
        ids[k] == id,
        forall|j: int| 0 <= j < k ==> ids[j] != id,
    ensures
        remove_first(ids, id) == ids.remove(k),
    decreases k,
{
    if k == 0 {
        assert(remove_first(ids, id) =~= ids.remove(0));
    } else {
        lemma_remove_first_at(ids.skip(1), id, k - 1);
        assert(ids.skip(1)[k - 1] == ids[k]);
        assert(seq![ids[0]] + ids.skip(1).remove(k - 1) =~= ids.remove(k));
    }
}

/// Inserting before the first occurrence inserts exactly at its index.
pub proof fn lemma_insert_before_at(ids: Seq<Seq<char>>, before: Seq<char>, id: Seq<char>, k: int)
    requires
        0 <= k < ids.len(),
        ids[k] == before,
        forall|j: int| 0 <= j < k ==> ids[j] != before,
    ensures
        insert_before(ids, before, id) == ids.insert(k, id),
    decreases k,
{
    if k == 0 {
        assert(insert_before(ids, before, id) =~= ids.insert(0, id));
    } else {
        lemma_insert_before_at(ids.skip(1), before, id, k - 1);
        assert(ids.skip(1)[k - 1] == ids[k]);
        assert(seq![ids[0]] + ids.skip(1).insert(k - 1, id) =~= ids.insert(k, id));
    }
}

/// Inserting before an absent identifier appends.
pub proof fn lemma_insert_before_absent(ids: Seq<Seq<char>>, before: Seq<char>, id: Seq<char>)
    requires
        forall|j: int| 0 <= j < ids.len() ==> ids[j] != before,
    ensures
        insert_before(ids, before, id) == ids.push(id),
    decreases ids.len(),
{
    if ids.len() == 0 {
        assert(insert_before(ids, before, id) =~= ids.push(id));
    } else {
        lemma_insert_before_absent(ids.skip(1), before, id);
        assert(seq![ids[0]] + ids.skip(1).push(id) =~= ids.push(id));
    }
}

/// Law: moving a module to the visual position immediately after its own
/// (a row that is its next sibling at the top level of its own slot, and
/// not a group) leaves the document unchanged.
pub proof fn lemma_move_after_self_noop(
    cd: ConfigData,
    id: Seq<char>,
    slot: Slot,
    idx: int,
    k: int,
)
    requires
        ({
            let ids = slot_ids_of(cd, slot);
            &&& 0 <= k < ids.len() - 1
            &&& ids[k] == id
            &&& (forall|j: int| 0 <= j < k ==> #[trigger] ids[j] != id)
            &&& (forall|j: int| 0 <= j < k ==> #[trigger] ids[j] != ids[k + 1])
            &&& ids[k + 1] != id
        }),
        slot matches Slot::Center ==> !cd.left.contains(id),
        slot matches Slot::Right ==> !cd.left.contains(id) && !cd.center.contains(id),
        ({
            let ids = slot_ids_of(cd, slot);
            let cd1 = with_slot(cd, slot, ids.remove(k));
            match flatten_slot(cd1.defs, ids.remove(k)) {
                Some(rows) => {
                    &&& 0 <= idx < rows.len()
                    &&& rows[idx].id == ids[k + 1]
                    &&& rows[idx].parent is None
                    &&& !is_group(ids[k + 1])
                },
                None => false,
            }
        }),
    ensures
        move_module_spec(cd, id, slot, idx) == Ok::<ConfigData, MoveError>(cd),
{
    let ids = slot_ids_of(cd, slot);
    let s = ids[k + 1];
    assert(ids.contains(id));
    lemma_remove_first_at(ids, id, k);
    let ids1 = ids.remove(k);
    let cd1 = remove_module(cd, id)->Some_0;
    match slot {
        Slot::Left => {
            assert(cd1 =~= with_slot(cd, slot, ids1));
        },
        Slot::Center => {
            assert(cd1 =~= with_slot(cd, slot, ids1));
        },
        Slot::Right => {
            assert(cd1 =~= with_slot(cd, slot, ids1));
        },
    }
    assert(slot_ids_of(cd1, slot) == ids1);
    assert(cd1.defs == cd.defs);
    let rows = flatten_slot(cd1.defs, ids1)->Some_0;
    assert(rows[idx].id == s && rows[idx].parent is None && !is_group(s));
    assert(ids1[k] == s);
    assert forall|j: int| 0 <= j < k implies ids1[j] != s by {
        assert(ids1[j] == ids[j]);
    }
    lemma_insert_before_at(ids1, s, id, k);
    assert(ids1.insert(k, id) =~= ids);
    assert(with_slot(cd1, slot, ids) =~= cd);
}

} // verus!

verus! {

/// The index of the first occurrence of `id`, if any.
pub(crate) fn first_index(ids: &Vec<Vec<char>>, id: &Vec<char>) -> (r: Option<usize>)
    ensures
        match r {
            Some(k) => k < ids@.len() && texts_of(ids@)[k as int] == id@ && (forall|j: int|
                0 <= j < k ==> texts_of(ids@)[j] != id@),
            None => !texts_of(ids@).contains(id@),
        },
{
    let mut i: usize = 0;
    while i < ids.len()
        invariant
            i <= ids.len(),
            forall|j: int| 0 <= j < i ==> texts_of(ids@)[j] != id@,
        decreases ids.len() - i,
    {
        if crate::text::text_eq(&ids[i], id) {
            return Some(i);
        }
        i += 1;
    }
    proof {
        if texts_of(ids@).contains(id@) {
            let w = choose|w: int| 0 <= w < texts_of(ids@).len() && texts_of(ids@)[w] == id@;
        }
    }
    None
}

/// The child identifiers held by a definition value, executable.
fn value_children_exec(v: &JsonValue) -> (r: Vec<Vec<char>>)
    ensures
        texts_of(r@) == value_child_ids(v@),
{
    let empty_ids: Vec<Vec<char>> = Vec::new();
    proof {
        assert(texts_of(empty_ids@) =~= Seq::<Seq<char>>::empty());
    }
    match v {
        JsonValue::Obj(entries) => {
            let mkey = crate::text::text_of("modules");
            match crate::json::obj_find(entries, &mkey) {
                Some(m) => match m {
                    JsonValue::Arr(items) => match crate::document::ids_from_json(items) {
                        Ok(ids) => ids,
                        Err(_) => empty_ids,
                    },
                    _ => empty_ids,
                },
                None => empty_ids,
            }
        },
        _ => empty_ids,
    }
}

/// Replacing a binding at its first index realizes `obj_set`.
pub proof fn lemma_obj_set_at(
    entries: Seq<(Seq<char>, JsonData)>,
    key: Seq<char>,
    value: JsonData,
    k: int,
)
    requires
        0 <= k < entries.len(),
        entries[k].0 == key,
        forall|j: int| 0 <= j < k ==> (#[trigger] entries[j]).0 != key,
    ensures
        obj_set(entries, key, value) == entries.update(k, (key, value)),
    decreases k,
{
    if k == 0 {
        assert(obj_set(entries, key, value) =~= entries.update(0, (key, value)));
    } else {
        lemma_obj_set_at(entries.skip(1), key, value, k - 1);
        assert(entries.skip(1)[k - 1] == entries[k]);
        assert forall|j: int| 0 <= j < k - 1 implies (#[trigger] entries.skip(1)[j]).0
            != key by {
            assert(entries.skip(1)[j] == entries[j + 1]);
        }
        assert(seq![entries[0]] + entries.skip(1).update(k - 1, (key, value))
            =~= entries.update(k, (key, value)));
    }
}

/// Appending a binding for an absent key realizes `obj_set`.
pub proof fn lemma_obj_set_absent(
    entries: Seq<(Seq<char>, JsonData)>,
    key: Seq<char>,
    value: JsonData,
)
    requires
        forall|j: int| 0 <= j < entries.len() ==> (#[trigger] entries[j]).0 != key,
    ensures
        obj_set(entries, key, value) == entries.push((key, value)),
    decreases entries.len(),
{
    if entries.len() == 0 {
        assert(obj_set(entries, key, value) =~= entries.push((key, value)));
    } else {
        lemma_obj_set_absent(entries.skip(1), key, value);
        assert forall|j: int| 0 <= j < entries.skip(1).len() implies (#[trigger] entries.skip(
            1,
        )[j]).0 != key by {
            assert(entries.skip(1)[j] == entries[j + 1]);
        }
        assert(seq![entries[0]] + entries.skip(1).push((key, value)) =~= entries.push(
            (key, value),
        ));
    }
}

/// A definition value with its child list replaced, executable.
fn set_value_children_exec(v: &JsonValue, ids: Vec<Vec<char>>) -> (r: JsonValue)
    ensures
        r@ == set_value_children(v@, texts_of(ids@)),
{
    broadcast use crate::json::lemma_entry_views_of;

    let arr = crate::document::slot_json(&ids);
    let mkey = crate::text::text_of("modules");
    match v {
        JsonValue::Obj(entries) => {
            let ghost model = entry_views_of(entries@);
            let mut k: usize = 0;
            while k < entries.len()
                invariant
                    k <= entries.len(),
                    mkey@ == modules_key(),
                    arr@ == JsonData::Arr(ids_to_json(texts_of(ids@))),
                    v@ == JsonData::Obj(model),
                    model == entry_views_of(entries@),
                    model.len() == entries@.len(),
                    forall|j: int|
                        0 <= j < entries@.len() ==> #[trigger] model[j] == (
                            entries@[j].0@,
                            entries@[j].1@,
                        ),
                    forall|j: int| 0 <= j < k ==> (#[trigger] model[j]).0 != modules_key(),
                decreases entries.len() - k,
            {
                if crate::text::text_eq(&entries[k].0, &mkey) {
                    let mut out = crate::document::copy_defs(entries);
                    let ghost pre = out@;
                    proof {
                        crate::json::lemma_entry_views_of(pre);
                        assert(pre.len() == entries@.len());
                    }
                    let ghost arrv = arr@;
                    out.set(k, (mkey, arr));
                    proof {
                        crate::json::lemma_entry_views_of(out@);
                        lemma_obj_set_at(model, modules_key(), arrv, k as int);
                        assert(entry_views_of(out@) =~= model.update(
                            k as int,
                            (modules_key(), arrv),
                        ));
                    }
                    return JsonValue::Obj(out);
                }
                k += 1;
            }
            let mut out = crate::document::copy_defs(entries);
            let ghost arrv = arr@;
            out.push((mkey, arr));
            proof {
                lemma_obj_set_absent(model, modules_key(), arrv);
                assert(entry_views_of(out@) =~= model.push((modules_key(), arrv)));
            }
            JsonValue::Obj(out)
        },
        _ => {
            let mut out: Vec<(Vec<char>, JsonValue)> = Vec::new();
            let ghost arrv = arr@;
            out.push((mkey, arr));
            proof {
                assert(entry_views_of(out@) =~= seq![(modules_key(), arrv)]);
            }
            JsonValue::Obj(out)
        },
    }
}

/// Updating the first group holding `id` realizes `locate_remove_defs`.
pub proof fn lemma_locate_remove_at(
    defs: Seq<(Seq<char>, JsonData)>,
    id: Seq<char>,
    gi: int,
)
    requires
        0 <= gi < defs.len(),
        is_group(defs[gi].0) && value_child_ids(defs[gi].1).contains(id),
        forall|j: int|
            0 <= j < gi ==> !(is_group((#[trigger] defs[j]).0) && value_child_ids(
                defs[j].1,
            ).contains(id)),
    ensures
        locate_remove_defs(defs, id) == Some(
            defs.update(
                gi,
                (
                    defs[gi].0,
                    set_value_children(
                        defs[gi].1,
                        remove_first(value_child_ids(defs[gi].1), id),
                    ),
                ),
            ),
        ),
    decreases gi,
{
    if gi == 0 {
        assert(locate_remove_defs(defs, id)->Some_0 =~= defs.update(
            0,
            (
                defs[0].0,
                set_value_children(defs[0].1, remove_first(value_child_ids(defs[0].1), id)),
            ),
        ));
    } else {
        lemma_locate_remove_at(defs.skip(1), id, gi - 1);
        assert(defs.skip(1)[gi - 1] == defs[gi]);
        assert forall|j: int|
            0 <= j < gi - 1 implies !(is_group((#[trigger] defs.skip(1)[j]).0)
            && value_child_ids(defs.skip(1)[j].1).contains(id)) by {
            assert(defs.skip(1)[j] == defs[j + 1]);
        }
        assert(seq![defs[0]] + defs.skip(1).update(
            gi - 1,
            (
                defs[gi].0,
                set_value_children(
                    defs[gi].1,
                    remove_first(value_child_ids(defs[gi].1), id),
                ),
            ),
        ) =~= defs.update(
            gi,
            (
                defs[gi].0,
                set_value_children(
                    defs[gi].1,
                    remove_first(value_child_ids(defs[gi].1), id),
                ),
            ),
        ));
    }
}

/// No group holds `id`, so the scan fails.
pub proof fn lemma_locate_remove_none(defs: Seq<(Seq<char>, JsonData)>, id: Seq<char>)
    requires
        forall|j: int|
            0 <= j < defs.len() ==> !(is_group((#[trigger] defs[j]).0) && value_child_ids(
                defs[j].1,
            ).contains(id)),
    ensures
        locate_remove_defs(defs, id) is None,
    decreases defs.len(),
{
    if defs.len() > 0 {
        assert forall|j: int|
            0 <= j < defs.skip(1).len() implies !(is_group((#[trigger] defs.skip(1)[j]).0)
            && value_child_ids(defs.skip(1)[j].1).contains(id)) by {
            assert(defs.skip(1)[j] == defs[j + 1]);
        }
        lemma_locate_remove_none(defs.skip(1), id);
    }
}

/// Updating the first entry for `gid` realizes `defs_set_children`.
pub proof fn lemma_defs_set_children_at(
    defs: Seq<(Seq<char>, JsonData)>,
    gid: Seq<char>,
    ids: Seq<Seq<char>>,
    k: int,
)
    requires
        0 <= k < defs.len(),
        defs[k].0 == gid,
        forall|j: int| 0 <= j < k ==> (#[trigger] defs[j]).0 != gid,
    ensures
        defs_set_children(defs, gid, ids) == defs.update(
            k,
            (gid, set_value_children(defs[k].1, ids)),
        ),
    decreases k,
{
    if k == 0 {
        assert(defs_set_children(defs, gid, ids) =~= defs.update(
            0,
            (gid, set_value_children(defs[0].1, ids)),
        ));
    } else {
        lemma_defs_set_children_at(defs.skip(1), gid, ids, k - 1);
        assert(defs.skip(1)[k - 1] == defs[k]);
        assert forall|j: int| 0 <= j < k - 1 implies (#[trigger] defs.skip(1)[j]).0 != gid by {
            assert(defs.skip(1)[j] == defs[j + 1]);
        }
        assert(seq![defs[0]] + defs.skip(1).update(
            k - 1,
            (gid, set_value_children(defs[k].1, ids)),
        ) =~= defs.update(k, (gid, set_value_children(defs[k].1, ids))));
    }
}

/// Appending a fresh group definition realizes `defs_set_children`.
pub proof fn lemma_defs_set_children_absent(
    defs: Seq<(Seq<char>, JsonData)>,
    gid: Seq<char>,
    ids: Seq<Seq<char>>,
)
    requires
        forall|j: int| 0 <= j < defs.len() ==> (#[trigger] defs[j]).0 != gid,
    ensures
        defs_set_children(defs, gid, ids) == defs.push(
            (gid, JsonData::Obj(seq![(modules_key(), JsonData::Arr(ids_to_json(ids)))])),
        ),
    decreases defs.len(),
{
    if defs.len() == 0 {
        assert(defs_set_children(defs, gid, ids) =~= defs.push(
            (gid, JsonData::Obj(seq![(modules_key(), JsonData::Arr(ids_to_json(ids)))])),
        ));
    } else {
        assert forall|j: int| 0 <= j < defs.skip(1).len() implies (#[trigger] defs.skip(
            1,
        )[j]).0 != gid by {
            assert(defs.skip(1)[j] == defs[j + 1]);
        }
        lemma_defs_set_children_absent(defs.skip(1), gid, ids);
        assert(seq![defs[0]] + defs.skip(1).push(
            (gid, JsonData::Obj(seq![(modules_key(), JsonData::Arr(ids_to_json(ids)))])),
        ) =~= defs.push(
            (gid, JsonData::Obj(seq![(modules_key(), JsonData::Arr(ids_to_json(ids)))])),
        ));
    }
}

/// Replace the first definition entry for `gid` with the child list
/// `ids`, creating the definition when absent.
fn defs_set_children_exec(defs: &mut Vec<(Vec<char>, JsonValue)>, gid: &Vec<char>, ids: Vec<
    Vec<char>,
>)
    ensures
        entry_views_of(final(defs)@) == defs_set_children(
            entry_views_of(old(defs)@),
            gid@,
            texts_of(ids@),
        ),
{
    broadcast use crate::json::lemma_entry_views_of;

    let ghost model = entry_views_of(defs@);
    let mut k: usize = 0;
    while k < defs.len()
        invariant
            k <= defs.len(),
            model == entry_views_of(defs@),
            model == entry_views_of(old(defs)@),
            model.len() == defs@.len(),
            forall|j: int|
                0 <= j < defs@.len() ==> #[trigger] model[j] == (defs@[j].0@, defs@[j].1@),
            forall|j: int| 0 <= j < k ==> (#[trigger] model[j]).0 != gid@,
        decreases defs.len() - k,
    {
        if crate::text::text_eq(&defs[k].0, gid) {
            let newv = set_value_children_exec(&defs[k].1, ids);
            let keyc = crate::json::copy_text(gid);
            let ghost newvv = newv@;
            let ghost pre = defs@;
            defs.set(k, (keyc, newv));
            proof {
                crate::json::lemma_entry_views_of(pre);
                crate::json::lemma_entry_views_of(defs@);
                lemma_defs_set_children_at(model, gid@, texts_of(ids@), k as int);
                assert(entry_views_of(defs@) =~= model.update(k as int, (gid@, newvv)));
            }
            return ;
        }
        k += 1;
    }
    let arr = crate::document::slot_json(&ids);
    let mkey = crate::text::text_of("modules");
    let mut inner: Vec<(Vec<char>, JsonValue)> = Vec::new();
    let ghost arrv = arr@;
    inner.push((mkey, arr));
    proof {
        assert(entry_views_of(inner@) =~= seq![(modules_key(), arrv)]);
    }
    let keyc = crate::json::copy_text(gid);
    let newv = JsonValue::Obj(inner);
    let ghost newvv = newv@;
    let ghost pre = defs@;
    defs.push((keyc, newv));
    proof {
        crate::json::lemma_entry_views_of(pre);
        crate::json::lemma_entry_views_of(defs@);
        lemma_defs_set_children_absent(model, gid@, texts_of(ids@));
        assert(entry_views_of(defs@) =~= model.push((gid@, newvv)));
    }
}

} // verus!

verus! {

/// The children of `gid` as the definitions hold them, executable.
fn group_children_exec(defs: &Vec<(Vec<char>, JsonValue)>, gid: &Vec<char>) -> (r: Vec<Vec<char>>)
    ensures
        texts_of(r@) == group_children(entry_views_of(defs@), gid@),
{
    match crate::json::obj_find(defs, gid) {
        Some(v) => value_children_exec(v),
        None => {
            let out: Vec<Vec<char>> = Vec::new();
            proof {
                assert(texts_of(out@) =~= Seq::<Seq<char>>::empty());
            }
            out
        },
    }
}

/// Insert `id` before the first occurrence of `before`, or append it.
fn insert_before_exec(ids: Vec<Vec<char>>, before: &Vec<char>, id: &Vec<char>) -> (r: Vec<
    Vec<char>,
>)
    ensures
        texts_of(r@) == insert_before(texts_of(ids@), before@, id@),
{
    let mut out = ids;
    let ghost pre = out@;
    match first_index(&out, before) {
        Some(k) => {
            out.insert(k, crate::json::copy_text(id));
            proof {
                lemma_insert_before_at(texts_of(pre), before@, id@, k as int);
                assert(texts_of(out@) =~= texts_of(pre).insert(k as int, id@));
            }
        },
        None => {
            proof {
                assert forall|j: int| 0 <= j < texts_of(pre).len() implies texts_of(pre)[j]
                    != before@ by {
                    if texts_of(pre)[j] == before@ {
                        assert(texts_of(pre).contains(before@));
                    }
                }
            }
            out.push(crate::json::copy_text(id));
            proof {
                lemma_insert_before_absent(texts_of(pre), before@, id@);
                assert(texts_of(out@) =~= texts_of(pre).push(id@));
            }
        },
    }
    out
}

/// Remove `id` from the first group whose child list holds it; reports
/// whether it was found.
fn remove_from_defs(defs: &mut Vec<(Vec<char>, JsonValue)>, id: &Vec<char>) -> (r: bool)
    ensures
        match locate_remove_defs(entry_views_of(old(defs)@), id@) {
            Some(d) => r && entry_views_of(final(defs)@) == d,
            None => !r && final(defs)@ == old(defs)@,
        },
{
    broadcast use crate::json::lemma_entry_views_of;

    let ghost model = entry_views_of(defs@);
    let marker = crate::text::text_of("group/");
    let mut gi: usize = 0;
    while gi < defs.len()
        invariant
            gi <= defs.len(),
            marker@ == crate::tree::group_marker(),
            model == entry_views_of(defs@),
            model == entry_views_of(old(defs)@),
            defs@ == old(defs)@,
            model.len() == defs@.len(),
            forall|j: int|
                0 <= j < defs@.len() ==> #[trigger] model[j] == (defs@[j].0@, defs@[j].1@),
            forall|j: int|
                0 <= j < gi ==> !(is_group((#[trigger] model[j]).0) && value_child_ids(
                    model[j].1,
                ).contains(id@)),
        decreases defs.len() - gi,
    {
        let grp = crate::text::text_starts_with(&defs[gi].0, &marker);
        if grp {
            let mut kids = value_children_exec(&defs[gi].1);
            let ghost kidsv = texts_of(kids@);
            match first_index(&kids, id) {
                Some(ci) => {
                    proof {
                        assert(kidsv.contains(id@)) by {
                            assert(kidsv[ci as int] == id@);
                        }
                    }
                    let ghost prekids = kids@;
                    kids.remove(ci);
                    proof {
                        lemma_remove_first_at(kidsv, id@, ci as int);
                        assert(texts_of(kids@) =~= kidsv.remove(ci as int));
                    }
                    let newv = set_value_children_exec(&defs[gi].1, kids);
                    let keyc = crate::json::copy_text(&defs[gi].0);
                    let ghost newvv = newv@;
                    let ghost pre = defs@;
                    defs.set(gi, (keyc, newv));
                    proof {
                        crate::json::lemma_entry_views_of(pre);
                        crate::json::lemma_entry_views_of(defs@);
                        lemma_locate_remove_at(model, id@, gi as int);
                        assert(entry_views_of(defs@) =~= model.update(
                            gi as int,
                            (model[gi as int].0, newvv),
                        ));
                    }
                    return true;
                },
                None => {},
            }
        }
        gi += 1;
    }
    proof {
        lemma_locate_remove_none(model, id@);
    }
    false
}

impl WaybarConfig {
    /// Move `id` to the visual position `target_index` of `target_slot`:
    /// remove it from wherever it lives and land it on the row at that
    /// position — into that row's group, before that row inside its parent
    /// group, or before that row at the slot's top level; past the end it
    /// is appended to the slot.  On an error the document is unchanged.
    pub fn move_module(&mut self, id: &Vec<char>, target_slot: Slot, target_index: usize) -> (r:
        Result<(), MoveError>)
        ensures
            match move_module_spec(old(self)@, id@, target_slot, target_index as int) {
                Ok(cd) => r is Ok && final(self)@ == cd,
                Err(e) => r is Err && r->Err_0 == e && final(self)@ == old(self)@,
            },
    {
        broadcast use crate::json::lemma_entry_views_of;

        let ghost cd = self@;
        let mut left = crate::tree::copy_texts(&self.modules_left);
        let mut center = crate::tree::copy_texts(&self.modules_center);
        let mut right = crate::tree::copy_texts(&self.modules_right);
        let mut defs = crate::document::copy_defs(&self.module_definitions);
        proof {
            assert(texts_of(left@) == cd.left);
            assert(texts_of(center@) == cd.center);
            assert(texts_of(right@) == cd.right);
            assert(entry_views_of(defs@) == cd.defs);
        }

        // locate and remove: slots in order, then the groups
        if let Some(k) = first_index(&left, id) {
            proof {
                assert(cd.left.contains(id@)) by {
                    assert(cd.left[k as int] == id@);
                }
            }
            let ghost pre = left@;
            left.remove(k);
            proof {
                lemma_remove_first_at(texts_of(pre), id@, k as int);
                assert(texts_of(left@) =~= texts_of(pre).remove(k as int));
            }
        } else if let Some(k) = first_index(&center, id) {
            proof {
                assert(cd.center.contains(id@)) by {
                    assert(cd.center[k as int] == id@);
                }
            }
            let ghost pre = center@;
            center.remove(k);
            proof {
                lemma_remove_first_at(texts_of(pre), id@, k as int);
                assert(texts_of(center@) =~= texts_of(pre).remove(k as int));
            }
        } else if let Some(k) = first_index(&right, id) {
            proof {
                assert(cd.right.contains(id@)) by {
                    assert(cd.right[k as int] == id@);
                }
            }
            let ghost pre = right@;
            right.remove(k);
            proof {
                lemma_remove_first_at(texts_of(pre), id@, k as int);
                assert(texts_of(right@) =~= texts_of(pre).remove(k as int));
            }
        } else {
            if !remove_from_defs(&mut defs, id) {
                return Err(MoveError::NotFound);
            }
        }
        let ghost cd1 = remove_module(cd, id@)->Some_0;
        proof {
            assert(remove_module(cd, id@) is Some);
            assert(texts_of(left@) == cd1.left);
            assert(texts_of(center@) == cd1.center);
            assert(texts_of(right@) == cd1.right);
            assert(entry_views_of(defs@) == cd1.defs);
        }

        // resolve the target position against the flattened rows
        let rows_res = match target_slot {
            Slot::Left => crate::tree::flatten_slot_rows(&defs, &left),
            Slot::Center => crate::tree::flatten_slot_rows(&defs, &center),
            Slot::Right => crate::tree::flatten_slot_rows(&defs, &right),
        };
        let rows = match rows_res {
            Ok(rows) => rows,
            Err(_) => {
                return Err(MoveError::CyclicStructure);
            },
        };
        let ghost rowsv = flatten_slot(cd1.defs, slot_ids_of(cd1, target_slot))->Some_0;
        proof {
            assert(crate::tree::row_views(rows@) == rowsv);
            assert(rows@.len() == rowsv.len());
        }

        if target_index >= rows.len() {
            let idc = crate::json::copy_text(id);
            match target_slot {
                Slot::Left => {
                    let ghost pre = left@;
                    left.push(idc);
                    proof {
                        assert(texts_of(left@) =~= texts_of(pre).push(id@));
                    }
                },
                Slot::Center => {
                    let ghost pre = center@;
                    center.push(idc);
                    proof {
                        assert(texts_of(center@) =~= texts_of(pre).push(id@));
                    }
                },
                Slot::Right => {
                    let ghost pre = right@;
                    right.push(idc);
                    proof {
                        assert(texts_of(right@) =~= texts_of(pre).push(id@));
                    }
                },
            }
        } else {
            let ghost rowv = rowsv[target_index as int];
            proof {
                assert(rows@[target_index as int]@ == rowv);
            }
            let marker = crate::text::text_of("group/");
            let row_is_group = crate::text::text_starts_with(
                &rows[target_index].id,
                &marker,
            );
            if row_is_group {
                let mut kids = group_children_exec(&defs, &rows[target_index].id);
                let ghost kidsv = texts_of(kids@);
                kids.insert(0, crate::json::copy_text(id));
                proof {
                    assert(texts_of(kids@) =~= seq![id@] + kidsv);
                }
                defs_set_children_exec(&mut defs, &rows[target_index].id, kids);
            } else {
                match &rows[target_index].parent {
                    Some(p) => {
                        let kids = group_children_exec(&defs, p);
                        let kids2 = insert_before_exec(kids, &rows[target_index].id, id);
                        defs_set_children_exec(&mut defs, p, kids2);
                    },
                    None => {
                        match target_slot {
                            Slot::Left => {
                                let newleft = insert_before_exec(
                                    left,
                                    &rows[target_index].id,
                                    id,
                                );
                                left = newleft;
                            },
                            Slot::Center => {
                                let newcenter = insert_before_exec(
                                    center,
                                    &rows[target_index].id,
                                    id,
                                );
                                center = newcenter;
                            },
                            Slot::Right => {
                                let newright = insert_before_exec(
                                    right,
                                    &rows[target_index].id,
                                    id,
                                );
                                right = newright;
                            },
                        }
                    },
                }
            }
        }
        self.modules_left = left;
        self.modules_center = center;
        self.modules_right = right;
        self.module_definitions = defs;
        proof {
            assert(self@ =~= move_module_spec(cd, id@, target_slot, target_index as int)->Ok_0);
        }
        Ok(())
    }
}

} // verus!

verus! {

/// A key just set reads back as set.
pub proof fn lemma_obj_get_obj_set(
    entries: Seq<(Seq<char>, JsonData)>,
    key: Seq<char>,
    value: JsonData,
)
    ensures
        obj_get(obj_set(entries, key, value), key) == Some(value),
    decreases entries.len(),
{
    if entries.len() == 0 {
    } else if entries[0].0 == key {
        assert(obj_set(entries, key, value)[0] == (key, value));
    } else {
        lemma_obj_get_obj_set(entries.skip(1), key, value);
        let r = obj_set(entries, key, value);
        assert(r[0] == entries[0]);
        assert(r.skip(1) =~= obj_set(entries.skip(1), key, value));
    }
}

/// Setting a key twice keeps only the later value.
pub proof fn lemma_obj_set_twice(
    entries: Seq<(Seq<char>, JsonData)>,
    key: Seq<char>,
    a: JsonData,
    b: JsonData,
)
    ensures
        obj_set(obj_set(entries, key, a), key, b) == obj_set(entries, key, b),
    decreases entries.len(),
{
    if entries.len() == 0 {
        assert(obj_set(obj_set(entries, key, a), key, b) =~= obj_set(entries, key, b));
    } else if entries[0].0 == key {
        let mid = obj_set(entries, key, a);
        assert(mid[0] == (key, a));
        assert(mid.skip(1) =~= entries.skip(1));
        assert(obj_set(mid, key, b) =~= obj_set(entries, key, b));
    } else {
        lemma_obj_set_twice(entries.skip(1), key, a, b);
        let mid = obj_set(entries, key, a);
        assert(mid[0] == entries[0]);
        assert(mid.skip(1) =~= obj_set(entries.skip(1), key, a));
        assert(obj_set(mid, key, b) =~= obj_set(entries, key, b));
    }
}

/// Setting a key to the value it already holds changes nothing.
pub proof fn lemma_obj_set_id(entries: Seq<(Seq<char>, JsonData)>, key: Seq<char>, v: JsonData)
    requires
        obj_get(entries, key) == Some(v),
    ensures
        obj_set(entries, key, v) == entries,
    decreases entries.len(),
{
    if entries.len() > 0 {
        if entries[0].0 == key {
            assert(entries[0] == (key, v));
            assert(obj_set(entries, key, v) =~= entries);
        } else {
            lemma_obj_set_id(entries.skip(1), key, v);
            assert(obj_set(entries, key, v) =~= entries);
        }
    }
}

/// A readable child list pins the stored array.
pub proof fn lemma_ids_of_json_shape(items: Seq<JsonData>, ids: Seq<Seq<char>>)
    requires
        ids_of_json(items) == Some(ids),
    ensures
        items == ids_to_json(ids),
    decreases items.len(),
{
    if items.len() == 0 {
        assert(items =~= ids_to_json(ids));
    } else {
        match items[0] {
            JsonData::Str(s) => {
                let rest = ids_of_json(items.skip(1))->Some_0;
                assert(ids == seq![s] + rest);
                assert(ids.skip(1) =~= rest);
                lemma_ids_of_json_shape(items.skip(1), rest);
                assert(ids_to_json(ids)[0] == JsonData::Str(ids[0]));
                assert(items.skip(1) == ids_to_json(rest));
                assert(ids_to_json(rest) == ids_to_json(ids.skip(1)));
                assert forall|k: int| 1 <= k < items.len() implies items[k] == ids_to_json(
                    ids,
                )[k] by {
                    assert(items[k] == items.skip(1)[k - 1]);
                    assert(ids_to_json(ids.skip(1))[k - 1] == JsonData::Str(ids.skip(1)[k
                        - 1]));
                    assert(ids_to_json(ids)[k] == JsonData::Str(ids[k]));
                }
                assert(items =~= ids_to_json(ids));
            },
            _ => {},
        }
    }
}

} // verus!

verus! {

/// Law: moving a module to the visual position immediately after its own,
/// when both rows sit inside the same group (the target row being its
/// next sibling in the group's child list, and not itself a group),
/// leaves the document unchanged.
#[verifier::rlimit(100)]
pub proof fn lemma_move_after_self_in_group_noop(
    cd: ConfigData,
    id: Seq<char>,
    slot: Slot,
    idx: int,
    gi: int,
    j: int,
)
    requires
        !cd.left.contains(id),
        !cd.center.contains(id),
        !cd.right.contains(id),
        crate::json::keys_unique(cd.defs),
        0 <= gi < cd.defs.len(),
        is_group(cd.defs[gi].0),
        crate::json::wf_json(cd.defs[gi].1),
        ({
            let kids = value_child_ids(cd.defs[gi].1);
            &&& 0 <= j < kids.len() - 1
            &&& kids[j] == id
            &&& (forall|m: int| 0 <= m < j ==> #[trigger] kids[m] != id)
            &&& kids[j + 1] != id
            &&& (forall|m: int| 0 <= m < j ==> #[trigger] kids[m] != kids[j + 1])
        }),
        forall|e: int|
            0 <= e < gi ==> !(is_group((#[trigger] cd.defs[e]).0) && value_child_ids(
                cd.defs[e].1,
            ).contains(id)),
        ({
            let kids = value_child_ids(cd.defs[gi].1);
            let defs1 = cd.defs.update(
                gi,
                (
                    cd.defs[gi].0,
                    set_value_children(cd.defs[gi].1, kids.remove(j)),
                ),
            );
            match flatten_slot(defs1, slot_ids_of(cd, slot)) {
                Some(rows) => {
                    &&& 0 <= idx < rows.len()
                    &&& rows[idx].id == kids[j + 1]
                    &&& rows[idx].parent == Some(cd.defs[gi].0)
                    &&& !is_group(kids[j + 1])
                },
                None => false,
            }
        }),
    ensures
        move_module_spec(cd, id, slot, idx) == Ok::<ConfigData, MoveError>(cd),
{
    let g = cd.defs[gi].0;
    let v = cd.defs[gi].1;
    let kids = value_child_ids(v);
    let s = kids[j + 1];
    assert(kids.contains(id)) by {
        assert(kids[j] == id);
    }
    lemma_remove_first_at(kids, id, j);
    let kids1 = kids.remove(j);
    lemma_locate_remove_at(cd.defs, id, gi);
    let defs1 = cd.defs.update(gi, (g, set_value_children(v, kids1)));
    assert(locate_remove_defs(cd.defs, id) == Some(defs1));
    let cd1 = remove_module(cd, id)->Some_0;
    assert(cd1 =~= (ConfigData { defs: defs1, ..cd }));
    assert(slot_ids_of(cd1, slot) == slot_ids_of(cd, slot));
    let rows = flatten_slot(defs1, slot_ids_of(cd, slot))->Some_0;
    assert(rows[idx].id == s && rows[idx].parent == Some(g) && !is_group(s));

    // the value really is an object holding the child array
    let entries = v->Obj_0;
    assert(v matches JsonData::Obj(_)) by {
        if !(v matches JsonData::Obj(_)) {
            assert(value_child_ids(v).len() == 0);
        }
    }
    assert(match obj_get(entries, modules_key()) {
        Some(JsonData::Arr(arr)) => ids_of_json(arr) == Some(kids),
        _ => false,
    }) by {
        if !(match obj_get(entries, modules_key()) {
            Some(JsonData::Arr(arr)) => ids_of_json(arr) is Some,
            _ => false,
        }) {
            assert(value_child_ids(v).len() == 0);
        } else {
            match obj_get(entries, modules_key()) {
                Some(JsonData::Arr(arr)) => {
                    if ids_of_json(arr) is None {
                        assert(value_child_ids(v).len() == 0);
                    }
                },
                _ => {},
            }
        }
    }
    let arr = obj_get(entries, modules_key())->Some_0->Arr_0;

    // reading the children back after the removal
    assert(obj_get(defs1, g) == Some(set_value_children(v, kids1))) by {
        assert forall|e: int| 0 <= e < gi implies (#[trigger] defs1[e]).0 != g by {
            assert(defs1[e] == cd.defs[e]);
        }
        crate::ops::lemma_obj_get_first(defs1, g, gi);
    }
    assert(set_value_children(v, kids1) == JsonData::Obj(
        obj_set(entries, modules_key(), JsonData::Arr(ids_to_json(kids1))),
    ));
    lemma_obj_get_obj_set(entries, modules_key(), JsonData::Arr(ids_to_json(kids1)));
    crate::document::lemma_ids_round_trip(kids1);
    assert(group_children(defs1, g) == kids1);

    // the landing restores the child list
    assert(kids1[j] == s);
    assert forall|m: int| 0 <= m < j implies kids1[m] != s by {
        assert(kids1[m] == kids[m]);
    }
    lemma_insert_before_at(kids1, s, id, j);
    assert(kids1.insert(j, id) =~= kids);
    assert(insert_before(group_children(defs1, g), s, id) == kids);

    // writing the same children back restores the definitions
    assert(defs_set_children(defs1, g, kids) == defs1.update(
        gi,
        (g, set_value_children(defs1[gi].1, kids)),
    )) by {
        assert forall|e: int| 0 <= e < gi implies (#[trigger] defs1[e]).0 != g by {
            assert(defs1[e] == cd.defs[e]);
        }
        lemma_defs_set_children_at(defs1, g, kids, gi);
    }
    assert(defs1[gi].1 == set_value_children(v, kids1));
    lemma_obj_set_twice(
        entries,
        modules_key(),
        JsonData::Arr(ids_to_json(kids1)),
        JsonData::Arr(ids_to_json(kids)),
    );
    assert(set_value_children(defs1[gi].1, kids) == JsonData::Obj(
        obj_set(entries, modules_key(), JsonData::Arr(ids_to_json(kids))),
    ));
    lemma_ids_of_json_shape(arr, kids);
    assert(JsonData::Arr(ids_to_json(kids)) == obj_get(entries, modules_key())->Some_0);
    lemma_obj_set_id(entries, modules_key(), JsonData::Arr(ids_to_json(kids)));
    assert(set_value_children(defs1[gi].1, kids) == JsonData::Obj(entries));
    assert(defs_set_children(defs1, g, kids) =~= cd.defs);

    let moved = move_module_spec(cd, id, slot, idx)->Ok_0;
    assert(moved =~= cd);
}

} // verus!
