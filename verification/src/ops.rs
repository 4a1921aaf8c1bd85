//! Editing operations on the document: renaming a module, editing one
//! property of a module's definition, adding and deleting modules, and
//! coarse block surgery on the stylesheet text.

use vstd::prelude::*;

use crate::json::{JsonData, JsonValue, obj_get, obj_set, obj_remove, entry_views_of};
use crate::document::{ConfigData, WaybarConfig, Slot, texts_of};
use crate::mover::{slot_ids_of, with_slot, remove_first, lemma_remove_first_at};

verus! {

/// A definition value with one property replaced or added; a value that
/// is not an object is left alone.
pub open spec fn value_set_prop(v: JsonData, key: Seq<char>, value: JsonData) -> JsonData {
    match v {
        JsonData::Obj(entries) => JsonData::Obj(obj_set(entries, key, value)),
        _ => v,
    }
}

/// A definition value with one property removed; a value that is not an
/// object is left alone.
pub open spec fn value_remove_prop(v: JsonData, key: Seq<char>) -> JsonData {
    match v {
        JsonData::Obj(entries) => JsonData::Obj(obj_remove(entries, key)),
        _ => v,
    }
}

/// The definitions with one property of `module` replaced or added; a
/// missing definition is created as a one-property object.
pub open spec fn defs_set_prop(
    defs: Seq<(Seq<char>, JsonData)>,
    module: Seq<char>,
    key: Seq<char>,
    value: JsonData,
) -> Seq<(Seq<char>, JsonData)>
    decreases defs.len(),
{
    if defs.len() == 0 {
        seq![(module, JsonData::Obj(seq![(key, value)]))]
    } else if defs[0].0 == module {
        seq![(module, value_set_prop(defs[0].1, key, value))] + defs.skip(1)
    } else {
        seq![defs[0]] + defs_set_prop(defs.skip(1), module, key, value)
    }
}

/// The definitions with one property of `module` removed; nothing happens
/// when the module has no definition.
pub open spec fn defs_remove_prop(
    defs: Seq<(Seq<char>, JsonData)>,
    module: Seq<char>,
    key: Seq<char>,
) -> Seq<(Seq<char>, JsonData)>
    decreases defs.len(),
{
    if defs.len() == 0 {
        defs
    } else if defs[0].0 == module {
        seq![(module, value_remove_prop(defs[0].1, key))] + defs.skip(1)
    } else {
        seq![defs[0]] + defs_remove_prop(defs.skip(1), module, key)
    }
}

/// Updating the first entry realizes `defs_set_prop`.
pub proof fn lemma_defs_set_prop_at(
    defs: Seq<(Seq<char>, JsonData)>,
    module: Seq<char>,
    key: Seq<char>,
    value: JsonData,
    k: int,
)
    requires
        0 <= k < defs.len(),
        defs[k].0 == module,
        forall|j: int| 0 <= j < k ==> (#[trigger] defs[j]).0 != module,
    ensures
        defs_set_prop(defs, module, key, value) == defs.update(
            k,
            (module, value_set_prop(defs[k].1, key, value)),
        ),
    decreases k,
{
    if k == 0 {
        assert(defs_set_prop(defs, module, key, value) =~= defs.update(
            0,
            (module, value_set_prop(defs[0].1, key, value)),
        ));
    } else {
        lemma_defs_set_prop_at(defs.skip(1), module, key, value, k - 1);
        assert(defs.skip(1)[k - 1] == defs[k]);
        assert forall|j: int| 0 <= j < k - 1 implies (#[trigger] defs.skip(1)[j]).0
            != module by {
            assert(defs.skip(1)[j] == defs[j + 1]);
        }
        assert(seq![defs[0]] + defs.skip(1).update(
            k - 1,
            (module, value_set_prop(defs[k].1, key, value)),
        ) =~= defs.update(k, (module, value_set_prop(defs[k].1, key, value))));
    }
}

/// Appending a fresh definition realizes `defs_set_prop`.
pub proof fn lemma_defs_set_prop_absent(
    defs: Seq<(Seq<char>, JsonData)>,
    module: Seq<char>,
    key: Seq<char>,
    value: JsonData,
)
    requires
        forall|j: int| 0 <= j < defs.len() ==> (#[trigger] defs[j]).0 != module,
    ensures
        defs_set_prop(defs, module, key, value) == defs.push(
            (module, JsonData::Obj(seq![(key, value)])),
        ),
    decreases defs.len(),
{
    if defs.len() == 0 {
        assert(defs_set_prop(defs, module, key, value) =~= defs.push(
            (module, JsonData::Obj(seq![(key, value)])),
        ));
    } else {
        assert forall|j: int| 0 <= j < defs.skip(1).len() implies (#[trigger] defs.skip(
            1,
        )[j]).0 != module by {
            assert(defs.skip(1)[j] == defs[j + 1]);
        }
        lemma_defs_set_prop_absent(defs.skip(1), module, key, value);
        assert(seq![defs[0]] + defs.skip(1).push((module, JsonData::Obj(seq![(key, value)])))
            =~= defs.push((module, JsonData::Obj(seq![(key, value)]))));
    }
}

/// Updating the first entry realizes `defs_remove_prop`.
pub proof fn lemma_defs_remove_prop_at(
    defs: Seq<(Seq<char>, JsonData)>,
    module: Seq<char>,
    key: Seq<char>,
    k: int,
)
    requires
        0 <= k < defs.len(),
        defs[k].0 == module,
        forall|j: int| 0 <= j < k ==> (#[trigger] defs[j]).0 != module,
    ensures
        defs_remove_prop(defs, module, key) == defs.update(
            k,
            (module, value_remove_prop(defs[k].1, key)),
        ),
    decreases k,
{
    if k == 0 {
        assert(defs_remove_prop(defs, module, key) =~= defs.update(
            0,
            (module, value_remove_prop(defs[0].1, key)),
        ));
    } else {
        lemma_defs_remove_prop_at(defs.skip(1), module, key, k - 1);
        assert(defs.skip(1)[k - 1] == defs[k]);
        assert forall|j: int| 0 <= j < k - 1 implies (#[trigger] defs.skip(1)[j]).0
            != module by {
            assert(defs.skip(1)[j] == defs[j + 1]);
        }
        assert(seq![defs[0]] + defs.skip(1).update(
            k - 1,
            (module, value_remove_prop(defs[k].1, key)),
        ) =~= defs.update(k, (module, value_remove_prop(defs[k].1, key))));
    }
}

/// An absent module leaves `defs_remove_prop` unchanged.
pub proof fn lemma_defs_remove_prop_absent(
    defs: Seq<(Seq<char>, JsonData)>,
    module: Seq<char>,
    key: Seq<char>,
)
    requires
        forall|j: int| 0 <= j < defs.len() ==> (#[trigger] defs[j]).0 != module,
    ensures
        defs_remove_prop(defs, module, key) == defs,
    decreases defs.len(),
{
    if defs.len() > 0 {
        assert forall|j: int| 0 <= j < defs.skip(1).len() implies (#[trigger] defs.skip(
            1,
        )[j]).0 != module by {
            assert(defs.skip(1)[j] == defs[j + 1]);
        }
        lemma_defs_remove_prop_absent(defs.skip(1), module, key);
        assert(seq![defs[0]] + defs.skip(1) =~= defs);
    }
}

/// One property of an object value replaced, executable.
fn value_set_prop_exec(v: &JsonValue, key: &Vec<char>, value: JsonValue) -> (r: JsonValue)
    ensures
        r@ == value_set_prop(v@, key@, value@),
{
    broadcast use crate::json::lemma_entry_views_of;

    match v {
        JsonValue::Obj(entries) => {
            let ghost model = entry_views_of(entries@);
            let mut k: usize = 0;
            while k < entries.len()
                invariant
                    k <= entries.len(),
                    v@ == JsonData::Obj(model),
                    model == entry_views_of(entries@),
                    model.len() == entries@.len(),
                    forall|j: int|
                        0 <= j < entries@.len() ==> #[trigger] model[j] == (
                            entries@[j].0@,
                            entries@[j].1@,
                        ),
                    forall|j: int| 0 <= j < k ==> (#[trigger] model[j]).0 != key@,
                decreases entries.len() - k,
            {
                if crate::text::text_eq(&entries[k].0, key) {
                    let mut out = crate::document::copy_defs(entries);
                    let ghost pre = out@;
                    proof {
                        crate::json::lemma_entry_views_of(pre);
                        assert(pre.len() == entries@.len());
                    }
                    let ghost vv = value@;
                    out.set(k, (crate::json::copy_text(key), value));
                    proof {
                        crate::json::lemma_entry_views_of(out@);
                        crate::mover::lemma_obj_set_at(model, key@, vv, k as int);
                        assert(entry_views_of(out@) =~= model.update(k as int, (key@, vv)));
                    }
                    return JsonValue::Obj(out);
                }
                k += 1;
            }
            let mut out = crate::document::copy_defs(entries);
            let ghost pre = out@;
            let ghost vv = value@;
            out.push((crate::json::copy_text(key), value));
            proof {
                crate::json::lemma_entry_views_of(pre);
                crate::json::lemma_entry_views_of(out@);
                crate::mover::lemma_obj_set_absent(model, key@, vv);
                assert(entry_views_of(out@) =~= model.push((key@, vv)));
            }
            JsonValue::Obj(out)
        },
        _ => crate::json::copy_json(v),
    }
}

/// Removing at the first index realizes `obj_remove`.
pub proof fn lemma_obj_remove_at(entries: Seq<(Seq<char>, JsonData)>, key: Seq<char>, k: int)
    requires
        0 <= k < entries.len(),
        entries[k].0 == key,
        forall|j: int| 0 <= j < k ==> (#[trigger] entries[j]).0 != key,
    ensures
        obj_remove(entries, key) == entries.remove(k),
    decreases k,
{
    if k == 0 {
        assert(obj_remove(entries, key) =~= entries.remove(0));
    } else {
        lemma_obj_remove_at(entries.skip(1), key, k - 1);
        assert(entries.skip(1)[k - 1] == entries[k]);
        assert forall|j: int| 0 <= j < k - 1 implies (#[trigger] entries.skip(1)[j]).0
            != key by {
            assert(entries.skip(1)[j] == entries[j + 1]);
        }
        assert(seq![entries[0]] + entries.skip(1).remove(k - 1) =~= entries.remove(k));
    }
}

/// An absent key leaves `obj_remove` unchanged.
pub proof fn lemma_obj_remove_absent(entries: Seq<(Seq<char>, JsonData)>, key: Seq<char>)
    requires
        forall|j: int| 0 <= j < entries.len() ==> (#[trigger] entries[j]).0 != key,
    ensures
        obj_remove(entries, key) == entries,
    decreases entries.len(),
{
    if entries.len() > 0 {
        assert forall|j: int| 0 <= j < entries.skip(1).len() implies (#[trigger] entries.skip(
            1,
        )[j]).0 != key by {
            assert(entries.skip(1)[j] == entries[j + 1]);
        }
        lemma_obj_remove_absent(entries.skip(1), key);
        assert(seq![entries[0]] + entries.skip(1) =~= entries);
    }
}

/// One property of an object value removed, executable.
fn value_remove_prop_exec(v: &JsonValue, key: &Vec<char>) -> (r: JsonValue)
    ensures
        r@ == value_remove_prop(v@, key@),
{
    broadcast use crate::json::lemma_entry_views_of;

    match v {
        JsonValue::Obj(entries) => {
            let ghost model = entry_views_of(entries@);
            let mut k: usize = 0;
            while k < entries.len()
                invariant
                    k <= entries.len(),
                    v@ == JsonData::Obj(model),
                    model == entry_views_of(entries@),
                    model.len() == entries@.len(),
                    forall|j: int|
                        0 <= j < entries@.len() ==> #[trigger] model[j] == (
                            entries@[j].0@,
                            entries@[j].1@,
                        ),
                    forall|j: int| 0 <= j < k ==> (#[trigger] model[j]).0 != key@,
                decreases entries.len() - k,
            {
                if crate::text::text_eq(&entries[k].0, key) {
                    let mut out = crate::document::copy_defs(entries);
                    let ghost pre = out@;
                    proof {
                        crate::json::lemma_entry_views_of(pre);
                        assert(pre.len() == entries@.len());
                    }
                    out.remove(k);
                    proof {
                        crate::json::lemma_entry_views_of(out@);
                        lemma_obj_remove_at(model, key@, k as int);
                        assert(entry_views_of(out@) =~= model.remove(k as int));
                    }
                    return JsonValue::Obj(out);
                }
                k += 1;
            }
            proof {
                lemma_obj_remove_absent(model, key@);
            }
            crate::json::copy_json(v)
        },
        _ => crate::json::copy_json(v),
    }
}

impl WaybarConfig {
    /// Replace or add one property of a module's definition; a missing
    /// definition is created.
    pub fn set_property(&mut self, module: &Vec<char>, key: &Vec<char>, value: JsonValue)
        ensures
            final(self)@ == (ConfigData {
                defs: defs_set_prop(old(self)@.defs, module@, key@, value@),
                ..old(self)@
            }),
    {
        broadcast use crate::json::lemma_entry_views_of;

        let ghost model = entry_views_of(self.module_definitions@);
        let mut k: usize = 0;
        while k < self.module_definitions.len()
            invariant
                k <= self.module_definitions.len(),
                self == old(self),
                model == entry_views_of(self.module_definitions@),
                model.len() == self.module_definitions@.len(),
                forall|j: int|
                    0 <= j < self.module_definitions@.len() ==> #[trigger] model[j] == (
                        self.module_definitions@[j].0@,
                        self.module_definitions@[j].1@,
                    ),
                forall|j: int| 0 <= j < k ==> (#[trigger] model[j]).0 != module@,
            decreases self.module_definitions.len() - k,
        {
            if crate::text::text_eq(&self.module_definitions[k].0, module) {
                let newv = value_set_prop_exec(&self.module_definitions[k].1, key, value);
                let ghost newvv = newv@;
                let ghost pre = self.module_definitions@;
                let modc = crate::json::copy_text(module);
                self.module_definitions.set(k, (modc, newv));
                proof {
                    crate::json::lemma_entry_views_of(pre);
                    crate::json::lemma_entry_views_of(self.module_definitions@);
                    lemma_defs_set_prop_at(model, module@, key@, value@, k as int);
                    assert(entry_views_of(self.module_definitions@) =~= model.update(
                        k as int,
                        (module@, newvv),
                    ));
                    assert(self@ =~= (ConfigData {
                        defs: defs_set_prop(old(self)@.defs, module@, key@, value@),
                        ..old(self)@
                    }));
                }
                return ;
            }
            k += 1;
        }
        let mut inner: Vec<(Vec<char>, JsonValue)> = Vec::new();
        let ghost vv = value@;
        inner.push((crate::json::copy_text(key), value));
        proof {
            assert(entry_views_of(inner@) =~= seq![(key@, vv)]);
        }
        let ghost pre = self.module_definitions@;
        self.module_definitions.push((crate::json::copy_text(module), JsonValue::Obj(inner)));
        proof {
            crate::json::lemma_entry_views_of(pre);
            crate::json::lemma_entry_views_of(self.module_definitions@);
            lemma_defs_set_prop_absent(model, module@, key@, vv);
            assert(entry_views_of(self.module_definitions@) =~= model.push(
                (module@, JsonData::Obj(seq![(key@, vv)])),
            ));
            assert(self@ =~= (ConfigData {
                defs: defs_set_prop(old(self)@.defs, module@, key@, vv),
                ..old(self)@
            }));
        }
    }

    /// Remove one property of a module's definition; nothing happens when
    /// the module has no definition.
    pub fn remove_property(&mut self, module: &Vec<char>, key: &Vec<char>)
        ensures
            final(self)@ == (ConfigData {
                defs: defs_remove_prop(old(self)@.defs, module@, key@),
                ..old(self)@
            }),
    {
        broadcast use crate::json::lemma_entry_views_of;

        let ghost model = entry_views_of(self.module_definitions@);
        let mut k: usize = 0;
        while k < self.module_definitions.len()
            invariant
                k <= self.module_definitions.len(),
                self == old(self),
                model == entry_views_of(self.module_definitions@),
                model.len() == self.module_definitions@.len(),
                forall|j: int|
                    0 <= j < self.module_definitions@.len() ==> #[trigger] model[j] == (
                        self.module_definitions@[j].0@,
                        self.module_definitions@[j].1@,
                    ),
                forall|j: int| 0 <= j < k ==> (#[trigger] model[j]).0 != module@,
            decreases self.module_definitions.len() - k,
        {
            if crate::text::text_eq(&self.module_definitions[k].0, module) {
                let newv = value_remove_prop_exec(&self.module_definitions[k].1, key);
                let ghost newvv = newv@;
                let ghost pre = self.module_definitions@;
                let modc = crate::json::copy_text(module);
                self.module_definitions.set(k, (modc, newv));
                proof {
                    crate::json::lemma_entry_views_of(pre);
                    crate::json::lemma_entry_views_of(self.module_definitions@);
                    lemma_defs_remove_prop_at(model, module@, key@, k as int);
                    assert(entry_views_of(self.module_definitions@) =~= model.update(
                        k as int,
                        (module@, newvv),
                    ));
                    assert(self@ =~= (ConfigData {
                        defs: defs_remove_prop(old(self)@.defs, module@, key@),
                        ..old(self)@
                    }));
                }
                return ;
            }
            k += 1;
        }
        proof {
            lemma_defs_remove_prop_absent(model, module@, key@);
            assert(self@ =~= (ConfigData {
                defs: defs_remove_prop(old(self)@.defs, module@, key@),
                ..old(self)@
            }));
        }
    }
}

} // verus!

verus! {

/// A slot list with every occurrence of `old_name` replaced.
pub open spec fn rename_in(ids: Seq<Seq<char>>, old_name: Seq<char>, new_name: Seq<char>) -> Seq<
    Seq<char>,
> {
    ids.map_values(|x: Seq<char>| if x == old_name {
        new_name
    } else {
        x
    })
}

/// The definitions after a rename: the definition of `old_name`, if any,
/// is detached and re-attached under `new_name` (at the end, or replacing
/// an existing definition of `new_name` in place).
pub open spec fn rename_defs(
    defs: Seq<(Seq<char>, JsonData)>,
    old_name: Seq<char>,
    new_name: Seq<char>,
) -> Seq<(Seq<char>, JsonData)> {
    match obj_get(defs, old_name) {
        Some(def) => obj_set(obj_remove(defs, old_name), new_name, def),
        None => defs,
    }
}

/// The whole document after a rename.
pub open spec fn rename_module_spec(
    cd: ConfigData,
    old_name: Seq<char>,
    new_name: Seq<char>,
) -> ConfigData {
    ConfigData {
        left: rename_in(cd.left, old_name, new_name),
        center: rename_in(cd.center, old_name, new_name),
        right: rename_in(cd.right, old_name, new_name),
        defs: rename_defs(cd.defs, old_name, new_name),
    }
}

/// Replace occurrences of `old_name` in a slot vector.
fn rename_in_exec(ids: &mut Vec<Vec<char>>, old_name: &Vec<char>, new_name: &Vec<char>)
    ensures
        texts_of(final(ids)@) == rename_in(texts_of(old(ids)@), old_name@, new_name@),
{
    let mut i: usize = 0;
    while i < ids.len()
        invariant
            i <= ids.len(),
            ids@.len() == old(ids)@.len(),
            forall|j: int| i <= j < ids@.len() ==> #[trigger] ids@[j]@ == old(ids)@[j]@,
            forall|j: int|
                0 <= j < i ==> #[trigger] ids@[j]@ == (if old(ids)@[j]@ == old_name@ {
                    new_name@
                } else {
                    old(ids)@[j]@
                }),
        decreases ids.len() - i,
    {
        if crate::text::text_eq(&ids[i], old_name) {
            ids.set(i, crate::json::copy_text(new_name));
        }
        i += 1;
    }
    proof {
        assert(texts_of(ids@) =~= rename_in(texts_of(old(ids)@), old_name@, new_name@));
    }
}

impl WaybarConfig {
    /// Rename a module: its definition moves under the new identifier and
    /// every slot occurrence is rewritten.
    pub fn rename_module(&mut self, old_name: &Vec<char>, new_name: &Vec<char>)
        ensures
            final(self)@ == rename_module_spec(old(self)@, old_name@, new_name@),
    {
        broadcast use crate::json::lemma_entry_views_of;

        let ghost model = entry_views_of(self.module_definitions@);
        rename_in_exec(&mut self.modules_left, old_name, new_name);
        rename_in_exec(&mut self.modules_center, old_name, new_name);
        rename_in_exec(&mut self.modules_right, old_name, new_name);

        // detach the old definition, if present
        let mut k: usize = 0;
        let mut found: Option<usize> = None;
        while k < self.module_definitions.len() && found.is_none()
            invariant
                k <= self.module_definitions.len(),
                model == entry_views_of(self.module_definitions@),
                model == entry_views_of(old(self).module_definitions@),
                texts_of(self.modules_left@) == rename_in(old(self)@.left, old_name@, new_name@),
                texts_of(self.modules_center@) == rename_in(
                    old(self)@.center,
                    old_name@,
                    new_name@,
                ),
                texts_of(self.modules_right@) == rename_in(
                    old(self)@.right,
                    old_name@,
                    new_name@,
                ),
                model.len() == self.module_definitions@.len(),
                forall|j: int|
                    0 <= j < self.module_definitions@.len() ==> #[trigger] model[j] == (
                        self.module_definitions@[j].0@,
                        self.module_definitions@[j].1@,
                    ),
                match found {
                    Some(f) => f < model.len() && model[f as int].0 == old_name@ && (
                    forall|j: int| 0 <= j < f ==> (#[trigger] model[j]).0 != old_name@),
                    None => forall|j: int| 0 <= j < k ==> (#[trigger] model[j]).0 != old_name@,
                },
            decreases self.module_definitions.len() - k + (if found.is_none() {
                1int
            } else {
                0int
            }),
        {
            if crate::text::text_eq(&self.module_definitions[k].0, old_name) {
                found = Some(k);
            } else {
                k += 1;
            }
        }
        let f = match found {
            Some(f) => f,
            None => {
                proof {
                    crate::json::lemma_obj_get_has_key(model, old_name@);
                    if obj_get(model, old_name@) is Some {
                        let w = choose|w: int|
                            0 <= w < model.len() && (#[trigger] model[w]).0 == old_name@;
                    }
                    assert(obj_get(model, old_name@) is None);
                    assert(self@ =~= rename_module_spec(old(self)@, old_name@, new_name@));
                }
                return ;
            },
        };
        let ghost pre = self.module_definitions@;
        let (_oldkey, def) = self.module_definitions.remove(f);
        proof {
            crate::json::lemma_entry_views_of(pre);
            crate::json::lemma_entry_views_of(self.module_definitions@);
            lemma_obj_remove_at(model, old_name@, f as int);
            assert(entry_views_of(self.module_definitions@) =~= model.remove(f as int));
            assert(def@ == model[f as int].1);
            assert(obj_get(model, old_name@) == Some(model[f as int].1)) by {
                lemma_obj_get_first(model, old_name@, f as int);
            }
        }
        let ghost defv = def@;
        let ghost removed = entry_views_of(self.module_definitions@);

        // re-attach under the new identifier
        let mut k2: usize = 0;
        while k2 < self.module_definitions.len()
            invariant
                k2 <= self.module_definitions.len(),
                def@ == defv,
                removed == entry_views_of(self.module_definitions@),
                rename_module_spec(old(self)@, old_name@, new_name@) == (ConfigData {
                    left: texts_of(self.modules_left@),
                    center: texts_of(self.modules_center@),
                    right: texts_of(self.modules_right@),
                    defs: obj_set(removed, new_name@, defv),
                }),
                removed.len() == self.module_definitions@.len(),
                forall|j: int|
                    0 <= j < self.module_definitions@.len() ==> #[trigger] removed[j] == (
                        self.module_definitions@[j].0@,
                        self.module_definitions@[j].1@,
                    ),
                forall|j: int| 0 <= j < k2 ==> (#[trigger] removed[j]).0 != new_name@,
            decreases self.module_definitions.len() - k2,
        {
            if crate::text::text_eq(&self.module_definitions[k2].0, new_name) {
                let ghost pre2 = self.module_definitions@;
                let dv = def;
                self.module_definitions.set(k2, (crate::json::copy_text(new_name), dv));
                proof {
                    crate::json::lemma_entry_views_of(pre2);
                    crate::json::lemma_entry_views_of(self.module_definitions@);
                    crate::mover::lemma_obj_set_at(removed, new_name@, defv, k2 as int);
                    assert(entry_views_of(self.module_definitions@) =~= removed.update(
                        k2 as int,
                        (new_name@, defv),
                    ));
                    assert(self@ =~= rename_module_spec(old(self)@, old_name@, new_name@));
                }
                return ;
            }
            k2 += 1;
        }
        let ghost pre2 = self.module_definitions@;
        self.module_definitions.push((crate::json::copy_text(new_name), def));
        proof {
            crate::json::lemma_entry_views_of(pre2);
            crate::json::lemma_entry_views_of(self.module_definitions@);
            crate::mover::lemma_obj_set_absent(removed, new_name@, defv);
            assert(entry_views_of(self.module_definitions@) =~= removed.push(
                (new_name@, defv),
            ));
            assert(self@ =~= rename_module_spec(old(self)@, old_name@, new_name@));
        }
    }

    /// Append a module to a slot, creating an empty definition when none
    /// exists.
    pub fn add_module(&mut self, slot: Slot, name: &Vec<char>)
        ensures
            final(self)@ == (ConfigData {
                defs: if obj_get(old(self)@.defs, name@) is Some {
                    old(self)@.defs
                } else {
                    old(self)@.defs.push((name@, JsonData::Obj(Seq::empty())))
                },
                ..with_slot(old(self)@, slot, slot_ids_of(old(self)@, slot).push(name@))
            }),
    {
        broadcast use crate::json::lemma_entry_views_of;

        let ghost model = entry_views_of(self.module_definitions@);
        let nc = crate::json::copy_text(name);
        match slot {
            Slot::Left => {
                let ghost pre = self.modules_left@;
                self.modules_left.push(nc);
                proof {
                    assert(texts_of(self.modules_left@) =~= texts_of(pre).push(name@));
                }
            },
            Slot::Center => {
                let ghost pre = self.modules_center@;
                self.modules_center.push(nc);
                proof {
                    assert(texts_of(self.modules_center@) =~= texts_of(pre).push(name@));
                }
            },
            Slot::Right => {
                let ghost pre = self.modules_right@;
                self.modules_right.push(nc);
                proof {
                    assert(texts_of(self.modules_right@) =~= texts_of(pre).push(name@));
                }
            },
        }
        if crate::json::obj_find(&self.module_definitions, name).is_none() {
            let empty_obj: Vec<(Vec<char>, JsonValue)> = Vec::new();
            proof {
                assert(entry_views_of(empty_obj@) =~= Seq::<(Seq<char>, JsonData)>::empty());
            }
            let ghost pre = self.module_definitions@;
            self.module_definitions.push(
                (crate::json::copy_text(name), JsonValue::Obj(empty_obj)),
            );
            proof {
                crate::json::lemma_entry_views_of(pre);
                crate::json::lemma_entry_views_of(self.module_definitions@);
                assert(entry_views_of(self.module_definitions@) =~= model.push(
                    (name@, JsonData::Obj(Seq::empty())),
                ));
            }
        }
        proof {
            assert(self@ =~= (ConfigData {
                defs: if obj_get(old(self)@.defs, name@) is Some {
                    old(self)@.defs
                } else {
                    old(self)@.defs.push((name@, JsonData::Obj(Seq::empty())))
                },
                ..with_slot(old(self)@, slot, slot_ids_of(old(self)@, slot).push(name@))
            }));
        }
    }

    /// Delete the first occurrence of a module from a slot; an absent
    /// identifier is ignored.
    pub fn delete_from_slot(&mut self, slot: Slot, name: &Vec<char>)
        ensures
            final(self)@ == (if slot_ids_of(old(self)@, slot).contains(name@) {
                with_slot(
                    old(self)@,
                    slot,
                    remove_first(slot_ids_of(old(self)@, slot), name@),
                )
            } else {
                old(self)@
            }),
    {
        let found = match slot {
            Slot::Left => crate::mover::first_index(&self.modules_left, name),
            Slot::Center => crate::mover::first_index(&self.modules_center, name),
            Slot::Right => crate::mover::first_index(&self.modules_right, name),
        };
        let k = match found {
            Some(k) => k,
            None => {
                proof {
                    assert(self@ =~= old(self)@);
                }
                return ;
            },
        };
        match slot {
            Slot::Left => {
                let ghost pre = self.modules_left@;
                proof {
                    assert(texts_of(pre).contains(name@)) by {
                        assert(texts_of(pre)[k as int] == name@);
                    }
                }
                self.modules_left.remove(k);
                proof {
                    lemma_remove_first_at(texts_of(pre), name@, k as int);
                    assert(texts_of(self.modules_left@) =~= texts_of(pre).remove(k as int));
                    assert(self@ =~= with_slot(
                        old(self)@,
                        slot,
                        remove_first(slot_ids_of(old(self)@, slot), name@),
                    ));
                }
            },
            Slot::Center => {
                let ghost pre = self.modules_center@;
                proof {
                    assert(texts_of(pre).contains(name@)) by {
                        assert(texts_of(pre)[k as int] == name@);
                    }
                }
                self.modules_center.remove(k);
                proof {
                    lemma_remove_first_at(texts_of(pre), name@, k as int);
                    assert(texts_of(self.modules_center@) =~= texts_of(pre).remove(k as int));
                    assert(self@ =~= with_slot(
                        old(self)@,
                        slot,
                        remove_first(slot_ids_of(old(self)@, slot), name@),
                    ));
                }
            },
            Slot::Right => {
                let ghost pre = self.modules_right@;
                proof {
                    assert(texts_of(pre).contains(name@)) by {
                        assert(texts_of(pre)[k as int] == name@);
                    }
                }
                self.modules_right.remove(k);
                proof {
                    lemma_remove_first_at(texts_of(pre), name@, k as int);
                    assert(texts_of(self.modules_right@) =~= texts_of(pre).remove(k as int));
                    assert(self@ =~= with_slot(
                        old(self)@,
                        slot,
                        remove_first(slot_ids_of(old(self)@, slot), name@),
                    ));
                }
            },
        }
    }
}

/// The first binding for a key is the one found.
pub proof fn lemma_obj_get_first(entries: Seq<(Seq<char>, JsonData)>, key: Seq<char>, k: int)
    requires
        0 <= k < entries.len(),
        entries[k].0 == key,
        forall|j: int| 0 <= j < k ==> (#[trigger] entries[j]).0 != key,
    ensures
        obj_get(entries, key) == Some(entries[k].1),
    decreases k,
{
    if k > 0 {
        lemma_obj_get_first(entries.skip(1), key, k - 1);
        assert(entries.skip(1)[k - 1] == entries[k]);
        assert forall|j: int| 0 <= j < k - 1 implies (#[trigger] entries.skip(1)[j]).0
            != key by {
            assert(entries.skip(1)[j] == entries[j + 1]);
        }
    }
}

} // verus!

verus! {

/// The first of the stock property names that a definition object lacks.
pub open spec fn first_missing(entries: Seq<(Seq<char>, JsonData)>) -> Option<Seq<char>> {
    if obj_get(entries, "format"@) is None {
        Some("format"@)
    } else if obj_get(entries, "tooltip"@) is None {
        Some("tooltip"@)
    } else if obj_get(entries, "on-click"@) is None {
        Some("on-click"@)
    } else if obj_get(entries, "interval"@) is None {
        Some("interval"@)
    } else if obj_get(entries, "exec"@) is None {
        Some("exec"@)
    } else {
        None
    }
}

/// The definitions after offering a stock property: the first missing one
/// of the module's definition object gains an empty string value; a
/// module without an object definition is left alone.
pub open spec fn add_default_spec(
    defs: Seq<(Seq<char>, JsonData)>,
    module: Seq<char>,
) -> Seq<(Seq<char>, JsonData)> {
    match obj_get(defs, module) {
        Some(JsonData::Obj(entries)) => match first_missing(entries) {
            Some(key) => defs_set_prop(defs, module, key, JsonData::Str(Seq::empty())),
            None => defs,
        },
        _ => defs,
    }
}

impl WaybarConfig {
    /// Offer a stock property: the first of `format`, `tooltip`,
    /// `on-click`, `interval`, `exec` that the module's definition lacks
    /// is added with an empty value.
    pub fn add_default_property(&mut self, module: &Vec<char>)
        ensures
            final(self)@ == (ConfigData {
                defs: add_default_spec(old(self)@.defs, module@),
                ..old(self)@
            }),
    {
        let choice: Option<&'static str>;
        match crate::json::obj_find(&self.module_definitions, module) {
            Some(v) => match v {
                JsonValue::Obj(entries) => {
                    let k1 = crate::text::text_of("format");
                    let k2 = crate::text::text_of("tooltip");
                    let k3 = crate::text::text_of("on-click");
                    let k4 = crate::text::text_of("interval");
                    let k5 = crate::text::text_of("exec");
                    choice = if crate::json::obj_find(entries, &k1).is_none() {
                        Some("format")
                    } else if crate::json::obj_find(entries, &k2).is_none() {
                        Some("tooltip")
                    } else if crate::json::obj_find(entries, &k3).is_none() {
                        Some("on-click")
                    } else if crate::json::obj_find(entries, &k4).is_none() {
                        Some("interval")
                    } else if crate::json::obj_find(entries, &k5).is_none() {
                        Some("exec")
                    } else {
                        None
                    };
                },
                _ => {
                    choice = None;
                },
            },
            None => {
                choice = None;
            },
        }
        match choice {
            Some(key) => {
                let kt = crate::text::text_of(key);
                self.set_property(module, &kt, JsonValue::Str(Vec::new()));
                proof {
                    assert(self@ =~= (ConfigData {
                        defs: add_default_spec(old(self)@.defs, module@),
                        ..old(self)@
                    }));
                }
            },
            None => {
                proof {
                    assert(self@ =~= (ConfigData {
                        defs: add_default_spec(old(self)@.defs, module@),
                        ..old(self)@
                    }));
                }
            },
        }
    }
}

} // verus!
