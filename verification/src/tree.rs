//! The module tree engine: nested group modules are resolved into a
//! flattened, depth-tagged row sequence for linear display, guarded
//! against cyclic group references, with a proved regrouping round trip.

use vstd::prelude::*;

use crate::json::{JsonData, JsonValue, obj_get};
use crate::document::ids_of_json;
use crate::text::starts_with;

verus! {

/// A traversal that found a group referring to one of its ancestors.
#[derive(Debug)]
pub enum TreeError {
    CyclicStructure,
}

/// One display row: a module, its nesting depth, and its parent group.
pub struct ModuleRow {
    pub id: Vec<char>,
    pub depth: usize,
    pub parent: Option<Vec<char>>,
}

/// The model of one display row.
#[verifier::ext_equal]
pub struct RowData {
    pub id: Seq<char>,
    pub depth: int,
    pub parent: Option<Seq<char>>,
}

impl View for ModuleRow {
    type V = RowData;

    open spec fn view(&self) -> RowData {
        RowData {
            id: self.id@,
            depth: self.depth as int,
            parent: match self.parent {
                Some(p) => Some(p@),
                None => None,
            },
        }
    }
}

/// The models of a row vector.
pub open spec fn row_views(rows: Seq<ModuleRow>) -> Seq<RowData> {
    rows.map_values(|r: ModuleRow| r@)
}

/// The marker that makes an identifier a group container.
pub open spec fn group_marker() -> Seq<char> {
    "group/"@
}

/// True when the identifier denotes a group container.
pub open spec fn is_group(id: Seq<char>) -> bool {
    starts_with(id, group_marker())
}

/// The key under which a group definition lists its children.
pub open spec fn modules_key() -> Seq<char> {
    "modules"@
}

/// The child identifiers of a group: the `modules` array of its
/// definition.  A missing or malformed list means no children.
pub open spec fn child_ids(defs: Seq<(Seq<char>, JsonData)>, id: Seq<char>) -> Seq<Seq<char>> {
    if !is_group(id) {
        Seq::empty()
    } else {
        match obj_get(defs, id) {
            Some(JsonData::Obj(entries)) => match obj_get(entries, modules_key()) {
                Some(JsonData::Arr(items)) => match ids_of_json(items) {
                    Some(ids) => ids,
                    None => Seq::empty(),
                },
                _ => Seq::empty(),
            },
            _ => Seq::empty(),
        }
    }
}

/// Flatten one module: its own row, then its descendants.  `path` holds
/// the group identifiers currently being expanded; `None` reports a
/// cyclic structure.
pub open spec fn flatten_one(
    defs: Seq<(Seq<char>, JsonData)>,
    id: Seq<char>,
    depth: int,
    parent: Option<Seq<char>>,
    path: Seq<Seq<char>>,
) -> Option<Seq<RowData>>
    decreases defs.len() - path.len(), 0int, 0int,
{
    let row = RowData { id, depth, parent };
    let kids = child_ids(defs, id);
    if kids.len() == 0 {
        Some(seq![row])
    } else if path.contains(id) {
        None
    } else if path.len() >= defs.len() {
        None
    } else {
        match flatten_list(defs, kids, depth + 1, Some(id), path.push(id)) {
            Some(rest) => Some(seq![row] + rest),
            None => None,
        }
    }
}

/// Flatten a list of sibling modules in order.
pub open spec fn flatten_list(
    defs: Seq<(Seq<char>, JsonData)>,
    ids: Seq<Seq<char>>,
    depth: int,
    parent: Option<Seq<char>>,
    path: Seq<Seq<char>>,
) -> Option<Seq<RowData>>
    decreases defs.len() - path.len(), ids.len(), 1int,
{
    if ids.len() == 0 {
        Some(Seq::empty())
    } else {
        match flatten_one(defs, ids[0], depth, parent, path) {
            Some(head) => match flatten_list(defs, ids.skip(1), depth, parent, path) {
                Some(rest) => Some(head + rest),
                None => None,
            },
            None => None,
        }
    }
}

/// Flatten one slot's modules from the top level.
pub open spec fn flatten_slot(
    defs: Seq<(Seq<char>, JsonData)>,
    slot_ids: Seq<Seq<char>>,
) -> Option<Seq<RowData>> {
    flatten_list(defs, slot_ids, 0, None, Seq::empty())
}

// ---------------------------------------------------------------------
// Regrouping: deriving the structure back from the rows
// ---------------------------------------------------------------------

/// The identifiers of the rows whose parent is `par`, in order.
pub open spec fn ids_with_parent(rows: Seq<RowData>, par: Option<Seq<char>>) -> Seq<Seq<char>>
    decreases rows.len(),
{
    if rows.len() == 0 {
        Seq::empty()
    } else {
        (if rows[0].parent == par {
            seq![rows[0].id]
        } else {
            Seq::<Seq<char>>::empty()
        }) + ids_with_parent(rows.skip(1), par)
    }
}

/// True when `id` is the identifier of some row.
pub open spec fn id_in_rows(rows: Seq<RowData>, id: Seq<char>) -> bool {
    exists|j: int| 0 <= j < rows.len() && (#[trigger] rows[j]).id == id
}

/// True when no two rows share an identifier.
pub open spec fn rows_distinct(rows: Seq<RowData>) -> bool {
    forall|p: int, q: int|
        0 <= p < q < rows.len() ==> (#[trigger] rows[p]).id != (#[trigger] rows[q]).id
}

/// True when every row's parent is `par` or the identifier of some row in
/// the sequence.
pub open spec fn parent_closed(rows: Seq<RowData>, par: Option<Seq<char>>) -> bool {
    forall|i: int|
        0 <= i < rows.len() ==> (#[trigger] rows[i]).parent == par || (rows[i].parent is Some
            && id_in_rows(rows, rows[i].parent->0))
}

/// Selecting by parent distributes over concatenation.
pub proof fn lemma_iwp_concat(a: Seq<RowData>, b: Seq<RowData>, par: Option<Seq<char>>)
    ensures
        ids_with_parent(a + b, par) == ids_with_parent(a, par) + ids_with_parent(b, par),
    decreases a.len(),
{
    if a.len() == 0 {
        assert(a + b =~= b);
        assert(ids_with_parent(a, par) + ids_with_parent(b, par) =~= ids_with_parent(b, par));
    } else {
        assert((a + b)[0] == a[0]);
        assert((a + b).skip(1) =~= a.skip(1) + b);
        lemma_iwp_concat(a.skip(1), b, par);
        if a[0].parent == par {
            assert(seq![a[0].id] + (ids_with_parent(a.skip(1), par) + ids_with_parent(b, par))
                =~= (seq![a[0].id] + ids_with_parent(a.skip(1), par)) + ids_with_parent(
                b,
                par,
            ));
        } else {
            assert(ids_with_parent(a + b, par) =~= ids_with_parent(a, par) + ids_with_parent(
                b,
                par,
            ));
        }
    }
}

/// No row bears parent `par`, so selection by `par` is empty.
pub proof fn lemma_iwp_empty(rows: Seq<RowData>, par: Option<Seq<char>>)
    requires
        forall|i: int| 0 <= i < rows.len() ==> (#[trigger] rows[i]).parent != par,
    ensures
        ids_with_parent(rows, par) == Seq::<Seq<char>>::empty(),
    decreases rows.len(),
{
    if rows.len() > 0 {
        lemma_iwp_empty(rows.skip(1), par);
        assert(ids_with_parent(rows, par) =~= Seq::<Seq<char>>::empty());
    }
}

} // verus!

verus! {

/// Selection from a single row.
pub proof fn lemma_iwp_single(r: RowData, par: Option<Seq<char>>)
    ensures
        ids_with_parent(seq![r], par) == if r.parent == par {
            seq![r.id]
        } else {
            Seq::<Seq<char>>::empty()
        },
{
    let s = seq![r];
    assert(s.skip(1) =~= Seq::<RowData>::empty());
    assert(ids_with_parent(s.skip(1), par) == Seq::<Seq<char>>::empty());
    if r.parent == par {
        assert(ids_with_parent(s, par) =~= seq![r.id]);
    } else {
        assert(ids_with_parent(s, par) =~= Seq::<Seq<char>>::empty());
    }
}

/// What flattening one module yields: its own row first; the rows select
/// back, by parent, into exactly this module and each group's children;
/// and every parent named is the given one or a row of the result.
pub proof fn lemma_flatten_one_regroup(
    defs: Seq<(Seq<char>, JsonData)>,
    id: Seq<char>,
    depth: int,
    parent: Option<Seq<char>>,
    path: Seq<Seq<char>>,
    rows: Seq<RowData>,
)
    requires
        flatten_one(defs, id, depth, parent, path) == Some(rows),
        rows_distinct(rows),
        forall|k: int| 0 <= k < path.len() ==> !id_in_rows(rows, #[trigger] path[k]),
        parent matches Some(p) ==> path.contains(p),
    ensures
        rows.len() >= 1,
        rows[0] == (RowData { id, depth, parent }),
        ids_with_parent(rows, parent) == seq![id],
        forall|i: int|
            0 <= i < rows.len() ==> ids_with_parent(rows, Some((#[trigger] rows[i]).id))
                == child_ids(defs, rows[i].id),
        parent_closed(rows, parent),
    decreases defs.len() - path.len(), 0int, 0int,
{
    let row = RowData { id, depth, parent };
    let kids = child_ids(defs, id);
    if kids.len() == 0 {
        assert(rows =~= seq![row]);
        lemma_iwp_single(row, parent);
        assert(ids_with_parent(rows, parent) == seq![id]);
        assert forall|i: int|
            0 <= i < rows.len() implies ids_with_parent(rows, Some((#[trigger] rows[i]).id))
            == child_ids(defs, rows[i].id) by {
            assert(rows[i] == row);
            assert(row.parent != Some(id)) by {
                if parent == Some(id) {
                    assert(path.contains(id));
                    let k = choose|k: int| 0 <= k < path.len() && path[k] == id;
                    assert(id_in_rows(rows, path[k])) by {
                        assert(rows[0].id == id);
                    }
                }
            }
            lemma_iwp_single(row, Some(id));
            assert(ids_with_parent(rows, Some(id)) == Seq::<Seq<char>>::empty());
        }
    } else {
        let sub = flatten_list(defs, kids, depth + 1, Some(id), path.push(id))->Some_0;
        assert(rows == seq![row] + sub);
        assert(rows[0] == row);
        // conditions for the sub-list
        assert(rows_distinct(sub)) by {
            assert forall|p: int, q: int|
                0 <= p < q < sub.len() implies (#[trigger] sub[p]).id != (
            #[trigger] sub[q]).id by {
                assert(sub[p] == rows[p + 1]);
                assert(sub[q] == rows[q + 1]);
            }
        }
        assert forall|k: int|
            0 <= k < path.push(id).len() implies !id_in_rows(sub, #[trigger] path.push(id)[k]) by {
            let x = path.push(id)[k];
            if id_in_rows(sub, x) {
                let j = choose|j: int| 0 <= j < sub.len() && (#[trigger] sub[j]).id == x;
                assert(sub[j] == rows[j + 1]);
                if k < path.len() {
                    assert(id_in_rows(rows, path[k]));
                } else {
                    assert(x == id);
                    assert(rows[0].id == id);
                    assert(rows[j + 1].id == id);
                }
            }
        }
        assert(path.push(id).contains(id)) by {
            assert(path.push(id)[path.len() as int] == id);
        }
        lemma_flatten_list_regroup(defs, kids, depth + 1, Some(id), path.push(id), sub);

        // the head row is the only one with the given parent
        assert(row.parent != Some(id)) by {
            if parent == Some(id) {
                assert(path.contains(id));
            }
        }
        lemma_iwp_concat(seq![row], sub, parent);
        lemma_iwp_single(row, parent);
        assert(ids_with_parent(seq![row], parent) == seq![id]);
        assert(ids_with_parent(sub, parent) =~= Seq::<Seq<char>>::empty()) by {
            assert forall|i: int| 0 <= i < sub.len() implies (#[trigger] sub[i]).parent
                != parent by {
                if sub[i].parent == parent {
                    assert(sub[i].parent == Some(id) || (sub[i].parent is Some && id_in_rows(
                        sub,
                        sub[i].parent->0,
                    )));
                    match parent {
                        Some(p) => {
                            assert(path.contains(p));
                            let k = choose|k: int| 0 <= k < path.len() && path[k] == p;
                            if sub[i].parent == Some(id) {
                                assert(p == id);
                                assert(path.contains(id));
                            } else {
                                assert(id_in_rows(sub, p));
                                let j = choose|j: int|
                                    0 <= j < sub.len() && (#[trigger] sub[j]).id == p;
                                assert(rows[j + 1] == sub[j]);
                                assert(id_in_rows(rows, p));
                                assert(path.push(id)[k] == p);
                            }
                        },
                        None => {},
                    }
                }
            }
            lemma_iwp_empty(sub, parent);
        }
        assert(ids_with_parent(rows, parent) =~= seq![id]);

        // group children select back, for the head and for every subrow
        assert forall|i: int|
            0 <= i < rows.len() implies ids_with_parent(rows, Some((#[trigger] rows[i]).id))
            == child_ids(defs, rows[i].id) by {
            lemma_iwp_concat(seq![row], sub, Some(rows[i].id));
            if i == 0 {
                lemma_iwp_single(row, Some(id));
                assert(ids_with_parent(seq![row], Some(id)) == Seq::<Seq<char>>::empty());
                assert(ids_with_parent(sub, Some(id)) == kids);
                assert(ids_with_parent(rows, Some(id)) =~= kids);
            } else {
                assert(rows[i] == sub[i - 1]);
                let g = rows[i].id;
                assert(ids_with_parent(sub, Some(g)) == child_ids(defs, g));
                assert(row.parent != Some(g)) by {
                    if parent == Some(g) {
                        let k = choose|k: int| 0 <= k < path.len() && path[k] == g;
                        assert(!id_in_rows(rows, path[k]));
                        assert(rows[i].id == g);
                    }
                }
                lemma_iwp_single(row, Some(g));
                assert(ids_with_parent(seq![row], Some(g)) == Seq::<Seq<char>>::empty());
                assert(ids_with_parent(rows, Some(g)) =~= child_ids(defs, g));
            }
        }

        // every parent named is the given one or a row of the result
        assert forall|i: int|
            0 <= i < rows.len() implies (#[trigger] rows[i]).parent == parent || (
        rows[i].parent is Some && id_in_rows(rows, rows[i].parent->0)) by {
            if i > 0 {
                assert(rows[i] == sub[i - 1]);
                if sub[i - 1].parent != Some(id) && sub[i - 1].parent != parent {
                    assert(id_in_rows(sub, sub[i - 1].parent->0));
                    let j = choose|j: int|
                        0 <= j < sub.len() && (#[trigger] sub[j]).id == sub[i - 1].parent->0;
                    assert(rows[j + 1] == sub[j]);
                    assert(id_in_rows(rows, rows[i].parent->0));
                } else if sub[i - 1].parent == Some(id) {
                    assert(rows[0].id == id);
                    assert(id_in_rows(rows, id));
                }
            }
        }
    }
}

/// What flattening a sibling list yields, stated as for one module.
pub proof fn lemma_flatten_list_regroup(
    defs: Seq<(Seq<char>, JsonData)>,
    ids: Seq<Seq<char>>,
    depth: int,
    parent: Option<Seq<char>>,
    path: Seq<Seq<char>>,
    rows: Seq<RowData>,
)
    requires
        flatten_list(defs, ids, depth, parent, path) == Some(rows),
        rows_distinct(rows),
        forall|k: int| 0 <= k < path.len() ==> !id_in_rows(rows, #[trigger] path[k]),
        parent matches Some(p) ==> path.contains(p),
    ensures
        ids_with_parent(rows, parent) == ids,
        forall|i: int|
            0 <= i < rows.len() ==> ids_with_parent(rows, Some((#[trigger] rows[i]).id))
                == child_ids(defs, rows[i].id),
        parent_closed(rows, parent),
    decreases defs.len() - path.len(), ids.len(), 1int,
{
    if ids.len() == 0 {
        assert(rows =~= Seq::<RowData>::empty());
        assert(ids_with_parent(rows, parent) =~= ids);
    } else {
        let head = flatten_one(defs, ids[0], depth, parent, path)->Some_0;
        let rest = flatten_list(defs, ids.skip(1), depth, parent, path)->Some_0;
        assert(rows == head + rest);
        assert(rows_distinct(head) && rows_distinct(rest)) by {
            assert forall|p: int, q: int|
                0 <= p < q < head.len() implies (#[trigger] head[p]).id != (
            #[trigger] head[q]).id by {
                assert(head[p] == rows[p]);
                assert(head[q] == rows[q]);
            }
            assert forall|p: int, q: int|
                0 <= p < q < rest.len() implies (#[trigger] rest[p]).id != (
            #[trigger] rest[q]).id by {
                assert(rest[p] == rows[head.len() + p]);
                assert(rest[q] == rows[head.len() + q]);
            }
        }
        assert forall|k: int|
            0 <= k < path.len() implies !id_in_rows(head, #[trigger] path[k]) && !id_in_rows(
            rest,
            path[k],
        ) by {
            if id_in_rows(head, path[k]) {
                let j = choose|j: int| 0 <= j < head.len() && (#[trigger] head[j]).id == path[k];
                assert(rows[j] == head[j]);
                assert(id_in_rows(rows, path[k]));
            }
            if id_in_rows(rest, path[k]) {
                let j = choose|j: int| 0 <= j < rest.len() && (#[trigger] rest[j]).id == path[k];
                assert(rows[head.len() + j] == rest[j]);
                assert(id_in_rows(rows, path[k]));
            }
        }
        lemma_flatten_one_regroup(defs, ids[0], depth, parent, path, head);
        lemma_flatten_list_regroup(defs, ids.skip(1), depth, parent, path, rest);

        // the identifiers with the given parent are the sibling list
        lemma_iwp_concat(head, rest, parent);
        assert(seq![ids[0]] + ids.skip(1) =~= ids);

        // cross terms vanish: a group of one part collects nothing from
        // the other
        assert forall|i: int|
            0 <= i < rows.len() implies ids_with_parent(rows, Some((#[trigger] rows[i]).id))
            == child_ids(defs, rows[i].id) by {
            let g = rows[i].id;
            lemma_iwp_concat(head, rest, Some(g));
            if i < head.len() {
                assert(rows[i] == head[i]);
                assert(ids_with_parent(head, Some(g)) == child_ids(defs, g));
                assert forall|m: int| 0 <= m < rest.len() implies (#[trigger] rest[m]).parent
                    != Some(g) by {
                    if rest[m].parent == Some(g) {
                        assert(rest[m].parent == parent || (rest[m].parent is Some
                            && id_in_rows(rest, rest[m].parent->0)));
                        if rest[m].parent == parent {
                            let p = parent->0;
                            assert(path.contains(p));
                            let k = choose|k: int| 0 <= k < path.len() && path[k] == p;
                            assert(!id_in_rows(head, path[k]));
                            assert(head[i].id == g);
                        } else {
                            assert(id_in_rows(rest, g));
                            let j = choose|j: int|
                                0 <= j < rest.len() && (#[trigger] rest[j]).id == g;
                            assert(rows[head.len() + j] == rest[j]);
                            assert(rows[i].id == rows[head.len() + j].id);
                        }
                    }
                }
                lemma_iwp_empty(rest, Some(g));
                assert(ids_with_parent(rows, Some(g)) =~= child_ids(defs, g));
            } else {
                assert(rows[i] == rest[i - head.len()]);
                assert(ids_with_parent(rest, Some(g)) == child_ids(defs, g));
                assert forall|m: int| 0 <= m < head.len() implies (#[trigger] head[m]).parent
                    != Some(g) by {
                    if head[m].parent == Some(g) {
                        assert(head[m].parent == parent || (head[m].parent is Some
                            && id_in_rows(head, head[m].parent->0)));
                        if head[m].parent == parent {
                            let p = parent->0;
                            assert(path.contains(p));
                            let k = choose|k: int| 0 <= k < path.len() && path[k] == p;
                            assert(!id_in_rows(rest, path[k]));
                            assert(rest[i - head.len()].id == g);
                        } else {
                            assert(id_in_rows(head, g));
                            let j = choose|j: int|
                                0 <= j < head.len() && (#[trigger] head[j]).id == g;
                            assert(rows[j] == head[j]);
                            assert(rows[i].id == rows[j].id);
                            assert(j < i);
                        }
                    }
                }
                lemma_iwp_empty(head, Some(g));
                assert(ids_with_parent(rows, Some(g)) =~= child_ids(defs, g));
            }
        }

        // parents stay within the result
        assert forall|i: int|
            0 <= i < rows.len() implies (#[trigger] rows[i]).parent == parent || (
        rows[i].parent is Some && id_in_rows(rows, rows[i].parent->0)) by {
            if i < head.len() {
                assert(rows[i] == head[i]);
                if head[i].parent != parent && head[i].parent is Some && id_in_rows(
                    head,
                    head[i].parent->0,
                ) {
                    let j = choose|j: int|
                        0 <= j < head.len() && (#[trigger] head[j]).id == head[i].parent->0;
                    assert(rows[j] == head[j]);
                    assert(id_in_rows(rows, rows[i].parent->0));
                }
            } else {
                assert(rows[i] == rest[i - head.len()]);
                if rest[i - head.len()].parent != parent && rest[i - head.len()].parent is Some
                    && id_in_rows(rest, rest[i - head.len()].parent->0) {
                    let j = choose|j: int|
                        0 <= j < rest.len() && (#[trigger] rest[j]).id == rest[i
                            - head.len()].parent->0;
                    assert(rows[head.len() + j] == rest[j]);
                    assert(id_in_rows(rows, rows[i].parent->0));
                }
            }
        }
    }
}

/// Law: flattening a slot and regrouping the rows by parent reconstructs
/// the slot's top-level order and every group's child list, whenever the
/// traversal succeeds and no identifier is displayed twice.
pub proof fn lemma_tree_round_trip(
    defs: Seq<(Seq<char>, JsonData)>,
    slot_ids: Seq<Seq<char>>,
    rows: Seq<RowData>,
)
    requires
        flatten_slot(defs, slot_ids) == Some(rows),
        rows_distinct(rows),
    ensures
        ids_with_parent(rows, None) == slot_ids,
        forall|i: int|
            0 <= i < rows.len() ==> ids_with_parent(rows, Some((#[trigger] rows[i]).id))
                == child_ids(defs, rows[i].id),
{
    lemma_flatten_list_regroup(defs, slot_ids, 0, None, Seq::empty(), rows);
}

} // verus!

verus! {

/// The model of an optional identifier.
pub open spec fn opt_text_view(p: Option<Vec<char>>) -> Option<Seq<char>> {
    match p {
        Some(t) => Some(t@),
        None => None,
    }
}

/// The child identifiers of a module, executable.
pub(crate) fn child_ids_exec(defs: &Vec<(Vec<char>, JsonValue)>, id: &Vec<char>) -> (r: Vec<
    Vec<char>,
>)
    ensures
        crate::document::texts_of(r@) == child_ids(crate::json::entry_views_of(defs@), id@),
{
    let ghost model = crate::json::entry_views_of(defs@);
    let marker = crate::text::text_of("group/");
    let empty_ids: Vec<Vec<char>> = Vec::new();
    proof {
        assert(crate::document::texts_of(empty_ids@) =~= Seq::<Seq<char>>::empty());
    }
    if !crate::text::text_starts_with(id, &marker) {
        return empty_ids;
    }
    match crate::json::obj_find(defs, id) {
        Some(v) => match v {
            JsonValue::Obj(entries) => {
                let mkey = crate::text::text_of("modules");
                match crate::json::obj_find(entries, &mkey) {
                    Some(m) => match m {
                        JsonValue::Arr(items) => match crate::document::ids_from_json(items) {
                            Ok(ids) => ids,
                            Err(_) => empty_ids,
                        },
                        _ => empty_ids,
                    },
                    None => empty_ids,
                }
            },
            _ => empty_ids,
        },
        None => empty_ids,
    }
}

/// A copy of an optional identifier.
fn copy_opt_text(p: &Option<Vec<char>>) -> (r: Option<Vec<char>>)
    ensures
        opt_text_view(r) == opt_text_view(*p),
{
    match p {
        Some(t) => Some(crate::json::copy_text(t)),
        None => None,
    }
}

/// A copy of an identifier list.
pub(crate) fn copy_texts(ts: &Vec<Vec<char>>) -> (r: Vec<Vec<char>>)
    ensures
        crate::document::texts_of(r@) == crate::document::texts_of(ts@),
{
    let mut out: Vec<Vec<char>> = Vec::new();
    let mut i: usize = 0;
    while i < ts.len()
        invariant
            i <= ts.len(),
            out@.len() == i,
            forall|j: int| 0 <= j < i ==> #[trigger] out@[j]@ == ts@[j]@,
        decreases ts.len() - i,
    {
        let c = crate::json::copy_text(&ts[i]);
        let ghost cv = c@;
        out.push(c);
        proof {
            assert(out@[i as int]@ == cv);
        }
        i += 1;
    }
    proof {
        assert(crate::document::texts_of(out@) =~= crate::document::texts_of(ts@));
    }
    out
}

/// Flatten one module into `out`, appending its row and its descendants.
fn flatten_one_exec(
    defs: &Vec<(Vec<char>, JsonValue)>,
    id: &Vec<char>,
    depth: usize,
    parent: &Option<Vec<char>>,
    path: &Vec<Vec<char>>,
    out: &mut Vec<ModuleRow>,
) -> (r: Result<(), TreeError>)
    requires
        depth == path@.len(),
    ensures
        match flatten_one(
            crate::json::entry_views_of(defs@),
            id@,
            depth as int,
            opt_text_view(*parent),
            crate::document::texts_of(path@),
        ) {
            Some(rows) => r is Ok && row_views(final(out)@) == row_views(old(out)@) + rows,
            None => r is Err,
        },
    decreases crate::json::entry_views_of(defs@).len() - path@.len(), 0int,
{
    broadcast use crate::json::lemma_entry_views_of;

    let ghost model = crate::json::entry_views_of(defs@);
    let ghost pathv = crate::document::texts_of(path@);
    let ghost parentv = opt_text_view(*parent);
    let ghost rowv = RowData { id: id@, depth: depth as int, parent: parentv };
    let kids = child_ids_exec(defs, id);
    let row = ModuleRow { id: crate::json::copy_text(id), depth, parent: copy_opt_text(parent) };
    proof {
        assert(row@ == rowv);
    }
    if kids.len() == 0 {
        let ghost oldout = out@;
        out.push(row);
        proof {
            assert(crate::document::texts_of(kids@).len() == 0);
            assert(out@[out@.len() - 1]@ == rowv);
            assert(row_views(out@) =~= row_views(oldout) + seq![rowv]);
        }
        return Ok(());
    }
    // guard against a group that refers to one of its ancestors
    let mut k: usize = 0;
    while k < path.len()
        invariant
            k <= path.len(),
            pathv == crate::document::texts_of(path@),
            model == crate::json::entry_views_of(defs@),
            crate::document::texts_of(kids@) == child_ids(model, id@),
            kids@.len() > 0,
            depth == path@.len(),
            parentv == opt_text_view(*parent),
            forall|j: int| 0 <= j < k ==> #[trigger] path@[j]@ != id@,
        decreases path.len() - k,
    {
        if crate::text::text_eq(&path[k], id) {
            proof {
                assert(pathv[k as int] == id@);
                assert(pathv.contains(id@));
            }
            return Err(TreeError::CyclicStructure);
        }
        k += 1;
    }
    proof {
        assert(!pathv.contains(id@)) by {
            if pathv.contains(id@) {
                let w = choose|w: int| 0 <= w < pathv.len() && pathv[w] == id@;
                assert(path@[w]@ == id@);
            }
        }
    }
    if path.len() >= defs.len() {
        proof {
            assert(pathv.len() >= model.len());
        }
        return Err(TreeError::CyclicStructure);
    }
    let ghost oldout = out@;
    out.push(row);
    proof {
        assert(row_views(out@) =~= row_views(oldout) + seq![rowv]);
    }
    let mut path2 = copy_texts(path);
    path2.push(crate::json::copy_text(id));
    let ghost path2v = crate::document::texts_of(path2@);
    proof {
        assert(path2v =~= pathv.push(id@));
    }
    let parent2 = Some(crate::json::copy_text(id));
    let ghost kidsv = crate::document::texts_of(kids@);
    let ghost mut done: Seq<RowData> = Seq::empty();
    let mut j: usize = 0;
    proof {
        assert(kidsv.skip(0) =~= kidsv);
        assert(row_views(out@) =~= row_views(oldout) + seq![rowv] + done);
    }
    while j < kids.len()
        invariant
            j <= kids.len(),
            depth == path@.len(),
            depth < usize::MAX,
            kidsv == crate::document::texts_of(kids@),
            kidsv.len() == kids@.len(),
            kidsv == child_ids(model, id@),
            kidsv.len() > 0,
            pathv == crate::document::texts_of(path@),
            !pathv.contains(id@),
            path2v == crate::document::texts_of(path2@),
            path2v.len() == depth + 1,
            path2v == pathv.push(id@),
            model == crate::json::entry_views_of(defs@),
            pathv.len() < model.len(),
            parentv == opt_text_view(*parent),
            opt_text_view(parent2) == Some(id@),
            row_views(out@) == row_views(oldout) + seq![rowv] + done,
            match flatten_list(model, kidsv.skip(j as int), depth + 1, Some(id@), path2v) {
                Some(rest) => flatten_list(model, kidsv, depth + 1, Some(id@), path2v) == Some(
                    done + rest,
                ),
                None => flatten_list(model, kidsv, depth + 1, Some(id@), path2v) is None,
            },
        decreases kids.len() - j,
    {
        proof {
            assert(kidsv.skip(j as int)[0] == kidsv[j as int]);
            assert(kidsv.skip(j as int).skip(1) =~= kidsv.skip(j + 1));
            assert(kids@[j as int]@ == kidsv[j as int]);
        }
        let ghost outbefore = out@;
        match flatten_one_exec(defs, &kids[j], depth + 1, &parent2, &path2, out) {
            Ok(()) => {},
            Err(e) => {
                proof {
                    assert(flatten_list(model, kidsv.skip(j as int), depth + 1, Some(id@),
                        path2v) is None);
                }
                return Err(e);
            },
        }
        proof {
            let sub = flatten_one(model, kidsv[j as int], depth + 1, Some(id@),
                path2v)->Some_0;
            let ghost done2 = done;
            done = done + sub;
            assert(row_views(out@) == row_views(outbefore) + sub);
            assert(row_views(out@) =~= row_views(oldout) + seq![rowv] + done);
            match flatten_list(model, kidsv.skip(j + 1), depth + 1, Some(id@), path2v) {
                Some(rest) => {
                    assert(flatten_list(model, kidsv.skip(j as int), depth + 1, Some(id@),
                        path2v) == Some(sub + rest));
                    assert(done2 + (sub + rest) =~= done + rest);
                },
                None => {
                    assert(flatten_list(model, kidsv.skip(j as int), depth + 1, Some(id@),
                        path2v) is None);
                },
            }
        }
        j += 1;
    }
    proof {
        let done2 = done;
        assert(kidsv.skip(j as int).len() == 0);
        assert(flatten_list(model, kidsv.skip(j as int), depth + 1, Some(id@), path2v)
            == Some(Seq::<RowData>::empty()));
        assert(done2 + Seq::<RowData>::empty() =~= done2);
        let rest = flatten_list(model, kidsv, depth + 1, Some(id@), path2v)->Some_0;
        assert(rest == done2);
        assert(flatten_one(model, id@, depth as int, parentv, pathv) == Some(
            seq![rowv] + rest,
        ));
        assert(row_views(out@) =~= row_views(oldout) + (seq![rowv] + rest));
    }
    Ok(())
}

/// Flatten one slot's modules into depth-tagged display rows.
pub fn flatten_slot_rows(defs: &Vec<(Vec<char>, JsonValue)>, slot_ids: &Vec<Vec<char>>) -> (r:
    Result<Vec<ModuleRow>, TreeError>)
    ensures
        match flatten_slot(
            crate::json::entry_views_of(defs@),
            crate::document::texts_of(slot_ids@),
        ) {
            Some(rows) => r is Ok && row_views(r->Ok_0@) == rows,
            None => r is Err,
        },
{
    broadcast use crate::json::lemma_entry_views_of;

    let ghost model = crate::json::entry_views_of(defs@);
    let ghost idsv = crate::document::texts_of(slot_ids@);
    let empty_path: Vec<Vec<char>> = Vec::new();
    proof {
        assert(crate::document::texts_of(empty_path@) =~= Seq::<Seq<char>>::empty());
    }
    let mut out: Vec<ModuleRow> = Vec::new();
    let ghost mut done: Seq<RowData> = Seq::empty();
    let mut j: usize = 0;
    proof {
        assert(idsv.skip(0) =~= idsv);
        assert(row_views(out@) =~= done);
    }
    while j < slot_ids.len()
        invariant
            j <= slot_ids.len(),
            idsv == crate::document::texts_of(slot_ids@),
            idsv.len() == slot_ids@.len(),
            model == crate::json::entry_views_of(defs@),
            crate::document::texts_of(empty_path@) == Seq::<Seq<char>>::empty(),
            empty_path@.len() == 0,
            row_views(out@) == done,
            match flatten_list(model, idsv.skip(j as int), 0, None, Seq::empty()) {
                Some(rest) => flatten_list(model, idsv, 0, None, Seq::empty()) == Some(
                    done + rest,
                ),
                None => flatten_list(model, idsv, 0, None, Seq::empty()) is None,
            },
        decreases slot_ids.len() - j,
    {
        proof {
            assert(idsv.skip(j as int)[0] == idsv[j as int]);
            assert(idsv.skip(j as int).skip(1) =~= idsv.skip(j + 1));
            assert(slot_ids@[j as int]@ == idsv[j as int]);
        }
        let ghost outbefore = out@;
        let none_parent: Option<Vec<char>> = None;
        match flatten_one_exec(defs, &slot_ids[j], 0, &none_parent, &empty_path, &mut out) {
            Ok(()) => {},
            Err(e) => {
                proof {
                    assert(flatten_list(model, idsv.skip(j as int), 0, None, Seq::empty())
                        is None);
                }
                return Err(e);
            },
        }
        proof {
            let sub = flatten_one(model, idsv[j as int], 0, None, Seq::empty())->Some_0;
            let ghost done2 = done;
            done = done + sub;
            assert(row_views(out@) == row_views(outbefore) + sub);
            assert(row_views(out@) =~= done);
            match flatten_list(model, idsv.skip(j + 1), 0, None, Seq::empty()) {
                Some(rest) => {
                    assert(flatten_list(model, idsv.skip(j as int), 0, None, Seq::empty())
                        == Some(sub + rest));
                    assert(done2 + (sub + rest) =~= done + rest);
                },
                None => {
                    assert(flatten_list(model, idsv.skip(j as int), 0, None, Seq::empty())
                        is None);
                },
            }
        }
        j += 1;
    }
    proof {
        let done2 = done;
        assert(idsv.skip(j as int).len() == 0);
        assert(flatten_list(model, idsv.skip(j as int), 0, None, Seq::empty()) == Some(Seq::<
            RowData,
        >::empty()));
        assert(done2 + Seq::<RowData>::empty() =~= done2);
    }
    Ok(out)
}

} // verus!
