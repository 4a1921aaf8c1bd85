use waybarconf::document::{Slot, WaybarConfig};
use waybarconf::json::JsonValue;
use waybarconf::mover::MoveError;
use waybarconf::tree::{flatten_slot_rows, ModuleRow, TreeError};

fn t(s: &str) -> Vec<char> {
    s.chars().collect()
}

fn s(v: &Vec<char>) -> String {
    v.iter().collect()
}

fn names(ids: &Vec<Vec<char>>) -> Vec<String> {
    ids.iter().map(|x| x.iter().collect()).collect()
}

fn group_def(children: &[&str]) -> JsonValue {
    JsonValue::Obj(vec![(
        t("modules"),
        JsonValue::Arr(children.iter().map(|c| JsonValue::Str(t(c))).collect()),
    )])
}

fn row_summary(rows: &Vec<ModuleRow>) -> Vec<(String, usize, Option<String>)> {
    rows.iter()
        .map(|r| (s(&r.id), r.depth, r.parent.as_ref().map(|p| s(p))))
        .collect()
}

#[test]
fn flatten_plain_slot() {
    let defs = vec![(t("clock"), JsonValue::Obj(vec![]))];
    let rows = flatten_slot_rows(&defs, &vec![t("clock"), t("cpu")]).expect("flatten");
    assert_eq!(
        row_summary(&rows),
        [
            ("clock".to_string(), 0, None),
            ("cpu".to_string(), 0, None),
        ]
    );
}

#[test]
fn flatten_nested_groups() {
    let defs = vec![
        (t("group/top"), group_def(&["a", "group/inner"])),
        (t("group/inner"), group_def(&["b", "c"])),
    ];
    let rows = flatten_slot_rows(&defs, &vec![t("group/top"), t("tray")]).expect("flatten");
    assert_eq!(
        row_summary(&rows),
        [
            ("group/top".to_string(), 0, None),
            ("a".to_string(), 1, Some("group/top".to_string())),
            ("group/inner".to_string(), 1, Some("group/top".to_string())),
            ("b".to_string(), 2, Some("group/inner".to_string())),
            ("c".to_string(), 2, Some("group/inner".to_string())),
            ("tray".to_string(), 0, None),
        ]
    );
}

#[test]
fn flatten_malformed_children_mean_none() {
    // a `modules` entry that is not an array of strings yields no children
    let defs = vec![
        (t("group/bad"), JsonValue::Obj(vec![(t("modules"), JsonValue::Num(t("3")))])),
        (t("group/mixed"), group_def(&[])),
    ];
    let rows =
        flatten_slot_rows(&defs, &vec![t("group/bad"), t("group/mixed")]).expect("flatten");
    assert_eq!(rows.len(), 2);
    assert_eq!(rows[0].depth, 0);
    assert_eq!(rows[1].depth, 0);
}

#[test]
fn flatten_rejects_cycles() {
    let defs = vec![
        (t("group/a"), group_def(&["group/b"])),
        (t("group/b"), group_def(&["group/a"])),
    ];
    assert!(matches!(
        flatten_slot_rows(&defs, &vec![t("group/a")]),
        Err(TreeError::CyclicStructure)
    ));
}

#[test]
fn regroup_recovers_structure() {
    // regrouping the rows by parent recovers the slot order and each
    // group's child list
    let defs = vec![
        (t("group/top"), group_def(&["a", "b"])),
    ];
    let slot = vec![t("clock"), t("group/top"), t("cpu")];
    let rows = flatten_slot_rows(&defs, &slot).expect("flatten");
    let top: Vec<String> =
        rows.iter().filter(|r| r.parent.is_none()).map(|r| s(&r.id)).collect();
    assert_eq!(top, ["clock", "group/top", "cpu"]);
    let children: Vec<String> = rows
        .iter()
        .filter(|r| r.parent.as_ref().map(|p| s(p)) == Some("group/top".to_string()))
        .map(|r| s(&r.id))
        .collect();
    assert_eq!(children, ["a", "b"]);
}

#[test]
fn move_between_slots() {
    let mut cfg = WaybarConfig {
        modules_left: vec![t("clock"), t("cpu")],
        modules_center: vec![t("tray")],
        modules_right: vec![],
        module_definitions: vec![],
    };
    cfg.move_module(&t("cpu"), Slot::Center, 0).expect("move");
    assert_eq!(names(&cfg.modules_left), ["clock"]);
    assert_eq!(names(&cfg.modules_center), ["cpu", "tray"]);
}

#[test]
fn move_past_the_end_appends() {
    let mut cfg = WaybarConfig {
        modules_left: vec![t("clock"), t("cpu")],
        modules_center: vec![],
        modules_right: vec![],
        module_definitions: vec![],
    };
    cfg.move_module(&t("clock"), Slot::Left, 99).expect("move");
    assert_eq!(names(&cfg.modules_left), ["cpu", "clock"]);
}

#[test]
fn move_to_next_position_is_noop() {
    // dropping a module on the row immediately after its own leaves
    // the order unchanged
    let mut cfg = WaybarConfig {
        modules_left: vec![t("clock"), t("cpu"), t("tray")],
        modules_center: vec![],
        modules_right: vec![],
        module_definitions: vec![],
    };
    // after removing "clock" the row at index 0 is "cpu": insert before it
    cfg.move_module(&t("clock"), Slot::Left, 0).expect("move");
    assert_eq!(names(&cfg.modules_left), ["clock", "cpu", "tray"]);
}

#[test]
fn move_into_group_child_list() {
    // a group holds a and b; moving a onto b's visual row puts a
    // immediately before b inside the group's child list
    let mut cfg = WaybarConfig {
        modules_left: vec![t("group/g"), t("clock")],
        modules_center: vec![],
        modules_right: vec![],
        module_definitions: vec![(t("group/g"), group_def(&["a", "b"]))],
    };
    // rows after removing "a": group/g (0), b (1), clock (2)
    cfg.move_module(&t("a"), Slot::Left, 1).expect("move");
    assert_eq!(names(&cfg.modules_left), ["group/g", "clock"]);
    match &cfg.module_definitions[0].1 {
        JsonValue::Obj(entries) => match &entries[0].1 {
            JsonValue::Arr(items) => {
                let kids: Vec<String> = items
                    .iter()
                    .map(|i| match i {
                        JsonValue::Str(x) => s(x),
                        _ => panic!("expected a string child"),
                    })
                    .collect();
                assert_eq!(kids, ["a", "b"]);
            },
            _ => panic!("expected the child array"),
        },
        _ => panic!("expected the group definition"),
    }
}

#[test]
fn move_onto_group_row_inserts_first() {
    let mut cfg = WaybarConfig {
        modules_left: vec![t("group/g"), t("clock")],
        modules_center: vec![],
        modules_right: vec![],
        module_definitions: vec![(t("group/g"), group_def(&["a"]))],
    };
    // rows after removing "clock": group/g (0), a (1)
    cfg.move_module(&t("clock"), Slot::Left, 0).expect("move");
    assert_eq!(names(&cfg.modules_left), ["group/g"]);
    match &cfg.module_definitions[0].1 {
        JsonValue::Obj(entries) => match &entries[0].1 {
            JsonValue::Arr(items) => {
                let kids: Vec<String> = items
                    .iter()
                    .map(|i| match i {
                        JsonValue::Str(x) => s(x),
                        _ => panic!("expected a string child"),
                    })
                    .collect();
                assert_eq!(kids, ["clock", "a"]);
            },
            _ => panic!("expected the child array"),
        },
        _ => panic!("expected the group definition"),
    }
}

#[test]
fn move_missing_module_fails_and_leaves_document() {
    let mut cfg = WaybarConfig {
        modules_left: vec![t("clock")],
        modules_center: vec![],
        modules_right: vec![],
        module_definitions: vec![],
    };
    assert!(matches!(
        cfg.move_module(&t("ghost"), Slot::Left, 0),
        Err(MoveError::NotFound)
    ));
    assert_eq!(names(&cfg.modules_left), ["clock"]);
}

#[test]
fn move_into_cyclic_groups_fails_and_leaves_document() {
    let mut cfg = WaybarConfig {
        modules_left: vec![t("group/a"), t("x")],
        modules_center: vec![],
        modules_right: vec![],
        module_definitions: vec![
            (t("group/a"), group_def(&["group/b"])),
            (t("group/b"), group_def(&["group/a"])),
        ],
    };
    assert!(matches!(
        cfg.move_module(&t("x"), Slot::Left, 0),
        Err(MoveError::CyclicStructure)
    ));
    assert_eq!(names(&cfg.modules_left), ["group/a", "x"]);
}
