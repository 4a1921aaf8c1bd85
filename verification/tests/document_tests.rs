use waybarconf::codec::ParseError;
use waybarconf::document::{Slot, WaybarConfig, WaybarProfile};
use waybarconf::json::JsonValue;

fn t(s: &str) -> Vec<char> {
    s.chars().collect()
}

fn s(v: &Vec<char>) -> String {
    v.iter().collect()
}

fn names(ids: &Vec<Vec<char>>) -> Vec<String> {
    ids.iter().map(|x| x.iter().collect()).collect()
}

#[test]
fn config_from_text_reads_slots_and_definitions() {
    let cfg = WaybarConfig::from_text(
        &t("{\"modules-left\": [\"clock\"], \"modules-right\": [\"cpu\", \"memory\"], \
            \"clock\": {\"format\": \"%H:%M\"}}"),
    )
    .expect("the document must load");
    assert_eq!(names(&cfg.modules_left), ["clock"]);
    assert!(cfg.modules_center.is_empty());
    assert_eq!(names(&cfg.modules_right), ["cpu", "memory"]);
    assert_eq!(cfg.module_definitions.len(), 1);
    assert_eq!(s(&cfg.module_definitions[0].0), "clock");
}

#[test]
fn config_from_text_accepts_comments() {
    let cfg = WaybarConfig::from_text(
        &t("{\n// the layout\n\"modules-left\": [\"clock\"] /* done */\n}"),
    )
    .expect("the commented document must load");
    assert_eq!(names(&cfg.modules_left), ["clock"]);
}

#[test]
fn config_from_text_rejects_bad_slot() {
    assert!(matches!(
        WaybarConfig::from_text(&t("{\"modules-left\": \"clock\"}")),
        Err(ParseError::Malformed)
    ));
    assert!(matches!(
        WaybarConfig::from_text(&t("{\"modules-left\": [1]}")),
        Err(ParseError::Malformed)
    ));
}

#[test]
fn config_from_text_rejects_duplicate_definitions() {
    assert!(matches!(
        WaybarConfig::from_text(&t("{\"clock\": {}, \"clock\": {}}")),
        Err(ParseError::Malformed)
    ));
}

#[test]
fn config_save_drops_empty_identifiers() {
    let mut cfg = WaybarConfig {
        modules_left: vec![t("clock"), t(""), t("cpu")],
        modules_center: vec![],
        modules_right: vec![t("")],
        module_definitions: vec![],
    };
    let text = cfg.save_text();
    let back = WaybarConfig::from_text(&text).expect("the saved text must load");
    assert_eq!(names(&back.modules_left), ["clock", "cpu"]);
    assert!(back.modules_right.is_empty());
    cfg.modules_center.push(t("tray"));
    let text2 = cfg.save_text();
    let back2 = WaybarConfig::from_text(&text2).expect("the saved text must load");
    assert_eq!(names(&back2.modules_center), ["tray"]);
}

#[test]
fn config_save_load_round_trip() {
    let source_text = "{\"modules-left\": [\"custom/launcher\", \"wlr/taskbar\"], \
                    \"modules-center\": [\"clock\"], \
                    \"modules-right\": [\"cpu\"], \
                    \"clock\": {\"format\": \"{:%I:%M %p}\", \"tooltip\": true}, \
                    \"cpu\": {\"interval\": 5}}";
    let cfg = WaybarConfig::from_text(&t(source_text)).expect("load");
    let saved = cfg.save_text();
    let back = WaybarConfig::from_text(&saved).expect("reload");
    assert_eq!(names(&back.modules_left), names(&cfg.modules_left));
    assert_eq!(names(&back.modules_center), names(&cfg.modules_center));
    assert_eq!(names(&back.modules_right), names(&cfg.modules_right));
    assert_eq!(back.module_definitions.len(), cfg.module_definitions.len());
    assert_eq!(s(&back.save_text()), s(&saved));
}

#[test]
fn profile_save_load_round_trip() {
    let profile = WaybarProfile {
        config: WaybarConfig {
            modules_left: vec![t("clock")],
            modules_center: vec![],
            modules_right: vec![t("cpu")],
            module_definitions: vec![(
                t("clock"),
                JsonValue::Obj(vec![(t("format"), JsonValue::Str(t("%H:%M")))]),
            )],
        },
        style_vars: vec![(t("bar_bg"), t("#1e1e2e")), (t("spacing"), t("8px"))],
        layout_css: t("#clock { color: red; }\n"),
    };
    let saved = profile.save_text();
    let back = WaybarProfile::from_text(&saved).expect("the saved profile must load");
    assert_eq!(names(&back.config.modules_left), ["clock"]);
    assert_eq!(names(&back.config.modules_right), ["cpu"]);
    assert_eq!(back.style_vars.len(), 2);
    assert_eq!(s(&back.style_vars[0].0), "bar_bg");
    assert_eq!(s(&back.style_vars[0].1), "#1e1e2e");
    assert_eq!(s(&back.style_vars[1].1), "8px");
    assert_eq!(s(&back.layout_css), "#clock { color: red; }\n");
    assert_eq!(back.config.module_definitions.len(), 1);
    // a second save is byte-identical
    assert_eq!(s(&back.save_text()), s(&saved));
}

#[test]
fn profile_from_text_falls_back_to_bare_config() {
    let back = WaybarProfile::from_text(&t("{\"modules-left\": [\"clock\"]}"))
        .expect("a bare document must load as a profile");
    assert_eq!(names(&back.config.modules_left), ["clock"]);
    assert!(back.style_vars.is_empty());
    assert!(back.layout_css.is_empty());
}

#[test]
fn property_edits() {
    let mut cfg = WaybarConfig {
        modules_left: vec![t("clock")],
        modules_center: vec![],
        modules_right: vec![],
        module_definitions: vec![],
    };
    cfg.set_property(&t("clock"), &t("format"), JsonValue::Str(t("%H")));
    assert_eq!(cfg.module_definitions.len(), 1);
    cfg.set_property(&t("clock"), &t("interval"), JsonValue::Num(t("5")));
    cfg.set_property(&t("clock"), &t("format"), JsonValue::Str(t("%H:%M")));
    match &cfg.module_definitions[0].1 {
        JsonValue::Obj(entries) => {
            assert_eq!(entries.len(), 2);
            assert_eq!(s(&entries[0].0), "format");
            match &entries[0].1 {
                JsonValue::Str(v) => assert_eq!(s(v), "%H:%M"),
                _ => panic!("expected a string"),
            }
        },
        _ => panic!("expected an object"),
    }
    cfg.remove_property(&t("clock"), &t("format"));
    match &cfg.module_definitions[0].1 {
        JsonValue::Obj(entries) => {
            assert_eq!(entries.len(), 1);
            assert_eq!(s(&entries[0].0), "interval");
        },
        _ => panic!("expected an object"),
    }
}

#[test]
fn rename_module_rewrites_slots_and_definition() {
    let mut cfg = WaybarConfig {
        modules_left: vec![t("custom/old"), t("clock")],
        modules_center: vec![t("custom/old")],
        modules_right: vec![],
        module_definitions: vec![
            (t("custom/old"), JsonValue::Obj(vec![(t("exec"), JsonValue::Str(t("x")))])),
            (t("clock"), JsonValue::Obj(vec![])),
        ],
    };
    cfg.rename_module(&t("custom/old"), &t("custom/new"));
    assert_eq!(names(&cfg.modules_left), ["custom/new", "clock"]);
    assert_eq!(names(&cfg.modules_center), ["custom/new"]);
    assert_eq!(cfg.module_definitions.len(), 2);
    assert_eq!(s(&cfg.module_definitions[0].0), "clock");
    assert_eq!(s(&cfg.module_definitions[1].0), "custom/new");
}

#[test]
fn add_and_delete_modules() {
    let mut cfg = WaybarConfig {
        modules_left: vec![],
        modules_center: vec![],
        modules_right: vec![],
        module_definitions: vec![],
    };
    cfg.add_module(Slot::Left, &t("cpu"));
    cfg.add_module(Slot::Left, &t("cpu"));
    assert_eq!(names(&cfg.modules_left), ["cpu", "cpu"]);
    assert_eq!(cfg.module_definitions.len(), 1);
    cfg.delete_from_slot(Slot::Left, &t("cpu"));
    assert_eq!(names(&cfg.modules_left), ["cpu"]);
    cfg.delete_from_slot(Slot::Left, &t("tray"));
    assert_eq!(names(&cfg.modules_left), ["cpu"]);
}

#[test]
fn add_default_property_fills_first_missing() {
    let mut cfg = WaybarConfig {
        modules_left: vec![t("cpu")],
        modules_center: vec![],
        modules_right: vec![],
        module_definitions: vec![(t("cpu"), JsonValue::Obj(vec![]))],
    };
    cfg.add_default_property(&t("cpu"));
    cfg.add_default_property(&t("cpu"));
    match &cfg.module_definitions[0].1 {
        JsonValue::Obj(entries) => {
            assert_eq!(entries.len(), 2);
            assert_eq!(s(&entries[0].0), "format");
            assert_eq!(s(&entries[1].0), "tooltip");
        },
        _ => panic!("expected an object"),
    }
    // a module without a definition object is left alone
    cfg.add_default_property(&t("ghost"));
    assert_eq!(cfg.module_definitions.len(), 1);
}
