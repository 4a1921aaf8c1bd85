use waybarconf::css;
use waybarconf::css::ensure_keyframes;
use waybarconf::json::JsonValue;
use waybarconf::style::{
    apply_palette, parse_style_vars, style_save_text, wallpaper_from_listing_text,
    wallpaper_from_query_text,
};

fn t(s: &str) -> Vec<char> {
    s.chars().collect()
}

fn s(v: &Vec<char>) -> String {
    v.iter().collect()
}

#[test]
fn set_on_empty_stylesheet_appends_block() {
    // an empty stylesheet gains exactly one new block
    let out = css::set(&t(""), &t("box"), &t(""), &t("color"), &t("#ff0000"));
    assert_eq!(s(&out), "\n#box {\n    color: #ff0000;\n}");
}

#[test]
fn set_then_get_returns_value() {
    // reading back a freshly written property, through the append,
    // insert and overwrite paths
    let empty = t("");
    let one = css::set(&empty, &t("box"), &t(""), &t("color"), &t("#ff0000"));
    assert_eq!(s(&css::get(&one, &t("box"), &t(""), &t("color")).expect("get")), "#ff0000");

    let two = css::set(&one, &t("box"), &t(""), &t("margin"), &t("4px"));
    assert_eq!(s(&css::get(&two, &t("box"), &t(""), &t("margin")).expect("get")), "4px");
    assert_eq!(s(&css::get(&two, &t("box"), &t(""), &t("color")).expect("get")), "#ff0000");

    let three = css::set(&two, &t("box"), &t(""), &t("color"), &t("#00ff00"));
    assert_eq!(s(&css::get(&three, &t("box"), &t(""), &t("color")).expect("get")), "#00ff00");
}

#[test]
fn set_empty_value_deletes_property() {
    // a property set to the empty value is gone
    let text = css::set(&t(""), &t("box"), &t(""), &t("color"), &t("#ff0000"));
    let cleared = css::set(&text, &t("box"), &t(""), &t("color"), &t(""));
    assert!(css::get(&cleared, &t("box"), &t(""), &t("color")).is_none());
    // clearing an absent property is a no-op
    let again = css::set(&cleared, &t("box"), &t(""), &t("color"), &t(""));
    assert_eq!(s(&again), s(&cleared));
}

#[test]
fn get_distinguishes_suffixed_selectors() {
    let base = css::set(&t(""), &t("box"), &t(""), &t("color"), &t("red"));
    let with_hover = css::set(&base, &t("box"), &t(":hover"), &t("color"), &t("blue"));
    assert_eq!(s(&css::get(&with_hover, &t("box"), &t(":hover"), &t("color")).expect("get")), "blue");
    assert_eq!(s(&css::get(&with_hover, &t("box"), &t(""), &t("color")).expect("get")), "red");
}

#[test]
fn separator_becomes_dash_in_selector() {
    let text = css::set(&t(""), &t("custom/launcher"), &t(""), &t("color"), &t("red"));
    assert!(s(&text).contains("#custom-launcher {"));
    assert_eq!(
        s(&css::get(&text, &t("custom/launcher"), &t(""), &t("color")).expect("get")),
        "red"
    );
}

#[test]
fn get_on_handwritten_block() {
    let sheet = "#clock, #cpu {\n  padding: 2px 4px;\n  color: @module_fg\n}\n";
    assert_eq!(s(&css::get(&t(sheet), &t("clock"), &t(""), &t("padding")).expect("get")), "2px 4px");
    // no trailing semicolon: the value comes back as written
    assert_eq!(s(&css::get(&t(sheet), &t("clock"), &t(""), &t("color")).expect("get")), "@module_fg");
    assert!(css::get(&t(sheet), &t("tray"), &t(""), &t("padding")).is_none());
}

#[test]
fn keyframes_bootstrap_is_idempotent() {
    let once = ensure_keyframes(&t("#box { color: red; }\n"));
    assert!(s(&once).contains("@keyframes blink-warning"));
    assert!(s(&once).contains("@keyframes blink-critical"));
    let twice = ensure_keyframes(&once);
    assert_eq!(s(&once), s(&twice));
}

#[test]
fn parse_style_vars_reads_both_forms() {
    let text = "/* header */\n\
                @define-color bar_bg #1e1e2e;\n\
                @define-color bar_fg #cdd6f4;\n\
                * {\n    --padding_top: 4px;\n    --spacing: 8px;\n}\n";
    let vars = parse_style_vars(&t(text));
    let pairs: Vec<(String, String)> =
        vars.iter().map(|(k, v)| (s(k), s(v))).collect();
    assert_eq!(
        pairs,
        [
            ("bar_bg".to_string(), "#1e1e2e".to_string()),
            ("bar_fg".to_string(), "#cdd6f4".to_string()),
            ("padding_top".to_string(), "4px".to_string()),
            ("spacing".to_string(), "8px".to_string()),
        ]
    );
}

#[test]
fn parse_style_vars_later_binding_replaces_in_place() {
    let text = "@define-color bar_bg #111111;\n@define-color bar_fg #222222;\n\
                @define-color bar_bg #333333;\n";
    let vars = parse_style_vars(&t(text));
    assert_eq!(vars.len(), 2);
    assert_eq!(s(&vars[0].0), "bar_bg");
    assert_eq!(s(&vars[0].1), "#333333");
    assert_eq!(s(&vars[1].0), "bar_fg");
}

#[test]
fn style_save_splits_colors_and_metrics() {
    let vars = vec![
        (t("bar_bg"), t("#1e1e2e")),
        (t("padding_top"), t("4px")),
        (t("scale"), t("1.5")),
    ];
    let text = style_save_text(&vars);
    assert_eq!(
        s(&text),
        "/* WaybarConf Style Variables */\n\n\
         @define-color bar_bg #1e1e2e;\n\
         \n* {\n    --padding_top: 4px;\n    --scale: 1.5;\n}\n"
    );
}

#[test]
fn style_save_without_metrics_has_no_block() {
    let vars = vec![(t("bar_bg"), t("#1e1e2e"))];
    let text = style_save_text(&vars);
    assert_eq!(s(&text), "/* WaybarConf Style Variables */\n\n@define-color bar_bg #1e1e2e;\n");
}

#[test]
fn style_save_then_parse_round_trip() {
    let vars = vec![
        (t("bar_bg"), t("#1e1e2e")),
        (t("hover_fg"), t("#f5e0dc")),
        (t("spacing"), t("8px")),
    ];
    let back = parse_style_vars(&style_save_text(&vars));
    let pairs: Vec<(String, String)> = back.iter().map(|(k, v)| (s(k), s(v))).collect();
    assert_eq!(
        pairs,
        [
            ("bar_bg".to_string(), "#1e1e2e".to_string()),
            ("hover_fg".to_string(), "#f5e0dc".to_string()),
            ("spacing".to_string(), "8px".to_string()),
        ]
    );
}

#[test]
fn apply_palette_merges_roles() {
    let dark = |hex: &str| {
        JsonValue::Obj(vec![(t("dark"), JsonValue::Str(t(hex)))])
    };
    let root = JsonValue::Obj(vec![(
        t("colors"),
        JsonValue::Obj(vec![
            (t("surface"), dark("#101010")),
            (t("on_surface"), dark("#f0f0f0")),
            (t("primary"), dark("#aabbcc")),
        ]),
    )]);
    let mut vars = vec![(t("bar_bg"), t("#000000")), (t("spacing"), t("8px"))];
    apply_palette(&mut vars, &root).expect("the palette must apply");
    let pairs: Vec<(String, String)> = vars.iter().map(|(k, v)| (s(k), s(v))).collect();
    assert_eq!(
        pairs,
        [
            ("bar_bg".to_string(), "#101010".to_string()),
            ("spacing".to_string(), "8px".to_string()),
            ("bar_fg".to_string(), "#f0f0f0".to_string()),
            ("hover_bg".to_string(), "#aabbcc".to_string()),
        ]
    );
}

#[test]
fn apply_palette_without_colors_fails() {
    let mut vars = vec![];
    assert!(apply_palette(&mut vars, &JsonValue::Obj(vec![])).is_err());
    assert!(apply_palette(&mut vars, &JsonValue::Null).is_err());
    assert!(vars.is_empty());
}

#[test]
fn wallpaper_scraping() {
    let query = "backend: wayland\nimage: /home/user/pics/wall.png\n";
    assert_eq!(
        s(&wallpaper_from_query_text(&t(query)).expect("path")),
        "/home/user/pics/wall.png"
    );
    assert!(wallpaper_from_query_text(&t("no marker here")).is_none());

    let listing = "monitor = wallpaper: /tmp/a.jpg extra words\n";
    assert_eq!(s(&wallpaper_from_listing_text(&t(listing)).expect("path")), "/tmp/a.jpg");
    assert!(wallpaper_from_listing_text(&t("nothing")).is_none());
}
