use helix_workspace::config::{Config, ConfigRaw};
use helix_workspace::document::parse_document;
use helix_workspace::dry_run::ReadOutcome;
use helix_workspace::lang_config::{default_lang_config, merge_lang_layers, read_layer, user_lang_config};
use helix_workspace::layers::{
    layer_outcome, layer_paths, ConfigFile, ConfigLoadError, FileText,
};
use helix_workspace::path::PathBuf;
use helix_workspace::value::{get_key, merge_toml_values, remove_key, TomlValue};

fn parse(text: &str) -> TomlValue {
    parse_document(text).unwrap()
}

fn entries(v: &TomlValue) -> &Vec<(String, TomlValue)> {
    match v {
        TomlValue::Table(entries) => entries,
        other => panic!("not a table: {:?}", other),
    }
}

fn get<'a>(v: &'a TomlValue, key: &str) -> &'a TomlValue {
    get_key(entries(v), key).unwrap()
}

fn has(v: &TomlValue, key: &str) -> bool {
    get_key(entries(v), key).is_some()
}

fn array(v: &TomlValue) -> &Vec<TomlValue> {
    match v {
        TomlValue::Array(items) => items,
        other => panic!("not an array: {:?}", other),
    }
}

fn text(v: &TomlValue) -> &str {
    match v {
        TomlValue::String(s) => s,
        other => panic!("not a string: {:?}", other),
    }
}

fn integer(v: &TomlValue) -> i64 {
    match v {
        TomlValue::Integer(n) => *n,
        other => panic!("not an integer: {:?}", other),
    }
}

fn named<'a>(v: &'a TomlValue, name: &str) -> &'a TomlValue {
    array(v).iter().find(|item| text(get(item, "name")) == name).unwrap()
}

fn raw(s: &str) -> ConfigRaw {
    ConfigRaw::from_document(&parse(s)).unwrap()
}

fn load_test(s: &str) -> Config {
    Config::merge_layers(vec![raw(s)])
}

fn file(path: &str, text: &str) -> ConfigFile {
    ConfigFile { path: PathBuf::from(path), text: FileText::Read(text.to_string()) }
}

fn missing(path: &str) -> ConfigFile {
    ConfigFile { path: PathBuf::from(path), text: FileText::Missing }
}

fn failed(path: &str, message: &str) -> ConfigFile {
    ConfigFile { path: PathBuf::from(path), text: FileText::Failed(message.to_string()) }
}

const BUILTIN: &str = r##"
[[language]]
name = "rust"
comment-token = "//"

[[language]]
name = "nix"
scope = "source.nix"
comment-token = "#"
indent = { tab-width = 2, unit = "  " }

[[language]]
name = "typescript"
comment-token = "//"
language-server = { command = "typescript-language-server", args = ["--stdio"], language-id = "ts" }
"##;

// ── merging ──────────────────────────────────────────────────────────────

#[test]
fn language_toml_map_merges() {
    const USER: &str = r#"
        [[language]]
        name = "nix"
        test = "bbb"
        indent = { tab-width = 4, unit = "    ", test = "aaa" }
        "#;

    let base = parse(BUILTIN);
    let user = parse(USER);

    let merged = merge_toml_values(base, user, 3);
    let nix = named(get(&merged, "language"), "nix");
    let nix_indent = get(nix, "indent");

    // We changed tab-width and unit in indent so check them if they are the new values
    assert_eq!(integer(get(nix_indent, "tab-width")), 4);
    assert_eq!(text(get(nix_indent, "unit")), "    ");
    // We added a new keys, so check them
    assert_eq!(text(get(nix, "test")), "bbb");
    assert_eq!(text(get(nix_indent, "test")), "aaa");
    // We didn't change comment-token so it should be same
    assert_eq!(text(get(nix, "comment-token")), "#");
}

#[test]
fn language_toml_nested_array_merges() {
    const USER: &str = r#"
        [[language]]
        name = "typescript"
        language-server = { command = "deno", args = ["lsp"] }
        "#;

    let base = parse(BUILTIN);
    let user = parse(USER);

    let merged = merge_toml_values(base, user, 3);
    let ts = named(get(&merged, "language"), "typescript");
    let args = array(get(get(ts, "language-server"), "args"));
    assert_eq!(args.len(), 1);
    assert_eq!(text(&args[0]), "lsp");
}

#[test]
fn values_below_the_depth_are_overridden() {
    let left = "[a]\nx = 1\n[a.b]\ny = 1\n[a.b.c]\nz = 1\nw = 1\n[a.b.c.d]\nv = 1\n";
    let right = "[a.b.c]\nz = 2\n[a.b.c.d]\nu = 2\n";
    let merged = merge_toml_values(parse(left), parse(right), 3);
    let b = get(get(&merged, "a"), "b");
    assert_eq!(integer(get(get(&merged, "a"), "x")), 1);
    assert_eq!(integer(get(b, "y")), 1);
    // the table at the fourth level is the right one as it stands
    let c = get(b, "c");
    assert_eq!(integer(get(c, "z")), 2);
    assert!(!has(c, "w"));
    assert!(has(get(c, "d"), "u"));
    assert!(!has(get(c, "d"), "v"));
}

#[test]
fn at_depth_zero_the_right_value_stands() {
    let merged = merge_toml_values(parse("a = 1\nb = 2"), parse("b = 3"), 0);
    assert!(!has(&merged, "a"));
    assert_eq!(integer(get(&merged, "b")), 3);
}

#[test]
fn an_empty_table_changes_nothing() {
    let merged = merge_toml_values(parse("a = 1\nb = [1, 2]"), parse(""), 3);
    assert_eq!(integer(get(&merged, "a")), 1);
    assert_eq!(array(get(&merged, "b")).len(), 2);
}

#[test]
fn values_of_different_kinds_are_replaced() {
    let merged = merge_toml_values(parse("a = { x = 1 }\nb = [1]"), parse("a = [2]\nb = \"s\""), 3);
    assert_eq!(array(get(&merged, "a")).len(), 1);
    assert_eq!(text(get(&merged, "b")), "s");
}

#[test]
fn named_items_are_merged_and_move_to_the_end() {
    let left = "items = [{ name = \"a\", x = 1 }, 7, { name = \"b\" }]";
    let right = "items = [{ name = \"a\", y = 2 }, 8, { name = \"c\" }]";
    let merged = merge_toml_values(parse(left), parse(right), 3);
    let items = array(get(&merged, "items"));
    assert_eq!(items.len(), 5);
    assert_eq!(integer(&items[0]), 7);
    assert_eq!(text(get(&items[1], "name")), "b");
    assert_eq!(text(get(&items[2], "name")), "a");
    assert_eq!(integer(get(&items[2], "x")), 1);
    assert_eq!(integer(get(&items[2], "y")), 2);
    assert_eq!(integer(&items[3]), 8);
    assert_eq!(text(get(&items[4], "name")), "c");
}

#[test]
fn documents_hold_every_kind_of_value() {
    let doc = parse("s = \"t\"\ni = -3\nf = 1.5\nb = true\nd = 1979-05-27T07:32:00Z\na = [1]\nt = {}");
    assert_eq!(text(get(&doc, "s")), "t");
    assert_eq!(integer(get(&doc, "i")), -3);
    assert!(matches!(get(&doc, "f"), TomlValue::Float(bits) if f64::from_bits(*bits) == 1.5));
    assert!(matches!(get(&doc, "b"), TomlValue::Boolean(true)));
    assert!(matches!(get(&doc, "d"), TomlValue::Datetime(d) if d == "1979-05-27T07:32:00Z"));
    assert_eq!(array(get(&doc, "a")).len(), 1);
    assert!(entries(get(&doc, "t")).is_empty());
    assert!(parse_document("a = ").unwrap_err().contains("TOML parse error"));
}

#[test]
fn values_can_be_copied_and_keys_removed() {
    let doc = parse(BUILTIN);
    let copy = doc.copy();
    assert_eq!(format!("{:?}", copy), format!("{:?}", doc));
    let (rest, value) = remove_key(vec![("a".to_string(), TomlValue::Integer(1))], "a");
    assert!(rest.is_empty());
    assert!(matches!(value, Some(TomlValue::Integer(1))));
}

// ── layers of config.toml ────────────────────────────────────────────────

#[test]
fn parsing_keymaps_config_file() {
    let sample_keymaps = r#"
            [keys.insert]
            y = "move_line_down"
            S-C-a = "delete_selection"

            [keys.normal]
            A-F12 = "move_next_word_end"
        "#;

    let config = load_test(sample_keymaps);
    assert_eq!(config.keys.len(), 1);
    let insert = get(&config.keys[0], "insert");
    assert_eq!(text(get(insert, "y")), "move_line_down");
    assert_eq!(text(get(insert, "S-C-a")), "delete_selection");
    assert_eq!(entries(insert).len(), 2);
    let normal = get(&config.keys[0], "normal");
    assert_eq!(text(get(normal, "A-F12")), "move_next_word_end");
    assert_eq!(entries(normal).len(), 1);
    assert!(config.theme.is_none());
    assert!(config.editor.is_none());
}

#[test]
fn keys_resolve_to_correct_defaults() {
    // Nothing goes on top of the default keymap.
    assert!(load_test("").keys.is_empty());
    assert!(Config::default().keys.is_empty());
}

#[test]
fn merge_layers_editor_deep_merges_in_order() {
    // Layers are given lowest to highest priority: the highest layer wins on
    // conflicting keys, but keys only present in lower layers are preserved.
    let low = raw(
        r#"
            [editor]
            scrolloff = 3
            mouse = false
            "#,
    );
    let high = raw(
        r#"
            [editor]
            scrolloff = 7
            "#,
    );

    let merged = Config::merge_layers(vec![low, high]);
    let editor = merged.editor.unwrap();
    assert_eq!(integer(get(&editor, "scrolloff")), 7);
    assert!(matches!(get(&editor, "mouse"), TomlValue::Boolean(false)));
}

#[test]
fn merge_layers_theme_taken_from_highest_layer_that_sets_it() {
    let low = raw(r#"theme = "low""#);
    let mid = raw("");
    let high = raw(r#"theme = "high""#);

    let merged = Config::merge_layers(vec![low, mid, high]);
    assert_eq!(text(&merged.theme.unwrap()), "high");

    // A layer without a theme does not reset a lower layer's choice.
    let low = raw(r#"theme = "low""#);
    let high = raw("");
    let merged = Config::merge_layers(vec![low, high]);
    assert_eq!(text(&merged.theme.unwrap()), "low");
}

#[test]
fn merge_layers_keys_merge_in_order() {
    let low = raw(
        r#"
            [keys.normal]
            a = "move_line_down"
            b = "move_line_up"
            "#,
    );
    let high = raw(
        r#"
            [keys.normal]
            b = "delete_selection"
            "#,
    );

    let merged = Config::merge_layers(vec![low, high]);
    assert_eq!(merged.keys.len(), 2);
    let first = get(&merged.keys[0], "normal");
    assert_eq!(text(get(first, "a")), "move_line_down");
    assert_eq!(text(get(first, "b")), "move_line_up");
    let second = get(&merged.keys[1], "normal");
    assert_eq!(text(get(second, "b")), "delete_selection");
    assert!(!has(second, "a"));
}

#[test]
fn unknown_fields_are_refused() {
    let e = ConfigRaw::from_document(&parse("theme = \"t\"\nthemes = 1")).unwrap_err();
    assert!(matches!(&e, ConfigLoadError::UnknownField(k) if k == "themes"));
    let two = ConfigRaw::from_document(&parse("zoo = 1\nbar = 1\nfoo = 1\neditor = 1"));
    assert!(matches!(two, Err(ConfigLoadError::UnknownField(k)) if k == "bar"));
    let e = ConfigRaw::from_document(&parse("theme = \"t\"\nthemes = 1")).unwrap_err();
    assert_eq!(
        e.message(),
        "unknown field `themes`, expected one of `theme`, `keys`, `editor`"
    );
    let e = ConfigRaw::from_document(&TomlValue::Integer(1)).unwrap_err();
    assert_eq!(e.message(), "expected a table");
}

#[test]
fn key_bindings_have_to_be_a_table() {
    let layer = |text: &str| ConfigRaw::from_document(&parse(text));
    assert!(layer("[keys.normal]\na = \"b\"").is_ok());
    for text in ["keys = 3", "keys = \"normal\"", "keys = []", "keys = true\nzoo = 1"] {
        let e = layer(text).unwrap_err();
        assert!(matches!(&e, ConfigLoadError::BadConfig(m) if m == "`keys` is no table"), "{text}");
    }
    // what comes first in the order of texts is reported
    let e = layer("keys = 3\nbar = 1").unwrap_err();
    assert!(matches!(e, ConfigLoadError::UnknownField(k) if k == "bar"));
}

#[test]
fn load_layer_tells_missing_from_broken_files() {
    assert!(Config::load_layer(&missing("/c/config.toml"), false).unwrap().is_none());
    let e = Config::load_layer(&missing("/c/config.toml"), true).unwrap_err();
    assert_eq!(e.message(), "config file does not exist: /c/config.toml");
    let e = Config::load_layer(&failed("/c/config.toml", "permission denied"), false).unwrap_err();
    assert!(matches!(&e, ConfigLoadError::Error(m) if m == "permission denied"));
    assert_eq!(e.message(), "permission denied");
    let e = Config::load_layer(&file("/c/config.toml", "theme = "), false).unwrap_err();
    assert!(matches!(&e, ConfigLoadError::BadConfig(_)));
    assert!(Config::load_layer(&file("/c/config.toml", ""), false).unwrap().is_some());
    assert_eq!(ConfigLoadError::default().message(), "place holder");
}

#[test]
fn layers_are_merged_from_lowest_to_highest_priority() {
    let dirs = vec![
        file("/sys/config.toml", "theme = \"sys\"\n[editor]\na = 1\nb = 1\nc = 1\nd = 1"),
        missing("/env/config.toml"),
        file("/cli/config.toml", "[editor]\nb = 2\nc = 2\nd = 2"),
    ];
    let overrides = vec![file("/explicit.toml", "[editor]\nd = 4")];
    let workspace = file("/w/.helix/config.toml", "theme = \"ws\"\n[editor]\nc = 3\nd = 3");

    let config = Config::load_default(&dirs, &overrides, true, &workspace).unwrap();
    assert_eq!(text(config.theme.as_ref().unwrap()), "ws");
    let editor = config.editor.unwrap();
    let values: Vec<i64> = ["a", "b", "c", "d"].iter().map(|k| integer(get(&editor, k))).collect();
    assert_eq!(values, [1, 2, 3, 4]);

    // a workspace that is not trusted has no say
    let config = Config::load_default(&dirs, &overrides, false, &workspace).unwrap();
    assert_eq!(text(config.theme.as_ref().unwrap()), "sys");
    let editor = config.editor.unwrap();
    let values: Vec<i64> = ["a", "b", "c", "d"].iter().map(|k| integer(get(&editor, k))).collect();
    assert_eq!(values, [1, 2, 2, 4]);
}

#[test]
fn the_first_broken_layer_is_reported() {
    let good = file("/a/config.toml", "");
    let ws = missing("/w/.helix/config.toml");
    let dirs = vec![good, failed("/b/config.toml", "one"), failed("/c/config.toml", "two")];
    let e = Config::load_default(&dirs, &vec![missing("/x.toml")], false, &ws).unwrap_err();
    assert_eq!(e.message(), "one");
    let e = Config::load_default(&vec![], &vec![missing("/x.toml")], true, &ws).unwrap_err();
    assert_eq!(e.message(), "config file does not exist: /x.toml");
    let broken = file("/w/.helix/config.toml", "unknown = 1");
    assert!(Config::load_default(&vec![], &vec![], true, &broken).is_err());
    assert!(Config::load_default(&vec![], &vec![], false, &broken).is_ok());
}

#[test]
fn no_workspace_decides_on_trust() {
    let dirs = vec![file("/sys/config.toml", "[editor.workspace-trust]\nlevel = \"ask\"")];
    let workspace =
        file("/w/.helix/config.toml", "[editor.workspace-trust]\nlevel = \"insecure\"");
    let user = Config::load_user(&dirs, &vec![]).unwrap();
    assert_eq!(text(get(&user.workspace_trust().unwrap(), "level")), "ask");
    let config = Config::load_default(&dirs, &vec![], true, &workspace).unwrap();
    assert_eq!(text(get(&config.workspace_trust().unwrap(), "level")), "ask");

    // where the user has no setting, there is none
    let config = Config::load_default(&vec![], &vec![], true, &workspace).unwrap();
    assert!(config.workspace_trust().is_none());
    assert!(Config::load_user(&vec![], &vec![missing("/x")]).is_err());
}

#[test]
fn layer_paths_come_lowest_first() {
    let dirs = vec![PathBuf::from("/cli"), PathBuf::from("/env"), PathBuf::from("/sys")];
    let paths: Vec<String> =
        layer_paths(&dirs, "config.toml").into_iter().map(|p| p.text).collect();
    assert_eq!(paths, ["/sys/config.toml", "/env/config.toml", "/cli/config.toml"]);
}

#[test]
fn layers_are_reported_with_their_outcome() {
    assert!(matches!(layer_outcome(&missing("/c"), &None), ReadOutcome::NotFound));
    assert!(matches!(layer_outcome(&file("/c", ""), &None), ReadOutcome::Loaded));
    let e = Some(ConfigLoadError::Error("denied".to_string()));
    let outcome = layer_outcome(&failed("/c", "denied"), &e);
    assert_eq!(outcome.text(), "ERROR: denied");
    // a language file that cannot be read is passed over, but reported
    let unreadable = failed("/l", "denied");
    let failure = read_layer(&unreadable, false).err();
    assert!(failure.is_none());
    assert_eq!(layer_outcome(&unreadable, &failure).text(), "ERROR: denied");
    let broken = file("/l", "=");
    let outcome = layer_outcome(&broken, &read_layer(&broken, false).err());
    assert!(outcome.text().starts_with("ERROR: "));
}

// ── languages.toml ───────────────────────────────────────────────────────

#[test]
fn language_layers_go_on_top_of_the_builtin_ones() {
    let dirs = vec![
        file("/sys/languages.toml", "[[language]]\nname = \"nix\"\nx = 1\ny = 1\nz = 1"),
        failed("/env/languages.toml", "permission denied"),
        missing("/cli/languages.toml"),
    ];
    let workspace =
        file("/w/.helix/languages.toml", "[[language]]\nname = \"nix\"\ny = 2\nz = 2");
    let overrides = vec![file("/l.toml", "[[language]]\nname = \"nix\"\nz = 3")];
    let builtin = || default_lang_config(BUILTIN).unwrap();

    let config = user_lang_config(builtin(), &dirs, true, &workspace, &overrides).unwrap();
    let nix = named(get(&config, "language"), "nix");
    let values: Vec<i64> = ["x", "y", "z"].iter().map(|k| integer(get(nix, k))).collect();
    assert_eq!(values, [1, 2, 3]);
    assert_eq!(text(get(nix, "comment-token")), "#");
    assert_eq!(array(get(&config, "language")).len(), 3);

    let config = user_lang_config(builtin(), &dirs, false, &workspace, &overrides).unwrap();
    let nix = named(get(&config, "language"), "nix");
    let values: Vec<i64> = ["x", "y", "z"].iter().map(|k| integer(get(nix, k))).collect();
    assert_eq!(values, [1, 1, 3]);
}

#[test]
fn language_layers_that_cannot_be_used() {
    let ws = missing("/w/.helix/languages.toml");
    let builtin = || default_lang_config(BUILTIN).unwrap();
    let broken = file("/sys/languages.toml", "[[language]");
    let e = user_lang_config(builtin(), &vec![broken], false, &ws, &vec![]).unwrap_err();
    assert!(matches!(e, ConfigLoadError::BadConfig(_)));
    let e = user_lang_config(builtin(), &vec![], true, &ws, &vec![missing("/l.toml")]).unwrap_err();
    assert!(matches!(e, ConfigLoadError::Missing(p) if p.text == "/l.toml"));
    assert!(default_lang_config("[[language]").is_err());
}

#[test]
fn merging_language_layers_one_by_one() {
    let merged = merge_lang_layers(parse("a = 1\nb = 1"), vec![parse("b = 2"), parse("c = 3")]);
    let values: Vec<i64> = ["a", "b", "c"].iter().map(|k| integer(get(&merged, k))).collect();
    assert_eq!(values, [1, 2, 3]);
    assert_eq!(entries(&merge_lang_layers(parse("a = 1"), vec![])).len(), 1);
}

#[test]
fn whole_arrays_are_merged_by_name() {
    let left = parse("l = [{ name = \"a\", x = 1 }, { x = 2 }, { name = \"b\", x = 3, y = 3 }]");
    let right = parse("l = [{ name = \"c\", x = 4 }, { name = \"b\", x = 5 }, { x = 6 }]");
    let merged = merge_toml_values(left, right, 3);
    let items = array(get(&merged, "l"));
    let values: Vec<i64> = items.iter().map(|i| integer(get(i, "x"))).collect();
    // what is not named on the right stays, then come the items of the right
    assert_eq!(values, [1, 2, 4, 5, 6]);
    assert_eq!(integer(get(&items[3], "y")), 3);
}
