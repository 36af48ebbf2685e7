use feather::config::{code, comment_start, entries, string_list, warning};
use feather::graphics::{
    default_text, parse, set_value, ConfigFile, GraphicsSettings, Key, Opened, ShadowQuality,
};

fn parsed(text: &str) -> (GraphicsSettings, Vec<String>) {
    let mut s = GraphicsSettings::default();
    let w = parse(text, &mut s);
    (s, w)
}

fn key(s: &GraphicsSettings) -> (ShadowQuality, u32, bool, bool) {
    (s.shadows, s.msaa, s.fxaa, s.bake)
}

#[test]
fn config_default_text_parses_back_to_defaults() {
    let (s, w) = parsed(&default_text());
    assert!(w.is_empty(), "{w:?}");
    assert_eq!(key(&s), key(&GraphicsSettings::default()));
}

#[test]
fn values_apply() {
    let (s, w) = parsed("shadows = \"low\"  # cheap\nmsaa = 4\n  fxaa=true\n");
    assert!(w.is_empty(), "{w:?}");
    assert_eq!((s.shadows, s.msaa, s.fxaa), (ShadowQuality::Low, 4, true));
}

#[test]
fn config_bad_lines_warn_and_keep_defaults() {
    let d = GraphicsSettings::default();
    for bad in [
        "msaa = 3",
        "msaa = four",
        "fxaa = maybe",
        "shadows = \"ultra\"",
        "shadows = low",
        "[graphics]",
        "vsync = true",
        "just words",
    ] {
        let (s, w) = parsed(bad);
        assert_eq!(w.len(), 1, "`{bad}` should warn once, got {w:?}");
        assert_eq!(key(&s), key(&d), "`{bad}` changed a setting");
    }
}

#[test]
fn config_hash_inside_quotes_is_not_a_comment() {
    assert_eq!(comment_start("a = \"x#y\" # c"), Some(10));
    assert_eq!(code("  # only a comment"), "");
}

#[test]
fn mod_hash_inside_quotes_is_not_a_comment() {
    assert_eq!(comment_start("a = \"x#y\" # c"), Some(10));
    assert_eq!(code("  # only a comment"), "");
}

#[test]
fn set_value_edits_only_the_value() {
    let text = "# top\nshadows = \"high\"   # keep me\r\nmsaa=1\nweird line\n";
    let out = set_value(text, "shadows", "\"off\"");
    assert_eq!(
        out,
        "# top\nshadows = \"off\"   # keep me\r\nmsaa=1\nweird line\n"
    );
    let out = set_value(&out, "msaa", "8");
    assert_eq!(
        out,
        "# top\nshadows = \"off\"   # keep me\r\nmsaa=8\nweird line\n"
    );
    assert_eq!(
        set_value("# fxaa = true\n", "fxaa", "false"),
        "# fxaa = true\nfxaa = false\n"
    );
}

#[test]
fn set_value_appends_a_missing_key() {
    assert_eq!(
        set_value("msaa = 2", "fxaa", "true"),
        "msaa = 2\nfxaa = true\n"
    );
    assert_eq!(set_value("", "fxaa", "true"), "fxaa = true\n");
}

#[test]
fn set_value_fills_a_blank_value() {
    assert_eq!(set_value("fxaa =   # c\n", "fxaa", "true"), "fxaa =   true# c\n");
}

#[test]
fn open_creates_once_then_reads_and_saves() {
    let path = "config/settings.toml";
    let mut s = GraphicsSettings::default();
    let (mut file, how) = ConfigFile::open(path, None, &mut s);
    assert!(matches!(how, Opened::Created));
    assert_eq!(file.path(), path);
    // With nothing on disk, what is saved builds on what was created.
    assert_eq!(file.save(Key::Fxaa, &s, None), (default_text(), false));

    // A hand edit, then a save of a different key keeps it.
    let edited = default_text().replace("msaa = 1", "msaa = 4");
    s.fxaa = true;
    let (text, changed) = file.save(Key::Fxaa, &s, Some(&edited));
    assert!(changed);
    assert!(text.contains("msaa = 4") && text.contains("fxaa = true"));
    file.saved(text.clone());

    // Opening what is there reads it.
    let mut s2 = GraphicsSettings::default();
    let (again, how) = ConfigFile::open(path, Some(text.clone()), &mut s2);
    match how {
        Opened::Existing(w) => assert!(w.is_empty(), "{w:?}"),
        Opened::Created => panic!("the file was there"),
    }
    assert_eq!((s2.msaa, s2.fxaa), (4, true));
    // Saving what is there already changes nothing.
    let (same, changed) = again.save(Key::Fxaa, &s2, Some(&text));
    assert_eq!(same, text);
    assert!(!changed);
}

#[test]
fn saved_settings_are_loaded() {
    for shadows in [
        ShadowQuality::Off,
        ShadowQuality::Low,
        ShadowQuality::Medium,
        ShadowQuality::High,
    ] {
        for (msaa, fxaa) in [(1, false), (8, true)] {
            let s = GraphicsSettings { shadows, msaa, fxaa, bake: true };
            let mut text = String::from("# mine\njunk\n");
            for k in [Key::Shadows, Key::Msaa, Key::Fxaa] {
                text = set_value(&text, k.name(), &k.value(&s));
            }
            let (got, w) = parsed(&text);
            assert_eq!(key(&got), key(&s));
            assert_eq!(w.len(), 1);
            assert!(text.starts_with("# mine\njunk\n"));
        }
    }
}

#[test]
fn qualities_have_their_names_and_sizes() {
    assert_eq!(ShadowQuality::High.next(), ShadowQuality::Medium);
    assert_eq!(ShadowQuality::Off.next(), ShadowQuality::High);
    assert_eq!(ShadowQuality::Off.dim(), 512);
    assert_eq!(ShadowQuality::High.dim(), 2048);
    assert!(!ShadowQuality::Off.casts());
    assert!(ShadowQuality::Low.casts());
    assert_eq!(ShadowQuality::Medium.label(), "medium (4x1024)");
    assert_eq!(
        ShadowQuality::from_config_name("medium"),
        Some(ShadowQuality::Medium)
    );
    assert_eq!(ShadowQuality::from_config_name("MEDIUM"), None);
}

#[test]
fn string_lists() {
    assert_eq!(string_list("[\"W\", \"Up\"]"), Some(vec!["W", "Up"]));
    assert_eq!(string_list("[ \"W\", ]"), Some(vec!["W"]));
    assert_eq!(string_list("[]"), Some(vec![]));
    assert_eq!(string_list("\"W\""), Some(vec!["W"]));
    for bad in [
        "W",
        "[W]",
        "[\"W\" \"S\"]",
        "[\"W\"",
        "\"a\\b\"",
        "[\"\"\"]",
    ] {
        assert_eq!(string_list(bad), None, "`{bad}` should not parse");
    }
}

#[test]
fn entries_split_lines_and_warn_on_junk() {
    let (e, w) = entries("# c\n a = 1 # x\n[t]\nb=\"#\"\njunk\n");
    let got: Vec<_> = e.iter().map(|e| (e.line, e.key, e.value)).collect();
    assert_eq!(got, vec![(2, "a", "1"), (4, "b", "\"#\"")]);
    assert_eq!(w.len(), 2, "{w:?}");
}

#[test]
fn warnings_name_their_line() {
    assert!(warning(7, "what").contains('7'));
    assert!(warning(7, "what").contains("what"));
}

#[test]
fn the_last_write_wins() {
    for text in ["", "# only a comment", "fxaa = true # c\r\n", " msaa=8\nmsaa = 1", "msaa =   # c\n"] {
        let mid = set_value(text, "msaa", "2");
        assert_eq!(set_value(&mid, "msaa", "4"), set_value(text, "msaa", "4"));
        assert_eq!(set_value(&mid, "msaa", "2"), mid);
    }
}

#[test]
fn the_default_file_resets_any_settings() {
    let mut s = GraphicsSettings {
        shadows: ShadowQuality::Off,
        msaa: 8,
        fxaa: true,
        ..GraphicsSettings::default()
    };
    assert!(parse(&default_text(), &mut s).is_empty());
    let d = GraphicsSettings::default();
    assert_eq!((s.shadows, s.msaa, s.fxaa), (d.shadows, d.msaa, d.fxaa));
    assert!(default_text().starts_with("# Feather graphics settings."));
    assert!(default_text().ends_with("F2 toggles it in game.\nfxaa = false\n"));
}

#[test]
fn lists_are_read_back() {
    let items = [vec![], vec!["W"], vec![" a b ", "", "[x]", "#"]];
    for list in items {
        let quoted: Vec<String> = list.iter().map(|x| format!("\"{x}\"")).collect();
        assert_eq!(string_list(&format!("[{}]", quoted.join(", "))), Some(list.clone()));
    }
    assert_eq!(string_list("\" W \""), Some(vec![" W "]));
}
