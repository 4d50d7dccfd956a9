use quickview::config::{resolve_lang, Config, OcrSection};

fn config_with_lang(lang: &str) -> Config {
    Config {
        ocr: OcrSection {
            lang: Some(lang.to_owned()),
            ..Default::default()
        },
    }
}

#[test]
fn lang_precedence_cli_env_config_default() {
    let cfg = config_with_lang("fra");
    assert_eq!(resolve_lang(Some("deu"), Some("spa"), &cfg), "deu");
    assert_eq!(resolve_lang(None, Some("spa"), &cfg), "spa");
    assert_eq!(resolve_lang(None, None, &cfg), "fra");
    assert_eq!(resolve_lang(None, None, &Config::default()), "eng");
}

#[test]
fn blank_values_are_unset_at_each_level() {
    let cfg = config_with_lang("fra");
    assert_eq!(resolve_lang(Some(""), Some("  "), &cfg), "fra");
    assert_eq!(resolve_lang(Some(" "), None, &config_with_lang("")), "eng");
}

#[test]
fn chosen_lang_is_trimmed() {
    let cfg = config_with_lang(" fra\t");
    assert_eq!(resolve_lang(None, None, &cfg), "fra");
    assert_eq!(resolve_lang(Some("\u{3000}deu\n"), None, &cfg), "deu");
    assert_eq!(resolve_lang(None, Some(" eng+deu "), &cfg), "eng+deu");
}

#[test]
fn config_path_ends_with_config_file() {
    if let Some(p) = quickview::config::config_path() {
        assert!(p.ends_with("/config.toml"), "{p}");
    }
}

#[test]
fn project_ids_name_the_viewer() {
    assert_eq!(quickview::config::config_project_ids(), ("io.github", "Green2Grey2", "QuickView"));
    assert_eq!(quickview::cache::cache_project_ids(), ("com", "example", "QuickView"));
}
