//! User configuration (`~/.config/quickview/config.toml`) and setting
//! precedence.
//!
//! Resolution precedence for every setting: CLI flag > environment variable
//! (lang only: `QUICKVIEW_LANG`) > config file > built-in default. Reading the
//! environment and the file is the caller's job; the precedence rules live
//! here.
use vstd::prelude::*;

use crate::fs::{join_path, join_spec};
use crate::text::{chars_of, string_of, trim, trim_chars};

verus! {

/// Built-in default OCR language (Tesseract `-l`).
pub const DEFAULT_OCR_LANG: &'static str = "eng";

#[verifier::external_type_specification]
#[verifier::external_body]
pub struct ExProjectDirs(directories::ProjectDirs);

/// `directories::ProjectDirs::from`: the platform directories of a project,
/// `None` when no home directory can be found. The result depends on the
/// environment, so nothing is claimed of it.
#[verifier::external_body]
pub(crate) fn project_dirs_from(
    qualifier: &str,
    organization: &str,
    application: &str,
) -> Option<directories::ProjectDirs> {
    directories::ProjectDirs::from(qualifier, organization, application)
}

/// `directories::ProjectDirs::config_dir`, as text (lossy for non-UTF-8
/// paths). Nothing is claimed of the result.
#[verifier::external_body]
pub(crate) fn config_dir_of(dirs: &directories::ProjectDirs) -> String {
    dirs.config_dir().to_string_lossy().into_owned()
}

/// The project the configuration belongs to: qualifier, organization and
/// application name handed to `ProjectDirs::from`.
///
/// The triple must stay in sync with the application ID
/// `io.github.Green2Grey2.QuickView`. On Linux the derived paths only use the
/// lowercased app name (`~/.cache/quickview/`, `~/.config/quickview/`).
pub fn config_project_ids() -> (r: (&'static str, &'static str, &'static str))
    ensures
        r.0@ == "io.github"@,
        r.1@ == "Green2Grey2"@,
        r.2@ == "QuickView"@,
{
    ("io.github", "Green2Grey2", "QuickView")
}

/// The per-project directories of the viewer: those of the project
/// [`config_project_ids`] names.
pub(crate) fn project_dirs() -> Option<directories::ProjectDirs> {
    let (qualifier, organization, application) = config_project_ids();
    project_dirs_from(qualifier, organization, application)
}

/// Path of the config file (`~/.config/quickview/config.toml` on Linux):
/// `config.toml` inside the project's config directory.
pub fn config_path() -> (r: Option<String>)
    ensures
        r matches Some(p) ==> exists|dir: Seq<char>| p@ == join_spec(dir, "config.toml"@),
{
    match project_dirs() {
        Some(dirs) => {
            let dir = config_dir_of(&dirs);
            let p = join_path(dir.as_str(), "config.toml");
            Some(p)
        },
        None => None,
    }
}

#[derive(Debug, Clone, Default, PartialEq)]
pub struct Config {
    pub ocr: OcrSection,
}

#[derive(Debug, Clone, Default, PartialEq)]
pub struct OcrSection {
    /// Default OCR language (overridden by `QUICKVIEW_LANG` and `--lang`).
    pub lang: Option<String>,
    /// Directory with `.traineddata` files, e.g. a `tessdata_fast` or
    /// `tessdata_best` checkout (overridden by `--tessdata-dir`).
    pub tessdata_dir: Option<String>,
    /// Maximum image dimension before OCR runs on a downscaled copy
    /// (overridden by `--max-ocr-dim`; `0` disables the guardrail).
    pub max_dimension: Option<u32>,
}

/// A setting's value at one level: set when present and not blank, and then
/// trimmed.
pub open spec fn level_value(v: Option<Seq<char>>) -> Option<Seq<char>> {
    match v {
        Some(s) => if trim(s).len() > 0 {
            Some(trim(s))
        } else {
            None
        },
        None => None,
    }
}

/// The effective OCR language: the first level that is set among CLI flag,
/// environment and config file, else `eng`.
pub open spec fn resolve_lang_spec(
    cli: Option<Seq<char>>,
    env: Option<Seq<char>>,
    config: Option<Seq<char>>,
) -> Seq<char> {
    match level_value(cli) {
        Some(s) => s,
        None => match level_value(env) {
            Some(s) => s,
            None => match level_value(config) {
                Some(s) => s,
                None => "eng"@,
            },
        },
    }
}

pub open spec fn str_opt_view(o: Option<&str>) -> Option<Seq<char>> {
    match o {
        Some(s) => Some(s@),
        None => None,
    }
}

pub open spec fn string_opt_view(o: Option<String>) -> Option<Seq<char>> {
    match o {
        Some(s) => Some(s@),
        None => None,
    }
}

fn level(v: Option<&str>) -> (r: Option<Vec<char>>)
    ensures
        match level_value(str_opt_view(v)) {
            Some(s) => r matches Some(t) && t@ == s,
            None => r is None,
        },
{
    match v {
        Some(s) => {
            let c = chars_of(s);
            let t = trim_chars(c.as_slice());
            if t.len() > 0 {
                Some(t)
            } else {
                None
            }
        },
        None => None,
    }
}

/// Resolve the effective OCR language.
///
/// Precedence: CLI flag > env (`QUICKVIEW_LANG`) > config file > `"eng"`.
/// Blank or whitespace-only values are treated as unset at each level, and the
/// chosen value is trimmed.
pub fn resolve_lang(cli: Option<&str>, env: Option<&str>, config: &Config) -> (r: String)
    ensures
        r@ == resolve_lang_spec(
            str_opt_view(cli),
            str_opt_view(env),
            string_opt_view(config.ocr.lang),
        ),
{
    let cfg: Option<&str> = match &config.ocr.lang {
        Some(s) => Some(s.as_str()),
        None => None,
    };
    assert(str_opt_view(cfg) == string_opt_view(config.ocr.lang));
    if let Some(t) = level(cli) {
        return string_of(t.as_slice());
    }
    if let Some(t) = level(env) {
        return string_of(t.as_slice());
    }
    if let Some(t) = level(cfg) {
        return string_of(t.as_slice());
    }
    DEFAULT_OCR_LANG.to_owned()
}

/// A blank value at a level is the same as no value there: it never hides a
/// lower level.
pub proof fn blank_levels_are_unset(
    cli: Option<Seq<char>>,
    env: Option<Seq<char>>,
    config: Option<Seq<char>>,
)
    ensures
        cli matches Some(s) && trim(s).len() == 0 ==> resolve_lang_spec(cli, env, config)
            == resolve_lang_spec(None, env, config),
        env matches Some(s) && trim(s).len() == 0 ==> resolve_lang_spec(cli, env, config)
            == resolve_lang_spec(cli, None, config),
        config matches Some(s) && trim(s).len() == 0 ==> resolve_lang_spec(cli, env, config)
            == resolve_lang_spec(cli, env, None),
{
}

/// A higher level that is set decides, whatever the lower levels hold.
pub proof fn higher_level_wins(
    cli: Option<Seq<char>>,
    env: Option<Seq<char>>,
    config: Option<Seq<char>>,
    env2: Option<Seq<char>>,
    config2: Option<Seq<char>>,
)
    ensures
        level_value(cli) is Some ==> resolve_lang_spec(cli, env, config) == resolve_lang_spec(
            cli,
            env2,
            config2,
        ),
        level_value(cli) is None && level_value(env) is Some ==> resolve_lang_spec(
            cli,
            env,
            config,
        ) == resolve_lang_spec(cli, env, config2),
{
}

} // verus!
