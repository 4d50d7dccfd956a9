//! Canonical argv codec for single-instance forwarding.
//!
//! A second invocation's argv is delivered to the primary instance. The real
//! command line (flags, stdin path resolution, canonicalization) is handled in
//! the invoking process; what crosses the process boundary is only this
//! fixed, sanitized form:
//!
//! ```text
//! quickview --mode=<quick-preview|full-viewer> --lang=<lang> --file=<abs path>
//! ```
//!
//! Every value is glued to its key in a single `--key=value` token, which
//! also keeps file names starting with `-` safe without a separator.
use vstd::prelude::*;

use crate::text::{chars_eq, chars_of, has_prefix, push_all, string_of, strip_prefix};

verus! {

#[derive(Debug, Clone, Copy, PartialEq, Eq, Structural)]
pub enum Mode {
    QuickPreview,
    FullViewer,
}

#[derive(Debug, Clone, PartialEq)]
pub struct LaunchOptions {
    pub mode: Mode,
    pub file: String,
    pub ocr_lang: String,
}

/// What launch options stand for: the mode and the texts of file and language.
pub struct LaunchModel {
    pub mode: Mode,
    pub file: Seq<char>,
    pub ocr_lang: Seq<char>,
}

impl View for LaunchOptions {
    type V = LaunchModel;

    open spec fn view(&self) -> LaunchModel {
        LaunchModel { mode: self.mode, file: self.file@, ocr_lang: self.ocr_lang@ }
    }
}

/// Why a forwarded argv was rejected.
#[derive(Debug, Clone, PartialEq)]
pub enum ArgvError {
    UnknownMode(String),
    UnexpectedArgument(String),
    MissingMode,
    MissingLang,
    MissingFile,
}

/// What an argv error stands for.
pub enum ArgvErrorModel {
    UnknownMode(Seq<char>),
    UnexpectedArgument(Seq<char>),
    MissingMode,
    MissingLang,
    MissingFile,
}

impl View for ArgvError {
    type V = ArgvErrorModel;

    open spec fn view(&self) -> ArgvErrorModel {
        match self {
            ArgvError::UnknownMode(v) => ArgvErrorModel::UnknownMode(v@),
            ArgvError::UnexpectedArgument(a) => ArgvErrorModel::UnexpectedArgument(a@),
            ArgvError::MissingMode => ArgvErrorModel::MissingMode,
            ArgvError::MissingLang => ArgvErrorModel::MissingLang,
            ArgvError::MissingFile => ArgvErrorModel::MissingFile,
        }
    }
}

pub open spec fn mode_name(mode: Mode) -> Seq<char> {
    match mode {
        Mode::QuickPreview => "quick-preview"@,
        Mode::FullViewer => "full-viewer"@,
    }
}

/// The canonical argv of launch options.
pub open spec fn to_argv_spec(o: LaunchModel) -> Seq<Seq<char>> {
    seq![
        "quickview"@,
        "--mode="@ + mode_name(o.mode),
        "--lang="@ + o.ocr_lang,
        "--file="@ + o.file,
    ]
}

/// The values seen so far while reading an argv.
pub struct ArgvState {
    pub mode: Option<Mode>,
    pub lang: Option<Seq<char>>,
    pub file: Option<Seq<char>>,
}

/// Reads one token: a `--mode=`, `--lang=` or `--file=` value (a repeated key
/// replaces the earlier value); anything else is rejected.
pub open spec fn argv_step(st: ArgvState, arg: Seq<char>) -> Result<ArgvState, ArgvErrorModel> {
    if has_prefix(arg, "--mode="@) {
        let v = arg.subrange(7, arg.len() as int);
        if v == "quick-preview"@ {
            Ok(ArgvState { mode: Some(Mode::QuickPreview), ..st })
        } else if v == "full-viewer"@ {
            Ok(ArgvState { mode: Some(Mode::FullViewer), ..st })
        } else {
            Err(ArgvErrorModel::UnknownMode(v))
        }
    } else if has_prefix(arg, "--lang="@) {
        Ok(ArgvState { lang: Some(arg.subrange(7, arg.len() as int)), ..st })
    } else if has_prefix(arg, "--file="@) {
        Ok(ArgvState { file: Some(arg.subrange(7, arg.len() as int)), ..st })
    } else {
        Err(ArgvErrorModel::UnexpectedArgument(arg))
    }
}

/// Reads the tokens in order, stopping at the first rejected one.
pub open spec fn argv_scan(args: Seq<Seq<char>>) -> Result<ArgvState, ArgvErrorModel>
    decreases args.len(),
{
    if args.len() == 0 {
        Ok(ArgvState { mode: None, lang: None, file: None })
    } else {
        match argv_scan(args.drop_last()) {
            Ok(st) => argv_step(st, args.last()),
            Err(e) => Err(e),
        }
    }
}

/// What [`from_argv`] returns for an argv (its first token, the program
/// name, is skipped).
pub open spec fn from_argv_spec(argv: Seq<Seq<char>>) -> Result<LaunchModel, ArgvErrorModel> {
    let args = if argv.len() == 0 {
        argv
    } else {
        argv.drop_first()
    };
    match argv_scan(args) {
        Err(e) => Err(e),
        Ok(st) => match st.mode {
            None => Err(ArgvErrorModel::MissingMode),
            Some(mode) => match st.lang {
                None => Err(ArgvErrorModel::MissingLang),
                Some(lang) => match st.file {
                    None => Err(ArgvErrorModel::MissingFile),
                    Some(file) => Ok(LaunchModel { mode, file, ocr_lang: lang }),
                },
            },
        },
    }
}

fn prefixed(key: &str, value: &[char]) -> (r: String)
    ensures
        r@ == key@ + value@,
{
    let mut v = chars_of(key);
    push_all(&mut v, value);
    string_of(v.as_slice())
}

/// The canonical argv of `opts`.
pub fn to_argv(opts: &LaunchOptions) -> (argv: Vec<String>)
    ensures
        argv.deep_view() == to_argv_spec(opts@),
{
    let mode = match opts.mode {
        Mode::QuickPreview => chars_of("quick-preview"),
        Mode::FullViewer => chars_of("full-viewer"),
    };
    let lang = chars_of(opts.ocr_lang.as_str());
    let file = chars_of(opts.file.as_str());
    let mut argv: Vec<String> = Vec::new();
    argv.push("quickview".to_owned());
    argv.push(prefixed("--mode=", mode.as_slice()));
    argv.push(prefixed("--lang=", lang.as_slice()));
    argv.push(prefixed("--file=", file.as_slice()));
    assert(argv.deep_view() =~= to_argv_spec(opts@));
    argv
}

/// Once a token is rejected, scanning more tokens keeps that error.
proof fn lemma_scan_stops(args: Seq<Seq<char>>, n: int)
    requires
        0 <= n <= args.len(),
        argv_scan(args.subrange(0, n)) is Err,
    ensures
        argv_scan(args) == argv_scan(args.subrange(0, n)),
    decreases args.len() - n,
{
    if n < args.len() {
        let sub = args.subrange(0, n + 1);
        assert(sub.drop_last() =~= args.subrange(0, n));
        lemma_scan_stops(args, n + 1);
    } else {
        assert(args.subrange(0, n) =~= args);
    }
}

/// Reads a canonical argv back into launch options.
pub fn from_argv(argv: &[String]) -> (r: Result<LaunchOptions, ArgvError>)
    ensures
        match from_argv_spec(argv.deep_view()) {
            Ok(m) => r matches Ok(o) && o@ == m,
            Err(e) => r matches Err(err) && err@ == e,
        },
{
    proof {
        reveal_strlit("--mode=");
        reveal_strlit("--lang=");
        reveal_strlit("--file=");
    }
    let ghost all = argv.deep_view();
    let ghost args = if all.len() == 0 {
        all
    } else {
        all.drop_first()
    };
    assert(all.len() == 0 ==> argv_scan(args) == Ok::<ArgvState, ArgvErrorModel>(
        ArgvState { mode: None, lang: None, file: None },
    ));
    let mode_key = chars_of("--mode=");
    let lang_key = chars_of("--lang=");
    let file_key = chars_of("--file=");
    let quick = chars_of("quick-preview");
    let full = chars_of("full-viewer");
    let mut mode: Option<Mode> = None;
    let mut lang: Option<Vec<char>> = None;
    let mut file: Option<Vec<char>> = None;
    if argv.len() == 0 {
        return Err(ArgvError::MissingMode);
    }
    let mut i: usize = 1;
    assert(args.subrange(0, 0) =~= Seq::<Seq<char>>::empty());
    while i < argv.len()
        invariant
            all == argv.deep_view(),
            all.len() > 0,
            args == all.drop_first(),
            1 <= i <= argv@.len(),
            mode_key@ == "--mode="@,
            lang_key@ == "--lang="@,
            file_key@ == "--file="@,
            quick@ == "quick-preview"@,
            full@ == "full-viewer"@,
            argv_scan(args.subrange(0, i - 1)) matches Ok(st) && st.mode == mode && st.lang == (
            match lang {
                Some(v) => Some(v@),
                None => None,
            }) && st.file == (match file {
                Some(v) => Some(v@),
                None => None,
            }),
        decreases argv.len() - i,
    {
        proof {
            reveal_strlit("--mode=");
            reveal_strlit("--lang=");
            reveal_strlit("--file=");
        }
        let arg = chars_of(argv[i].as_str());
        proof {
            let sub = args.subrange(0, i as int);
            assert(sub.drop_last() =~= args.subrange(0, i - 1));
            assert(sub.last() == argv@[i as int]@);
        }
        if let Some(v) = strip_prefix(arg.as_slice(), mode_key.as_slice()) {
            if chars_eq(v.as_slice(), quick.as_slice()) {
                mode = Some(Mode::QuickPreview);
            } else if chars_eq(v.as_slice(), full.as_slice()) {
                mode = Some(Mode::FullViewer);
            } else {
                let r = Err(ArgvError::UnknownMode(string_of(v.as_slice())));
                proof {
                    lemma_scan_stops(args, i as int);
                }
                return r;
            }
        } else if let Some(v) = strip_prefix(arg.as_slice(), lang_key.as_slice()) {
            lang = Some(v);
        } else if let Some(v) = strip_prefix(arg.as_slice(), file_key.as_slice()) {
            file = Some(v);
        } else {
            let r = Err(ArgvError::UnexpectedArgument(string_of(arg.as_slice())));
            proof {
                lemma_scan_stops(args, i as int);
            }
            return r;
        }
        i = i + 1;
    }
    assert(args.subrange(0, i - 1) =~= args);
    let mode = match mode {
        Some(m) => m,
        None => {
            return Err(ArgvError::MissingMode);
        },
    };
    let lang = match lang {
        Some(l) => l,
        None => {
            return Err(ArgvError::MissingLang);
        },
    };
    let file = match file {
        Some(f) => f,
        None => {
            return Err(ArgvError::MissingFile);
        },
    };
    Ok(
        LaunchOptions {
            mode,
            file: string_of(file.as_slice()),
            ocr_lang: string_of(lang.as_slice()),
        },
    )
}

/// Decoding the canonical argv of any launch options gives them back.
pub proof fn argv_round_trip(o: LaunchModel)
    ensures
        from_argv_spec(to_argv_spec(o)) == Ok::<LaunchModel, ArgvErrorModel>(o),
{
    reveal_strlit("--mode=");
    reveal_strlit("--lang=");
    reveal_strlit("--file=");
    reveal_strlit("quick-preview");
    reveal_strlit("full-viewer");
    let argv = to_argv_spec(o);
    let args = argv.drop_first();
    let t0 = "--mode="@ + mode_name(o.mode);
    let t1 = "--lang="@ + o.ocr_lang;
    let t2 = "--file="@ + o.file;
    assert(t0.subrange(0, 7) =~= "--mode="@);
    assert(t0.subrange(7, t0.len() as int) =~= mode_name(o.mode));
    assert(t1.subrange(0, 7) =~= "--lang="@);
    assert(t1.subrange(7, t1.len() as int) =~= o.ocr_lang);
    assert(t1.subrange(0, 7)[2] != "--mode="@[2]);
    assert(t2.subrange(0, 7) =~= "--file="@);
    assert(t2.subrange(7, t2.len() as int) =~= o.file);
    assert(t2.subrange(0, 7)[2] != "--mode="@[2]);
    assert(t2.subrange(0, 7)[2] != "--lang="@[2]);
    assert(args =~= seq![t0, t1, t2]);
    assert(args.drop_last() =~= seq![t0, t1]);
    assert(args.drop_last().drop_last() =~= seq![t0]);
    assert(args.drop_last().drop_last().drop_last() =~= Seq::<Seq<char>>::empty());
    if o.mode == Mode::FullViewer {
        assert(mode_name(o.mode) != "quick-preview"@) by {
            assert(mode_name(o.mode).len() != "quick-preview"@.len());
        }
    }
    let st0 = ArgvState { mode: None, lang: None, file: None };
    assert(seq![t0].drop_last() =~= Seq::<Seq<char>>::empty());
    assert(argv_scan(Seq::<Seq<char>>::empty()) == Ok::<ArgvState, ArgvErrorModel>(st0));
    assert(seq![t0].last() == t0);
    assert(argv_scan(seq![t0]) == argv_step(st0, t0));
    let st1 = ArgvState { mode: Some(o.mode), lang: None, file: None };
    assert(argv_step(st0, t0) == Ok::<ArgvState, ArgvErrorModel>(st1));
    let st2 = ArgvState { mode: Some(o.mode), lang: Some(o.ocr_lang), file: None };
    assert(argv_step(st1, t1) == Ok::<ArgvState, ArgvErrorModel>(st2));
    let st3 = ArgvState { mode: Some(o.mode), lang: Some(o.ocr_lang), file: Some(o.file) };
    assert(argv_step(st2, t2) == Ok::<ArgvState, ArgvErrorModel>(st3));
    assert(seq![t0, t1].drop_last() =~= seq![t0]);
    assert(argv_scan(seq![t0, t1]) == argv_step(st1, t1));
    assert(argv_scan(args) == argv_step(st2, t2));
}

} // verus!
