//! Tesseract invocation settings and its argument list.
use vstd::prelude::*;

verus! {

/// Settings that influence what tesseract recognizes.
///
/// Every field here changes OCR output, so every field must join the OCR
/// cache key.
#[derive(Debug, Clone, PartialEq)]
pub struct OcrOptions {
    /// Language(s), tesseract `-l` (e.g. `eng`, `deu`, `eng+deu`).
    pub lang: String,
    /// Directory with `.traineddata` files (`--tessdata-dir`), e.g. a
    /// `tessdata_fast` or `tessdata_best` checkout. `None` uses the system
    /// default.
    pub tessdata_dir: Option<String>,
}

/// The tesseract argument list for `input` under `lang` and `tessdata_dir`:
/// `<input> - -l <lang> [--tessdata-dir <dir>] tsv quiet`.
pub open spec fn tesseract_args_spec(
    input: Seq<char>,
    lang: Seq<char>,
    tessdata_dir: Option<Seq<char>>,
) -> Seq<Seq<char>> {
    let head = seq![input, "-"@, "-l"@, lang];
    let mid = match tessdata_dir {
        Some(d) => seq!["--tessdata-dir"@, d],
        None => Seq::empty(),
    };
    head + mid + seq!["tsv"@, "quiet"@]
}

/// Build the tesseract argv (without the program name). Options must precede
/// the trailing `tsv quiet` config names or tesseract treats them as config
/// files.
pub fn tesseract_args(input: &str, opts: &OcrOptions) -> (args: Vec<String>)
    ensures
        args.deep_view() == tesseract_args_spec(
            input@,
            opts.lang@,
            match opts.tessdata_dir {
                Some(d) => Some(d@),
                None => None,
            },
        ),
{
    let mut args: Vec<String> = Vec::new();
    args.push(input.to_owned());
    args.push("-".to_owned());
    args.push("-l".to_owned());
    args.push(opts.lang.clone());
    match &opts.tessdata_dir {
        Some(dir) => {
            args.push("--tessdata-dir".to_owned());
            args.push(dir.clone());
        },
        None => {},
    }
    args.push("tsv".to_owned());
    args.push("quiet".to_owned());
    assert(args.deep_view() =~= tesseract_args_spec(
        input@,
        opts.lang@,
        match opts.tessdata_dir {
            Some(d) => Some(d@),
            None => None,
        },
    ));
    args
}

} // verus!
