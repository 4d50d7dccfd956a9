//! The viewer's decisions, apart from the toolkit that carries them out:
//! directory navigation, file information text, late OCR results, routing of
//! forwarded invocations, decoder choice, stdin input and texture download
//! sizes.
use vstd::prelude::*;

use crate::fs::{file_name, path_components, path_file_name, same_path};
use crate::ipc::Mode;
use crate::text::{chars_of, i64_text, int_text, push_all, string_of, trim, trim_chars};

verus! {

/// Basic metadata about the displayed file, for the info display.
#[derive(Debug, Clone)]
pub struct FileInfo {
    /// File name without the directory.
    pub name: String,
    /// Texture width in pixels (0 when `load_failed`).
    pub width: i32,
    /// Texture height in pixels (0 when `load_failed`).
    pub height: i32,
    /// File size in bytes; `None` if metadata could not be read.
    pub size_bytes: Option<u64>,
    /// True when the image could not be decoded.
    pub load_failed: bool,
}

/// The headerbar subtitle: `W×H · <size>`, `W×H` when the size is unknown,
/// or a failure notice.
pub open spec fn subtitle_spec(
    load_failed: bool,
    width: int,
    height: int,
    has_size: bool,
    size_text: Seq<char>,
) -> Seq<char> {
    if load_failed {
        "Could not load image"@
    } else {
        let dims = int_text(width) + seq!['\u{d7}'] + int_text(height);
        if has_size {
            dims + seq![' ', '\u{b7}', ' '] + size_text
        } else {
            dims
        }
    }
}

/// Subtitle string for the headerbar, e.g. `1920×1080 · 2.4 MB`.
/// `size_text` is the human-readable form of `info.size_bytes` (used only
/// when the size is known).
pub fn format_subtitle(info: &FileInfo, size_text: &str) -> (r: String)
    ensures
        r@ == subtitle_spec(
            info.load_failed,
            info.width as int,
            info.height as int,
            info.size_bytes is Some,
            size_text@,
        ),
{
    if info.load_failed {
        return "Could not load image".to_owned();
    }
    let mut out = i64_text(info.width as i64);
    out.push('\u{d7}');
    let h = i64_text(info.height as i64);
    push_all(&mut out, h.as_slice());
    if info.size_bytes.is_some() {
        out.push(' ');
        out.push('\u{b7}');
        out.push(' ');
        let s = chars_of(size_text);
        push_all(&mut out, s.as_slice());
        assert(out@ =~= int_text(info.width as int) + seq!['\u{d7}'] + int_text(info.height as int)
            + seq![' ', '\u{b7}', ' '] + size_text@);
    } else {
        assert(out@ =~= int_text(info.width as int) + seq!['\u{d7}'] + int_text(info.height as int));
    }
    string_of(out.as_slice())
}

/// The name shown for a file: its file name, or the whole path when it has
/// none.
pub open spec fn display_name_spec(path: Seq<char>) -> Seq<char> {
    match file_name(path) {
        Some(n) => n,
        None => path,
    }
}

/// The name shown for `path`.
pub fn display_name(path: &str) -> (r: String)
    ensures
        r@ == display_name_spec(path@),
{
    match path_file_name(path) {
        Some(n) => n,
        None => path.to_owned(),
    }
}

/// Navigation through the images of the current directory.
pub struct DirNavigator {
    images: Vec<String>,
    index: usize,
}

impl View for DirNavigator {
    type V = (Seq<Seq<char>>, int);

    closed spec fn view(&self) -> (Seq<Seq<char>>, int) {
        (self.images.deep_view(), self.index as int)
    }
}

/// The position reached by stepping forward: one further, but never past the
/// last image.
pub open spec fn next_index(len: int, index: int) -> int {
    if index + 1 < len - 1 {
        index + 1
    } else {
        len - 1
    }
}

/// The position reached by stepping back: one earlier, never before the first.
pub open spec fn prev_index(index: int) -> int {
    if index > 0 {
        index - 1
    } else {
        0
    }
}

impl DirNavigator {
    /// The navigator's invariant: its position lies inside the list (or is 0
    /// for an empty list).
    #[verifier::type_invariant]
    spec fn wf(&self) -> bool {
        self.index == 0 || self.index < self.images@.len()
    }

    /// Starts at `file` within `images` (sorted directory images): at the
    /// first image that is the same path as `file` (compared by components),
    /// or at the first image when there is none.
    pub fn new(file: &str, images: Vec<String>) -> (r: DirNavigator)
        ensures
            r@.0 == images.deep_view(),
            0 <= r@.1 && (r@.1 < images@.len() || r@.1 == 0),
            forall|k: int|
                0 <= k < r@.1 ==> path_components(#[trigger] images.deep_view()[k])
                    != path_components(file@),
            (exists|k: int|
                0 <= k < images@.len() && path_components(#[trigger] images.deep_view()[k])
                    == path_components(file@)) ==> path_components(images.deep_view()[r@.1])
                == path_components(file@),
            !(exists|k: int|
                0 <= k < images@.len() && path_components(#[trigger] images.deep_view()[k])
                    == path_components(file@)) ==> r@.1 == 0,
    {
        let mut idx: usize = 0;
        let mut found = false;
        let mut i: usize = 0;
        while i < images.len() && !found
            invariant
                0 <= i <= images@.len(),
                found ==> idx < images@.len() && path_components(images.deep_view()[idx as int])
                    == path_components(file@),
                found ==> forall|k: int|
                    0 <= k < idx ==> path_components(#[trigger] images.deep_view()[k])
                        != path_components(file@),
                !found ==> idx == 0 && forall|k: int|
                    0 <= k < i ==> path_components(#[trigger] images.deep_view()[k])
                        != path_components(file@),
            decreases images.len() - i + (if found { 0int } else { 1int }),
        {
            if same_path(images[i].as_str(), file) {
                idx = i;
                found = true;
            } else {
                i = i + 1;
            }
        }
        let r = DirNavigator { images, index: idx };
        proof {
            if !found {
                assert(i == r.images@.len());
            }
        }
        r
    }

    /// The current image, if the list is not empty.
    pub fn current(&self) -> (r: Option<String>)
        ensures
            self@.0.len() == 0 ==> r is None,
            self@.0.len() > 0 ==> (r matches Some(p) && p@ == self@.0[self@.1]),
    {
        proof {
            use_type_invariant(self);
        }
        if self.images.len() == 0 {
            None
        } else {
            Some(self.images[self.index].clone())
        }
    }

    /// Steps to the next image and returns the path to load (the last image
    /// again when already at the end); `None` for an empty directory.
    pub fn next_image(&mut self) -> (r: Option<String>)
        ensures
            final(self)@.0 == old(self)@.0,
            old(self)@.0.len() == 0 ==> r is None && final(self)@.1 == old(self)@.1,
            old(self)@.0.len() > 0 ==> final(self)@.1 == next_index(
                old(self)@.0.len() as int,
                old(self)@.1,
            ) && (r matches Some(p) && p@ == old(self)@.0[final(self)@.1]),
    {
        proof {
            use_type_invariant(&*self);
        }
        if self.images.len() == 0 {
            return None;
        }
        let last = self.images.len() - 1;
        let idx = if self.index + 1 < last {
            self.index + 1
        } else {
            last
        };
        self.index = idx;
        Some(self.images[idx].clone())
    }

    /// Steps to the previous image and returns the path to load; `None` when
    /// already at the first image (nothing to reload) or the directory is
    /// empty.
    pub fn prev_image(&mut self) -> (r: Option<String>)
        ensures
            final(self)@.0 == old(self)@.0,
            old(self)@.0.len() == 0 || old(self)@.1 == 0 ==> r is None && final(self)@.1 == old(
                self,
            )@.1,
            old(self)@.0.len() > 0 && old(self)@.1 > 0 ==> final(self)@.1 == old(self)@.1 - 1
                && (r matches Some(p) && p@ == old(self)@.0[final(self)@.1]),
    {
        proof {
            use_type_invariant(&*self);
        }
        if self.images.len() == 0 {
            return None;
        }
        if self.index == 0 {
            return None;
        }
        self.index = self.index - 1;
        Some(self.images[self.index].clone())
    }
}

/// Stepping forward from any image but the last and then back returns to it.
pub proof fn next_then_prev_returns(len: int, index: int)
    requires
        0 <= index < len - 1,
    ensures
        prev_index(next_index(len, index)) == index,
{
}

/// Stepping back from any image but the first and then forward returns to it.
pub proof fn prev_then_next_returns(len: int, index: int)
    requires
        0 < index < len,
    ensures
        next_index(len, prev_index(index)) == index,
{
}

/// Navigation never leaves the list.
pub proof fn navigation_stays_in_range(len: int, index: int)
    requires
        0 <= index < len,
    ensures
        0 <= next_index(len, index) < len,
        0 <= prev_index(index) < len,
{
}

/// Tracks the newest OCR job so that late results of older ones are ignored.
pub struct OcrJobs {
    current: u64,
}

impl OcrJobs {
    pub closed spec fn current_id(&self) -> u64 {
        self.current
    }

    pub fn new() -> (r: OcrJobs)
        ensures
            r.current_id() == 0,
    {
        OcrJobs { current: 0 }
    }

    /// Starts a new job and returns its id (the previous id plus one,
    /// wrapping).
    pub fn start(&mut self) -> (id: u64)
        ensures
            id == final(self).current_id(),
            id == (if old(self).current_id() == u64::MAX {
                0
            } else {
                old(self).current_id() + 1
            }),
    {
        self.current = self.current.wrapping_add(1);
        self.current
    }

    /// Whether a result of job `id` is still wanted.
    pub fn is_current(&self, id: u64) -> (b: bool)
        ensures
            b == (id == self.current_id()),
    {
        id == self.current
    }
}

/// Starting a job supersedes the previous one: its results are no longer
/// current, while the new job's are.
pub proof fn new_job_supersedes_old(before: u64)
    ensures
        ({
            let after = if before == u64::MAX {
                0
            } else {
                before + 1
            };
            after != before
        }),
{
}

/// What the primary instance does with a forwarded invocation.
#[derive(Debug, Clone, Copy, PartialEq, Eq, Structural)]
pub enum DispatchAction {
    /// The preview already shows this file (the same path, compared by
    /// components): the launch key acts as a toggle.
    ClosePreview,
    /// Show another file in the open preview, with this invocation's language.
    ShowInPreview,
    /// Open a new preview window.
    OpenPreview,
    /// Open a full viewer window, after closing the preview if one is open
    /// (it would sit on top of the viewer).
    OpenFullViewer { close_preview: bool },
}

pub open spec fn dispatch_spec(mode: Mode, preview_file: Option<Seq<char>>, file: Seq<char>) -> DispatchAction {
    match mode {
        Mode::QuickPreview => match preview_file {
            Some(f) => if path_components(f) == path_components(file) {
                DispatchAction::ClosePreview
            } else {
                DispatchAction::ShowInPreview
            },
            None => DispatchAction::OpenPreview,
        },
        Mode::FullViewer => DispatchAction::OpenFullViewer { close_preview: preview_file is Some },
    }
}

/// Routes one invocation: `preview_file` is the file of the open preview
/// window, if any.
pub fn dispatch_action(mode: Mode, preview_file: Option<&str>, file: &str) -> (r: DispatchAction)
    ensures
        r == dispatch_spec(
            mode,
            match preview_file {
                Some(f) => Some(f@),
                None => None,
            },
            file@,
        ),
{
    match mode {
        Mode::QuickPreview => match preview_file {
            Some(f) => {
                if same_path(f, file) {
                    DispatchAction::ClosePreview
                } else {
                    DispatchAction::ShowInPreview
                }
            },
            None => DispatchAction::OpenPreview,
        },
        Mode::FullViewer => DispatchAction::OpenFullViewer { close_preview: preview_file.is_some() },
    }
}

/// The image decoding backend, chosen once per session.
#[derive(Debug, Clone, Copy, PartialEq, Eq, Structural)]
pub enum Backend {
    /// Sandboxed loader processes.
    Glycin,
    /// In-process decoding; only when no sandboxed loaders are installed.
    Gdk,
}

/// The session's backend given how many MIME types the sandboxed loaders
/// support: in-process decoding only when there are none.
pub fn backend_for(loader_mime_types: usize) -> (b: Backend)
    ensures
        b == (if loader_mime_types == 0 {
            Backend::Gdk
        } else {
            Backend::Glycin
        }),
{
    if loader_mime_types == 0 {
        Backend::Gdk
    } else {
        Backend::Glycin
    }
}

/// Whether the file argument asks for a path on stdin (absent or `-`).
pub fn wants_stdin(arg: Option<&str>) -> (b: bool)
    ensures
        b == match arg {
            None => true,
            Some(a) => a@ == "-"@,
        },
{
    match arg {
        None => true,
        Some(a) => {
            let c = chars_of(a);
            let dash = chars_of("-");
            crate::text::chars_eq(c.as_slice(), dash.as_slice())
        },
    }
}

/// Index of the first `c` in `s`, or `s.len()` when there is none.
pub open spec fn first_index_of(s: Seq<char>, c: char) -> int
    decreases s.len(),
{
    if s.len() == 0 {
        0
    } else if s[0] == c {
        0
    } else {
        1 + first_index_of(s.drop_first(), c)
    }
}

/// The path read from stdin: the first line, trimmed; `None` when it is
/// empty.
pub open spec fn stdin_path_spec(input: Seq<char>) -> Option<Seq<char>> {
    let p = trim(input.subrange(0, first_index_of(input, '\n')));
    if p.len() == 0 {
        None
    } else {
        Some(p)
    }
}

proof fn lemma_first_index_at(s: Seq<char>, c: char, n: int)
    requires
        0 <= n <= s.len(),
        forall|k: int| 0 <= k < n ==> s[k] != c,
        n == s.len() || s[n] == c,
    ensures
        first_index_of(s, c) == n,
    decreases n,
{
    if n > 0 {
        lemma_first_index_at(s.drop_first(), c, n - 1);
    }
}

/// The image path given on stdin: the first line, trimmed; `None` when empty.
pub fn stdin_path(input: &str) -> (r: Option<String>)
    ensures
        match stdin_path_spec(input@) {
            Some(p) => r matches Some(s) && s@ == p,
            None => r is None,
        },
{
    let s = chars_of(input);
    let mut end: usize = 0;
    while end < s.len() && s[end] != '\n'
        invariant
            0 <= end <= s@.len(),
            forall|k: int| 0 <= k < end ==> s@[k] != '\n',
        decreases s.len() - end,
    {
        end = end + 1;
    }
    proof {
        lemma_first_index_at(s@, '\n', end as int);
    }
    let mut line: Vec<char> = Vec::new();
    let mut k: usize = 0;
    while k < end
        invariant
            0 <= k <= end <= s@.len(),
            line@ =~= s@.subrange(0, k as int),
        decreases end - k,
    {
        line.push(s[k]);
        k = k + 1;
    }
    let t = trim_chars(line.as_slice());
    if t.len() == 0 {
        None
    } else {
        Some(string_of(t.as_slice()))
    }
}

/// Why texture pixels cannot be laid out in memory.
#[derive(Debug, Clone, Copy, PartialEq, Eq, Structural)]
pub enum RgbaLayoutError {
    /// The width is negative or `width * 4` overflows.
    WidthOverflow,
    /// The height is negative or `height * stride` overflows.
    SizeOverflow,
    /// The row stride does not fit in `i32`.
    StrideTooLarge,
}

/// Row stride and total length, in bytes, of an RGBA copy of a
/// `width` x `height` texture (4 bytes per pixel, rows packed).
pub fn rgba_layout(width: i32, height: i32) -> (r: Result<(usize, usize), RgbaLayoutError>)
    ensures
        width < 0 || width as int * 4 > usize::MAX ==> r == Err::<(usize, usize), RgbaLayoutError>(
            RgbaLayoutError::WidthOverflow,
        ),
        !(width < 0 || width as int * 4 > usize::MAX) && (height < 0 || height as int * (width as int
            * 4) > usize::MAX) ==> r == Err::<(usize, usize), RgbaLayoutError>(
            RgbaLayoutError::SizeOverflow,
        ),
        !(width < 0 || width as int * 4 > usize::MAX) && !(height < 0 || height as int * (width as int
            * 4) > usize::MAX) && width as int * 4 > i32::MAX ==> r == Err::<
            (usize, usize),
            RgbaLayoutError,
        >(RgbaLayoutError::StrideTooLarge),
        !(width < 0 || width as int * 4 > usize::MAX) && !(height < 0 || height as int * (width as int
            * 4) > usize::MAX) && width as int * 4 <= i32::MAX ==> (r matches Ok((stride, len))
            && stride == width * 4 && len == height * (width * 4)),
        r matches Ok((stride, len)) ==> stride == width * 4 && len == height * (width * 4)
            && stride <= i32::MAX,
{
    if width < 0 {
        return Err(RgbaLayoutError::WidthOverflow);
    }
    let w = width as usize;
    let stride = match w.checked_mul(4) {
        Some(s) => s,
        None => {
            return Err(RgbaLayoutError::WidthOverflow);
        },
    };
    if height < 0 {
        return Err(RgbaLayoutError::SizeOverflow);
    }
    let h = height as usize;
    let len = match h.checked_mul(stride) {
        Some(l) => l,
        None => {
            return Err(RgbaLayoutError::SizeOverflow);
        },
    };
    if stride > i32::MAX as usize {
        return Err(RgbaLayoutError::StrideTooLarge);
    }
    Ok((stride, len))
}

} // verus!
