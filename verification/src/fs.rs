//! Path names: file names, extensions, joining, and the image-file filter.
//!
//! Paths are handled as text with `/` separators, following the component
//! rules of `std::path::Path` on Unix.
use vstd::prelude::*;

use crate::text::{chars_eq, chars_of, push_all, string_of};

verus! {

#[verifier::external_type_specification]
#[verifier::external_body]
pub struct ExIoError(std::io::Error);

/// Why a directory could not be listed.
#[derive(Debug)]
pub enum FsError {
    Io(std::io::Error),
}

/// Index of the last `c` in `s`, if any.
pub open spec fn last_index_of(s: Seq<char>, c: char) -> Option<int>
    decreases s.len(),
{
    if s.len() == 0 {
        None
    } else if s.last() == c {
        Some(s.len() - 1)
    } else {
        last_index_of(s.drop_last(), c)
    }
}

/// What `Path::file_name` returns: the last normal component, ignoring
/// trailing separators and `.` components; `None` for an empty path, a root,
/// a lone `.` or a path ending in `..`.
pub open spec fn file_name(s: Seq<char>) -> Option<Seq<char>>
    decreases s.len(),
{
    if s.len() == 0 {
        None
    } else if s.last() == '/' {
        file_name(s.drop_last())
    } else {
        proof {
            lemma_last_index_bounds(s, '/');
        }
        let k = match last_index_of(s, '/') {
            Some(k) => k,
            None => -1,
        };
        let seg = s.subrange(k + 1, s.len() as int);
        if seg == seq!['.'] {
            if k < 0 {
                None
            } else {
                file_name(s.subrange(0, k))
            }
        } else if seg == seq!['.', '.'] {
            None
        } else {
            Some(seg)
        }
    }
}

/// The extension of a file name, as `Path::extension` takes it: the part
/// after the last `.`, unless there is no `.` or the only one starts the name.
pub open spec fn extension_of(name: Seq<char>) -> Option<Seq<char>> {
    match last_index_of(name, '.') {
        None => None,
        Some(k) => if k == 0 {
            None
        } else {
            Some(name.subrange(k + 1, name.len() as int))
        },
    }
}

/// What `Path::extension` returns for a path.
pub open spec fn path_extension(path: Seq<char>) -> Option<Seq<char>> {
    match file_name(path) {
        Some(name) => extension_of(name),
        None => None,
    }
}

/// `last_index_of` finds the last occurrence: it is in range, holds `c`, and
/// no later position does.
pub proof fn lemma_last_index_bounds(s: Seq<char>, c: char)
    ensures
        last_index_of(s, c) matches Some(k) ==> 0 <= k < s.len() && s[k] == c && forall|q: int|
            k < q < s.len() ==> s[q] != c,
        last_index_of(s, c) is None ==> forall|q: int| 0 <= q < s.len() ==> s[q] != c,
    decreases s.len(),
{
    if s.len() > 0 && s.last() != c {
        lemma_last_index_bounds(s.drop_last(), c);
        assert forall|q: int| 0 <= q < s.len() - 1 implies s.drop_last()[q] == s[q] by {}
    }
}

fn last_index(s: &[char], end: usize, c: char) -> (r: Option<usize>)
    requires
        end <= s@.len(),
    ensures
        match last_index_of(s@.subrange(0, end as int), c) {
            Some(k) => r == Some(k as usize),
            None => r is None,
        },
{
    let mut j: usize = end;
    while j > 0
        invariant
            j <= end <= s@.len(),
            last_index_of(s@.subrange(0, end as int), c) == last_index_of(s@.subrange(0, j as int), c),
        decreases j,
    {
        let ghost sub = s@.subrange(0, j as int);
        assert(sub.last() == s@[j - 1]);
        if s[j - 1] == c {
            return Some(j - 1);
        }
        assert(sub.drop_last() =~= s@.subrange(0, j - 1));
        j = j - 1;
    }
    None
}

fn copy_range(s: &[char], from: usize, to: usize) -> (r: Vec<char>)
    requires
        from <= to <= s@.len(),
    ensures
        r@ == s@.subrange(from as int, to as int),
{
    let mut r: Vec<char> = Vec::new();
    let mut k = from;
    while k < to
        invariant
            from <= k <= to <= s@.len(),
            r@ =~= s@.subrange(from as int, k as int),
        decreases to - k,
    {
        r.push(s[k]);
        k = k + 1;
    }
    r
}

/// The last normal component of `s[..end]`.
fn file_name_prefix(s: &[char], end: usize) -> (r: Option<Vec<char>>)
    requires
        end <= s@.len(),
    ensures
        match file_name(s@.subrange(0, end as int)) {
            Some(n) => r matches Some(v) && v@ == n,
            None => r is None,
        },
    decreases end,
{
    let ghost p = s@.subrange(0, end as int);
    if end == 0 {
        return None;
    }
    if s[end - 1] == '/' {
        assert(p.drop_last() =~= s@.subrange(0, end - 1));
        return file_name_prefix(s, end - 1);
    }
    let k = last_index(s, end, '/');
    proof {
        lemma_last_index_bounds(p, '/');
    }
    let start: usize = match k {
        Some(k) => k + 1,
        None => 0,
    };
    proof {
        lemma_last_index_bounds(p, '/');
    }
    let seg = copy_range(s, start, end);
    assert(seg@ == p.subrange(start as int, p.len() as int));
    if seg.len() == 1 && seg[0] == '.' {
        assert(seg@ =~= seq!['.']);
        match k {
            None => {
                return None;
            },
            Some(k) => {
                assert(p.subrange(0, k as int) =~= s@.subrange(0, k as int));
                return file_name_prefix(s, k);
            },
        }
    }
    assert(seg@ != seq!['.']);
    if seg.len() == 2 && seg[0] == '.' && seg[1] == '.' {
        assert(seg@ =~= seq!['.', '.']);
        return None;
    }
    assert(seg@ != seq!['.', '.']);
    Some(seg)
}

/// `Path::file_name`, as text.
pub fn path_file_name(path: &str) -> (r: Option<String>)
    ensures
        match file_name(path@) {
            Some(n) => r matches Some(v) && v@ == n,
            None => r is None,
        },
{
    let s = chars_of(path);
    assert(s@.subrange(0, s@.len() as int) =~= s@);
    match file_name_prefix(s.as_slice(), s.len()) {
        Some(v) => Some(string_of(v.as_slice())),
        None => None,
    }
}

/// `Path::extension`, as characters.
pub fn path_extension_chars(path: &[char]) -> (r: Option<Vec<char>>)
    ensures
        match path_extension(path@) {
            Some(e) => r matches Some(v) && v@ == e,
            None => r is None,
        },
{
    assert(path@.subrange(0, path@.len() as int) =~= path@);
    let name = match file_name_prefix(path, path.len()) {
        Some(n) => n,
        None => {
            return None;
        },
    };
    assert(name@.subrange(0, name@.len() as int) =~= name@);
    assert(file_name(path@) == Some(name@));
    proof {
        lemma_last_index_bounds(name@, '.');
    }
    match last_index(name.as_slice(), name.len(), '.') {
        None => {
            None
        },
        Some(k) => {
            if k == 0 {
                None
            } else {
                proof {
                    lemma_last_index_bounds(name@, '.');
                }
                Some(copy_range(name.as_slice(), k + 1, name.len()))
            }
        },
    }
}

/// ASCII lowercase of one character, as `u8::to_ascii_lowercase` maps it.
pub open spec fn ascii_lower(c: char) -> char {
    if 'A' <= c <= 'Z' {
        ((c as u32) + 32) as char
    } else {
        c
    }
}

/// `str::to_ascii_lowercase`.
pub open spec fn ascii_lowercase(s: Seq<char>) -> Seq<char> {
    s.map_values(|c: char| ascii_lower(c))
}

fn lower_char(c: char) -> (r: char)
    ensures
        r == ascii_lower(c),
{
    if c >= 'A' && c <= 'Z' {
        ((c as u8) + 32) as char
    } else {
        c
    }
}

pub(crate) fn ascii_lowercase_chars(s: &[char]) -> (r: Vec<char>)
    ensures
        r@ == ascii_lowercase(s@),
{
    let mut r: Vec<char> = Vec::new();
    let mut i: usize = 0;
    while i < s.len()
        invariant
            0 <= i <= s@.len(),
            r@ =~= ascii_lowercase(s@.subrange(0, i as int)),
        decreases s.len() - i,
    {
        r.push(lower_char(s[i]));
        i = i + 1;
    }
    assert(s@.subrange(0, s@.len() as int) =~= s@);
    r
}

/// The file extensions treated as images: a small, conservative list.
pub open spec fn image_extensions() -> Seq<Seq<char>> {
    seq!["png"@, "jpg"@, "jpeg"@, "webp"@, "gif"@, "tif"@, "tiff"@, "bmp"@, "svg"@]
}

/// Whether `path` names an image file by its (case-insensitive) extension.
pub open spec fn is_image_path_spec(path: Seq<char>) -> bool {
    match path_extension(path) {
        Some(e) => image_extensions().contains(ascii_lowercase(e)),
        None => false,
    }
}

fn ext_matches(ext: &[char], candidate: &str) -> (b: bool)
    ensures
        b == (ext@ == candidate@),
{
    let c = chars_of(candidate);
    chars_eq(ext, c.as_slice())
}

/// Whether `path` has one of the image extensions, compared case-insensitively.
///
/// This is intentionally extension based; no file contents are inspected.
pub fn is_image_path(path: &str) -> (b: bool)
    ensures
        b == is_image_path_spec(path@),
{
    let p = chars_of(path);
    let ext = match path_extension_chars(p.as_slice()) {
        Some(e) => e,
        None => {
            return false;
        },
    };
    let lower = ascii_lowercase_chars(ext.as_slice());
    let l = lower.as_slice();
    let hit = ext_matches(l, "png") || ext_matches(l, "jpg") || ext_matches(l, "jpeg")
        || ext_matches(l, "webp") || ext_matches(l, "gif") || ext_matches(l, "tif") || ext_matches(
        l,
        "tiff",
    ) || ext_matches(l, "bmp") || ext_matches(l, "svg");
    proof {
        let exts = image_extensions();
        if exts.contains(lower@) {
            let k = choose|k: int| 0 <= k < exts.len() && exts[k] == lower@;
            assert(hit);
        }
        if hit {
            assert(exts.contains(lower@)) by {
                if lower@ == "png"@ {
                    assert(exts[0] == lower@);
                } else if lower@ == "jpg"@ {
                    assert(exts[1] == lower@);
                } else if lower@ == "jpeg"@ {
                    assert(exts[2] == lower@);
                } else if lower@ == "webp"@ {
                    assert(exts[3] == lower@);
                } else if lower@ == "gif"@ {
                    assert(exts[4] == lower@);
                } else if lower@ == "tif"@ {
                    assert(exts[5] == lower@);
                } else if lower@ == "tiff"@ {
                    assert(exts[6] == lower@);
                } else if lower@ == "bmp"@ {
                    assert(exts[7] == lower@);
                } else {
                    assert(exts[8] == lower@);
                }
            }
        }
    }
    hit
}

/// `base.join(part)` for Unix paths: an absolute `part` replaces `base`;
/// otherwise a `/` separates them unless `base` is empty or already ends with
/// one.
pub open spec fn join_spec(base: Seq<char>, part: Seq<char>) -> Seq<char> {
    if part.len() > 0 && part[0] == '/' {
        part
    } else if base.len() > 0 && base.last() != '/' {
        base + seq!['/'] + part
    } else {
        base + part
    }
}

/// `Path::join`, as text.
pub fn join_path(base: &str, part: &str) -> (r: String)
    ensures
        r@ == join_spec(base@, part@),
{
    let b = chars_of(base);
    let p = chars_of(part);
    if p.len() > 0 && p[0] == '/' {
        return string_of(p.as_slice());
    }
    let mut out: Vec<char> = Vec::new();
    push_all(&mut out, b.as_slice());
    if b.len() > 0 && b[b.len() - 1] != '/' {
        out.push('/');
    }
    push_all(&mut out, p.as_slice());
    string_of(out.as_slice())
}

/// Lexicographic order on character sequences (code point by code point; the
/// same order as on their UTF-8 bytes).
pub open spec fn lex_le(a: Seq<char>, b: Seq<char>) -> bool
    decreases a.len(),
{
    if a.len() == 0 {
        true
    } else if b.len() == 0 {
        false
    } else if a[0] != b[0] {
        a[0] < b[0]
    } else {
        lex_le(a.drop_first(), b.drop_first())
    }
}

/// Every pair of sequences is ordered one way or the other.
pub proof fn lex_le_total(a: Seq<char>, b: Seq<char>)
    ensures
        lex_le(a, b) || lex_le(b, a),
    decreases a.len(),
{
    if a.len() > 0 && b.len() > 0 && a[0] == b[0] {
        lex_le_total(a.drop_first(), b.drop_first());
    }
}

/// The order is transitive.
pub proof fn lex_le_transitive(a: Seq<char>, b: Seq<char>, c: Seq<char>)
    requires
        lex_le(a, b),
        lex_le(b, c),
    ensures
        lex_le(a, c),
    decreases a.len(),
{
    if a.len() > 0 && b.len() > 0 && c.len() > 0 && a[0] == b[0] && b[0] == c[0] {
        lex_le_transitive(a.drop_first(), b.drop_first(), c.drop_first());
    }
}

/// The order is antisymmetric: sequences ordered both ways are equal.
pub proof fn lex_le_antisymmetric(a: Seq<char>, b: Seq<char>)
    requires
        lex_le(a, b),
        lex_le(b, a),
    ensures
        a == b,
    decreases a.len(),
{
    if a.len() > 0 && b.len() > 0 {
        lex_le_antisymmetric(a.drop_first(), b.drop_first());
        assert(a =~= seq![a[0]] + a.drop_first());
        assert(b =~= seq![b[0]] + b.drop_first());
    }
}

fn lex_le_exec(a: &[char], b: &[char]) -> (r: bool)
    ensures
        r == lex_le(a@, b@),
{
    let mut i: usize = 0;
    assert(a@.subrange(0, a@.len() as int) =~= a@);
    assert(b@.subrange(0, b@.len() as int) =~= b@);
    while i < a.len() && i < b.len() && a[i] == b[i]
        invariant
            0 <= i <= a@.len(),
            i <= b@.len(),
            lex_le(a@, b@) == lex_le(a@.subrange(i as int, a@.len() as int), b@.subrange(
                i as int,
                b@.len() as int,
            )),
        decreases a.len() - i,
    {
        let ghost sa = a@.subrange(i as int, a@.len() as int);
        let ghost sb = b@.subrange(i as int, b@.len() as int);
        assert(sa.drop_first() =~= a@.subrange(i + 1, a@.len() as int));
        assert(sb.drop_first() =~= b@.subrange(i + 1, b@.len() as int));
        i = i + 1;
    }
    let ghost sa = a@.subrange(i as int, a@.len() as int);
    let ghost sb = b@.subrange(i as int, b@.len() as int);
    if i == a.len() {
        assert(sa.len() == 0);
        true
    } else if i == b.len() {
        assert(sb.len() == 0);
        false
    } else {
        assert(sa[0] == a@[i as int] && sb[0] == b@[i as int]);
        a[i] < b[i]
    }
}

pub open spec fn sorted_paths(s: Seq<Seq<char>>) -> bool {
    forall|i: int, j: int| 0 <= i < j < s.len() ==> lex_le(#[trigger] s[i], #[trigger] s[j])
}

/// The paths of the listed entries that are files with an image extension,
/// in listing order.
pub open spec fn image_entries(entries: Seq<(Seq<char>, bool)>) -> Seq<Seq<char>> {
    entries.filter(|e: (Seq<char>, bool)| e.1 && is_image_path_spec(e.0)).map_values(
        |e: (Seq<char>, bool)| e.0,
    )
}

/// A directory entry as listed: its path and whether it is a regular file.
pub open spec fn entry_model(e: (String, bool)) -> (Seq<char>, bool) {
    (e.0@, e.1)
}

/// Sorts paths ascending (stable insertion sort).
fn sort_paths(v: Vec<String>) -> (out: Vec<String>)
    ensures
        sorted_paths(out.deep_view()),
        out.deep_view().to_multiset() == v.deep_view().to_multiset(),
{
    broadcast use vstd::seq_lib::group_to_multiset_ensures;

    let mut out: Vec<String> = Vec::new();
    let mut i: usize = 0;
    while i < v.len()
        invariant
            0 <= i <= v@.len(),
            sorted_paths(out.deep_view()),
            out.deep_view().to_multiset() == v.deep_view().subrange(0, i as int).to_multiset(),
        decreases v.len() - i,
    {
        let x = chars_of(v[i].as_str());
        let mut j: usize = out.len();
        while j > 0 && !lex_le_exec(chars_of(out[j - 1].as_str()).as_slice(), x.as_slice())
            invariant
                0 <= j <= out@.len(),
                forall|k: int|
                    j <= k < out@.len() ==> !lex_le(#[trigger] out.deep_view()[k], x@),
            decreases j,
        {
            j = j - 1;
        }
        let ghost before = out.deep_view();
        out.insert(j, v[i].clone());
        proof {
            let after = out.deep_view();
            assert(after =~= before.insert(j as int, x@));
            assert forall|a: int, b: int| 0 <= a < b < after.len() implies lex_le(
                #[trigger] after[a],
                #[trigger] after[b],
            ) by {
                if a < j && b == j {
                    lex_le_total(before[a], x@);
                    if j > 0 && a < j - 1 {
                        lex_le_transitive(before[a], before[j - 1], x@);
                    }
                } else if a == j && b > j {
                    lex_le_total(before[b - 1], x@);
                } else if a < j && b > j {
                } else if a > j {
                }
            }
            let sub = v.deep_view().subrange(0, i + 1);
            assert(sub =~= v.deep_view().subrange(0, i as int).push(x@));
            v.deep_view().subrange(0, i as int).to_multiset_ensures();
            assert(before.insert(j as int, x@).to_multiset() =~= before.to_multiset().insert(x@))
                by {
                broadcast use vstd::multiset::group_multiset_axioms;

                let ins = before.insert(j as int, x@);
                assert(ins.remove(j as int) =~= before);
                ins.to_multiset_ensures();
                assert(ins.remove(j as int).to_multiset() =~= ins.to_multiset().remove(
                    ins[j as int],
                ));
                assert(ins[j as int] == x@);
                assert(ins.contains(x@));
                assert(ins.to_multiset().count(x@) > 0);
                assert forall|y: Seq<char>| #[trigger] ins.to_multiset().count(y)
                    == before.to_multiset().insert(x@).count(y) by {
                    if y == x@ {
                        assert(before.to_multiset().count(y) == ins.to_multiset().remove(
                            x@,
                        ).count(y));
                    } else {
                        assert(before.to_multiset().count(y) == ins.to_multiset().remove(
                            x@,
                        ).count(y));
                    }
                }
            }
            assert(v.deep_view()[i as int] == x@);
        }
        i = i + 1;
    }
    assert(v.deep_view().subrange(0, v@.len() as int) =~= v.deep_view());
    out
}

/// The image files of a directory listing, sorted by path; a listing that
/// failed to be read is an error.
pub fn images_in_listing(listing: Result<Vec<(String, bool)>, std::io::Error>) -> (r: Result<
    Vec<String>,
    FsError,
>)
    ensures
        listing is Err <==> r is Err,
        listing matches Ok(entries) ==> r matches Ok(paths) && sorted_paths(paths.deep_view())
            && paths.deep_view().to_multiset() == image_entries(
            entries@.map_values(|e: (String, bool)| entry_model(e)),
        ).to_multiset(),
{
    let entries = match listing {
        Ok(v) => v,
        Err(e) => {
            return Err(FsError::Io(e));
        },
    };
    let ghost model = entries@.map_values(|e: (String, bool)| entry_model(e));
    let ghost pred = |e: (Seq<char>, bool)| e.1 && is_image_path_spec(e.0);
    let mut picked: Vec<String> = Vec::new();
    let mut i: usize = 0;
    while i < entries.len()
        invariant
            0 <= i <= entries@.len(),
            model == entries@.map_values(|e: (String, bool)| entry_model(e)),
            pred == (|e: (Seq<char>, bool)| e.1 && is_image_path_spec(e.0)),
            picked.deep_view() == model.subrange(0, i as int).filter(pred).map_values(
                |e: (Seq<char>, bool)| e.0,
            ),
        decreases entries.len() - i,
    {
        proof {
            assert(model.subrange(0, i + 1) =~= model.subrange(0, i as int).push(model[i as int]));
            model.subrange(0, i as int).lemma_filter_push(model[i as int], pred);
        }
        let entry = &entries[i];
        if entry.1 && is_image_path(entry.0.as_str()) {
            let ghost before = picked.deep_view();
            picked.push(entry.0.clone());
            proof {
                assert(picked.deep_view() =~= before.push(entry.0@));
            }
        }
        i = i + 1;
    }
    assert(model.subrange(0, entries@.len() as int) =~= model);
    Ok(sort_paths(picked))
}

/// Adds a finished path segment to the components: empty segments (from
/// repeated or trailing separators) and `.` segments are dropped.
pub open spec fn push_segment(cs: Seq<Seq<char>>, seg: Seq<char>) -> Seq<Seq<char>> {
    if seg.len() == 0 || seg == seq!['.'] {
        cs
    } else {
        cs.push(seg)
    }
}

/// Reading `s` left to right: the segments finished so far and the one
/// being read.
pub open spec fn scan_segments(s: Seq<char>) -> (Seq<Seq<char>>, Seq<char>)
    decreases s.len(),
{
    if s.len() == 0 {
        (Seq::empty(), Seq::empty())
    } else {
        let (cs, cur) = scan_segments(s.drop_last());
        if s.last() == '/' {
            (push_segment(cs, cur), Seq::empty())
        } else {
            (cs, cur.push(s.last()))
        }
    }
}

/// The named segments of `s`, without empty and `.` segments.
pub open spec fn normal_segments(s: Seq<char>) -> Seq<Seq<char>> {
    let (cs, cur) = scan_segments(s);
    push_segment(cs, cur)
}

/// The components `std::path::Path` sees in a Unix path: the root `/` when
/// the path starts with one, a leading `.` when a relative path starts with
/// `.` as its own segment, then the named segments (`..` included).
pub open spec fn path_components(s: Seq<char>) -> Seq<Seq<char>> {
    let root: Seq<Seq<char>> = if s.len() > 0 && s[0] == '/' {
        seq![seq!['/']]
    } else {
        Seq::empty()
    };
    let cur: Seq<Seq<char>> = if s.len() > 0 && s[0] == '.' && (s.len() == 1 || s[1] == '/') {
        seq![seq!['.']]
    } else {
        Seq::empty()
    };
    root + cur + normal_segments(s)
}

/// The character sequences of a list of character vectors.
pub open spec fn segs(v: Seq<Vec<char>>) -> Seq<Seq<char>> {
    v.map_values(|x: Vec<char>| x@)
}

fn push_segment_exec(cs: &mut Vec<Vec<char>>, seg: Vec<char>)
    ensures
        segs(final(cs)@) == push_segment(segs(old(cs)@), seg@),
{
    let dot = seg.len() == 1 && seg[0] == '.';
    proof {
        if seg@ == seq!['.'] {
            assert(seg@[0] == '.');
        }
        if dot {
            assert(seg@ =~= seq!['.']);
        }
    }
    if seg.len() == 0 || dot {
        return;
    }
    let ghost before = segs(cs@);
    cs.push(seg);
    proof {
        assert(segs(cs@) =~= before.push(seg@));
    }
}

/// The components of a path (see [`path_components`]).
fn components(s: &[char]) -> (r: Vec<Vec<char>>)
    ensures
        segs(r@) == path_components(s@),
{
    let mut r: Vec<Vec<char>> = Vec::new();
    if s.len() > 0 && s[0] == '/' {
        let mut root: Vec<char> = Vec::new();
        root.push('/');
        r.push(root);
    }
    if s.len() > 0 && s[0] == '.' && (s.len() == 1 || s[1] == '/') {
        let mut cur: Vec<char> = Vec::new();
        cur.push('.');
        r.push(cur);
    }
    let ghost prefix = segs(r@);
    proof {
        let root: Seq<Seq<char>> = if s@.len() > 0 && s@[0] == '/' {
            seq![seq!['/']]
        } else {
            Seq::empty()
        };
        let cur: Seq<Seq<char>> = if s@.len() > 0 && s@[0] == '.' && (s@.len() == 1 || s@[1]
            == '/') {
            seq![seq!['.']]
        } else {
            Seq::empty()
        };
        assert(prefix =~= root + cur);
    }
    let mut cs: Vec<Vec<char>> = Vec::new();
    let mut cur: Vec<char> = Vec::new();
    let mut i: usize = 0;
    while i < s.len()
        invariant
            0 <= i <= s@.len(),
            (segs(cs@), cur@) == scan_segments(s@.take(i as int)),
        decreases s.len() - i,
    {
        proof {
            assert(s@.take(i + 1).drop_last() =~= s@.take(i as int));
        }
        if s[i] == '/' {
            let seg = cur;
            cur = Vec::new();
            push_segment_exec(&mut cs, seg);
        } else {
            cur.push(s[i]);
        }
        i = i + 1;
    }
    assert(s@.take(s@.len() as int) =~= s@);
    push_segment_exec(&mut cs, cur);
    let mut k: usize = 0;
    let ghost norm = segs(cs@);
    while k < cs.len()
        invariant
            0 <= k <= cs@.len(),
            norm == segs(cs@),
            segs(r@) =~= prefix + norm.take(k as int),
        decreases cs.len() - k,
    {
        let seg = cs[k].clone();
        proof {
            assert(seg@ == norm[k as int]);
        }
        let ghost before = segs(r@);
        r.push(seg);
        proof {
            assert(segs(r@) =~= before.push(norm[k as int]));
            assert(norm.take(k + 1) =~= norm.take(k as int).push(norm[k as int]));
        }
        k = k + 1;
    }
    assert(norm.take(norm.len() as int) =~= norm);
    r
}

/// Whether two paths are the same path as `std::path::Path` compares them:
/// component by component, so `/a//b/` and `/a/./b` both equal `/a/b`.
pub fn same_path(a: &str, b: &str) -> (r: bool)
    ensures
        r == (path_components(a@) == path_components(b@)),
{
    let ca = chars_of(a);
    let cb = chars_of(b);
    let pa = components(ca.as_slice());
    let pb = components(cb.as_slice());
    if pa.len() != pb.len() {
        assert(segs(pa@).len() != segs(pb@).len());
        return false;
    }
    let mut i: usize = 0;
    while i < pa.len()
        invariant
            0 <= i <= pa@.len(),
            pa@.len() == pb@.len(),
            segs(pa@) == path_components(a@),
            segs(pb@) == path_components(b@),
            forall|k: int| 0 <= k < i ==> segs(pa@)[k] == segs(pb@)[k],
        decreases pa.len() - i,
    {
        if !chars_eq(pa[i].as_slice(), pb[i].as_slice()) {
            assert(segs(pa@)[i as int] != segs(pb@)[i as int]);
            assert(segs(pa@) != segs(pb@));
            return false;
        }
        i = i + 1;
    }
    assert(segs(pa@) =~= segs(pb@));
    true
}

/// `last_index_of` is the position of the last `c`.
proof fn lemma_last_index_is(s: Seq<char>, c: char, k: int)
    requires
        -1 <= k < s.len(),
        k >= 0 ==> s[k] == c,
        forall|q: int| k < q < s.len() ==> s[q] != c,
    ensures
        last_index_of(s, c) == if k >= 0 {
            Some(k)
        } else {
            None::<int>
        },
    decreases s.len(),
{
    if s.len() > 0 && k < s.len() - 1 {
        assert forall|q: int| k < q < s.len() - 1 implies s.drop_last()[q] != c by {
            assert(s.drop_last()[q] == s[q]);
        }
        lemma_last_index_is(s.drop_last(), c, k);
    }
}

/// Neither `/` nor `.` occurs in `s`.
pub open spec fn plain_name(s: Seq<char>) -> bool {
    forall|q: int| 0 <= q < s.len() ==> #[trigger] s[q] != '/' && s[q] != '.'
}

/// A file `name.ext` (after an optional directory ending in `/`) has the
/// extension `ext`.
proof fn lemma_path_extension_of_name(pre: Seq<char>, n: Seq<char>, e: Seq<char>)
    requires
        pre.len() == 0 || pre.last() == '/',
        n.len() > 0,
        e.len() > 0,
        plain_name(n),
        plain_name(e),
    ensures
        path_extension(pre + n + seq!['.'] + e) == Some(e),
{
    let full = pre + n + seq!['.'] + e;
    let seg = n + seq!['.'] + e;
    let p = pre.len() as int;
    assert(full.last() == e.last());
    assert(e.last() == e[e.len() - 1]);
    assert forall|q: int| p - 1 < q < full.len() implies full[q] != '/' by {
        if q < p + n.len() {
            assert(full[q] == n[q - p]);
        } else if q > p + n.len() {
            assert(full[q] == e[q - p - n.len() - 1]);
        }
    }
    if p > 0 {
        assert(full[p - 1] == pre.last());
    }
    lemma_last_index_is(full, '/', p - 1);
    assert(full.subrange(p, full.len() as int) =~= seg);
    assert(seg.len() >= 3);
    assert(seg != seq!['.']);
    assert(seg != seq!['.', '.']);
    assert(file_name(full) == Some(seg));
    assert forall|q: int| n.len() < q < seg.len() implies seg[q] != '.' by {
        assert(seg[q] == e[q - n.len() - 1]);
    }
    lemma_last_index_is(seg, '.', n.len() as int);
    assert(seg.subrange(n.len() as int + 1, seg.len() as int) =~= e);
}

/// Files with any of the image extensions are images, in lower or upper
/// case: `name.png`, `name.jpg`, `name.jpeg`, `name.webp`, `name.gif`,
/// `name.tif`, `name.tiff`, `name.bmp` and `name.svg`, after any directory.
pub proof fn image_files_are_recognized(pre: Seq<char>, n: Seq<char>, k: int)
    requires
        pre.len() == 0 || pre.last() == '/',
        n.len() > 0,
        plain_name(n),
        0 <= k < 9,
    ensures
        ({
            let lower = seq![
                "png"@,
                "jpg"@,
                "jpeg"@,
                "webp"@,
                "gif"@,
                "tif"@,
                "tiff"@,
                "bmp"@,
                "svg"@,
            ];
            let upper = seq![
                "PNG"@,
                "JPG"@,
                "JPEG"@,
                "WEBP"@,
                "GIF"@,
                "TIF"@,
                "TIFF"@,
                "BMP"@,
                "SVG"@,
            ];
            is_image_path_spec(pre + n + seq!['.'] + lower[k]) && is_image_path_spec(
                pre + n + seq!['.'] + upper[k],
            )
        }),
{
    reveal_strlit("png");
    reveal_strlit("jpg");
    reveal_strlit("jpeg");
    reveal_strlit("webp");
    reveal_strlit("gif");
    reveal_strlit("tif");
    reveal_strlit("tiff");
    reveal_strlit("bmp");
    reveal_strlit("svg");
    reveal_strlit("PNG");
    reveal_strlit("JPG");
    reveal_strlit("JPEG");
    reveal_strlit("WEBP");
    reveal_strlit("GIF");
    reveal_strlit("TIF");
    reveal_strlit("TIFF");
    reveal_strlit("BMP");
    reveal_strlit("SVG");
    let lower = seq![
        "png"@,
        "jpg"@,
        "jpeg"@,
        "webp"@,
        "gif"@,
        "tif"@,
        "tiff"@,
        "bmp"@,
        "svg"@,
    ];
    let upper = seq![
        "PNG"@,
        "JPG"@,
        "JPEG"@,
        "WEBP"@,
        "GIF"@,
        "TIF"@,
        "TIFF"@,
        "BMP"@,
        "SVG"@,
    ];
    let lo = lower[k];
    let up = upper[k];
    assert(plain_name(lo));
    assert(plain_name(up));
    assert(ascii_lowercase(lo) =~= lo);
    assert(ascii_lowercase(up) =~= lo);
    assert(image_extensions()[k] == lo);
    lemma_path_extension_of_name(pre, n, lo);
    lemma_path_extension_of_name(pre, n, up);
}

} // verus!
