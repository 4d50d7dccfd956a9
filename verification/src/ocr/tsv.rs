//! Parsing Tesseract TSV output into word-level bounding boxes.
//!
//! Tesseract's TSV format is documented in tessdoc; word-level rows have
//! `level = 5`. The table is read with the `csv` crate (tab-delimited,
//! flexible row lengths); this module turns its rows into words.
use vstd::prelude::*;

use crate::fs::{ascii_lowercase, ascii_lowercase_chars};
use crate::geometry::Rect;
use crate::ocr::models::{OcrResult, OcrWord, WordModel};
use crate::text::{all_digits, chars_eq, chars_of, decimal_value, is_ascii_digit, parse_i32, parse_i32_spec, string_of, trim, trim_chars};

verus! {

/// The byte that separates TSV fields: a tab.
pub const TAB: u8 = 9;

#[verifier::external_type_specification]
#[verifier::external_body]
pub struct ExCsvError(csv::Error);

/// The header row that a `csv` reader built with the given delimiter and
/// flexibility reads from `input`, `None` when reading it fails.
pub uninterp spec fn csv_header_row(input: Seq<char>, delimiter: u8, flexible: bool) -> Option<
    Seq<Seq<char>>,
>;

/// The data rows (after the header row) that such a reader reads from
/// `input`, `None` when reading any of them fails.
pub uninterp spec fn csv_data_rows(input: Seq<char>, delimiter: u8, flexible: bool) -> Option<
    Seq<Seq<Seq<char>>>,
>;

/// Reads the header row of `input` with a `csv::Reader` configured by
/// `csv::ReaderBuilder::{delimiter, flexible}` (`csv::Reader::headers`).
/// Claims only that the outcome is the named function of the three arguments.
#[verifier::external_body]
fn read_header_row(input: &str, delimiter: u8, flexible: bool) -> (r: Result<
    Vec<String>,
    csv::Error,
>)
    ensures
        r is Ok <==> csv_header_row(input@, delimiter, flexible) is Some,
        r matches Ok(h) ==> h.deep_view() == csv_header_row(input@, delimiter, flexible)->0,
{
    let mut rdr = csv::ReaderBuilder::new().delimiter(delimiter).flexible(flexible).from_reader(
        input.as_bytes(),
    );
    rdr.headers().map(|h| h.iter().map(String::from).collect())
}

/// Reads every data row of `input` with a `csv::Reader` configured by
/// `csv::ReaderBuilder::{delimiter, flexible}` (`csv::Reader::records`),
/// stopping at the first row that fails. Claims only that the outcome is the
/// named function of the three arguments.
#[verifier::external_body]
fn read_data_rows(input: &str, delimiter: u8, flexible: bool) -> (r: Result<
    Vec<Vec<String>>,
    csv::Error,
>)
    ensures
        r is Ok <==> csv_data_rows(input@, delimiter, flexible) is Some,
        r matches Ok(rows) ==> rows.deep_view() == csv_data_rows(input@, delimiter, flexible)->0,
{
    let mut rdr = csv::ReaderBuilder::new().delimiter(delimiter).flexible(flexible).from_reader(
        input.as_bytes(),
    );
    rdr.records().map(|r| r.map(|rec| rec.iter().map(String::from).collect())).collect()
}

/// Why a TSV document could not be read.
#[derive(Debug)]
pub enum TsvError {
    /// The CSV reader failed (malformed row or invalid UTF-8).
    Csv(csv::Error),
    /// A required column is missing from the header row.
    MissingColumn(String),
}

/// Positions of the columns the parser reads.
#[derive(Debug, Clone, Copy, PartialEq, Eq, Structural)]
pub struct TsvColumns {
    pub level: usize,
    pub left: usize,
    pub top: usize,
    pub width: usize,
    pub height: usize,
    pub conf: usize,
    pub text: usize,
}

/// Index of the first header equal to `name`.
pub open spec fn column_of(headers: Seq<Seq<char>>, name: Seq<char>) -> Option<int>
    decreases headers.len(),
{
    if headers.len() == 0 {
        None
    } else {
        match column_of(headers.drop_last(), name) {
            Some(i) => Some(i),
            None => if headers.last() == name {
                Some(headers.len() - 1)
            } else {
                None
            },
        }
    }
}

/// The required columns, in the order they are looked up.
pub open spec fn column_names() -> Seq<Seq<char>> {
    seq!["level"@, "left"@, "top"@, "width"@, "height"@, "conf"@, "text"@]
}

/// Positions of the required columns, or the first missing name.
pub open spec fn columns_spec(headers: Seq<Seq<char>>) -> Result<TsvColumns, Seq<char>> {
    let n = column_names();
    if column_of(headers, n[0]) is None {
        Err(n[0])
    } else if column_of(headers, n[1]) is None {
        Err(n[1])
    } else if column_of(headers, n[2]) is None {
        Err(n[2])
    } else if column_of(headers, n[3]) is None {
        Err(n[3])
    } else if column_of(headers, n[4]) is None {
        Err(n[4])
    } else if column_of(headers, n[5]) is None {
        Err(n[5])
    } else if column_of(headers, n[6]) is None {
        Err(n[6])
    } else {
        Ok(
            TsvColumns {
                level: column_of(headers, n[0])->0 as usize,
                left: column_of(headers, n[1])->0 as usize,
                top: column_of(headers, n[2])->0 as usize,
                width: column_of(headers, n[3])->0 as usize,
                height: column_of(headers, n[4])->0 as usize,
                conf: column_of(headers, n[5])->0 as usize,
                text: column_of(headers, n[6])->0 as usize,
            },
        )
    }
}

/// `s` without one leading `+` or `-`.
pub open spec fn unsigned_part(s: Seq<char>) -> Seq<char> {
    if s.len() > 0 && (s[0] == '+' || s[0] == '-') {
        s.drop_first()
    } else {
        s
    }
}

pub open spec fn is_exp_char(c: char) -> bool {
    c == 'e' || c == 'E'
}

/// Index of the first `e` or `E` in `s`, or `s.len()` when there is none.
pub open spec fn exp_index(s: Seq<char>) -> int
    decreases s.len(),
{
    if s.len() == 0 {
        0
    } else if is_exp_char(s[0]) {
        0
    } else {
        1 + exp_index(s.drop_first())
    }
}

/// Digits with at most one decimal point, and at least one digit.
pub open spec fn is_mantissa(m: Seq<char>) -> bool {
    &&& forall|k: int| 0 <= k < m.len() ==> is_ascii_digit(#[trigger] m[k]) || m[k] == '.'
    &&& forall|i: int, j: int|
        0 <= i < j < m.len() ==> !(#[trigger] m[i] == '.' && #[trigger] m[j] == '.')
    &&& exists|k: int| 0 <= k < m.len() && is_ascii_digit(#[trigger] m[k])
}

/// An optional sign followed by at least one digit.
pub open spec fn is_exponent(e: Seq<char>) -> bool {
    unsigned_part(e).len() > 0 && all_digits(unsigned_part(e))
}

/// A mantissa, optionally followed by `e` or `E` and an exponent.
pub open spec fn is_decimal_number(b: Seq<char>) -> bool {
    let i = exp_index(b);
    is_mantissa(b.take(i)) && (i == b.len() || is_exponent(b.skip(i + 1)))
}

/// Whether `s` is text that Rust's float parsing (`f32::from_str`) accepts:
/// an optional sign, then `inf`, `infinity` or `nan` in any case, or a
/// decimal number with an optional exponent.
pub open spec fn is_float_text(s: Seq<char>) -> bool {
    let b = unsigned_part(s);
    ||| ascii_lowercase(b) == "inf"@
    ||| ascii_lowercase(b) == "infinity"@
    ||| ascii_lowercase(b) == "nan"@
    ||| is_decimal_number(b)
}

/// The confidence a row reports: its `conf` field when that is a number,
/// `-1` when the field is missing or not a number.
pub open spec fn confidence_text(conf: Seq<char>) -> Seq<char> {
    if is_float_text(conf) {
        conf
    } else {
        "-1"@
    }
}

proof fn lemma_exp_index_at(s: Seq<char>, n: int)
    requires
        0 <= n <= s.len(),
        forall|k: int| 0 <= k < n ==> !is_exp_char(#[trigger] s[k]),
        n == s.len() || is_exp_char(s[n]),
    ensures
        exp_index(s) == n,
    decreases n,
{
    if n > 0 {
        assert forall|k: int| 0 <= k < n - 1 implies !is_exp_char(#[trigger] s.drop_first()[k]) by {
            assert(s.drop_first()[k] == s[k + 1]);
        }
        lemma_exp_index_at(s.drop_first(), n - 1);
    }
}

fn lit_eq(s: &[char], lit: &str) -> (b: bool)
    ensures
        b == (s@ == lit@),
{
    let l = chars_of(lit);
    chars_eq(s, l.as_slice())
}

/// Whether `m[from..to]` is a mantissa.
fn check_mantissa(m: &[char], to: usize) -> (b: bool)
    requires
        to <= m.len(),
    ensures
        b == is_mantissa(m@.take(to as int)),
{
    let ghost t = m@.take(to as int);
    let mut digit_seen = false;
    let mut dot_seen = false;
    let mut k: usize = 0;
    while k < to
        invariant
            0 <= k <= to <= m@.len(),
            t == m@.take(to as int),
            forall|j: int| 0 <= j < k ==> is_ascii_digit(#[trigger] t[j]) || t[j] == '.',
            forall|i: int, j: int| 0 <= i < j < k ==> !(#[trigger] t[i] == '.' && #[trigger] t[j] == '.'),
            dot_seen <==> exists|j: int| 0 <= j < k && #[trigger] t[j] == '.',
            digit_seen <==> exists|j: int| 0 <= j < k && is_ascii_digit(#[trigger] t[j]),
        decreases to - k,
    {
        let c = m[k];
        assert(t[k as int] == c);
        if c >= '0' && c <= '9' {
            digit_seen = true;
        } else if c == '.' {
            if dot_seen {
                proof {
                    let j = choose|j: int| 0 <= j < k && #[trigger] t[j] == '.';
                    assert(t[j] == '.' && t[k as int] == '.');
                }
                return false;
            }
            dot_seen = true;
        } else {
            assert(!(is_ascii_digit(t[k as int]) || t[k as int] == '.'));
            return false;
        }
        k = k + 1;
    }
    digit_seen
}

/// `s` without its leading sign, if any.
fn unsigned_chars(s: &[char]) -> (body: Vec<char>)
    ensures
        body@ == unsigned_part(s@),
{
    let start: usize = if s.len() > 0 && (s[0] == '+' || s[0] == '-') {
        1
    } else {
        0
    };
    let mut body: Vec<char> = Vec::new();
    let mut i: usize = start;
    while i < s.len()
        invariant
            start <= i <= s@.len(),
            body@ =~= s@.subrange(start as int, i as int),
        decreases s.len() - i,
    {
        body.push(s[i]);
        i = i + 1;
    }
    assert(body@ =~= unsigned_part(s@));
    body
}

/// Index of the first `e` or `E` in `body`, or its length.
fn exp_position(body: &[char]) -> (e: usize)
    ensures
        e as int == exp_index(body@),
        e <= body@.len(),
{
    let mut e: usize = 0;
    while e < body.len() && !(body[e] == 'e' || body[e] == 'E')
        invariant
            0 <= e <= body@.len(),
            forall|k: int| 0 <= k < e ==> !is_exp_char(#[trigger] body@[k]),
        decreases body.len() - e,
    {
        e = e + 1;
    }
    proof {
        lemma_exp_index_at(body@, e as int);
    }
    e
}

/// Whether `body` is a decimal number (see [`is_decimal_number`]).
#[verifier::loop_isolation(false)]
fn decimal_number(body: &[char]) -> (b: bool)
    ensures
        b == is_decimal_number(body@),
{
    let e = exp_position(body);
    if !check_mantissa(body, e) {
        return false;
    }
    if e == body.len() {
        return true;
    }
    // The exponent: an optional sign, then at least one digit.
    let mut j: usize = e + 1;
    if j < body.len() && (body[j] == '+' || body[j] == '-') {
        j = j + 1;
    }
    let ghost ex = body@.skip(e + 1);
    assert(unsigned_part(ex) =~= body@.subrange(j as int, body@.len() as int));
    if j == body.len() {
        return false;
    }
    let mut k: usize = j;
    while k < body.len()
        invariant
            j <= k <= body@.len(),
            forall|q: int| j <= q < k ==> is_ascii_digit(#[trigger] body@[q]),
        decreases body.len() - k,
    {
        if !(body[k] >= '0' && body[k] <= '9') {
            assert(unsigned_part(ex)[k - j] == body@[k as int]);
            return false;
        }
        k = k + 1;
    }
    assert forall|q: int| 0 <= q < unsigned_part(ex).len() implies is_ascii_digit(
        #[trigger] unsigned_part(ex)[q],
    ) by {
        assert(unsigned_part(ex)[q] == body@[j + q]);
    }
    true
}

/// Whether `s` is float text (see [`is_float_text`]).
fn float_text(s: &[char]) -> (b: bool)
    ensures
        b == is_float_text(s@),
{
    let body = unsigned_chars(s);
    let lower = ascii_lowercase_chars(body.as_slice());
    proof {
        reveal_strlit("inf");
        reveal_strlit("infinity");
        reveal_strlit("nan");
    }
    if lit_eq(lower.as_slice(), "inf") || lit_eq(lower.as_slice(), "infinity") || lit_eq(
        lower.as_slice(),
        "nan",
    ) {
        return true;
    }
    decimal_number(body.as_slice())
}

proof fn lemma_digits_dot_digits_decimal(a: Seq<char>, b: Seq<char>)
    requires
        a.len() > 0,
        all_digits(a),
        all_digits(b),
    ensures
        is_decimal_number(a + seq!['.'] + b),
        is_decimal_number(a),
{
    let s = a + seq!['.'] + b;
    assert forall|k: int| 0 <= k < s.len() implies !is_exp_char(#[trigger] s[k]) by {
        if k < a.len() {
            assert(s[k] == a[k]);
            assert(is_ascii_digit(a[k]));
        } else if k > a.len() {
            assert(s[k] == b[k - a.len() - 1]);
            assert(is_ascii_digit(b[k - a.len() - 1]));
        }
    }
    lemma_exp_index_at(s, s.len() as int);
    assert(s.take(s.len() as int) =~= s);
    assert forall|k: int| 0 <= k < s.len() implies is_ascii_digit(#[trigger] s[k]) || s[k] == '.' by {
        if k < a.len() {
            assert(s[k] == a[k]);
        } else if k > a.len() {
            assert(s[k] == b[k - a.len() - 1]);
        }
    }
    assert forall|i: int, j: int| 0 <= i < j < s.len() implies !(#[trigger] s[i] == '.'
        && #[trigger] s[j] == '.') by {
        if i < a.len() {
            assert(s[i] == a[i]);
            assert(is_ascii_digit(a[i]));
        } else {
            assert(j > a.len());
            assert(s[j] == b[j - a.len() - 1]);
            assert(is_ascii_digit(b[j - a.len() - 1]));
        }
    }
    assert(s[0] == a[0] && is_ascii_digit(a[0]));
    assert forall|k: int| 0 <= k < a.len() implies !is_exp_char(#[trigger] a[k]) by {
        assert(is_ascii_digit(a[k]));
    }
    lemma_exp_index_at(a, a.len() as int);
    assert(a.take(a.len() as int) =~= a);
    assert(is_ascii_digit(a[0]));
}

/// Every decimal number is float text, whatever its length: digits, or
/// digits, a point and digits, with an optional sign. So a row keeps such a
/// confidence exactly as written.
pub proof fn decimals_are_float_text(a: Seq<char>, b: Seq<char>)
    requires
        a.len() > 0,
        all_digits(a),
        all_digits(b),
    ensures
        is_float_text(a),
        is_float_text(a + seq!['.'] + b),
        is_float_text(seq!['-'] + a + seq!['.'] + b),
        is_float_text(seq!['+'] + a + seq!['.'] + b),
        confidence_text(a + seq!['.'] + b) == a + seq!['.'] + b,
        confidence_text(seq!['-'] + a + seq!['.'] + b) == seq!['-'] + a + seq!['.'] + b,
        confidence_text(a) == a,
{
    lemma_digits_dot_digits_decimal(a, b);
    let s = a + seq!['.'] + b;
    assert(is_ascii_digit(a[0]));
    assert(s[0] == a[0]);
    assert(unsigned_part(s) == s);
    assert(unsigned_part(a) == a);
    assert((seq!['-'] + a + seq!['.'] + b) =~= seq!['-'] + s);
    assert(unsigned_part(seq!['-'] + s) =~= s);
    assert((seq!['+'] + a + seq!['.'] + b) =~= seq!['+'] + s);
    assert(unsigned_part(seq!['+'] + s) =~= s);
}

/// Field `i` of a row, or `default` when the row is shorter.
pub open spec fn field(row: Seq<Seq<char>>, i: int, default: Seq<char>) -> Seq<char> {
    if 0 <= i < row.len() {
        row[i]
    } else {
        default
    }
}

/// `10` to the power `n`.
pub open spec fn pow10(n: nat) -> int
    decreases n,
{
    if n == 0 {
        1
    } else {
        10 * pow10((n - 1) as nat)
    }
}

/// The digits of a mantissa read as one integer, the decimal point skipped.
pub open spec fn mantissa_value(m: Seq<char>) -> int
    decreases m.len(),
{
    if m.len() == 0 {
        0
    } else if m.last() == '.' {
        mantissa_value(m.drop_last())
    } else {
        10 * mantissa_value(m.drop_last()) + (m.last() as int - '0' as int)
    }
}

/// Number of digits after the decimal point of a mantissa.
pub open spec fn after_dot(m: Seq<char>) -> int
    decreases m.len(),
{
    if m.len() == 0 || m.last() == '.' {
        0
    } else if m.drop_last().contains('.') {
        1 + after_dot(m.drop_last())
    } else {
        0
    }
}

/// The exact value of decimal number text `s` as `(n, p)`, standing for
/// `n * 10^p` (zero as `(0, 0)`); `None` when `s` is not a decimal number
/// (an optional sign, a mantissa and an optional exponent).
pub open spec fn decimal_parts(s: Seq<char>) -> Option<(int, int)> {
    let b = unsigned_part(s);
    if !is_decimal_number(b) {
        None
    } else {
        let i = exp_index(b);
        let m = b.take(i);
        let mag = mantissa_value(m);
        let e = if i == b.len() {
            0
        } else {
            match decimal_value(b.skip(i + 1)) {
                Some(v) => v,
                None => 0,
            }
        };
        if mag == 0 {
            Some((0, 0))
        } else {
            Some((if s.len() > 0 && s[0] == '-' { -mag } else { mag }, e - after_dot(m)))
        }
    }
}

/// A box field's value as `(n, p)`: its decimal value, `0` when it is not a
/// decimal number.
pub open spec fn box_parts(f: Seq<char>) -> (int, int) {
    match decimal_parts(f) {
        Some(v) => v,
        None => (0, 0),
    }
}

/// The smallest `k >= 0` with both values whole multiples of `10^-k`.
pub open spec fn common_exp(p1: int, p2: int) -> int {
    let a = if -p1 > 0 {
        -p1
    } else {
        0
    };
    if -p2 > a {
        -p2
    } else {
        a
    }
}

/// One axis of a box, from its coordinate and size fields: both exactly,
/// over the unit `1 / 10^k` of the finer one, as `(coordinate, size, unit)`.
/// When that needs a unit finer than `10^-9` or a value beyond `i64`, the
/// axis reads as `(0, 0, 1)`.
pub open spec fn axis_spec(lo: Seq<char>, size: Seq<char>) -> (i64, i64, u32) {
    let (n1, p1) = box_parts(lo);
    let (n2, p2) = box_parts(size);
    let k = common_exp(p1, p2);
    let a = n1 * pow10((p1 + k) as nat);
    let b = n2 * pow10((p2 + k) as nat);
    if k <= 9 && i64::MIN <= a <= i64::MAX && i64::MIN <= b <= i64::MAX {
        (a as i64, b as i64, pow10(k as nat) as u32)
    } else {
        (0, 0, 1)
    }
}

/// The box a row's `left`, `top`, `width` and `height` fields describe
/// (a missing field reads as `0`).
pub open spec fn row_box(row: Seq<Seq<char>>, cols: TsvColumns) -> Rect {
    let (x, w, dx) = axis_spec(field(row, cols.left as int, "0"@), field(row, cols.width as int, "0"@));
    let (y, h, dy) = axis_spec(field(row, cols.top as int, "0"@), field(row, cols.height as int, "0"@));
    Rect { x, y, w, h, den_x: dx, den_y: dy }
}

/// The word a data row stands for, if any: rows of level 5 whose trimmed
/// text is not empty.
pub open spec fn row_word(row: Seq<Seq<char>>, cols: TsvColumns, order: int) -> Option<WordModel> {
    let level = match parse_i32_spec(field(row, cols.level as int, Seq::empty())) {
        Some(v) => v,
        None => 0,
    };
    let text = trim(field(row, cols.text as int, Seq::empty()));
    if level != 5 || text.len() == 0 {
        None
    } else {
        Some(
            WordModel {
                text,
                confidence: confidence_text(field(row, cols.conf as int, "-1"@)),
                bbox: row_box(row, cols),
                order,
            },
        )
    }
}

/// The words of the data rows, in row order; `order` is the row's position.
pub open spec fn rows_words(rows: Seq<Seq<Seq<char>>>, cols: TsvColumns) -> Seq<WordModel>
    decreases rows.len(),
{
    if rows.len() == 0 {
        Seq::empty()
    } else {
        let prev = rows_words(rows.drop_last(), cols);
        match row_word(rows.last(), cols, rows.len() - 1) {
            Some(w) => prev.push(w),
            None => prev,
        }
    }
}

/// What [`parse_tesseract_tsv`] returns, with the `csv` reader's outcomes as
/// inputs: `Err(None)` stands for a reader error, `Err(Some(name))` for a
/// missing column.
pub open spec fn parse_spec(
    header: Option<Seq<Seq<char>>>,
    rows: Option<Seq<Seq<Seq<char>>>>,
) -> Result<Seq<WordModel>, Option<Seq<char>>> {
    match header {
        None => Err(None),
        Some(h) => match columns_spec(h) {
            Err(name) => Err(Some(name)),
            Ok(cols) => match rows {
                None => Err(None),
                Some(r) => Ok(rows_words(r, cols)),
            },
        },
    }
}

/// Whether a returned result matches the specified outcome.
pub open spec fn result_matches(
    r: Result<OcrResult, TsvError>,
    s: Result<Seq<WordModel>, Option<Seq<char>>>,
) -> bool {
    match r {
        Ok(res) => s == Ok::<Seq<WordModel>, Option<Seq<char>>>(res@),
        Err(TsvError::Csv(_)) => s == Err::<Seq<WordModel>, Option<Seq<char>>>(None),
        Err(TsvError::MissingColumn(name)) => s == Err::<Seq<WordModel>, Option<Seq<char>>>(
            Some(name@),
        ),
    }
}

fn find_column(headers: &Vec<String>, name: &str) -> (r: Option<usize>)
    ensures
        match column_of(headers.deep_view(), name@) {
            Some(i) => r == Some(i as usize),
            None => r is None,
        },
{
    let ghost hs = headers.deep_view();
    let want = chars_of(name);
    let mut i: usize = 0;
    while i < headers.len()
        invariant
            0 <= i <= headers@.len(),
            hs == headers.deep_view(),
            want@ == name@,
            column_of(hs.subrange(0, i as int), name@) is None,
        decreases headers.len() - i,
    {
        let h = chars_of(headers[i].as_str());
        proof {
            let sub = hs.subrange(0, i + 1);
            assert(sub.drop_last() =~= hs.subrange(0, i as int));
            assert(sub.last() == headers@[i as int]@);
        }
        if crate::text::chars_eq(h.as_slice(), want.as_slice()) {
            proof {
                lemma_column_of_prefix(hs, name@, i as int + 1);
            }
            return Some(i);
        }
        i = i + 1;
    }
    assert(hs.subrange(0, headers@.len() as int) =~= hs);
    None
}

proof fn lemma_column_of_prefix(hs: Seq<Seq<char>>, name: Seq<char>, n: int)
    requires
        0 <= n <= hs.len(),
        column_of(hs.subrange(0, n), name) is Some,
    ensures
        column_of(hs, name) == column_of(hs.subrange(0, n), name),
    decreases hs.len() - n,
{
    if n < hs.len() {
        let sub = hs.subrange(0, n + 1);
        assert(sub.drop_last() =~= hs.subrange(0, n));
        lemma_column_of_prefix(hs, name, n + 1);
    } else {
        assert(hs.subrange(0, n) =~= hs);
    }
}

/// Locates the required columns in a TSV header row.
pub fn tsv_columns(headers: &Vec<String>) -> (r: Result<TsvColumns, TsvError>)
    ensures
        match columns_spec(headers.deep_view()) {
            Ok(cols) => r == Ok::<TsvColumns, TsvError>(cols),
            Err(name) => r matches Err(TsvError::MissingColumn(n)) && n@ == name,
        },
{
    let ghost hs = headers.deep_view();
    proof {
        reveal_strlit("level");
        reveal_strlit("left");
        reveal_strlit("top");
        reveal_strlit("width");
        reveal_strlit("height");
        reveal_strlit("conf");
        reveal_strlit("text");
    }
    let level = match find_column(headers, "level") {
        Some(i) => i,
        None => {
            return Err(TsvError::MissingColumn("level".to_owned()));
        },
    };
    let left = match find_column(headers, "left") {
        Some(i) => i,
        None => {
            return Err(TsvError::MissingColumn("left".to_owned()));
        },
    };
    let top = match find_column(headers, "top") {
        Some(i) => i,
        None => {
            return Err(TsvError::MissingColumn("top".to_owned()));
        },
    };
    let width = match find_column(headers, "width") {
        Some(i) => i,
        None => {
            return Err(TsvError::MissingColumn("width".to_owned()));
        },
    };
    let height = match find_column(headers, "height") {
        Some(i) => i,
        None => {
            return Err(TsvError::MissingColumn("height".to_owned()));
        },
    };
    let conf = match find_column(headers, "conf") {
        Some(i) => i,
        None => {
            return Err(TsvError::MissingColumn("conf".to_owned()));
        },
    };
    let text = match find_column(headers, "text") {
        Some(i) => i,
        None => {
            return Err(TsvError::MissingColumn("text".to_owned()));
        },
    };
    Ok(TsvColumns { level, left, top, width, height, conf, text })
}

/// Field `i` of `row` as characters, `default` when the row is shorter.
fn field_chars(row: &Vec<String>, i: usize, default: &str) -> (r: Vec<char>)
    ensures
        r@ == field(row.deep_view(), i as int, default@),
{
    if i < row.len() {
        chars_of(row[i].as_str())
    } else {
        chars_of(default)
    }
}

proof fn lemma_pow10_pos(n: nat)
    ensures
        pow10(n) >= 1,
    decreases n,
{
    if n > 0 {
        lemma_pow10_pos((n - 1) as nat);
    }
}

proof fn lemma_pow10_add(a: nat, b: nat)
    ensures
        pow10(a + b) == pow10(a) * pow10(b),
    decreases b,
{
    if b > 0 {
        lemma_pow10_add(a, (b - 1) as nat);
        assert(pow10(a + b) == 10 * pow10((a + b - 1) as nat));
        assert(pow10(a) * (10 * pow10((b - 1) as nat)) == 10 * (pow10(a) * pow10((b - 1) as nat)))
            by (nonlinear_arith);
    }
}

proof fn lemma_pow10_mono(a: nat, b: nat)
    requires
        a <= b,
    ensures
        pow10(a) <= pow10(b),
{
    lemma_pow10_add(a, (b - a) as nat);
    lemma_pow10_pos(a);
    lemma_pow10_pos((b - a) as nat);
    assert(pow10(a) * pow10((b - a) as nat) >= pow10(a)) by (nonlinear_arith)
        requires
            pow10(a) >= 1,
            pow10((b - a) as nat) >= 1,
    ;
}

proof fn lemma_pow10_small()
    ensures
        pow10(9) == 1_000_000_000,
        pow10(19) == 10_000_000_000_000_000_000,
{
    reveal_with_fuel(pow10, 20);
}

/// A product with a factor of at least one is at least as far from zero.
proof fn lemma_scaled_magnitude(n: int, q: int)
    requires
        q >= 1,
    ensures
        n > 0 ==> n * q >= n && n * q >= q,
        n < 0 ==> n * q <= n && n * q <= -q,
{
    if n > 0 {
        assert(n * q >= n && n * q >= q) by (nonlinear_arith)
            requires
                n >= 1,
                q >= 1,
        ;
    } else if n < 0 {
        assert(n * q <= n && n * q <= -q) by (nonlinear_arith)
            requires
                n <= -1,
                q >= 1,
        ;
    }
}

/// A box field's value, read exactly, or too large to read.
enum FieldValue {
    Exact(i128, i128),
    Huge,
}

/// A value no box can hold: nonzero with a magnitude above `2^100` or a
/// power of ten beyond `2^99` either way.
spec fn huge(v: (int, int)) -> bool {
    v.0 != 0 && (v.0 > 0x10_0000_0000_0000_0000_0000_0000 || v.0
        < -0x10_0000_0000_0000_0000_0000_0000 || v.1 > 0x8_0000_0000_0000_0000_0000_0000 || v.1
        < -0x8_0000_0000_0000_0000_0000_0000)
}

proof fn lemma_contains_push(t: Seq<char>, c: char, x: char)
    ensures
        t.push(c).contains(x) == (t.contains(x) || c == x),
{
    if t.contains(x) {
        let j = choose|j: int| 0 <= j < t.len() && t[j] == x;
        assert(t.push(c)[j] == x);
    }
    if c == x {
        assert(t.push(c)[t.len() as int] == x);
    }
    if t.push(c).contains(x) {
        let j = choose|j: int| 0 <= j < t.push(c).len() && t.push(c)[j] == x;
        if j < t.len() {
            assert(t[j] == x);
        }
    }
}

/// The value of a box field (see [`box_parts`]).
fn field_value(f: &[char]) -> (r: FieldValue)
    ensures
        r matches FieldValue::Exact(n, p) ==> box_parts(f@) == (n as int, p as int)
            && -0x10_0000_0000_0000_0000_0000_0000 <= n <= 0x10_0000_0000_0000_0000_0000_0000
            && -0x20_0000_0000_0000_0000_0000_0000 <= p <= 0x20_0000_0000_0000_0000_0000_0000,
        r is Huge ==> huge(box_parts(f@)),
{
    let body = unsigned_chars(f);
    if !decimal_number(body.as_slice()) {
        return FieldValue::Exact(0, 0);
    }
    let e = exp_position(body.as_slice());
    let ghost m = body@.take(e as int);
    let big: i128 = 0x10_0000_0000_0000_0000_0000_0000;
    let mut v: i128 = 0;
    let mut frac: i128 = 0;
    let mut seen_dot = false;
    let mut k: usize = 0;
    while k < e
        invariant
            0 <= k <= e <= body@.len(),
            m == body@.take(e as int),
            is_mantissa(m),
            big == 0x10_0000_0000_0000_0000_0000_0000,
            0 <= v <= big + 1,
            mantissa_value(m.take(k as int)) >= 0,
            mantissa_value(m.take(k as int)) <= big ==> v == mantissa_value(m.take(k as int)),
            mantissa_value(m.take(k as int)) > big ==> v == big + 1,
            seen_dot == m.take(k as int).contains('.'),
            frac == after_dot(m.take(k as int)),
            0 <= frac <= k,
        decreases e - k,
    {
        let c = body[k];
        let ghost t = m.take(k as int);
        proof {
            assert(m.take(k + 1) =~= t.push(c));
            assert(t.push(c).drop_last() =~= t);
            assert(m[k as int] == c);
            lemma_contains_push(t, c, '.');
        }
        if c == '.' {
            seen_dot = true;
        } else {
            assert(is_ascii_digit(m[k as int]));
            let d = (c as u32 - '0' as u32) as i128;
            if v <= big {
                let nv = 10 * v + d;
                if nv > big {
                    v = big + 1;
                } else {
                    v = nv;
                }
            }
            if seen_dot {
                frac = frac + 1;
            }
        }
        k = k + 1;
    }
    assert(m.take(e as int) =~= m);
    let ghost mag = mantissa_value(m);
    if v == 0 {
        return FieldValue::Exact(0, 0);
    }
    if v > big {
        return FieldValue::Huge;
    }
    let ex: i128 = if e == body.len() {
        0
    } else {
        let mut digits: Vec<char> = Vec::new();
        let mut j: usize = e + 1;
        while j < body.len()
            invariant
                e + 1 <= j <= body@.len(),
                digits@ =~= body@.subrange(e + 1, j as int),
            decreases body.len() - j,
        {
            digits.push(body[j]);
            j = j + 1;
        }
        let ghost ex_text = body@.skip(e + 1);
        assert(digits@ =~= ex_text);
        proof {
            let u = unsigned_part(ex_text);
            if ex_text.len() > 0 && (ex_text[0] == '-' || ex_text[0] == '+') {
                assert(u =~= ex_text.drop_first());
            } else {
                assert(u =~= ex_text);
            }
        }
        match crate::text::parse_signed(digits.as_slice(), -big, big) {
            Some(x) => x,
            None => {
                return FieldValue::Huge;
            },
        }
    };
    let n: i128 = if f.len() > 0 && f[0] == '-' {
        -v
    } else {
        v
    };
    FieldValue::Exact(n, ex - frac)
}

/// `n * 10^e` when it fits in `i64`.
fn scale_pow10(n: i128, e: i128) -> (r: Option<i64>)
    requires
        0 <= e,
        -0x10_0000_0000_0000_0000_0000_0000 <= n <= 0x10_0000_0000_0000_0000_0000_0000,
    ensures
        r is Some <==> i64::MIN <= n * pow10(e as nat) <= i64::MAX,
        r matches Some(v) ==> v == n * pow10(e as nat),
{
    if n == 0 {
        return Some(0);
    }
    let mut v: i128 = n;
    let mut i: i128 = 0;
    while i < e
        invariant
            0 <= i <= e,
            n != 0,
            v == n * pow10(i as nat),
            -0x10_0000_0000_0000_0000_0000_0000 <= v <= 0x10_0000_0000_0000_0000_0000_0000,
        decreases e - i,
    {
        if v > i64::MAX as i128 || v < i64::MIN as i128 {
            proof {
                lemma_pow10_add(i as nat, (e - i) as nat);
                lemma_pow10_pos((e - i) as nat);
                assert(n * pow10(e as nat) == v * pow10((e - i) as nat)) by (nonlinear_arith)
                    requires
                        v == n * pow10(i as nat),
                        pow10(e as nat) == pow10(i as nat) * pow10((e - i) as nat),
                ;
                lemma_scaled_magnitude(v as int, pow10((e - i) as nat));
            }
            return None;
        }
        proof {
            assert(pow10((i + 1) as nat) == 10 * pow10(i as nat));
            assert(v * 10 == n * pow10((i + 1) as nat)) by (nonlinear_arith)
                requires
                    v == n * pow10(i as nat),
                    pow10((i + 1) as nat) == 10 * pow10(i as nat),
            ;
        }
        v = v * 10;
        i = i + 1;
    }
    if v > i64::MAX as i128 || v < i64::MIN as i128 {
        None
    } else {
        Some(v as i64)
    }
}

/// `10^k` for `k <= 9`.
fn pow10_u32(k: i128) -> (r: u32)
    requires
        0 <= k <= 9,
    ensures
        r == pow10(k as nat),
{
    let mut r: u32 = 1;
    let mut j: i128 = 0;
    while j < k
        invariant
            0 <= j <= k <= 9,
            r == pow10(j as nat),
        decreases k - j,
    {
        proof {
            lemma_pow10_mono((j + 1) as nat, 9);
            lemma_pow10_small();
            assert(pow10((j + 1) as nat) == 10 * pow10(j as nat));
        }
        r = r * 10;
        j = j + 1;
    }
    r
}

/// A huge field value makes its axis unrepresentable.
proof fn lemma_huge_axis(n: int, p: int, k: int)
    requires
        huge((n, p)),
        k >= 0,
        k >= -p,
        k <= 9,
    ensures
        !(i64::MIN <= n * pow10((p + k) as nat) <= i64::MAX),
{
    let q = pow10((p + k) as nat);
    lemma_pow10_pos((p + k) as nat);
    lemma_scaled_magnitude(n, q);
    if p > 0x8_0000_0000_0000_0000_0000_0000 {
        lemma_pow10_mono(19, (p + k) as nat);
        lemma_pow10_small();
    }
}

/// One axis of a row's box (see [`axis_spec`]).
fn axis_value(lo: &[char], size: &[char]) -> (r: (i64, i64, u32))
    ensures
        r == axis_spec(lo@, size@),
{
    let a = field_value(lo);
    let b = field_value(size);
    let ghost (n1, p1) = box_parts(lo@);
    let ghost (n2, p2) = box_parts(size@);
    let ghost kk = common_exp(p1, p2);
    match (a, b) {
        (FieldValue::Exact(n1e, p1e), FieldValue::Exact(n2e, p2e)) => {
            let k1: i128 = if -p1e > 0 {
                -p1e
            } else {
                0
            };
            let k: i128 = if -p2e > k1 {
                -p2e
            } else {
                k1
            };
            assert(k == kk);
            if k > 9 {
                return (0, 0, 1);
            }
            let x = scale_pow10(n1e, p1e + k);
            let w = scale_pow10(n2e, p2e + k);
            match (x, w) {
                (Some(x), Some(w)) => (x, w, pow10_u32(k)),
                _ => (0, 0, 1),
            }
        },
        _ => {
            proof {
                if kk <= 9 {
                    if a is Huge {
                        lemma_huge_axis(n1, p1, kk);
                    } else {
                        lemma_huge_axis(n2, p2, kk);
                    }
                }
            }
            (0, 0, 1)
        },
    }
}

/// The word a single data row stands for, if any.
fn word_of_row(row: &Vec<String>, cols: &TsvColumns, order: usize) -> (r: Option<OcrWord>)
    ensures
        match row_word(row.deep_view(), *cols, order as int) {
            Some(w) => r matches Some(word) && word@ == w,
            None => r is None,
        },
{
    let level_text = field_chars(row, cols.level, "");
    proof {
        reveal_strlit("");
    }
    let level: i32 = match parse_i32(level_text.as_slice()) {
        Some(v) => v,
        None => 0,
    };
    if level != 5 {
        return None;
    }
    let raw_text = field_chars(row, cols.text, "");
    let text = trim_chars(raw_text.as_slice());
    if text.len() == 0 {
        return None;
    }
    let raw_conf = field_chars(row, cols.conf, "-1");
    let conf = if float_text(raw_conf.as_slice()) {
        raw_conf
    } else {
        chars_of("-1")
    };
    let left = field_chars(row, cols.left, "0");
    let width = field_chars(row, cols.width, "0");
    let top = field_chars(row, cols.top, "0");
    let height = field_chars(row, cols.height, "0");
    let (x, w, den_x) = axis_value(left.as_slice(), width.as_slice());
    let (y, h, den_y) = axis_value(top.as_slice(), height.as_slice());
    let bbox = Rect { x, y, w, h, den_x, den_y };
    Some(
        OcrWord {
            text: string_of(text.as_slice()),
            confidence: string_of(conf.as_slice()),
            bbox,
            order,
        },
    )
}

/// Turns the data rows of a TSV table into words, given the column positions.
pub fn words_from_rows(rows: &Vec<Vec<String>>, cols: &TsvColumns) -> (r: OcrResult)
    ensures
        r@ == rows_words(rows.deep_view(), *cols),
{
    let ghost rs = rows.deep_view();
    let mut words: Vec<OcrWord> = Vec::new();
    let mut order: usize = 0;
    while order < rows.len()
        invariant
            0 <= order <= rows@.len(),
            rs == rows.deep_view(),
            words@.map_values(|w: OcrWord| w@) == rows_words(rs.subrange(0, order as int), *cols),
        decreases rows.len() - order,
    {
        let ghost prev = words@;
        proof {
            let sub = rs.subrange(0, order + 1);
            assert(sub.drop_last() =~= rs.subrange(0, order as int));
            assert(sub.last() == rows@[order as int].deep_view());
        }
        match word_of_row(&rows[order], cols, order) {
            Some(w) => {
                words.push(w);
                proof {
                    assert(words@.map_values(|w: OcrWord| w@) =~= prev.map_values(
                        |w: OcrWord| w@,
                    ).push(words@.last()@));
                }
            },
            None => {},
        }
        order = order + 1;
    }
    assert(rs.subrange(0, rows@.len() as int) =~= rs);
    OcrResult { words }
}

/// Parse Tesseract TSV output and return word-level bounding boxes.
///
/// Word-level rows have `level = 5`; rows with empty (or blank) text are
/// skipped. `order` is the row's position among the data rows. Box fields
/// keep their decimal values exactly (see [`axis_spec`]); a field that is
/// missing or not a decimal number reads as `0`. A confidence that is missing
/// or not a number reads as `-1`.
pub fn parse_tesseract_tsv(tsv: &str) -> (r: Result<OcrResult, TsvError>)
    ensures
        result_matches(
            r,
            parse_spec(csv_header_row(tsv@, TAB, true), csv_data_rows(tsv@, TAB, true)),
        ),
{
    let headers = match read_header_row(tsv, TAB, true) {
        Ok(h) => h,
        Err(e) => {
            return Err(TsvError::Csv(e));
        },
    };
    let cols = match tsv_columns(&headers) {
        Ok(c) => c,
        Err(e) => {
            return Err(e);
        },
    };
    let rows = match read_data_rows(tsv, TAB, true) {
        Ok(r) => r,
        Err(e) => {
            return Err(TsvError::Csv(e));
        },
    };
    Ok(words_from_rows(&rows, &cols))
}

} // verus!
