//! Character-level text helpers shared by the parsers and formatters.
//!
//! Strings are handled as sequences of `char`s: `str`'s view in Verus is a
//! `Seq<char>`, so working on `Vec<char>` keeps every operation provable.
use vstd::prelude::*;

verus! {

/// The characters of `s`, in order.
pub fn chars_of(s: &str) -> (v: Vec<char>)
    ensures
        v@ == s@,
{
    broadcast use vstd::string::axiom_spec_iter;

    let mut v: Vec<char> = Vec::new();
    for c in it: s.chars()
        invariant
            it.seq() == s@,
            v@ == it.seq().take(it.index() as int),
    {
        v.push(c);
    }
    v
}

/// Builds a `String` from characters (`FromIterator<char>` for `String`).
#[verifier::external_body]
pub(crate) fn string_of(v: &[char]) -> (s: String)
    ensures
        s@ == v@,
{
    v.iter().collect()
}

/// Unicode `White_Space` property, which is exactly what `char::is_whitespace`
/// and therefore `str::trim` test.
pub open spec fn is_white_space(c: char) -> bool {
    let u = c as u32;
    ||| 0x09 <= u <= 0x0d
    ||| u == 0x20
    ||| u == 0x85
    ||| u == 0xa0
    ||| u == 0x1680
    ||| 0x2000 <= u <= 0x200a
    ||| u == 0x2028
    ||| u == 0x2029
    ||| u == 0x202f
    ||| u == 0x205f
    ||| u == 0x3000
}

pub fn white_space(c: char) -> (b: bool)
    ensures
        b == is_white_space(c),
{
    let u = c as u32;
    (0x09 <= u && u <= 0x0d) || u == 0x20 || u == 0x85 || u == 0xa0 || u == 0x1680 || (0x2000
        <= u && u <= 0x200a) || u == 0x2028 || u == 0x2029 || u == 0x202f || u == 0x205f || u
        == 0x3000
}

/// `s` without its leading white space.
pub open spec fn trim_start(s: Seq<char>) -> Seq<char>
    decreases s.len(),
{
    if s.len() > 0 && is_white_space(s[0]) {
        trim_start(s.drop_first())
    } else {
        s
    }
}

/// `s` without its trailing white space.
pub open spec fn trim_end(s: Seq<char>) -> Seq<char>
    decreases s.len(),
{
    if s.len() > 0 && is_white_space(s.last()) {
        trim_end(s.drop_last())
    } else {
        s
    }
}

/// What `str::trim` returns.
pub open spec fn trim(s: Seq<char>) -> Seq<char> {
    trim_end(trim_start(s))
}

proof fn lemma_trim_start_skip(s: Seq<char>, i: int)
    requires
        0 <= i <= s.len(),
        forall|k: int| 0 <= k < i ==> is_white_space(#[trigger] s[k]),
    ensures
        trim_start(s) == trim_start(s.subrange(i, s.len() as int)),
    decreases i,
{
    if i > 0 {
        assert(s.drop_first().subrange(i - 1, s.drop_first().len() as int) =~= s.subrange(
            i,
            s.len() as int,
        ));
        lemma_trim_start_skip(s.drop_first(), i - 1);
    } else {
        assert(s.subrange(0, s.len() as int) =~= s);
    }
}

proof fn lemma_trim_end_skip(s: Seq<char>, j: int)
    requires
        0 <= j <= s.len(),
        forall|k: int| j <= k < s.len() ==> is_white_space(#[trigger] s[k]),
    ensures
        trim_end(s) == trim_end(s.subrange(0, j)),
    decreases s.len() - j,
{
    if j < s.len() {
        assert(s.drop_last().subrange(0, j) =~= s.subrange(0, j));
        lemma_trim_end_skip(s.drop_last(), j);
    } else {
        assert(s.subrange(0, j) =~= s);
    }
}

/// Trims `s` as `str::trim` does.
pub fn trim_chars(s: &[char]) -> (r: Vec<char>)
    ensures
        r@ == trim(s@),
{
    let n = s.len();
    let mut i: usize = 0;
    while i < n && white_space(s[i])
        invariant
            0 <= i <= n,
            n == s@.len(),
            forall|k: int| 0 <= k < i ==> is_white_space(#[trigger] s@[k]),
        decreases n - i,
    {
        i = i + 1;
    }
    proof {
        lemma_trim_start_skip(s@, i as int);
    }
    let ghost t = s@.subrange(i as int, n as int);
    assert(i < n ==> !is_white_space(t[0]));
    assert(trim_start(s@) == t);
    let mut j: usize = n;
    while j > i && white_space(s[j - 1])
        invariant
            i <= j <= n,
            n == s@.len(),
            forall|k: int| j <= k < n ==> is_white_space(#[trigger] s@[k]),
        decreases j,
    {
        j = j - 1;
    }
    proof {
        lemma_trim_end_skip(t, j - i);
        assert(t.subrange(0, j - i) =~= s@.subrange(i as int, j as int));
        let u = s@.subrange(i as int, j as int);
        if u.len() > 0 {
            assert(!is_white_space(u.last()));
        }
    }
    let mut r: Vec<char> = Vec::new();
    let mut k: usize = i;
    while k < j
        invariant
            i <= k <= j <= n,
            n == s@.len(),
            r@ =~= s@.subrange(i as int, k as int),
        decreases j - k,
    {
        r.push(s[k]);
        k = k + 1;
    }
    r
}

/// Whether two character sequences are equal.
pub fn chars_eq(a: &[char], b: &[char]) -> (r: bool)
    ensures
        r == (a@ == b@),
{
    if a.len() != b.len() {
        return false;
    }
    let mut i: usize = 0;
    while i < a.len()
        invariant
            0 <= i <= a.len(),
            a.len() == b.len(),
            forall|k: int| 0 <= k < i ==> a@[k] == b@[k],
        decreases a.len() - i,
    {
        if a[i] != b[i] {
            return false;
        }
        i = i + 1;
    }
    assert(a@ =~= b@);
    true
}

/// Whether `s` begins with `prefix`.
pub open spec fn has_prefix(s: Seq<char>, prefix: Seq<char>) -> bool {
    prefix.len() <= s.len() && s.subrange(0, prefix.len() as int) == prefix
}

/// `str::strip_prefix`: the rest of `s` after `prefix`, when `s` begins with it.
pub fn strip_prefix(s: &[char], prefix: &[char]) -> (r: Option<Vec<char>>)
    ensures
        match r {
            Some(rest) => has_prefix(s@, prefix@) && rest@ == s@.subrange(
                prefix@.len() as int,
                s@.len() as int,
            ),
            None => !has_prefix(s@, prefix@),
        },
{
    if prefix.len() > s.len() {
        return None;
    }
    let mut i: usize = 0;
    while i < prefix.len()
        invariant
            0 <= i <= prefix.len() <= s.len(),
            forall|k: int| 0 <= k < i ==> s@[k] == prefix@[k],
        decreases prefix.len() - i,
    {
        if s[i] != prefix[i] {
            assert(s@.subrange(0, prefix@.len() as int)[i as int] != prefix@[i as int]);
            return None;
        }
        i = i + 1;
    }
    assert(s@.subrange(0, prefix@.len() as int) =~= prefix@);
    let mut rest: Vec<char> = Vec::new();
    let mut k: usize = prefix.len();
    while k < s.len()
        invariant
            prefix.len() <= k <= s.len(),
            rest@ =~= s@.subrange(prefix@.len() as int, k as int),
        decreases s.len() - k,
    {
        rest.push(s[k]);
        k = k + 1;
    }
    Some(rest)
}

/// Appends `extra` to `out`.
pub fn push_all(out: &mut Vec<char>, extra: &[char])
    ensures
        final(out)@ == old(out)@ + extra@,
{
    let ghost start = out@;
    let mut i: usize = 0;
    while i < extra.len()
        invariant
            0 <= i <= extra.len(),
            out@ =~= start + extra@.subrange(0, i as int),
        decreases extra.len() - i,
    {
        out.push(extra[i]);
        i = i + 1;
    }
    assert(extra@.subrange(0, extra@.len() as int) =~= extra@);
}

/// Numeric value of the decimal digits `s` (every char an ASCII digit).
pub open spec fn digits_value(s: Seq<char>) -> int
    decreases s.len(),
{
    if s.len() == 0 {
        0
    } else {
        10 * digits_value(s.drop_last()) + (s.last() as int - '0' as int)
    }
}

pub open spec fn is_ascii_digit(c: char) -> bool {
    '0' <= c <= '9'
}

pub open spec fn all_digits(s: Seq<char>) -> bool {
    forall|k: int| 0 <= k < s.len() ==> is_ascii_digit(#[trigger] s[k])
}

/// The integer that Rust's `FromStr` for integer types reads from `s`, before
/// the range check: an optional `+` or `-` sign followed by at least one ASCII
/// digit, and nothing else.
pub open spec fn decimal_value(s: Seq<char>) -> Option<int> {
    if s.len() > 0 && (s[0] == '-' || s[0] == '+') {
        let body = s.drop_first();
        if body.len() > 0 && all_digits(body) {
            Some(if s[0] == '-' { -digits_value(body) } else { digits_value(body) })
        } else {
            None
        }
    } else if s.len() > 0 && all_digits(s) {
        Some(digits_value(s))
    } else {
        None
    }
}

/// What `s.parse::<i64>()` returns, as an `Option`.
pub open spec fn parse_i64_spec(s: Seq<char>) -> Option<int> {
    match decimal_value(s) {
        Some(v) => if i64::MIN <= v <= i64::MAX {
            Some(v)
        } else {
            None
        },
        None => None,
    }
}

/// What `s.parse::<i32>()` returns, as an `Option`.
pub open spec fn parse_i32_spec(s: Seq<char>) -> Option<int> {
    match decimal_value(s) {
        Some(v) => if i32::MIN <= v <= i32::MAX {
            Some(v)
        } else {
            None
        },
        None => None,
    }
}

proof fn lemma_digits_value_nonneg(s: Seq<char>)
    requires
        all_digits(s),
    ensures
        digits_value(s) >= 0,
    decreases s.len(),
{
    if s.len() > 0 {
        assert(all_digits(s.drop_last())) by {
            assert forall|k: int| 0 <= k < s.drop_last().len() implies is_ascii_digit(
                #[trigger] s.drop_last()[k],
            ) by {
                assert(s.drop_last()[k] == s[k]);
            }
        }
        lemma_digits_value_nonneg(s.drop_last());
        assert(is_ascii_digit(s[s.len() - 1]));
    }
}

/// Reads decimal digits `s[from..]` with a saturation bound: the result is the
/// exact value when it does not exceed `bound`, and some value above `bound`
/// otherwise.
fn digits_saturating(s: &[char], from: usize, bound: i128) -> (r: i128)
    requires
        from <= s@.len(),
        all_digits(s@.subrange(from as int, s@.len() as int)),
        0 <= bound <= 0x10_0000_0000_0000_0000_0000_0000,
    ensures
        digits_value(s@.subrange(from as int, s@.len() as int)) <= bound ==> r == digits_value(
            s@.subrange(from as int, s@.len() as int),
        ),
        digits_value(s@.subrange(from as int, s@.len() as int)) > bound ==> r > bound,
{
    let mut v: i128 = 0;
    let mut k: usize = from;
    while k < s.len()
        invariant
            from <= k <= s@.len(),
            all_digits(s@.subrange(from as int, s@.len() as int)),
            0 <= bound <= 0x10_0000_0000_0000_0000_0000_0000,
            0 <= v <= bound + 1,
            digits_value(s@.subrange(from as int, k as int)) <= bound ==> v == digits_value(
                s@.subrange(from as int, k as int),
            ),
            digits_value(s@.subrange(from as int, k as int)) > bound ==> v == bound + 1,
        decreases s.len() - k,
    {
        let ghost prev = s@.subrange(from as int, k as int);
        let ghost next = s@.subrange(from as int, k + 1);
        assert(next.drop_last() =~= prev);
        assert(next.last() == s@[k as int]);
        assert(is_ascii_digit(s@[k as int])) by {
            assert(s@.subrange(from as int, s@.len() as int)[k - from] == s@[k as int]);
        }
        assert(all_digits(prev)) by {
            assert forall|q: int| 0 <= q < prev.len() implies is_ascii_digit(#[trigger] prev[q]) by {
                assert(prev[q] == s@.subrange(from as int, s@.len() as int)[q]);
            }
        }
        proof {
            lemma_digits_value_nonneg(prev);
        }
        let d = (s[k] as u32 - '0' as u32) as i128;
        if v > bound {
            // Once above the bound the value only grows.
            assert(digits_value(next) == 10 * digits_value(prev) + d);
        } else {
            let nv = 10 * v + d;
            if nv > bound {
                v = bound + 1;
            } else {
                v = nv;
            }
        }
        k = k + 1;
    }
    assert(s@.subrange(from as int, k as int) =~= s@.subrange(from as int, s@.len() as int));
    v
}

/// Whether every char of `s[from..]` is an ASCII digit.
fn digits_only(s: &[char], from: usize) -> (b: bool)
    requires
        from <= s@.len(),
    ensures
        b == all_digits(s@.subrange(from as int, s@.len() as int)),
{
    let mut k: usize = from;
    while k < s.len()
        invariant
            from <= k <= s@.len(),
            forall|q: int| from <= q < k ==> is_ascii_digit(#[trigger] s@[q]),
        decreases s.len() - k,
    {
        if !(s[k] >= '0' && s[k] <= '9') {
            assert(s@.subrange(from as int, s@.len() as int)[k - from] == s@[k as int]);
            return false;
        }
        k = k + 1;
    }
    assert forall|q: int| 0 <= q < s@.subrange(from as int, s@.len() as int).len() implies is_ascii_digit(
        #[trigger] s@.subrange(from as int, s@.len() as int)[q],
    ) by {
        assert(s@.subrange(from as int, s@.len() as int)[q] == s@[from + q]);
    }
    true
}

/// Reads a signed decimal integer as `str::parse` does, `None` when the text is
/// not one or its value lies outside `[lo, hi]`.
pub(crate) fn parse_signed(s: &[char], lo: i128, hi: i128) -> (r: Option<i128>)
    requires
        -0x10_0000_0000_0000_0000_0000_0000 <= lo <= 0 <= hi <= 0x10_0000_0000_0000_0000_0000_0000,
    ensures
        match decimal_value(s@) {
            Some(v) => if lo <= v <= hi {
                r == Some(v as i128)
            } else {
                r is None
            },
            None => r is None,
        },
{
    if s.len() == 0 {
        return None;
    }
    let signed = s[0] == '-' || s[0] == '+';
    let from: usize = if signed {
        1
    } else {
        0
    };
    if from >= s.len() {
        return None;
    }
    if !digits_only(s, from) {
        proof {
            if !signed {
                assert(s@.subrange(0, s@.len() as int) =~= s@);
            } else {
                assert(s@.subrange(1, s@.len() as int) =~= s@.drop_first());
            }
        }
        return None;
    }
    let ghost body = s@.subrange(from as int, s@.len() as int);
    proof {
        if !signed {
            assert(body =~= s@);
        } else {
            assert(body =~= s@.drop_first());
        }
        lemma_digits_value_nonneg(body);
    }
    if s[0] == '-' {
        let m = digits_saturating(s, from, -lo);
        if m > -lo {
            None
        } else {
            Some(-m)
        }
    } else {
        let m = digits_saturating(s, from, hi);
        if m > hi {
            None
        } else {
            Some(m)
        }
    }
}

/// `s.parse::<i64>().ok()`.
pub fn parse_i64(s: &[char]) -> (r: Option<i64>)
    ensures
        match parse_i64_spec(s@) {
            Some(v) => r == Some(v as i64),
            None => r is None,
        },
{
    match parse_signed(s, i64::MIN as i128, i64::MAX as i128) {
        Some(v) => Some(v as i64),
        None => None,
    }
}

/// `s.parse::<i32>().ok()`.
pub fn parse_i32(s: &[char]) -> (r: Option<i32>)
    ensures
        match parse_i32_spec(s@) {
            Some(v) => r == Some(v as i32),
            None => r is None,
        },
{
    match parse_signed(s, i32::MIN as i128, i32::MAX as i128) {
        Some(v) => Some(v as i32),
        None => None,
    }
}

/// Decimal digits of a natural number, most significant first, no leading zeros
/// (`"0"` for zero).
pub open spec fn nat_digits(n: nat) -> Seq<char>
    decreases n,
{
    if n < 10 {
        seq![digit_char(n)]
    } else {
        nat_digits(n / 10).push(digit_char(n % 10))
    }
}

pub open spec fn digit_char(d: nat) -> char {
    (('0' as u32) + d) as char
}

/// What `Display` writes for an integer.
pub open spec fn int_text(v: int) -> Seq<char> {
    if v < 0 {
        seq!['-'] + nat_digits((-v) as nat)
    } else {
        nat_digits(v as nat)
    }
}

fn digit(d: u64) -> (c: char)
    requires
        d < 10,
    ensures
        c == digit_char(d as nat),
{
    if d == 0 {
        '0'
    } else if d == 1 {
        '1'
    } else if d == 2 {
        '2'
    } else if d == 3 {
        '3'
    } else if d == 4 {
        '4'
    } else if d == 5 {
        '5'
    } else if d == 6 {
        '6'
    } else if d == 7 {
        '7'
    } else if d == 8 {
        '8'
    } else {
        '9'
    }
}

/// Decimal text of `n`.
pub fn u64_text(n: u64) -> (r: Vec<char>)
    ensures
        r@ == nat_digits(n as nat),
    decreases n,
{
    if n < 10 {
        let mut r = Vec::new();
        r.push(digit(n));
        assert(r@ =~= seq![digit_char(n as nat)]);
        r
    } else {
        let mut r = u64_text(n / 10);
        r.push(digit(n % 10));
        r
    }
}

/// Decimal text of `v`, as `Display` writes it.
pub fn i64_text(v: i64) -> (r: Vec<char>)
    ensures
        r@ == int_text(v as int),
{
    if v < 0 {
        let m: u64 = if v == i64::MIN {
            0x8000_0000_0000_0000u64
        } else {
            (-v) as u64
        };
        let digits = u64_text(m);
        let mut r: Vec<char> = Vec::new();
        r.push('-');
        push_all(&mut r, digits.as_slice());
        assert(r@ =~= seq!['-'] + nat_digits((-v) as nat));
        r
    } else {
        u64_text(v as u64)
    }
}

} // verus!
