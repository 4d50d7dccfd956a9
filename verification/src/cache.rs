//! Locations and keys of the on-disk OCR result cache.
//!
//! Entries are JSON files under `<cache_root>/ocr/`, keyed by a blake3 hash of
//! the image path, the OCR settings (language, tessdata directory, effective
//! downscale target) and the file's modification time (seconds and
//! nanoseconds) and size, so an edited file is simply a cache miss. Reading and
//! writing the entries is the caller's job.
use vstd::prelude::*;
use vstd::utf8::{
    encode_utf8, has_width_1_encoding, has_width_2_encoding, has_width_3_encoding,
    last_continuation_byte, leading_byte_width_1, leading_byte_width_2, leading_byte_width_3,
    leading_byte_width_4, second_last_continuation_byte, third_last_continuation_byte,
};

use crate::fs::{join_path, join_spec};
use crate::ocr::tesseract::OcrOptions;
use crate::text::{chars_of, nat_digits, push_all, string_of, u64_text};

verus! {

/// `directories::ProjectDirs::cache_dir`, as text (lossy for non-UTF-8 paths).
/// Nothing is claimed of the result.
#[verifier::external_body]
fn cache_dir_of(dirs: &directories::ProjectDirs) -> String {
    dirs.cache_dir().to_string_lossy().into_owned()
}

/// The project the cache directory belongs to: qualifier, organization and
/// application name handed to `ProjectDirs::from`.
pub fn cache_project_ids() -> (r: (&'static str, &'static str, &'static str))
    ensures
        r.0@ == "com"@,
        r.1@ == "example"@,
        r.2@ == "QuickView"@,
{
    ("com", "example", "QuickView")
}

/// Return the XDG cache directory of the viewer (`~/.cache/quickview/` on
/// Linux): the cache directory of the project [`cache_project_ids`] names,
/// `None` when no home directory is known.
pub fn cache_dir() -> Option<String> {
    let (qualifier, organization, application) = cache_project_ids();
    match crate::config::project_dirs_from(qualifier, organization, application) {
        Some(dirs) => Some(cache_dir_of(&dirs)),
        None => None,
    }
}

/// The BLAKE3 hash (32 bytes) of `data`.
pub uninterp spec fn blake3_hash(data: Seq<u8>) -> Seq<u8>;

/// `blake3::hash`: the 32-byte BLAKE3 digest of `data` (`Hash::as_bytes`).
/// Claims that it is the named function of `data` and 32 bytes long
/// (`OUT_LEN`).
#[verifier::external_body]
fn blake3_digest(data: &[u8]) -> (d: Vec<u8>)
    ensures
        d@ == blake3_hash(data@),
        d@.len() == 32,
{
    blake3::hash(data).as_bytes().to_vec()
}

/// Lowercase hexadecimal digit of `n < 16`.
pub open spec fn hex_digit(n: int) -> char {
    if n < 10 {
        (('0' as int) + n) as char
    } else {
        (('a' as int) + n - 10) as char
    }
}

/// Lowercase hexadecimal text of bytes, two digits per byte, high nibble
/// first (what `blake3::Hash::to_hex` writes).
pub open spec fn hex_lower(bytes: Seq<u8>) -> Seq<char>
    decreases bytes.len(),
{
    if bytes.len() == 0 {
        Seq::empty()
    } else {
        hex_lower(bytes.drop_last()) + seq![
            hex_digit(bytes.last() as int / 16),
            hex_digit(bytes.last() as int % 16),
        ]
    }
}

/// A lowercase hexadecimal digit: `0`-`9` or `a`-`f`.
pub open spec fn is_lower_hex_digit(c: char) -> bool {
    ('0' <= c <= '9') || ('a' <= c <= 'f')
}

/// Hex text has two lowercase hexadecimal digits per byte.
pub proof fn hex_lower_shape(bytes: Seq<u8>)
    ensures
        hex_lower(bytes).len() == 2 * bytes.len(),
        forall|k: int|
            0 <= k < hex_lower(bytes).len() ==> is_lower_hex_digit(#[trigger] hex_lower(bytes)[k]),
    decreases bytes.len(),
{
    if bytes.len() > 0 {
        hex_lower_shape(bytes.drop_last());
        let prev = hex_lower(bytes.drop_last());
        let h = hex_lower(bytes);
        let b = bytes.last() as int;
        assert((hex_digit(b / 16) as u32) == if b / 16 < 10 { 48 + b / 16 } else { 87 + b / 16 });
        assert((hex_digit(b % 16) as u32) == if b % 16 < 10 { 48 + b % 16 } else { 87 + b % 16 });
        assert forall|k: int| 0 <= k < h.len() implies is_lower_hex_digit(#[trigger] h[k]) by {
            if k < prev.len() {
                assert(h[k] == prev[k]);
            } else if k == prev.len() {
                assert(h[k] == hex_digit(b / 16));
            } else {
                assert(h[k] == hex_digit(b % 16));
            }
        }
    }
}

/// The `n` least significant bytes of `v`, least significant first.
pub open spec fn le_bytes(v: nat, n: nat) -> Seq<u8>
    decreases n,
{
    if n == 0 {
        Seq::empty()
    } else {
        seq![(v % 256) as u8] + le_bytes(v / 256, (n - 1) as nat)
    }
}

/// The downscale target as text: `full`, or `WxH`.
pub open spec fn target_text(target: Option<(u32, u32)>) -> Seq<char> {
    match target {
        None => "full"@,
        Some((w, h)) => nat_digits(w as nat) + seq!['x'] + nat_digits(h as nat),
    }
}

/// The bytes hashed into an OCR cache key: path, language, tessdata
/// directory (a presence byte keeps `None` and an empty directory apart),
/// downscale target, each closed by a NUL byte, then the modification time
/// (seconds as 8 bytes, nanoseconds as 4) and the size (8 bytes), little
/// endian.
pub open spec fn cache_key_input(
    file: Seq<char>,
    lang: Seq<char>,
    tessdata_dir: Option<Seq<char>>,
    target: Option<(u32, u32)>,
    mtime_secs: u64,
    mtime_nanos: u32,
    size: u64,
) -> Seq<u8> {
    encode_utf8(file) + seq![0u8] + encode_utf8(lang) + seq![0u8] + dir_bytes(tessdata_dir)
        + encode_utf8(target_text(target)) + seq![0u8] + metadata_bytes(
        mtime_secs,
        mtime_nanos,
        size,
    )
}

/// The tessdata directory field of a key: `0` for none, else `1`, the
/// directory and a closing NUL byte.
pub open spec fn dir_bytes(tessdata_dir: Option<Seq<char>>) -> Seq<u8> {
    match tessdata_dir {
        None => seq![0u8],
        Some(d) => seq![1u8] + encode_utf8(d) + seq![0u8],
    }
}

/// The fixed-width tail of a key: modification seconds (8 bytes),
/// nanoseconds (4) and size (8), little endian.
pub open spec fn metadata_bytes(mtime_secs: u64, mtime_nanos: u32, size: u64) -> Seq<u8> {
    le_bytes(mtime_secs as nat, 8) + le_bytes(mtime_nanos as nat, 4) + le_bytes(size as nat, 8)
}

/// No character of `s` is NUL, the byte that closes each text field of a key.
pub open spec fn no_nul(s: Seq<char>) -> bool {
    forall|k: int| 0 <= k < s.len() ==> (#[trigger] s[k] as u32) != 0
}

spec fn free_of<A>(s: Seq<A>, sep: A) -> bool {
    forall|k: int| 0 <= k < s.len() ==> #[trigger] s[k] != sep
}

/// A separator that occurs in neither head splits `x + [sep] + y` uniquely.
proof fn lemma_split_at<A>(x: Seq<A>, y: Seq<A>, x2: Seq<A>, y2: Seq<A>, sep: A)
    requires
        free_of(x, sep),
        free_of(x2, sep),
        x + seq![sep] + y == x2 + seq![sep] + y2,
    ensures
        x == x2,
        y == y2,
{
    let s = x + seq![sep] + y;
    let s2 = x2 + seq![sep] + y2;
    if x.len() < x2.len() {
        assert(s[x.len() as int] == sep);
        assert(s2[x.len() as int] == x2[x.len() as int]);
    }
    if x2.len() < x.len() {
        assert(s2[x2.len() as int] == sep);
        assert(s[x2.len() as int] == x[x2.len() as int]);
    }
    assert(x =~= s.subrange(0, x.len() as int));
    assert(x2 =~= s2.subrange(0, x.len() as int));
    assert(y =~= s.skip(x.len() as int + 1));
    assert(y2 =~= s2.skip(x.len() as int + 1));
}

proof fn lemma_encode_scalar_no_nul(c: u32)
    requires
        vstd::utf8::is_scalar(c),
        c != 0,
    ensures
        free_of(vstd::utf8::encode_scalar(c), 0u8),
{
    if has_width_1_encoding(c) {
        assert(leading_byte_width_1(c) != 0) by (bit_vector)
            requires
                1 <= c <= 0x7F,
        ;
    } else if has_width_2_encoding(c) {
        assert(leading_byte_width_2(c) != 0) by (bit_vector);
        assert(last_continuation_byte(c) != 0) by (bit_vector);
    } else if has_width_3_encoding(c) {
        assert(leading_byte_width_3(c) != 0) by (bit_vector);
        assert(second_last_continuation_byte(c) != 0) by (bit_vector);
        assert(last_continuation_byte(c) != 0) by (bit_vector);
    } else {
        assert(leading_byte_width_4(c) != 0) by (bit_vector);
        assert(third_last_continuation_byte(c) != 0) by (bit_vector);
        assert(second_last_continuation_byte(c) != 0) by (bit_vector);
        assert(last_continuation_byte(c) != 0) by (bit_vector);
    }
}

/// Text without NUL characters encodes to bytes without a zero byte.
proof fn lemma_encode_no_nul(s: Seq<char>)
    requires
        no_nul(s),
    ensures
        free_of(encode_utf8(s), 0u8),
    decreases s.len(),
{
    if s.len() > 0 {
        vstd::utf8::char_is_scalar(s[0]);
        assert((s[0] as u32) != 0);
        lemma_encode_scalar_no_nul(s[0] as u32);
        let rest = s.drop_first();
        assert forall|k: int| 0 <= k < rest.len() implies (#[trigger] rest[k] as u32) != 0 by {
            assert(rest[k] == s[k + 1]);
        }
        lemma_encode_no_nul(rest);
        let a = vstd::utf8::encode_scalar(s[0] as u32);
        let e = encode_utf8(s);
        assert(e == a + encode_utf8(rest));
        assert forall|k: int| 0 <= k < e.len() implies #[trigger] e[k] != 0u8 by {
            if k < a.len() {
                assert(e[k] == a[k]);
            } else {
                assert(e[k] == encode_utf8(rest)[k - a.len()]);
            }
        }
    }
}

proof fn lemma_encode_injective(a: Seq<char>, b: Seq<char>)
    requires
        encode_utf8(a) == encode_utf8(b),
    ensures
        a == b,
{
    vstd::utf8::encode_utf8_decode_utf8(a);
    vstd::utf8::encode_utf8_decode_utf8(b);
}

proof fn lemma_nat_digits_value(n: nat)
    ensures
        nat_digits(n).len() >= 1,
        crate::text::all_digits(nat_digits(n)),
        crate::text::digits_value(nat_digits(n)) == n,
    decreases n,
{
    let s = nat_digits(n);
    digit_char_of(n % 10);
    assert((crate::text::digit_char(n % 10) as u32) == 48 + n % 10);
    if n < 10 {
        assert(s.drop_last() =~= Seq::<char>::empty());
        assert(crate::text::digits_value(Seq::<char>::empty()) == 0);
        assert(s.last() == crate::text::digit_char(n));
    } else {
        lemma_nat_digits_value(n / 10);
        assert(s.drop_last() =~= nat_digits(n / 10));
        assert(s.last() == crate::text::digit_char(n % 10));
        assert(n == 10 * (n / 10) + n % 10);
        assert forall|k: int| 0 <= k < s.len() implies crate::text::is_ascii_digit(
            #[trigger] s[k],
        ) by {
            if k < s.len() - 1 {
                assert(s[k] == nat_digits(n / 10)[k]);
            }
        }
    }
}

proof fn lemma_target_text(t: Option<(u32, u32)>)
    ensures
        no_nul(target_text(t)),
        target_text(t).len() >= 1,
        t is None ==> target_text(t)[0] == 'f',
        t is Some ==> crate::text::is_ascii_digit(target_text(t)[0]),
{
    match t {
        None => {
            reveal_strlit("full");
        },
        Some((w, h)) => {
            let dw = nat_digits(w as nat);
            let dh = nat_digits(h as nat);
            lemma_nat_digits_value(w as nat);
            lemma_nat_digits_value(h as nat);
            let s = target_text(t);
            assert(s[0] == dw[0]);
            assert forall|k: int| 0 <= k < s.len() implies (#[trigger] s[k] as u32) != 0 by {
                if k < dw.len() {
                    assert(s[k] == dw[k]);
                    assert(crate::text::is_ascii_digit(dw[k]));
                } else if k > dw.len() {
                    assert(s[k] == dh[k - dw.len() - 1]);
                    assert(crate::text::is_ascii_digit(dh[k - dw.len() - 1]));
                } else {
                    assert(s[k] == 'x');
                }
            }
        },
    }
}

proof fn lemma_target_text_injective(t1: Option<(u32, u32)>, t2: Option<(u32, u32)>)
    requires
        target_text(t1) == target_text(t2),
    ensures
        t1 == t2,
{
    lemma_target_text(t1);
    lemma_target_text(t2);
    if let (Some((w1, h1)), Some((w2, h2))) = (t1, t2) {
        let d1 = nat_digits(w1 as nat);
        let d2 = nat_digits(w2 as nat);
        lemma_nat_digits_value(w1 as nat);
        lemma_nat_digits_value(w2 as nat);
        lemma_nat_digits_value(h1 as nat);
        lemma_nat_digits_value(h2 as nat);
        assert forall|k: int| 0 <= k < d1.len() implies #[trigger] d1[k] != 'x' by {
            assert(crate::text::is_ascii_digit(d1[k]));
        }
        assert forall|k: int| 0 <= k < d2.len() implies #[trigger] d2[k] != 'x' by {
            assert(crate::text::is_ascii_digit(d2[k]));
        }
        lemma_split_at(d1, nat_digits(h1 as nat), d2, nat_digits(h2 as nat), 'x');
    }
}

/// `256` to the power `n`.
pub open spec fn pow256(n: nat) -> nat
    decreases n,
{
    if n == 0 {
        1
    } else {
        256 * pow256((n - 1) as nat)
    }
}

proof fn lemma_le_bytes_len(v: nat, n: nat)
    ensures
        le_bytes(v, n).len() == n,
    decreases n,
{
    if n > 0 {
        lemma_le_bytes_len(v / 256, (n - 1) as nat);
    }
}

proof fn lemma_le_bytes_injective(v1: nat, v2: nat, n: nat)
    requires
        v1 < pow256(n),
        v2 < pow256(n),
        le_bytes(v1, n) == le_bytes(v2, n),
    ensures
        v1 == v2,
    decreases n,
{
    if n > 0 {
        let m = (n - 1) as nat;
        let p = pow256(m);
        let a = le_bytes(v1, n);
        let b = le_bytes(v2, n);
        assert(a[0] == b[0]);
        assert(a.drop_first() =~= le_bytes(v1 / 256, m));
        assert(b.drop_first() =~= le_bytes(v2 / 256, m));
        vstd::arithmetic::div_mod::lemma_fundamental_div_mod(v1 as int, 256);
        vstd::arithmetic::div_mod::lemma_fundamental_div_mod(v2 as int, 256);
        lemma_le_bytes_injective(v1 / 256, v2 / 256, m);
    }
}

proof fn lemma_metadata_bytes_injective(
    s1: u64,
    n1: u32,
    z1: u64,
    s2: u64,
    n2: u32,
    z2: u64,
)
    requires
        metadata_bytes(s1, n1, z1) == metadata_bytes(s2, n2, z2),
    ensures
        s1 == s2,
        n1 == n2,
        z1 == z2,
{
    assert(pow256(0) == 1);
    assert(pow256(1) == 0x100);
    assert(pow256(2) == 0x1_0000);
    assert(pow256(3) == 0x100_0000);
    assert(pow256(4) == 0x1_0000_0000);
    assert(pow256(5) == 0x100_0000_0000);
    assert(pow256(6) == 0x1_0000_0000_0000);
    assert(pow256(7) == 0x100_0000_0000_0000);
    assert(pow256(8) == 0x1_0000_0000_0000_0000);
    lemma_le_bytes_len(s1 as nat, 8);
    lemma_le_bytes_len(s2 as nat, 8);
    lemma_le_bytes_len(n1 as nat, 4);
    lemma_le_bytes_len(n2 as nat, 4);
    lemma_le_bytes_len(z1 as nat, 8);
    lemma_le_bytes_len(z2 as nat, 8);
    let m1 = metadata_bytes(s1, n1, z1);
    let m2 = metadata_bytes(s2, n2, z2);
    assert(le_bytes(s1 as nat, 8) =~= m1.subrange(0, 8));
    assert(le_bytes(s2 as nat, 8) =~= m2.subrange(0, 8));
    assert(le_bytes(n1 as nat, 4) =~= m1.subrange(8, 12));
    assert(le_bytes(n2 as nat, 4) =~= m2.subrange(8, 12));
    assert(le_bytes(z1 as nat, 8) =~= m1.subrange(12, 20));
    assert(le_bytes(z2 as nat, 8) =~= m2.subrange(12, 20));
    lemma_le_bytes_injective(s1 as nat, s2 as nat, 8);
    lemma_le_bytes_injective(n1 as nat, n2 as nat, 4);
    lemma_le_bytes_injective(z1 as nat, z2 as nat, 8);
}

spec fn after_dir(target: Option<(u32, u32)>, secs: u64, nanos: u32, size: u64) -> Seq<u8> {
    encode_utf8(target_text(target)) + seq![0u8] + metadata_bytes(secs, nanos, size)
}

spec fn after_lang(
    dir: Option<Seq<char>>,
    target: Option<(u32, u32)>,
    secs: u64,
    nanos: u32,
    size: u64,
) -> Seq<u8> {
    dir_bytes(dir) + after_dir(target, secs, nanos, size)
}

spec fn after_file(
    lang: Seq<char>,
    dir: Option<Seq<char>>,
    target: Option<(u32, u32)>,
    secs: u64,
    nanos: u32,
    size: u64,
) -> Seq<u8> {
    encode_utf8(lang) + seq![0u8] + after_lang(dir, target, secs, nanos, size)
}

proof fn lemma_key_shape(
    file: Seq<char>,
    lang: Seq<char>,
    dir: Option<Seq<char>>,
    target: Option<(u32, u32)>,
    secs: u64,
    nanos: u32,
    size: u64,
)
    ensures
        cache_key_input(file, lang, dir, target, secs, nanos, size) == encode_utf8(file) + seq![
            0u8,
        ] + after_file(lang, dir, target, secs, nanos, size),
{
    assert(cache_key_input(file, lang, dir, target, secs, nanos, size) =~= encode_utf8(file)
        + seq![0u8] + after_file(lang, dir, target, secs, nanos, size));
}

/// Splits off a NUL-free text field closed by a NUL byte.
proof fn lemma_split_text_field(a: Seq<char>, ra: Seq<u8>, b: Seq<char>, rb: Seq<u8>)
    requires
        no_nul(a),
        no_nul(b),
        encode_utf8(a) + seq![0u8] + ra == encode_utf8(b) + seq![0u8] + rb,
    ensures
        a == b,
        ra == rb,
{
    lemma_encode_no_nul(a);
    lemma_encode_no_nul(b);
    lemma_split_at(encode_utf8(a), ra, encode_utf8(b), rb, 0u8);
    lemma_encode_injective(a, b);
}

proof fn lemma_after_lang_injective(
    dir1: Option<Seq<char>>,
    q1: Seq<u8>,
    dir2: Option<Seq<char>>,
    q2: Seq<u8>,
)
    requires
        dir1 matches Some(d) ==> no_nul(d),
        dir2 matches Some(d) ==> no_nul(d),
        dir_bytes(dir1) + q1 == dir_bytes(dir2) + q2,
    ensures
        dir1 == dir2,
        q1 == q2,
{
    let p1 = dir_bytes(dir1) + q1;
    let p2 = dir_bytes(dir2) + q2;
    match (dir1, dir2) {
        (None, None) => {
            assert(q1 =~= p1.drop_first());
            assert(q2 =~= p2.drop_first());
        },
        (Some(d1), Some(d2)) => {
            assert(p1.drop_first() =~= encode_utf8(d1) + seq![0u8] + q1);
            assert(p2.drop_first() =~= encode_utf8(d2) + seq![0u8] + q2);
            lemma_split_text_field(d1, q1, d2, q2);
        },
        (None, Some(_)) => {
            assert(p1[0] == 0u8);
            assert(p2[0] == 1u8);
        },
        (Some(_), None) => {
            assert(p1[0] == 1u8);
            assert(p2[0] == 0u8);
        },
    }
}

proof fn lemma_after_dir_injective(
    t1: Option<(u32, u32)>,
    s1: u64,
    n1: u32,
    z1: u64,
    t2: Option<(u32, u32)>,
    s2: u64,
    n2: u32,
    z2: u64,
)
    requires
        after_dir(t1, s1, n1, z1) == after_dir(t2, s2, n2, z2),
    ensures
        t1 == t2,
        s1 == s2,
        n1 == n2,
        z1 == z2,
{
    lemma_target_text(t1);
    lemma_target_text(t2);
    lemma_split_text_field(
        target_text(t1),
        metadata_bytes(s1, n1, z1),
        target_text(t2),
        metadata_bytes(s2, n2, z2),
    );
    lemma_target_text_injective(t1, t2);
    lemma_metadata_bytes_injective(s1, n1, z1, s2, n2, z2);
}

/// Distinct cache entries: two key inputs are equal only when the path,
/// language, tessdata directory, downscale target, modification time and
/// size all are, for text fields free of NUL characters. An edited file (new
/// mtime or size) or changed OCR settings therefore never reuse an entry,
/// up to collisions of the hash.
pub proof fn cache_key_input_is_injective(
    file1: Seq<char>,
    lang1: Seq<char>,
    dir1: Option<Seq<char>>,
    target1: Option<(u32, u32)>,
    secs1: u64,
    nanos1: u32,
    size1: u64,
    file2: Seq<char>,
    lang2: Seq<char>,
    dir2: Option<Seq<char>>,
    target2: Option<(u32, u32)>,
    secs2: u64,
    nanos2: u32,
    size2: u64,
)
    requires
        no_nul(file1),
        no_nul(lang1),
        dir1 matches Some(d) ==> no_nul(d),
        no_nul(file2),
        no_nul(lang2),
        dir2 matches Some(d) ==> no_nul(d),
        cache_key_input(file1, lang1, dir1, target1, secs1, nanos1, size1) == cache_key_input(
            file2,
            lang2,
            dir2,
            target2,
            secs2,
            nanos2,
            size2,
        ),
    ensures
        file1 == file2,
        lang1 == lang2,
        dir1 == dir2,
        target1 == target2,
        secs1 == secs2,
        nanos1 == nanos2,
        size1 == size2,
{
    lemma_key_shape(file1, lang1, dir1, target1, secs1, nanos1, size1);
    lemma_key_shape(file2, lang2, dir2, target2, secs2, nanos2, size2);
    lemma_split_text_field(
        file1,
        after_file(lang1, dir1, target1, secs1, nanos1, size1),
        file2,
        after_file(lang2, dir2, target2, secs2, nanos2, size2),
    );
    lemma_split_text_field(
        lang1,
        after_lang(dir1, target1, secs1, nanos1, size1),
        lang2,
        after_lang(dir2, target2, secs2, nanos2, size2),
    );
    lemma_after_lang_injective(
        dir1,
        after_dir(target1, secs1, nanos1, size1),
        dir2,
        after_dir(target2, secs2, nanos2, size2),
    );
    lemma_after_dir_injective(target1, secs1, nanos1, size1, target2, secs2, nanos2, size2);
}

fn push_bytes(out: &mut Vec<u8>, extra: &[u8])
    ensures
        final(out)@ == old(out)@ + extra@,
{
    let ghost start = out@;
    let mut i: usize = 0;
    while i < extra.len()
        invariant
            0 <= i <= extra.len(),
            out@ =~= start + extra@.subrange(0, i as int),
        decreases extra.len() - i,
    {
        out.push(extra[i]);
        i = i + 1;
    }
    assert(extra@.subrange(0, extra@.len() as int) =~= extra@);
}

fn push_le(out: &mut Vec<u8>, v: u64, n: usize)
    requires
        n <= 8,
    ensures
        final(out)@ == old(out)@ + le_bytes(v as nat, n as nat),
{
    let ghost start = out@;
    let mut x: u64 = v;
    let mut k: usize = 0;
    while k < n
        invariant
            0 <= k <= n,
            start + le_bytes(v as nat, n as nat) == out@ + le_bytes(x as nat, (n - k) as nat),
        decreases n - k,
    {
        let ghost rest = le_bytes(x as nat, (n - k) as nat);
        assert(rest == seq![(x % 256) as u8] + le_bytes((x / 256) as nat, (n - k - 1) as nat));
        out.push((x % 256) as u8);
        x = x / 256;
        k = k + 1;
        assert(out@ + le_bytes(x as nat, (n - k) as nat) =~= start + le_bytes(v as nat, n as nat));
    }
    assert(le_bytes(x as nat, 0) =~= Seq::<u8>::empty());
    assert(out@ + Seq::<u8>::empty() =~= out@);
}

/// The ASCII bytes of `chars` (all below 128).
fn ascii_bytes(chars: &[char]) -> (b: Vec<u8>)
    requires
        forall|k: int| 0 <= k < chars@.len() ==> (chars@[k] as u32) < 128,
    ensures
        b@ == encode_utf8(chars@),
{
    let text = string_of(chars);
    let st = text.as_str();
    let bytes = st.as_bytes();
    assert(bytes@ == encode_utf8(st@));
    assert(st@ == chars@);
    let mut out: Vec<u8> = Vec::new();
    push_bytes(&mut out, bytes);
    assert(out@ =~= bytes@);
    out
}

fn hex_char(n: u8) -> (c: char)
    requires
        n < 16,
    ensures
        c == hex_digit(n as int),
{
    if n < 10 {
        (48u8 + n) as char
    } else {
        (87u8 + n) as char
    }
}

/// `blake3::Hash::to_hex` of a digest.
fn to_hex(bytes: &[u8]) -> (r: Vec<char>)
    ensures
        r@ == hex_lower(bytes@),
{
    let mut r: Vec<char> = Vec::new();
    let mut i: usize = 0;
    while i < bytes.len()
        invariant
            0 <= i <= bytes@.len(),
            r@ == hex_lower(bytes@.subrange(0, i as int)),
        decreases bytes.len() - i,
    {
        let b = bytes[i];
        proof {
            let sub = bytes@.subrange(0, i + 1);
            assert(sub.drop_last() =~= bytes@.subrange(0, i as int));
        }
        r.push(hex_char(b / 16));
        r.push(hex_char(b % 16));
        proof {
            let sub = bytes@.subrange(0, i + 1);
            assert(r@ =~= hex_lower(sub.drop_last()) + seq![
                hex_digit(sub.last() as int / 16),
                hex_digit(sub.last() as int % 16),
            ]);
        }
        i = i + 1;
    }
    assert(bytes@.subrange(0, bytes@.len() as int) =~= bytes@);
    r
}

proof fn lemma_digits_ascii(n: nat)
    ensures
        forall|k: int| 0 <= k < nat_digits(n).len() ==> (#[trigger] nat_digits(n)[k] as u32) < 128,
    decreases n,
{
    digit_char_of(n % 10);
    if n >= 10 {
        lemma_digits_ascii(n / 10);
        assert forall|k: int| 0 <= k < nat_digits(n).len() implies (#[trigger] nat_digits(
            n,
        )[k] as u32) < 128 by {
            if k < nat_digits(n / 10).len() {
                assert(nat_digits(n)[k] == nat_digits(n / 10)[k]);
            } else {
                assert(nat_digits(n)[k] == crate::text::digit_char((n % 10) as nat));
            }
        }
    } else {
        assert(nat_digits(n) == seq![crate::text::digit_char(n)]);
    }
}

proof fn digit_char_of(d: nat) -> (c: char)
    requires
        d < 10,
    ensures
        c == crate::text::digit_char(d),
        (c as u32) < 128,
{
    let c = crate::text::digit_char(d);
    assert((c as u32) == 48 + d);
    c
}

fn target_chars(target: Option<(u32, u32)>) -> (r: Vec<char>)
    ensures
        r@ == target_text(target),
        forall|k: int| 0 <= k < r@.len() ==> (r@[k] as u32) < 128,
{
    match target {
        None => {
            proof {
                reveal_strlit("full");
            }
            let r = chars_of("full");
            r
        },
        Some((w, h)) => {
            let mut r = u64_text(w as u64);
            r.push('x');
            let hs = u64_text(h as u64);
            push_all(&mut r, hs.as_slice());
            proof {
                lemma_digits_ascii(w as nat);
                lemma_digits_ascii(h as nat);
                assert(r@ =~= nat_digits(w as nat) + seq!['x'] + nat_digits(h as nat));
                assert forall|k: int| 0 <= k < r@.len() implies (r@[k] as u32) < 128 by {
                    if k < nat_digits(w as nat).len() {
                        assert(r@[k] == nat_digits(w as nat)[k]);
                    } else if k > nat_digits(w as nat).len() {
                        assert(r@[k] == nat_digits(h as nat)[k - nat_digits(w as nat).len() - 1]);
                    }
                }
            }
            r
        },
    }
}

/// The cache key of an OCR result: the lowercase hex BLAKE3 hash of
/// [`cache_key_input`].
pub fn ocr_cache_key(
    file: &str,
    opts: &OcrOptions,
    target: Option<(u32, u32)>,
    mtime_secs: u64,
    mtime_nanos: u32,
    size: u64,
) -> (key: String)
    ensures
        key@.len() == 64,
        forall|k: int| 0 <= k < key@.len() ==> is_lower_hex_digit(#[trigger] key@[k]),
        key@ == hex_lower(
            blake3_hash(
                cache_key_input(
                    file@,
                    opts.lang@,
                    match opts.tessdata_dir {
                        Some(d) => Some(d@),
                        None => None,
                    },
                    target,
                    mtime_secs,
                    mtime_nanos,
                    size,
                ),
            ),
        ),
{
    let mut msg: Vec<u8> = Vec::new();
    push_bytes(&mut msg, file.as_bytes());
    msg.push(0u8);
    push_bytes(&mut msg, opts.lang.as_str().as_bytes());
    msg.push(0u8);
    match &opts.tessdata_dir {
        None => {
            msg.push(0u8);
        },
        Some(d) => {
            msg.push(1u8);
            push_bytes(&mut msg, d.as_str().as_bytes());
            msg.push(0u8);
        },
    }
    let t = target_chars(target);
    let tb = ascii_bytes(t.as_slice());
    push_bytes(&mut msg, tb.as_slice());
    msg.push(0u8);
    push_le(&mut msg, mtime_secs, 8);
    push_le(&mut msg, mtime_nanos as u64, 4);
    push_le(&mut msg, size, 8);
    assert(msg@ =~= cache_key_input(
        file@,
        opts.lang@,
        match opts.tessdata_dir {
            Some(d) => Some(d@),
            None => None,
        },
        target,
        mtime_secs,
        mtime_nanos,
        size,
    ));
    let digest = blake3_digest(msg.as_slice());
    let hex = to_hex(digest.as_slice());
    proof {
        hex_lower_shape(digest@);
    }
    string_of(hex.as_slice())
}

/// Where the OCR result for `file` is cached: `<cache_root>/ocr/<key>.json`.
pub fn ocr_cache_path(
    cache_root: &str,
    file: &str,
    opts: &OcrOptions,
    target: Option<(u32, u32)>,
    mtime_secs: u64,
    mtime_nanos: u32,
    size: u64,
) -> (p: String)
    ensures
        p@ == join_spec(
            join_spec(cache_root@, "ocr"@),
            hex_lower(
                blake3_hash(
                    cache_key_input(
                        file@,
                        opts.lang@,
                        match opts.tessdata_dir {
                            Some(d) => Some(d@),
                            None => None,
                        },
                        target,
                        mtime_secs,
                        mtime_nanos,
                        size,
                    ),
                ),
            ) + ".json"@,
        ),
{
    let key = ocr_cache_key(file, opts, target, mtime_secs, mtime_nanos, size);
    let dir = join_path(cache_root, "ocr");
    let mut name = chars_of(key.as_str());
    let ext = chars_of(".json");
    push_all(&mut name, ext.as_slice());
    let name_s = string_of(name.as_slice());
    join_path(dir.as_str(), name_s.as_str())
}

} // verus!
