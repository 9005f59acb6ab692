//! Text extraction from file contents: plain text (UTF-8, or UTF-16 with a
//! byte-order mark), RTF, HTML and XML, PDF literals and UTF-8 runs, and the
//! XML parts of Office (OOXML) archives.  Reading the files is left to the
//! caller; everything here works on the bytes.

use vstd::prelude::*;
use vstd::utf8::{decode_utf8, valid_utf8};
use crate::path::{path_extension, path_extension_exec};
use crate::text::{
    chars_eq, chars_of, is_control, is_white, is_white_exec, lower_ascii, lower_ascii_vec,
    string_of, trim, trim_exec,
};

verus! {

// ---------------------------------------------------------------------------
// Types
// ---------------------------------------------------------------------------

/// Types whose bodies are extracted.
pub open spec fn extractable_exts() -> Seq<Seq<char>> {
    seq![
        "txt"@, "md"@, "html"@, "htm"@, "xml"@, "pdf"@, "docx"@, "xlsx"@, "pptx"@, "csv"@,
        "json"@, "log"@, "ini"@, "cfg"@, "toml"@, "yaml"@, "yml"@, "rs"@, "py"@, "js"@, "ts"@,
        "tsx"@, "jsx"@, "go"@, "java"@, "kt"@, "c"@, "h"@, "cpp"@, "cs"@, "rb"@, "php"@, "sh"@,
        "ps1"@, "rtf"@, "svg"@,
    ]
}

/// The lowercase extension of a path.
pub open spec fn ext_of_spec(path: Seq<char>) -> Option<Seq<char>> {
    match path_extension(path) {
        Some(e) => Some(lower_ascii(e)),
        None => None,
    }
}

pub fn ext_of(path: &str) -> (r: Option<String>)
    ensures
        match r {
            Some(e) => ext_of_spec(path@) == Some(e@),
            None => ext_of_spec(path@) is None,
        },
{
    match path_extension_exec(&chars_of(path)) {
        Some(e) => Some(string_of(&lower_ascii_vec(&e))),
        None => None,
    }
}

pub open spec fn is_extractable_spec(path: Seq<char>) -> bool {
    match ext_of_spec(path) {
        Some(e) => extractable_exts().contains(e),
        None => false,
    }
}

fn list_contains(list: &[&str], e: &Vec<char>) -> (r: bool)
    ensures
        r == list@.map_values(|s: &str| s@).contains(e@),
{
    let ghost lv = list@.map_values(|s: &str| s@);
    let mut i: usize = 0;
    while i < list.len()
        invariant
            i <= list.len(),
            lv == list@.map_values(|s: &str| s@),
            forall|k: int| 0 <= k < i ==> #[trigger] lv[k] != e@,
        decreases list.len() - i,
    {
        assert(lv[i as int] == list@[i as int]@);
        if chars_eq(&chars_of(list[i]), e) {
            return true;
        }
        i += 1;
    }
    false
}

pub fn is_extractable(path: &str) -> (r: bool)
    ensures
        r == is_extractable_spec(path@),
{
    match path_extension_exec(&chars_of(path)) {
        Some(e) => {
            let l = lower_ascii_vec(&e);
            let list = [
                "txt", "md", "html", "htm", "xml", "pdf", "docx", "xlsx", "pptx", "csv", "json",
                "log", "ini", "cfg", "toml", "yaml", "yml", "rs", "py", "js", "ts", "tsx", "jsx",
                "go", "java", "kt", "c", "h", "cpp", "cs", "rb", "php", "sh", "ps1", "rtf", "svg",
            ];
            let r = list_contains(&list, &l);
            assert(list@.map_values(|s: &str| s@) =~= extractable_exts());
            r
        },
        None => false,
    }
}

// ---------------------------------------------------------------------------
// Decoding plain text
// ---------------------------------------------------------------------------

/// `String::from_utf8`: the text when the bytes are valid UTF-8.
#[verifier::external_body]
fn string_from_utf8(bytes: Vec<u8>) -> (r: Option<String>)
    ensures
        match r {
            Some(s) => valid_utf8(bytes@) && s@ == decode_utf8(bytes@),
            None => !valid_utf8(bytes@),
        },
{
    String::from_utf8(bytes).ok()
}

/// UTF-16 decoding that replaces each unpaired surrogate with U+FFFD.
pub open spec fn utf16_lossy(u: Seq<u16>) -> Seq<char>
    decreases u.len(),
{
    if u.len() == 0 {
        Seq::empty()
    } else if 0xD800 <= u[0] <= 0xDBFF && u.len() >= 2 && 0xDC00 <= u[1] <= 0xDFFF {
        seq![(0x10000 + (u[0] - 0xD800) * 0x400 + (u[1] - 0xDC00)) as char] + utf16_lossy(
            u.skip(2),
        )
    } else if 0xD800 <= u[0] <= 0xDFFF {
        seq!['\u{FFFD}'] + utf16_lossy(u.skip(1))
    } else {
        seq![u[0] as char] + utf16_lossy(u.skip(1))
    }
}

/// `String::from_utf16_lossy`: surrogate pairs are combined, and each
/// unpaired surrogate becomes U+FFFD.
#[verifier::external_body]
pub(crate) fn string_from_utf16_lossy(units: &Vec<u16>) -> (r: String)
    ensures
        r@ == utf16_lossy(units@),
{
    String::from_utf16_lossy(units)
}

pub open spec fn has_utf8_bom(b: Seq<u8>) -> bool {
    b.len() >= 3 && b[0] == 0xEF && b[1] == 0xBB && b[2] == 0xBF
}

/// The bytes without a leading UTF-8 byte-order mark.
pub open spec fn skip_utf8_bom_spec(b: Seq<u8>) -> Seq<u8> {
    if has_utf8_bom(b) {
        b.skip(3)
    } else {
        b
    }
}

fn copy_bytes(b: &[u8], from: usize) -> (r: Vec<u8>)
    requires
        from <= b@.len(),
    ensures
        r@ == b@.skip(from as int),
{
    let mut r: Vec<u8> = Vec::new();
    let mut i = from;
    while i < b.len()
        invariant
            from <= i <= b@.len(),
            r@ == b@.subrange(from as int, i as int),
        decreases b.len() - i,
    {
        r.push(b[i]);
        i += 1;
        assert(r@ =~= b@.subrange(from as int, i as int));
    }
    assert(b@.subrange(from as int, i as int) =~= b@.skip(from as int));
    r
}

pub fn skip_utf8_bom(bytes: &[u8]) -> (r: Vec<u8>)
    ensures
        r@ == skip_utf8_bom_spec(bytes@),
{
    if bytes.len() >= 3 && bytes[0] == 0xEF && bytes[1] == 0xBB && bytes[2] == 0xBF {
        copy_bytes(bytes, 3)
    } else {
        let r = copy_bytes(bytes, 0);
        assert(bytes@.skip(0) =~= bytes@);
        r
    }
}

/// 16-bit units of the bytes after the first two, in pairs (a trailing odd
/// byte is dropped), little- or big-endian.
pub open spec fn utf16_units(b: Seq<u8>, little: bool) -> Seq<u16> {
    Seq::new(
        ((b.len() - 2) / 2) as nat,
        |k: int|
            {
                let lo = b[2 + 2 * k];
                let hi = b[3 + 2 * k];
                if little {
                    (hi as int * 256 + lo as int) as u16
                } else {
                    (lo as int * 256 + hi as int) as u16
                }
            },
    )
}

fn utf16_units_exec(b: &[u8], little: bool) -> (r: Vec<u16>)
    requires
        b@.len() >= 2,
    ensures
        r@ == utf16_units(b@, little),
{
    let n = (b.len() - 2) / 2;
    let mut r: Vec<u16> = Vec::new();
    let mut k: usize = 0;
    while k < n
        invariant
            k <= n,
            n == (b@.len() - 2) / 2,
            r.len() == k,
            forall|j: int| 0 <= j < k ==> #[trigger] r@[j] == utf16_units(b@, little)[j],
        decreases n - k,
    {
        assert(b.len() == b@.len());
        assert(3 + 2 * k < b@.len() + 1) by (nonlinear_arith)
            requires
                k < n,
                n == (b@.len() - 2) / 2,
                b@.len() >= 2,
        ;
        let lo = b[2 + 2 * k] as u16;
        let hi = b[3 + 2 * k] as u16;
        let u: u16 = if little {
            hi * 256 + lo
        } else {
            lo * 256 + hi
        };
        r.push(u);
        k += 1;
    }
    assert(r@ =~= utf16_units(b@, little));
    r
}

/// Why a body could not be extracted.
#[derive(Debug, Clone, PartialEq, Eq)]
pub enum ExtractError {
    /// Text that should be UTF-8 is not.
    InvalidUtf8,
    /// The archive could not be read.
    BadArchive,
    /// A wanted part of the archive could not be read.
    UnreadablePart,
    /// No extractor for this extension.
    Unsupported(String),
}

/// Plain text: UTF-16 after a byte-order mark (`FF FE` little-endian, `FE FF`
/// big-endian), else UTF-8 without a leading UTF-8 byte-order mark.
pub open spec fn plain_text_of(b: Seq<u8>) -> Option<Seq<char>> {
    if b.len() >= 2 && b[0] == 0xFF && b[1] == 0xFE {
        Some(utf16_lossy(utf16_units(b, true)))
    } else if b.len() >= 2 && b[0] == 0xFE && b[1] == 0xFF {
        Some(utf16_lossy(utf16_units(b, false)))
    } else if valid_utf8(skip_utf8_bom_spec(b)) {
        Some(decode_utf8(skip_utf8_bom_spec(b)))
    } else {
        None
    }
}

pub fn decode_plain_bytes(bytes: &[u8]) -> (r: Result<String, ExtractError>)
    ensures
        match r {
            Ok(s) => plain_text_of(bytes@) == Some(s@),
            Err(e) => plain_text_of(bytes@) is None && e == ExtractError::InvalidUtf8,
        },
{
    if bytes.len() >= 2 && bytes[0] == 0xFF && bytes[1] == 0xFE {
        return Ok(string_from_utf16_lossy(&utf16_units_exec(bytes, true)));
    }
    if bytes.len() >= 2 && bytes[0] == 0xFE && bytes[1] == 0xFF {
        return Ok(string_from_utf16_lossy(&utf16_units_exec(bytes, false)));
    }
    match string_from_utf8(skip_utf8_bom(bytes)) {
        Some(s) => Ok(s),
        None => Err(ExtractError::InvalidUtf8),
    }
}

// ---------------------------------------------------------------------------
// Whitespace
// ---------------------------------------------------------------------------

pub open spec fn collapse_state(s: Seq<char>) -> (Seq<char>, bool)
    decreases s.len(),
{
    if s.len() == 0 {
        (Seq::empty(), false)
    } else {
        let (out, prev) = collapse_state(s.drop_last());
        let c = s.last();
        if is_white(c) {
            if prev {
                (out, true)
            } else {
                (out.push(' '), true)
            }
        } else {
            (out.push(c), false)
        }
    }
}

/// Runs of whitespace become one space, and the ends are trimmed.
pub open spec fn collapse_ws_spec(s: Seq<char>) -> Seq<char> {
    trim(collapse_state(s).0)
}

pub fn collapse_ws(s: &Vec<char>) -> (r: Vec<char>)
    ensures
        r@ == collapse_ws_spec(s@),
{
    let mut out: Vec<char> = Vec::new();
    let mut prev = false;
    let mut i: usize = 0;
    while i < s.len()
        invariant
            i <= s.len(),
            collapse_state(s@.take(i as int)) == (out@, prev),
        decreases s.len() - i,
    {
        assert(s@.take(i + 1).drop_last() =~= s@.take(i as int));
        let c = s[i];
        if is_white_exec(c) {
            if !prev {
                out.push(' ');
                prev = true;
            }
        } else {
            prev = false;
            out.push(c);
        }
        i += 1;
    }
    assert(s@.take(i as int) =~= s@);
    trim_exec(&out)
}

// ---------------------------------------------------------------------------
// RTF
// ---------------------------------------------------------------------------

pub open spec fn is_ascii_alpha(c: char) -> bool {
    ('a' <= c && c <= 'z') || ('A' <= c && c <= 'Z')
}

/// The first index at or after `j` that is not an ASCII letter.
pub open spec fn skip_alpha(s: Seq<char>, j: int) -> int
    decreases s.len() - j,
{
    if j < 0 || j >= s.len() || !is_ascii_alpha(s[j]) {
        j
    } else {
        skip_alpha(s, j + 1)
    }
}

proof fn lemma_skip_alpha(s: Seq<char>, j: int)
    requires
        0 <= j,
    ensures
        j <= skip_alpha(s, j),
        j <= s.len() ==> skip_alpha(s, j) <= s.len(),
    decreases s.len() - j,
{
    if j < s.len() && is_ascii_alpha(s[j]) {
        lemma_skip_alpha(s, j + 1);
    }
}

/// The first index at or after `j` that is not an ASCII digit.
pub open spec fn skip_digits(s: Seq<char>, j: int) -> int
    decreases s.len() - j,
{
    if j < 0 || j >= s.len() || !('0' <= s[j] && s[j] <= '9') {
        j
    } else {
        skip_digits(s, j + 1)
    }
}

proof fn lemma_skip_digits(s: Seq<char>, j: int)
    requires
        0 <= j,
    ensures
        j <= skip_digits(s, j),
        j <= s.len() ==> skip_digits(s, j) <= s.len(),
    decreases s.len() - j,
{
    if j < s.len() && '0' <= s[j] && s[j] <= '9' {
        lemma_skip_digits(s, j + 1);
    }
}

/// The end of a control word's numeric parameter starting at `j`: an
/// optional `-` followed by digits, then the digits.
pub open spec fn skip_param(s: Seq<char>, j: int) -> int {
    if 0 <= j && j + 1 < s.len() && s[j] == '-' && '0' <= s[j + 1] && s[j + 1] <= '9' {
        skip_digits(s, j + 1)
    } else {
        skip_digits(s, j)
    }
}

/// Where a control word that starts with the backslash at `i` ends: its
/// ASCII letters, then (when there are letters) its numeric parameter.
pub open spec fn control_word_end(s: Seq<char>, i: int) -> int {
    let j = skip_alpha(s, i + 1);
    if j > i + 1 {
        skip_param(s, j)
    } else {
        j
    }
}

/// The visible text of RTF from character `i` on: braces dropped, `\\` is a
/// backslash, other control words (a backslash, ASCII letters, an optional
/// numeric parameter with its sign, and one optional delimiting space)
/// dropped.
pub open spec fn rtf_from(s: Seq<char>, i: int) -> Seq<char>
    decreases s.len() - i,
{
    if i < 0 || i >= s.len() {
        Seq::empty()
    } else {
        let c = s[i];
        if c == '{' || c == '}' {
            rtf_from(s, i + 1)
        } else if c == '\\' {
            if i + 1 < s.len() && s[i + 1] == '\\' {
                seq!['\\'] + rtf_from(s, i + 2)
            } else {
                let j = control_word_end(s, i);
                let j2 = if 0 <= j < s.len() && s[j] == ' ' {
                    j + 1
                } else {
                    j
                };
                if i < j2 <= s.len() {
                    rtf_from(s, j2)
                } else {
                    Seq::empty()
                }
            }
        } else {
            seq![c] + rtf_from(s, i + 1)
        }
    }
}

/// The visible text of a small RTF document, with whitespace collapsed.
pub open spec fn rtf_text(s: Seq<char>) -> Seq<char> {
    collapse_ws_spec(rtf_from(s, 0))
}

pub fn extract_rtf(rtf: &str) -> (r: String)
    ensures
        r@ == rtf_text(rtf@),
{
    let s = chars_of(rtf);
    let mut out: Vec<char> = Vec::new();
    let mut i: usize = 0;
    assert(out@ + rtf_from(s@, 0) =~= rtf_from(s@, 0));
    while i < s.len()
        invariant
            i <= s.len(),
            out@ + rtf_from(s@, i as int) == rtf_from(s@, 0),
        decreases s.len() - i,
    {
        let c = s[i];
        let ghost before = out@;
        if c == '{' || c == '}' {
            i += 1;
        } else if c == '\\' {
            if i + 1 < s.len() && s[i + 1] == '\\' {
                out.push('\\');
                assert(before + rtf_from(s@, i as int) =~= out@ + rtf_from(s@, i + 2));
                i += 2;
            } else {
                let mut j = i + 1;
                proof {
                    lemma_skip_alpha(s@, i + 1);
                }
                while j < s.len() && (('a' <= s[j] && s[j] <= 'z') || ('A' <= s[j] && s[j] <= 'Z'))
                    invariant
                        i + 1 <= j <= s.len(),
                        skip_alpha(s@, i + 1) == skip_alpha(s@, j as int),
                    decreases s.len() - j,
                {
                    j += 1;
                }
                if j > i + 1 {
                    if j < s.len() - 1 && s[j] == '-' && '0' <= s[j + 1] && s[j + 1] <= '9' {
                        j += 1;
                    }
                    let ghost j0 = j;
                    proof {
                        lemma_skip_digits(s@, j as int);
                    }
                    while j < s.len() && '0' <= s[j] && s[j] <= '9'
                        invariant
                            j0 <= j <= s.len(),
                            skip_digits(s@, j0 as int) == skip_digits(s@, j as int),
                        decreases s.len() - j,
                    {
                        j += 1;
                    }
                    assert(j == control_word_end(s@, i as int));
                }
                if j < s.len() && s[j] == ' ' {
                    j += 1;
                }
                assert(before + rtf_from(s@, i as int) =~= out@ + rtf_from(s@, j as int));
                i = j;
            }
        } else {
            out.push(c);
            assert(before + rtf_from(s@, i as int) =~= out@ + rtf_from(s@, i + 1));
            i += 1;
        }
    }
    assert(rtf_from(s@, i as int) =~= Seq::<char>::empty());
    assert(out@ =~= rtf_from(s@, 0));
    string_of(&collapse_ws(&out))
}


// ---------------------------------------------------------------------------
// HTML and XML
// ---------------------------------------------------------------------------

/// The value of a digit in a radix up to 36 (`None` when it is not one).
pub open spec fn digit_in(c: char, radix: u32) -> Option<u32> {
    let v: int = if '0' <= c && c <= '9' {
        c as int - '0' as int
    } else if 'a' <= c && c <= 'z' {
        c as int - 'a' as int + 10
    } else if 'A' <= c && c <= 'Z' {
        c as int - 'A' as int + 10
    } else {
        100
    };
    if v < radix {
        Some(v as u32)
    } else {
        None
    }
}

pub open spec fn all_digits_in(s: Seq<char>, radix: u32) -> bool {
    forall|i: int| 0 <= i < s.len() ==> (#[trigger] digit_in(s[i], radix)) is Some
}

pub open spec fn radix_value(s: Seq<char>, radix: u32) -> int
    decreases s.len(),
{
    if s.len() == 0 {
        0
    } else {
        radix_value(s.drop_last(), radix) * radix + (digit_in(s.last(), radix)->0) as int
    }
}

/// `u32::from_str_radix`: an optional `+`, then one or more digits, with a
/// value that fits in 32 bits.
pub open spec fn parse_radix_u32(s: Seq<char>, radix: u32) -> Option<u32> {
    let d = if s.len() > 0 && s[0] == '+' {
        s.drop_first()
    } else {
        s
    };
    if d.len() > 0 && all_digits_in(d, radix) && radix_value(d, radix) <= u32::MAX {
        Some(radix_value(d, radix) as u32)
    } else {
        None
    }
}

proof fn lemma_radix_value_nonneg(s: Seq<char>, radix: u32)
    requires
        all_digits_in(s, radix),
    ensures
        radix_value(s, radix) >= 0,
    decreases s.len(),
{
    if s.len() > 0 {
        assert(all_digits_in(s.drop_last(), radix)) by {
            assert forall|i: int| 0 <= i < s.drop_last().len() implies (#[trigger] digit_in(s.drop_last()[i], radix)) is Some by {
                assert(s.drop_last()[i] == s[i]);
            }
        }
        lemma_radix_value_nonneg(s.drop_last(), radix);
        let v = radix_value(s.drop_last(), radix);
        assert(v * radix >= 0) by (nonlinear_arith)
            requires
                v >= 0,
        ;
    }
}

proof fn lemma_radix_value_mono(p: Seq<char>, s: Seq<char>, radix: u32)
    requires
        all_digits_in(s, radix),
        radix >= 1,
        p.len() <= s.len(),
        s.take(p.len() as int) == p,
    ensures
        radix_value(p, radix) <= radix_value(s, radix),
    decreases s.len(),
{
    if p.len() < s.len() {
        assert(s.drop_last().take(p.len() as int) =~= p);
        assert(all_digits_in(s.drop_last(), radix)) by {
            assert forall|i: int| 0 <= i < s.drop_last().len() implies (#[trigger] digit_in(s.drop_last()[i], radix)) is Some by {
                assert(s.drop_last()[i] == s[i]);
            }
        }
        lemma_radix_value_mono(p, s.drop_last(), radix);
        lemma_radix_value_nonneg(s.drop_last(), radix);
        let v = radix_value(s.drop_last(), radix);
        assert(digit_in(s[s.len() - 1], radix) is Some);
        assert(v * radix >= v) by (nonlinear_arith)
            requires
                v >= 0,
                radix >= 1,
        ;
    } else {
        assert(s =~= p);
    }
}

fn digit_in_exec(c: char, radix: u32) -> (r: Option<u32>)
    requires
        radix <= 36,
    ensures
        r == digit_in(c, radix),
{
    let v: u32 = if '0' <= c && c <= '9' {
        (c as u32) - ('0' as u32)
    } else if 'a' <= c && c <= 'z' {
        (c as u32) - ('a' as u32) + 10
    } else if 'A' <= c && c <= 'Z' {
        (c as u32) - ('A' as u32) + 10
    } else {
        100
    };
    if v < radix {
        Some(v)
    } else {
        None
    }
}

pub fn parse_radix_u32_exec(s: &Vec<char>, radix: u32) -> (r: Option<u32>)
    requires
        2 <= radix <= 36,
    ensures
        r == parse_radix_u32(s@, radix),
{
    let start: usize = if s.len() > 0 && s[0] == '+' {
        1
    } else {
        0
    };
    let ghost d = if s@.len() > 0 && s@[0] == '+' {
        s@.drop_first()
    } else {
        s@
    };
    assert(d =~= s@.skip(start as int));
    if start >= s.len() {
        return None;
    }
    let mut v: u64 = 0;
    let mut i = start;
    while i < s.len()
        invariant
            start <= i <= s.len(),
            2 <= radix <= 36,
            d == s@.skip(start as int),
            d == (if s@.len() > 0 && s@[0] == '+' {
                s@.drop_first()
            } else {
                s@
            }),
            all_digits_in(s@.subrange(start as int, i as int), radix),
            v as int == radix_value(s@.subrange(start as int, i as int), radix),
            v <= u32::MAX,
        decreases s.len() - i,
    {
        let ghost pre = s@.subrange(start as int, i as int);
        let ghost pre1 = s@.subrange(start as int, i + 1);
        assert(pre1.drop_last() =~= pre);
        let dv = match digit_in_exec(s[i], radix) {
            Some(x) => x,
            None => {
                assert(d[i - start] == s@[i as int]);
                assert(digit_in(d[i - start], radix) is None);
                assert(!all_digits_in(d, radix));
                return None;
            },
        };
        assert(all_digits_in(pre1, radix)) by {
            assert forall|k: int| 0 <= k < pre1.len() implies (#[trigger] digit_in(pre1[k], radix)) is Some by {
                if k < pre.len() {
                    assert(pre1[k] == pre[k]);
                }
            }
        }
        assert(v * (radix as u64) <= 36 * 0xFFFF_FFFFu64) by (nonlinear_arith)
            requires
                v <= 0xFFFF_FFFFu64,
                radix <= 36,
        ;
        let nv: u64 = v * (radix as u64) + (dv as u64);
        if nv > u32::MAX as u64 {
            proof {
                if all_digits_in(d, radix) {
                    assert(d.take(pre1.len() as int) =~= pre1);
                    lemma_radix_value_mono(pre1, d, radix);
                }
            }
            return None;
        }
        v = nv;
        i += 1;
    }
    assert(s@.subrange(start as int, s.len() as int) =~= d);
    Some(v as u32)
}

/// A Unicode scalar value.
pub open spec fn is_scalar(cp: u32) -> bool {
    cp <= 0xD7FF || (0xE000 <= cp && cp <= 0x10FFFF)
}

/// `char::from_u32`: the character when `cp` is a Unicode scalar value.
#[verifier::external_body]
fn char_from_u32(cp: u32) -> (r: Option<char>)
    ensures
        is_scalar(cp) ==> r == Some(cp as char),
        !is_scalar(cp) ==> r is None,
{
    char::from_u32(cp)
}

/// `&name;` references: the five XML ones, `nbsp`, and numeric ones
/// (`#NNN`, `#xHH`); anything else is dropped.
pub open spec fn decode_entity_spec(e: Seq<char>) -> Seq<char> {
    if e == "amp"@ {
        seq!['&']
    } else if e == "lt"@ {
        seq!['<']
    } else if e == "gt"@ {
        seq!['>']
    } else if e == "quot"@ {
        seq!['"']
    } else if e == "apos"@ {
        seq!['\'']
    } else if e == "nbsp"@ {
        seq![' ']
    } else {
        let num = if e.len() >= 2 && e[0] == '#' && (e[1] == 'x' || e[1] == 'X') {
            parse_radix_u32(e.skip(2), 16)
        } else if e.len() >= 1 && e[0] == '#' {
            parse_radix_u32(e.skip(1), 10)
        } else {
            None
        };
        match num {
            Some(cp) => if is_scalar(cp) {
                seq![cp as char]
            } else {
                Seq::empty()
            },
            None => Seq::empty(),
        }
    }
}

pub fn decode_entity(e: &Vec<char>) -> (r: Vec<char>)
    ensures
        r@ == decode_entity_spec(e@),
{
    if chars_eq(e, &chars_of("amp")) {
        return vec!['&'];
    } else if chars_eq(e, &chars_of("lt")) {
        return vec!['<'];
    } else if chars_eq(e, &chars_of("gt")) {
        return vec!['>'];
    } else if chars_eq(e, &chars_of("quot")) {
        return vec!['"'];
    } else if chars_eq(e, &chars_of("apos")) {
        return vec!['\''];
    } else if chars_eq(e, &chars_of("nbsp")) {
        return vec![' '];
    }
    let num = if e.len() >= 2 && e[0] == '#' && (e[1] == 'x' || e[1] == 'X') {
        let rest = crate::text::slice_chars(e, 2, e.len());
        assert(rest@ =~= e@.skip(2));
        parse_radix_u32_exec(&rest, 16)
    } else if e.len() >= 1 && e[0] == '#' {
        let rest = crate::text::slice_chars(e, 1, e.len());
        assert(rest@ =~= e@.skip(1));
        parse_radix_u32_exec(&rest, 10)
    } else {
        None
    };
    match num {
        Some(cp) => match char_from_u32(cp) {
            Some(c) => vec![c],
            None => Vec::new(),
        },
        None => Vec::new(),
    }
}

/// Reading XML left to right: the text so far, inside a tag, inside an
/// entity, and the entity's name so far.
pub open spec fn xml_state(s: Seq<char>) -> (Seq<char>, bool, bool, Seq<char>)
    decreases s.len(),
{
    if s.len() == 0 {
        (Seq::empty(), false, false, Seq::empty())
    } else {
        let (out, t, e, ent) = xml_state(s.drop_last());
        let c = s.last();
        if c == '<' {
            (
                if out.len() > 0 && out.last() == ' ' {
                    out
                } else {
                    out.push(' ')
                },
                true,
                e,
                ent,
            )
        } else if c == '>' {
            (out, false, e, ent)
        } else if c == '&' && !t {
            (out, t, true, Seq::empty())
        } else if c == ';' && e {
            (out + decode_entity_spec(ent), t, false, ent)
        } else if e {
            (out, t, e, ent.push(c))
        } else if !t {
            (out.push(c), t, e, ent)
        } else {
            (out, t, e, ent)
        }
    }
}

/// The text of XML or HTML: tags become spaces, entities are decoded, and
/// whitespace is collapsed.
pub open spec fn xml_text(s: Seq<char>) -> Seq<char> {
    collapse_ws_spec(xml_state(s).0)
}

pub fn xml_to_text_chars(x: &Vec<char>) -> (r: Vec<char>)
    ensures
        r@ == xml_text(x@),
{
    let mut out: Vec<char> = Vec::new();
    let mut in_tag = false;
    let mut in_entity = false;
    let mut entity: Vec<char> = Vec::new();
    let mut i: usize = 0;
    while i < x.len()
        invariant
            i <= x.len(),
            xml_state(x@.take(i as int)) == (out@, in_tag, in_entity, entity@),
        decreases x.len() - i,
    {
        assert(x@.take(i + 1).drop_last() =~= x@.take(i as int));
        let c = x[i];
        if c == '<' {
            in_tag = true;
            if !(out.len() > 0 && out[out.len() - 1] == ' ') {
                out.push(' ');
            }
        } else if c == '>' {
            in_tag = false;
        } else if c == '&' && !in_tag {
            in_entity = true;
            entity = Vec::new();
        } else if c == ';' && in_entity {
            let d = decode_entity(&entity);
            let ghost before = out@;
            let mut j: usize = 0;
            while j < d.len()
                invariant
                    j <= d.len(),
                    out@ == before + d@.take(j as int),
                decreases d.len() - j,
            {
                out.push(d[j]);
                j += 1;
                assert(out@ =~= before + d@.take(j as int));
            }
            assert(d@.take(j as int) =~= d@);
            in_entity = false;
        } else if in_entity {
            entity.push(c);
        } else if !in_tag {
            out.push(c);
        }
        i += 1;
    }
    assert(x@.take(i as int) =~= x@);
    collapse_ws(&out)
}

pub fn xml_to_text(xml: &str) -> (r: String)
    ensures
        r@ == xml_text(xml@),
{
    string_of(&xml_to_text_chars(&chars_of(xml)))
}

/// HTML is read as XML.
pub fn strip_html(html: &str) -> (r: String)
    ensures
        r@ == xml_text(html@),
{
    xml_to_text(html)
}


// ---------------------------------------------------------------------------
// PDF
// ---------------------------------------------------------------------------

/// The body of a PDF literal string from byte `i` to the closing `)`: a
/// backslash takes the next byte literally; each byte is read as Latin-1.
/// Also gives the index of the `)` (or the end).
pub open spec fn lit_body(b: Seq<u8>, i: int) -> (Seq<char>, int)
    decreases b.len() + 1 - i,
{
    if i < 0 || i >= b.len() || b[i] == 0x29 {
        (Seq::empty(), i)
    } else if b[i] == 0x5C && i + 1 < b.len() {
        let (s, j) = lit_body(b, i + 2);
        (seq![b[i + 1] as char] + s, j)
    } else {
        let (s, j) = lit_body(b, i + 1);
        (seq![b[i] as char] + s, j)
    }
}

proof fn lemma_lit_body(b: Seq<u8>, i: int)
    requires
        0 <= i <= b.len(),
    ensures
        i <= lit_body(b, i).1 <= b.len(),
    decreases b.len() + 1 - i,
{
    if i < b.len() && b[i] != 0x29 {
        if b[i] == 0x5C && i + 1 < b.len() {
            lemma_lit_body(b, i + 2);
        } else {
            lemma_lit_body(b, i + 1);
        }
    }
}

/// The literal strings `( ... )` of a PDF from byte `i` on, each after a
/// space.
pub open spec fn pdf_lits(b: Seq<u8>, i: int) -> Seq<char>
    decreases b.len() + 1 - i,
{
    if i < 0 || i >= b.len() {
        Seq::empty()
    } else if b[i] == 0x28 {
        let (s, j) = lit_body(b, i + 1);
        if i < j <= b.len() {
            seq![' '] + s + pdf_lits(b, j + 1)
        } else {
            Seq::empty()
        }
    } else {
        pdf_lits(b, i + 1)
    }
}

/// What `String::from_utf8_lossy` gives for the bytes.
pub uninterp spec fn utf8_lossy(b: Seq<u8>) -> Seq<char>;

/// `String::from_utf8_lossy`: the result is named by `utf8_lossy`; on valid
/// UTF-8 it is the decoded text.
#[verifier::external_body]
fn string_from_utf8_lossy(bytes: &[u8]) -> (r: String)
    ensures
        r@ == utf8_lossy(bytes@),
        valid_utf8(bytes@) ==> r@ == decode_utf8(bytes@),
{
    String::from_utf8_lossy(bytes).into_owned()
}

pub open spec fn is_hangul(c: char) -> bool {
    ('\u{AC00}' <= c && c <= '\u{D7A3}') || ('\u{1100}' <= c && c <= '\u{11FF}') || ('\u{3130}' <= c
        && c <= '\u{318F}')
}

/// Characters kept from the UTF-8 reading of a PDF: printable ASCII,
/// whitespace, Hangul and other non-ASCII, but no replacement or control
/// characters.
pub open spec fn pdf_keep(c: char) -> bool {
    c != '\u{FFFD}' && !is_control(c) && (('!' <= c && c <= '~') || is_white(c) || is_hangul(c)
        || c > '\u{7f}')
}

pub open spec fn keep_run(s: Seq<char>) -> Seq<char>
    decreases s.len(),
{
    if s.len() == 0 {
        Seq::empty()
    } else if pdf_keep(s.last()) {
        keep_run(s.drop_last()).push(s.last())
    } else {
        keep_run(s.drop_last())
    }
}

/// The text of a PDF: its literal strings, then the printable characters
/// of its UTF-8 reading, with whitespace collapsed.
pub open spec fn pdf_text(b: Seq<u8>) -> Seq<char> {
    collapse_ws_spec(pdf_lits(b, 0) + seq![' '] + keep_run(utf8_lossy(b)))
}

fn utf8_runs(bytes: &[u8]) -> (r: Vec<char>)
    ensures
        r@ == keep_run(utf8_lossy(bytes@)),
{
    let text = chars_of(string_from_utf8_lossy(bytes).as_str());
    let mut out: Vec<char> = Vec::new();
    let mut i: usize = 0;
    while i < text.len()
        invariant
            i <= text.len(),
            out@ == keep_run(text@.take(i as int)),
        decreases text.len() - i,
    {
        assert(text@.take(i + 1).drop_last() =~= text@.take(i as int));
        let c = text[i];
        let hangul = ('\u{AC00}' <= c && c <= '\u{D7A3}') || ('\u{1100}' <= c && c <= '\u{11FF}') || (
        '\u{3130}' <= c && c <= '\u{318F}');
        let control = c <= '\u{1f}' || ('\u{7f}' <= c && c <= '\u{9f}');
        if c != '\u{FFFD}' && !control && (('!' <= c && c <= '~') || is_white_exec(c) || hangul
            || c > '\u{7f}') {
            out.push(c);
        }
        i += 1;
    }
    assert(text@.take(i as int) =~= text@);
    out
}

pub fn extract_pdf(bytes: &[u8]) -> (r: String)
    ensures
        r@ == pdf_text(bytes@),
{
    let ghost b = bytes@;
    let mut out: Vec<char> = Vec::new();
    let mut i: usize = 0;
    assert(out@ + pdf_lits(b, 0) =~= pdf_lits(b, 0));
    while i < bytes.len()
        invariant
            i <= bytes.len(),
            b == bytes@,
            bytes.len() == b.len(),
            out@ + pdf_lits(b, i as int) == pdf_lits(b, 0),
        decreases bytes.len() - i,
    {
        if bytes[i] == 0x28 {
            let ghost before = out@;
            proof {
                lemma_lit_body(b, i + 1);
            }
            let ghost (whole, stop) = lit_body(b, i + 1);
            let mut lit: Vec<char> = Vec::new();
            let mut j = i + 1;
            assert(lit@ + lit_body(b, j as int).0 =~= whole);
            while j < bytes.len() && bytes[j] != 0x29
                invariant
                    i + 1 <= j <= bytes.len(),
                    b == bytes@,
                    bytes.len() == b.len(),
                    lit@ + lit_body(b, j as int).0 == whole,
                    lit_body(b, j as int).1 == stop,
                decreases bytes.len() - j,
            {
                if bytes[j] == 0x5C && j + 1 < bytes.len() {
                    lit.push(bytes[j + 1] as char);
                    assert(lit@ + lit_body(b, j + 2).0 =~= whole);
                    j += 2;
                } else {
                    lit.push(bytes[j] as char);
                    assert(lit@ + lit_body(b, j + 1).0 =~= whole);
                    j += 1;
                }
            }
            assert(lit@ =~= whole);
            assert(j == stop);
            out.push(' ');
            let mut k: usize = 0;
            while k < lit.len()
                invariant
                    k <= lit.len(),
                    out@ == before.push(' ') + lit@.take(k as int),
                decreases lit.len() - k,
            {
                out.push(lit[k]);
                k += 1;
                assert(out@ =~= before.push(' ') + lit@.take(k as int));
            }
            assert(lit@.take(k as int) =~= lit@);
            assert(before + pdf_lits(b, i as int) =~= out@ + pdf_lits(b, j + 1));
            if j >= bytes.len() {
                assert(pdf_lits(b, j + 1) =~= Seq::<char>::empty());
                i = bytes.len();
                assert(pdf_lits(b, i as int) =~= Seq::<char>::empty());
            } else {
                i = j + 1;
            }
        } else {
            i += 1;
        }
    }
    assert(out@ =~= pdf_lits(b, 0));
    let runs = utf8_runs(bytes);
    out.push(' ');
    let ghost base = out@;
    let mut k: usize = 0;
    while k < runs.len()
        invariant
            k <= runs.len(),
            out@ == base + runs@.take(k as int),
        decreases runs.len() - k,
    {
        out.push(runs[k]);
        k += 1;
        assert(out@ =~= base + runs@.take(k as int));
    }
    assert(runs@.take(k as int) =~= runs@);
    string_of(&collapse_ws(&out))
}


// ---------------------------------------------------------------------------
// Office archives
// ---------------------------------------------------------------------------

#[verifier::external_type_specification]
#[verifier::external_body]
#[verifier::reject_recursive_types(T)]
pub struct ExCursor<T>(std::io::Cursor<T>);

#[verifier::external_type_specification]
#[verifier::external_body]
#[verifier::reject_recursive_types(R)]
pub struct ExZipArchive<R>(zip::ZipArchive<R>);

/// What a ZIP archive holds: `None` when the `zip` crate cannot open the
/// bytes as an archive; else, entry by entry, `None` when the entry cannot
/// be opened, or its name and its contents (`None` when reading them
/// fails).
pub uninterp spec fn zip_listing(bytes: Seq<u8>) -> Option<Seq<Option<(Seq<char>, Option<Seq<u8>>)>>>;

/// The bytes an opened archive was read from.
pub uninterp spec fn zip_source(a: zip::ZipArchive<std::io::Cursor<Vec<u8>>>) -> Seq<u8>;

/// `zip::ZipArchive::new` over the bytes: fails exactly when the listing
/// says the bytes are no archive.
#[verifier::external_body]
fn zip_open(bytes: &[u8]) -> (r: Option<zip::ZipArchive<std::io::Cursor<Vec<u8>>>>)
    ensures
        match r {
            Some(a) => zip_listing(bytes@) is Some && zip_source(a) == bytes@,
            None => zip_listing(bytes@) is None,
        },
{
    zip::ZipArchive::new(std::io::Cursor::new(bytes.to_vec())).ok()
}

/// `ZipArchive::len`: the number of entries.
#[verifier::external_body]
fn zip_len(a: &zip::ZipArchive<std::io::Cursor<Vec<u8>>>) -> (r: usize)
    requires
        zip_listing(zip_source(*a)) is Some,
    ensures
        r == zip_listing(zip_source(*a))->0.len(),
{
    a.len()
}

/// `ZipArchive::by_index`, then `ZipFile::name` and `Read::read_to_end`.
#[verifier::external_body]
fn zip_entry(a: &mut zip::ZipArchive<std::io::Cursor<Vec<u8>>>, i: usize) -> (r: Option<(String, Option<Vec<u8>>)>)
    requires
        zip_listing(zip_source(*old(a))) is Some,
        i < zip_listing(zip_source(*old(a)))->0.len(),
    ensures
        zip_source(*final(a)) == zip_source(*old(a)),
        match r {
            None => zip_listing(zip_source(*old(a)))->0[i as int] is None,
            Some((name, data)) => zip_listing(zip_source(*old(a)))->0[i as int] == Some(
                (
                    name@,
                    match data {
                        Some(d) => Some(d@),
                        None => None,
                    },
                ),
            ),
        },
{
    let mut f = a.by_index(i).ok()?;
    let name = f.name().to_owned();
    let mut buf: Vec<u8> = Vec::new();
    let data = std::io::Read::read_to_end(&mut f, &mut buf).ok().map(|_| buf);
    Some((name, data))
}

/// The Office formats with XML parts.
#[derive(Debug, Clone, Copy, PartialEq, Eq, Structural)]
pub enum OfficeKind {
    Docx,
    Xlsx,
    Pptx,
}

/// The parts of each format that hold the text.
pub open spec fn wanted_part(kind: OfficeKind, n: Seq<char>) -> bool {
    match kind {
        OfficeKind::Docx => n == "word/document.xml"@ || crate::text::ends_with(n, "/document.xml"@),
        OfficeKind::Xlsx => crate::text::contains_seq(n, "sharedStrings"@) || crate::text::contains_seq(
            n,
            "/worksheets/sheet"@,
        ),
        OfficeKind::Pptx => crate::text::contains_seq(n, "/slides/slide"@) && crate::text::ends_with(
            n,
            ".xml"@,
        ),
    }
}

/// A part name with `\` written as `/`.
pub open spec fn slash_name(n: Seq<char>) -> Seq<char> {
    n.map_values(|c: char| if c == '\\' { '/' } else { c })
}

/// The text of an archive's entries in order: the text of each wanted
/// part, after a space; the first entry that cannot be opened, and the
/// first wanted part that cannot be read or is not UTF-8, is an error.
pub open spec fn office_text(entries: Seq<Option<(Seq<char>, Option<Seq<u8>>)>>, kind: OfficeKind) -> Result<Seq<char>, ExtractError>
    decreases entries.len(),
{
    if entries.len() == 0 {
        Ok(Seq::empty())
    } else {
        match office_text(entries.drop_last(), kind) {
            Err(e) => Err(e),
            Ok(prev) => match entries.last() {
                None => Err(ExtractError::BadArchive),
                Some((name, data)) => if !wanted_part(kind, slash_name(name)) {
                    Ok(prev)
                } else {
                    match data {
                        None => Err(ExtractError::UnreadablePart),
                        Some(d) => if valid_utf8(d) {
                            Ok(prev.push(' ') + xml_text(decode_utf8(d)))
                        } else {
                            Err(ExtractError::InvalidUtf8)
                        },
                    }
                },
            },
        }
    }
}

/// The text of an Office archive given as bytes.
pub open spec fn office_bytes_text(bytes: Seq<u8>, kind: OfficeKind) -> Result<Seq<char>, ExtractError> {
    match zip_listing(bytes) {
        None => Err(ExtractError::BadArchive),
        Some(entries) => office_text(entries, kind),
    }
}

fn wanted_part_exec(kind: OfficeKind, n: &Vec<char>) -> (r: bool)
    ensures
        r == wanted_part(kind, n@),
{
    match kind {
        OfficeKind::Docx => chars_eq(n, &chars_of("word/document.xml")) || crate::text::ends_with_exec(
            n,
            &chars_of("/document.xml"),
        ),
        OfficeKind::Xlsx => crate::text::contains_exec(n, &chars_of("sharedStrings"))
            || crate::text::contains_exec(n, &chars_of("/worksheets/sheet")),
        OfficeKind::Pptx => crate::text::contains_exec(n, &chars_of("/slides/slide"))
            && crate::text::ends_with_exec(n, &chars_of(".xml")),
    }
}

fn slash_name_exec(n: &Vec<char>) -> (r: Vec<char>)
    ensures
        r@ == slash_name(n@),
{
    let mut r: Vec<char> = Vec::new();
    let mut i: usize = 0;
    while i < n.len()
        invariant
            i <= n.len(),
            r@ == n@.take(i as int).map_values(|c: char| if c == '\\' { '/' } else { c }),
        decreases n.len() - i,
    {
        let c = n[i];
        r.push(if c == '\\' { '/' } else { c });
        i += 1;
        assert(r@ =~= n@.take(i as int).map_values(|c: char| if c == '\\' { '/' } else { c }));
    }
    assert(n@.take(i as int) =~= n@);
    r
}

proof fn lemma_office_err_stays(entries: Seq<Option<(Seq<char>, Option<Seq<u8>>)>>, kind: OfficeKind, i: int)
    requires
        0 <= i <= entries.len(),
        office_text(entries.take(i), kind) is Err,
    ensures
        office_text(entries, kind) == office_text(entries.take(i), kind),
    decreases entries.len() - i,
{
    if i < entries.len() {
        assert(entries.take(i + 1).drop_last() =~= entries.take(i));
        lemma_office_err_stays(entries, kind, i + 1);
    } else {
        assert(entries.take(i) =~= entries);
    }
}

proof fn lemma_office_not_unsupported(entries: Seq<Option<(Seq<char>, Option<Seq<u8>>)>>, kind: OfficeKind)
    ensures
        !(office_text(entries, kind) matches Err(ExtractError::Unsupported(_))),
    decreases entries.len(),
{
    if entries.len() > 0 {
        lemma_office_not_unsupported(entries.drop_last(), kind);
    }
}

/// Extracts the text of an Office archive (`docx`, `xlsx`, `pptx`).
pub fn extract_office(bytes: &[u8], kind: OfficeKind) -> (r: Result<String, ExtractError>)
    ensures
        match r {
            Ok(s) => office_bytes_text(bytes@, kind) == Ok::<Seq<char>, ExtractError>(s@),
            Err(e) => office_bytes_text(bytes@, kind) == Err::<Seq<char>, ExtractError>(e)
                && !(e is Unsupported),
        },
{
    proof {
        if zip_listing(bytes@) is Some {
            lemma_office_not_unsupported(zip_listing(bytes@)->0, kind);
        }
    }
    let mut a = match zip_open(bytes) {
        Some(a) => a,
        None => return Err(ExtractError::BadArchive),
    };
    let ghost entries = zip_listing(bytes@)->0;
    let n = zip_len(&a);
    let mut out: Vec<char> = Vec::new();
    let mut i: usize = 0;
    assert(entries.take(0) =~= Seq::<Option<(Seq<char>, Option<Seq<u8>>)>>::empty());
    while i < n
        invariant
            i <= n,
            n == entries.len(),
            zip_listing(bytes@) == Some(entries),
            zip_source(a) == bytes@,
            office_text(entries.take(i as int), kind) == Ok::<Seq<char>, ExtractError>(out@),
        decreases n - i,
    {
        assert(entries.take(i + 1).drop_last() =~= entries.take(i as int));
        assert(entries.take(i + 1).last() == entries[i as int]);
        match zip_entry(&mut a, i) {
            None => {
                proof {
                    lemma_office_err_stays(entries, kind, i + 1);
                }
                return Err(ExtractError::BadArchive);
            },
            Some((name, data)) => {
                let nm = slash_name_exec(&chars_of(name.as_str()));
                if wanted_part_exec(kind, &nm) {
                    match data {
                        None => {
                            proof {
                                lemma_office_err_stays(entries, kind, i + 1);
                            }
                            return Err(ExtractError::UnreadablePart);
                        },
                        Some(d) => {
                            match string_from_utf8(d) {
                                None => {
                                    proof {
                                        lemma_office_err_stays(entries, kind, i + 1);
                                    }
                                    return Err(ExtractError::InvalidUtf8);
                                },
                                Some(text) => {
                                    let t = xml_to_text_chars(&chars_of(text.as_str()));
                                    out.push(' ');
                                    let ghost base = out@;
                                    let mut k: usize = 0;
                                    while k < t.len()
                                        invariant
                                            k <= t.len(),
                                            out@ == base + t@.take(k as int),
                                        decreases t.len() - k,
                                    {
                                        out.push(t[k]);
                                        k += 1;
                                        assert(out@ =~= base + t@.take(k as int));
                                    }
                                    assert(t@.take(k as int) =~= t@);
                                },
                            }
                        },
                    }
                }
            },
        }
        i += 1;
    }
    assert(entries.take(i as int) =~= entries);
    Ok(string_of(&out))
}

// ---------------------------------------------------------------------------
// By type
// ---------------------------------------------------------------------------

/// Types read as plain text.
pub open spec fn plain_exts() -> Seq<Seq<char>> {
    seq![
        "txt"@, "md"@, "csv"@, "json"@, "log"@, "ini"@, "cfg"@, "toml"@, "yaml"@, "yml"@, "rs"@,
        "py"@, "js"@, "ts"@, "tsx"@, "jsx"@, "go"@, "java"@, "kt"@, "c"@, "h"@, "cpp"@, "cs"@,
        "rb"@, "php"@, "sh"@, "ps1"@,
    ]
}

pub open spec fn utf8_then(b: Seq<u8>, f: spec_fn(Seq<char>) -> Seq<char>) -> Result<Seq<char>, ExtractError> {
    if valid_utf8(b) {
        Ok(f(decode_utf8(b)))
    } else {
        Err(ExtractError::InvalidUtf8)
    }
}

/// The text of a file with lowercase extension `ext` and contents `b`.
pub open spec fn text_of_file(ext: Seq<char>, b: Seq<u8>) -> Result<Seq<char>, ExtractError> {
    if plain_exts().contains(ext) {
        match plain_text_of(b) {
            Some(t) => Ok(t),
            None => Err(ExtractError::InvalidUtf8),
        }
    } else if ext == "html"@ || ext == "htm"@ || ext == "xml"@ || ext == "svg"@ {
        utf8_then(b, |t: Seq<char>| xml_text(t))
    } else if ext == "rtf"@ {
        utf8_then(b, |t: Seq<char>| rtf_text(t))
    } else if ext == "pdf"@ {
        Ok(pdf_text(b))
    } else if ext == "docx"@ {
        office_bytes_text(b, OfficeKind::Docx)
    } else if ext == "xlsx"@ {
        office_bytes_text(b, OfficeKind::Xlsx)
    } else if ext == "pptx"@ {
        office_bytes_text(b, OfficeKind::Pptx)
    } else {
        Err(ExtractError::InvalidUtf8)
    }
}

fn copy_slice(bytes: &[u8]) -> (r: Vec<u8>)
    ensures
        r@ == bytes@,
{
    let r = copy_bytes(bytes, 0);
    assert(bytes@.skip(0) =~= bytes@);
    r
}

/// Extracts the text of a file from its lowercase extension and contents.
/// An unknown extension is `Unsupported`.
pub fn extract_from_bytes(ext: &str, bytes: &[u8]) -> (r: Result<String, ExtractError>)
    ensures
        match r {
            Ok(s) => text_of_file(ext@, bytes@) == Ok::<Seq<char>, ExtractError>(s@),
            Err(ExtractError::Unsupported(e)) => e@ == ext@ && !plain_exts().contains(ext@) && !(ext@ == "html"@ || ext@ == "htm"@ || ext@ == "xml"@
                || ext@ == "svg"@ || ext@ == "rtf"@ || ext@ == "pdf"@ || ext@ == "docx"@ || ext@ == "xlsx"@ || ext@ == "pptx"@),
            Err(e) => text_of_file(ext@, bytes@) == Err::<Seq<char>, ExtractError>(e),
        },
{
    let e = chars_of(ext);
    let plain = [
        "txt", "md", "csv", "json", "log", "ini", "cfg", "toml", "yaml", "yml", "rs", "py", "js",
        "ts", "tsx", "jsx", "go", "java", "kt", "c", "h", "cpp", "cs", "rb", "php", "sh", "ps1",
    ];
    let is_plain = list_contains(&plain, &e);
    assert(plain@.map_values(|s: &str| s@) =~= plain_exts());
    if is_plain {
        return decode_plain_bytes(bytes);
    }
    if chars_eq(&e, &chars_of("html")) || chars_eq(&e, &chars_of("htm")) || chars_eq(&e, &chars_of("xml"))
        || chars_eq(&e, &chars_of("svg")) {
        return match string_from_utf8(copy_slice(bytes)) {
            Some(t) => Ok(xml_to_text(t.as_str())),
            None => Err(ExtractError::InvalidUtf8),
        };
    }
    if chars_eq(&e, &chars_of("rtf")) {
        return match string_from_utf8(copy_slice(bytes)) {
            Some(t) => Ok(extract_rtf(t.as_str())),
            None => Err(ExtractError::InvalidUtf8),
        };
    }
    if chars_eq(&e, &chars_of("pdf")) {
        return Ok(extract_pdf(bytes));
    }
    if chars_eq(&e, &chars_of("docx")) {
        return extract_office(bytes, OfficeKind::Docx);
    }
    if chars_eq(&e, &chars_of("xlsx")) {
        return extract_office(bytes, OfficeKind::Xlsx);
    }
    if chars_eq(&e, &chars_of("pptx")) {
        return extract_office(bytes, OfficeKind::Pptx);
    }
    Err(ExtractError::Unsupported(ext.to_owned()))
}

} // verus!
