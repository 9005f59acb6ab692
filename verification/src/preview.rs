//! Preview-handler decisions: parsing registry values into CLSIDs and
//! choosing a native preview over a text snippet.  The registry lookup
//! itself is done by the caller.

use vstd::prelude::*;
use crate::path::{path_extension, path_extension_exec};
use crate::text::{
    append_chars, chars_eq, chars_of, lower_ascii, lower_ascii_vec, string_of, trim, trim_exec,
};

verus! {

/// The `IPreviewHandler` shell-extension GUID.
pub const PREVIEW_HANDLER_SHELLEX: &'static str = "{8895b1c6-b41f-4c1c-a562-0d564250836f}";

pub open spec fn is_hex_or_dash(c: char) -> bool {
    ('0' <= c && c <= '9') || ('a' <= c && c <= 'f') || ('A' <= c && c <= 'F') || c == '-'
}

pub open spec fn upper_ascii_char(c: char) -> char {
    if 'a' <= c && c <= 'z' {
        ((c as u8) - 32u8) as char
    } else {
        c
    }
}

/// A registry value holding a CLSID: after trimming, `{`, 36 hex digits or
/// dashes, `}`; the result is in upper case.
pub open spec fn clsid_of(value: Seq<char>) -> Option<Seq<char>> {
    let v = trim(value);
    if v.len() == 38 && v[0] == '{' && v[37] == '}' && forall|k: int|
        1 <= k < 37 ==> is_hex_or_dash(#[trigger] v[k]) {
        Some(v.map_values(|c: char| upper_ascii_char(c)))
    } else {
        None
    }
}

pub fn parse_preview_clsid(value: &str) -> (r: Option<String>)
    ensures
        match r {
            Some(s) => clsid_of(value@) == Some(s@),
            None => clsid_of(value@) is None,
        },
{
    let v = trim_exec(&chars_of(value));
    if !(v.len() == 38 && v[0] == '{' && v[37] == '}') {
        return None;
    }
    let mut k: usize = 1;
    while k < 37
        invariant
            1 <= k <= 37,
            v.len() == 38,
            v@ == trim(value@),
            forall|j: int| 1 <= j < k ==> is_hex_or_dash(#[trigger] v@[j]),
        decreases 37 - k,
    {
        let c = v[k];
        if !(('0' <= c && c <= '9') || ('a' <= c && c <= 'f') || ('A' <= c && c <= 'F') || c == '-') {
            assert(!is_hex_or_dash(v@[k as int]));
            return None;
        }
        k += 1;
    }
    let mut out: Vec<char> = Vec::new();
    let mut i: usize = 0;
    while i < v.len()
        invariant
            i <= v.len(),
            out@ == v@.take(i as int).map_values(|c: char| upper_ascii_char(c)),
        decreases v.len() - i,
    {
        let c = v[i];
        let u = if 'a' <= c && c <= 'z' {
            ((c as u8) - 32u8) as char
        } else {
            c
        };
        out.push(u);
        i += 1;
        assert(out@ =~= v@.take(i as int).map_values(|c: char| upper_ascii_char(c)));
    }
    assert(v@.take(i as int) =~= v@);
    Some(string_of(&out))
}

/// The first CLSID found in the output of `reg query`: on each line, from
/// the first `{` on.
pub open spec fn clsid_in_lines(lines: Seq<Seq<char>>) -> Option<Seq<char>>
    decreases lines.len(),
{
    if lines.len() == 0 {
        None
    } else {
        let l = lines[0];
        let k = crate::text::find_from(l, seq!['{'], 0);
        match k {
            Some(k) => match clsid_of(l.skip(k)) {
                Some(c) => Some(c),
                None => clsid_in_lines(lines.drop_first()),
            },
            None => clsid_in_lines(lines.drop_first()),
        }
    }
}

/// The lines of a text: split at `\n`, a trailing `\r` removed, no last
/// empty line.
pub open spec fn text_lines(t: Seq<char>) -> Seq<Seq<char>> {
    let parts = crate::text::split_on(t, '\n');
    let trimmed = parts.map_values(|p: Seq<char>| if p.len() > 0 && p.last() == '\r' {
        p.drop_last()
    } else {
        p
    });
    if t.len() > 0 && t.last() == '\n' {
        trimmed.drop_last()
    } else if t.len() == 0 {
        Seq::empty()
    } else {
        trimmed
    }
}

pub fn clsid_from_reg_output(text: &str) -> (r: Option<String>)
    ensures
        match r {
            Some(s) => clsid_in_lines(text_lines(text@)) == Some(s@),
            None => clsid_in_lines(text_lines(text@)) is None,
        },
{
    let t = chars_of(text);
    let parts = crate::text::split_exec(&t, '\n');
    let ghost pv = crate::text::split_on(text@, '\n');
    proof {
        crate::text::lemma_split_on_nonempty(text@, '\n');
    }
    let n: usize = if t.len() == 0 {
        0
    } else if t[t.len() - 1] == '\n' {
        parts.len() - 1
    } else {
        parts.len()
    };
    let ghost lines = text_lines(text@);
    assert(lines.len() == n);
    let mut i: usize = 0;
    assert(lines.skip(0) =~= lines);
    while i < n
        invariant
            i <= n <= parts.len(),
            lines.len() == n,
            lines == text_lines(text@),
            parts@.map_values(|v: Vec<char>| v@) == pv,
            pv == crate::text::split_on(text@, '\n'),
            forall|j: int| 0 <= j < n ==> #[trigger] lines[j] == (if pv[j].len() > 0 && pv[j].last() == '\r' {
                pv[j].drop_last()
            } else {
                pv[j]
            }),
            clsid_in_lines(lines) == clsid_in_lines(lines.skip(i as int)),
        decreases n - i,
    {
        assert(lines.skip(i as int).drop_first() =~= lines.skip(i + 1));
        assert(lines.skip(i as int)[0] == lines[i as int]);
        assert(pv[i as int] == parts@[i as int]@);
        let p = &parts[i];
        let line: Vec<char> = if p.len() > 0 && p[p.len() - 1] == '\r' {
            crate::text::slice_chars(p, 0, p.len() - 1)
        } else {
            crate::text::slice_chars(p, 0, p.len())
        };
        assert(line@ =~= lines[i as int]);
        let brace: Vec<char> = vec!['{'];
        assert(brace@ =~= seq!['{']);
        match crate::text::find_exec(&line, &brace, 0) {
            Some(k) => {
                proof {
                    crate::text::lemma_find_from(line@, brace@, 0);
                }
                let rest = crate::text::slice_chars(&line, k, line.len());
                assert(rest@ =~= line@.skip(k as int));
                match parse_preview_clsid(string_of(&rest).as_str()) {
                    Some(c) => {
                        return Some(c);
                    },
                    None => {},
                }
            },
            None => {},
        }
        i += 1;
    }
    assert(lines.skip(i as int) =~= Seq::<Seq<char>>::empty());
    None
}

/// The registry key name for a path's type: `.` and the lowercase
/// extension.
pub open spec fn preview_ext_key(path: Seq<char>) -> Option<Seq<char>> {
    match path_extension(path) {
        Some(e) => Some(seq!['.'] + lower_ascii(e)),
        None => None,
    }
}

pub fn preview_ext_key_exec(path: &str) -> (r: Option<String>)
    ensures
        match r {
            Some(s) => preview_ext_key(path@) == Some(s@),
            None => preview_ext_key(path@) is None,
        },
{
    match path_extension_exec(&chars_of(path)) {
        Some(e) => {
            let l = lower_ascii_vec(&e);
            let mut v: Vec<char> = vec!['.'];
            let mut i: usize = 0;
            while i < l.len()
                invariant
                    i <= l.len(),
                    v@ == seq!['.'] + l@.take(i as int),
                decreases l.len() - i,
            {
                v.push(l[i]);
                i += 1;
                assert(v@ =~= seq!['.'] + l@.take(i as int));
            }
            assert(l@.take(i as int) =~= l@);
            Some(string_of(&v))
        },
        None => None,
    }
}

/// The registry key under `HKEY_CLASSES_ROOT` whose default value names the
/// preview handler of a type (`ext_key` is `.` and the extension).
pub open spec fn preview_registry_key(ext_key: Seq<char>) -> Seq<char> {
    "HKCR\\"@ + ext_key + "\\shellex\\"@ + PREVIEW_HANDLER_SHELLEX@
}

pub fn preview_registry_key_exec(ext_key: &str) -> (r: String)
    ensures
        r@ == preview_registry_key(ext_key@),
{
    let mut v = chars_of("HKCR\\");
    append_chars(&mut v, &chars_of(ext_key));
    append_chars(&mut v, &chars_of("\\shellex\\"));
    append_chars(&mut v, &chars_of(PREVIEW_HANDLER_SHELLEX));
    string_of(&v)
}

/// Types that have native previews.
pub open spec fn previewable_ext(e: Seq<char>) -> bool {
    e == "pdf"@ || e == "docx"@ || e == "xlsx"@ || e == "pptx"@ || e == "png"@ || e == "jpg"@
        || e == "jpeg"@ || e == "gif"@ || e == "bmp"@
}

/// A native preview is preferred when there is no snippet and the type has
/// one.
pub fn should_use_handler(path: &str, has_snippet: bool) -> (r: bool)
    ensures
        r == (!has_snippet && match path_extension(path@) {
            Some(e) => previewable_ext(lower_ascii(e)),
            None => false,
        }),
{
    if has_snippet {
        return false;
    }
    match path_extension_exec(&chars_of(path)) {
        Some(e) => {
            let l = lower_ascii_vec(&e);
            chars_eq(&l, &chars_of("pdf")) || chars_eq(&l, &chars_of("docx")) || chars_eq(
                &l,
                &chars_of("xlsx"),
            ) || chars_eq(&l, &chars_of("pptx")) || chars_eq(&l, &chars_of("png")) || chars_eq(
                &l,
                &chars_of("jpg"),
            ) || chars_eq(&l, &chars_of("jpeg")) || chars_eq(&l, &chars_of("gif")) || chars_eq(
                &l,
                &chars_of("bmp"),
            )
        },
        None => false,
    }
}

} // verus!
