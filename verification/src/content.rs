//! The content index: extracted bodies by path, an inverted index from
//! lowercase words to the paths whose bodies hold them, and snippets around
//! matched terms.

use vstd::prelude::*;
use vstd::hash_map::StringHashMap;
use crate::query::{contains_ci_spec, strings_view};
use crate::text::{
    byte_len, char_is_alphanumeric, char_lower, char_to_lowercase, chars_eq, chars_of,
    contains_exec, contains_seq, find_exec, find_from, is_alnum, lemma_find_from, match_at, slice_chars,
    string_of, to_lowercase_vec, unicode_lower, utf8_width, utf8_width_exec,
};
use crate::types::Snippet;

verus! {

// ---------------------------------------------------------------------------
// Words
// ---------------------------------------------------------------------------

/// Letters, digits and Hangul syllables make up words.
pub open spec fn is_word_char(c: char) -> bool {
    is_alnum(c) || ('\u{AC00}' <= c && c <= '\u{D7A3}')
}

/// The first character of the lowercase form of `c`.
pub open spec fn lower_first(c: char) -> char {
    char_lower(c)[0]
}

pub open spec fn word_state(s: Seq<char>) -> (Seq<Seq<char>>, Seq<char>)
    decreases s.len(),
{
    if s.len() == 0 {
        (Seq::empty(), Seq::empty())
    } else {
        let (out, cur) = word_state(s.drop_last());
        let c = s.last();
        if is_word_char(c) {
            (out, cur.push(lower_first(c)))
        } else if cur.len() > 0 {
            (out.push(cur), Seq::empty())
        } else {
            (out, cur)
        }
    }
}

/// The maximal runs of word characters, each character lowered, in order.
pub open spec fn words_of(s: Seq<char>) -> Seq<Seq<char>> {
    let (out, cur) = word_state(s);
    if cur.len() > 0 {
        out.push(cur)
    } else {
        out
    }
}

fn is_word_char_exec(c: char) -> (r: bool)
    ensures
        r == is_word_char(c),
{
    char_is_alphanumeric(c) || ('\u{AC00}' <= c && c <= '\u{D7A3}')
}

pub fn words_chars(s: &Vec<char>) -> (r: Vec<Vec<char>>)
    ensures
        r@.map_values(|v: Vec<char>| v@) == words_of(s@),
{
    let mut out: Vec<Vec<char>> = Vec::new();
    let mut cur: Vec<char> = Vec::new();
    let mut i: usize = 0;
    while i < s.len()
        invariant
            i <= s.len(),
            word_state(s@.take(i as int)) == (out@.map_values(|v: Vec<char>| v@), cur@),
        decreases s.len() - i,
    {
        let c = s[i];
        assert(s@.take(i + 1).drop_last() =~= s@.take(i as int));
        if is_word_char_exec(c) {
            let l = char_to_lowercase(c);
            cur.push(l[0]);
        } else if cur.len() > 0 {
            let piece = cur;
            out.push(piece);
            cur = Vec::new();
            assert(out@.map_values(|v: Vec<char>| v@) =~= word_state(s@.take(i as int)).0.push(
                piece@,
            ));
        }
        i += 1;
    }
    assert(s@.take(s.len() as int) =~= s@);
    if cur.len() > 0 {
        let ghost before = out@.map_values(|v: Vec<char>| v@);
        out.push(cur);
        assert(out@.map_values(|v: Vec<char>| v@) =~= before.push(word_state(s@).1));
    }
    out
}

/// Splits a body into lowercase words.
pub fn tokenize_words(body: &str) -> (r: Vec<String>)
    ensures
        strings_view(r@) == words_of(body@),
{
    let ws = words_chars(&chars_of(body));
    let mut r: Vec<String> = Vec::new();
    let mut k: usize = 0;
    while k < ws.len()
        invariant
            k <= ws.len(),
            r.len() == k,
            forall|j: int| 0 <= j < k ==> #[trigger] r@[j]@ == ws@[j]@,
        decreases ws.len() - k,
    {
        r.push(string_of(&ws[k]));
        k += 1;
    }
    assert(strings_view(r@) =~= ws@.map_values(|v: Vec<char>| v@));
    r
}

// ---------------------------------------------------------------------------
// Byte offsets
// ---------------------------------------------------------------------------

/// Byte offset of character `k` of `s` in its UTF-8 encoding.
pub open spec fn offset(s: Seq<char>, k: int) -> int {
    byte_len(s.take(k)) as int
}

/// `b` is the byte offset of a character boundary of `s`.
pub open spec fn is_boundary(s: Seq<char>, b: int) -> bool {
    exists|k: int| 0 <= k <= s.len() && #[trigger] offset(s, k) == b
}

proof fn lemma_offset_step(s: Seq<char>, k: int)
    requires
        0 <= k < s.len(),
    ensures
        offset(s, k + 1) == offset(s, k) + utf8_width(s[k]),
{
    assert(s.take(k + 1).drop_last() =~= s.take(k));
}

proof fn lemma_offset_mono(s: Seq<char>, i: int, j: int)
    requires
        0 <= i <= j <= s.len(),
    ensures
        offset(s, i) <= offset(s, j),
        i < j ==> offset(s, i) < offset(s, j),
    decreases j - i,
{
    if i < j {
        lemma_offset_step(s, j - 1);
        lemma_offset_mono(s, i, j - 1);
    }
}

proof fn lemma_offset_sub(s: Seq<char>, a: int, b: int, k: int)
    requires
        0 <= a <= b <= s.len(),
        0 <= k <= b - a,
    ensures
        offset(s.subrange(a, b), k) == offset(s, a + k) - offset(s, a),
    decreases k,
{
    if k > 0 {
        lemma_offset_sub(s, a, b, k - 1);
        lemma_offset_step(s.subrange(a, b), k - 1);
        lemma_offset_step(s, a + k - 1);
    }
}

/// `offs[k] == offset(s, k)` for every `k` in `0..=s.len()`.
fn byte_offsets(s: &Vec<char>) -> (r: Vec<u128>)
    ensures
        r.len() == s.len() + 1,
        forall|k: int| 0 <= k <= s.len() ==> #[trigger] r@[k] == offset(s@, k),
        forall|k: int| 0 <= k <= s.len() ==> #[trigger] r@[k] <= 4 * k,
{
    let mut r: Vec<u128> = Vec::new();
    let mut acc: u128 = 0;
    r.push(0);
    assert(s@.take(0) =~= Seq::<char>::empty());
    let mut i: usize = 0;
    while i < s.len()
        invariant
            i <= s.len(),
            r.len() == i + 1,
            acc == offset(s@, i as int),
            acc <= 4 * i,
            forall|k: int| 0 <= k <= i ==> #[trigger] r@[k] == offset(s@, k),
            forall|k: int| 0 <= k <= i ==> #[trigger] r@[k] <= 4 * k,
        decreases s.len() - i,
    {
        proof {
            lemma_offset_step(s@, i as int);
        }
        acc = acc + utf8_width_exec(s[i]) as u128;
        r.push(acc);
        i += 1;
    }
    r
}

fn boundary_index(offs: &Vec<u128>, b: u128, Ghost(s): Ghost<Seq<char>>) -> (r: bool)
    requires
        offs.len() == s.len() + 1,
        forall|k: int| 0 <= k <= s.len() ==> #[trigger] offs@[k] == offset(s, k),
    ensures
        r == is_boundary(s, b as int),
{
    let mut k: usize = 0;
    while k < offs.len()
        invariant
            k <= offs.len() == s.len() + 1,
            forall|k: int| 0 <= k <= s.len() ==> #[trigger] offs@[k] == offset(s, k),
            forall|j: int| 0 <= j < k ==> #[trigger] offset(s, j) != b,
        decreases offs.len() - k,
    {
        if offs[k] == b {
            assert(offset(s, k as int) == b);
            return true;
        }
        k += 1;
    }
    false
}

// ---------------------------------------------------------------------------
// Snippets
// ---------------------------------------------------------------------------

/// The byte offset and byte length, in the lowercase body, of the first
/// occurrence of the first term (in order, skipping empty ones) that occurs.
pub open spec fn first_hit(lower: Seq<char>, terms: Seq<Seq<char>>) -> Option<(int, int)>
    decreases terms.len(),
{
    if terms.len() == 0 {
        None
    } else if terms[0].len() == 0 {
        first_hit(lower, terms.drop_first())
    } else {
        let t = unicode_lower(terms[0]);
        match find_from(lower, t, 0) {
            Some(ci) => Some((offset(lower, ci), byte_len(t) as int)),
            None => first_hit(lower, terms.drop_first()),
        }
    }
}

/// `first_hit` when the lowercase forms of the terms are `lts` (term by
/// term): an empty term is skipped, else its lowercase form is looked for.
pub open spec fn first_hit_lowered(lower: Seq<char>, terms: Seq<Seq<char>>, lts: Seq<Seq<char>>) -> Option<(int, int)>
    decreases terms.len(),
{
    if terms.len() == 0 || lts.len() == 0 {
        None
    } else if terms[0].len() == 0 {
        first_hit_lowered(lower, terms.drop_first(), lts.drop_first())
    } else {
        match find_from(lower, lts[0], 0) {
            Some(ci) => Some((offset(lower, ci), byte_len(lts[0]) as int)),
            None => first_hit_lowered(lower, terms.drop_first(), lts.drop_first()),
        }
    }
}

pub open spec fn lowered_terms(terms: Seq<Seq<char>>) -> Seq<Seq<char>> {
    terms.map_values(|t: Seq<char>| unicode_lower(t))
}

proof fn lemma_first_hit_lowered(lower: Seq<char>, terms: Seq<Seq<char>>)
    ensures
        first_hit(lower, terms) == first_hit_lowered(lower, terms, lowered_terms(terms)),
    decreases terms.len(),
{
    if terms.len() > 0 {
        assert(lowered_terms(terms).drop_first() =~= lowered_terms(terms.drop_first()));
        assert(lowered_terms(terms)[0] == unicode_lower(terms[0]));
        lemma_first_hit_lowered(lower, terms.drop_first());
    }
}

/// The last character boundary of `s` at or before byte `b`.
pub open spec fn floor_char(s: Seq<char>, b: int, k: int) -> int
    decreases k,
{
    if k <= 0 {
        0
    } else if offset(s, k) <= b {
        k
    } else {
        floor_char(s, b, k - 1)
    }
}

/// The first character boundary of `s` at or after byte `b` (the end when
/// there is none).
pub open spec fn ceil_char(s: Seq<char>, b: int, k: int) -> int
    decreases s.len() - k,
{
    if k >= s.len() {
        s.len() as int
    } else if offset(s, k) >= b {
        k
    } else {
        ceil_char(s, b, k + 1)
    }
}

/// Highlights of the lowercase term `t` in the lowercase snippet `sl`, from
/// character `from` on: byte ranges of successive non-overlapping
/// occurrences, kept when both ends are character boundaries of `text`.
pub open spec fn highlights_from(text: Seq<char>, sl: Seq<char>, t: Seq<char>, from: int) -> Seq<(int, int)>
    decreases sl.len() + 1 - from,
{
    if t.len() == 0 || from < 0 || from > sl.len() {
        Seq::empty()
    } else {
        match find_from(sl, t, from) {
            None => Seq::empty(),
            Some(ci) => {
                proof {
                    lemma_find_from(sl, t, from);
                }
                let a = offset(sl, ci);
                let b = offset(sl, ci + t.len());
                let rest = if ci + t.len() >= sl.len() {
                    Seq::empty()
                } else {
                    highlights_from(text, sl, t, ci + t.len())
                };
                if is_boundary(text, a) && is_boundary(text, b) {
                    seq![(a, b)] + rest
                } else {
                    rest
                }
            },
        }
    }
}

/// Highlights of all non-empty terms, term by term.
pub open spec fn all_highlights(text: Seq<char>, sl: Seq<char>, terms: Seq<Seq<char>>) -> Seq<(int, int)>
    decreases terms.len(),
{
    if terms.len() == 0 {
        Seq::empty()
    } else if terms.last().len() == 0 {
        all_highlights(text, sl, terms.drop_last())
    } else {
        all_highlights(text, sl, terms.drop_last()) + highlights_from(
            text,
            sl,
            unicode_lower(terms.last()),
            0,
        )
    }
}

/// The snippet text of `body` around the first hit at byte `pos` (in the
/// lowercase body) of a term `tlen` bytes long, with `ctx` bytes of context
/// on each side, widened to character boundaries.
pub open spec fn snippet_range(body: Seq<char>, pos: int, tlen: int, ctx: int) -> (int, int) {
    let start0 = if pos >= ctx {
        pos - ctx
    } else {
        0
    };
    let total = offset(body, body.len() as int);
    let end0 = if pos + tlen + ctx <= total {
        pos + tlen + ctx
    } else {
        total
    };
    (floor_char(body, start0, body.len() as int), ceil_char(body, end0, 0))
}

/// The snippet of `body` for `terms` (text, highlights), or `None` when no
/// term occurs (case-insensitively) or the body is too long for byte
/// offsets.
pub open spec fn snippet_of(body: Seq<char>, terms: Seq<Seq<char>>, ctx: int) -> Option<(Seq<char>, Seq<(int, int)>)> {
    if terms.len() == 0 {
        None
    } else {
        match first_hit(unicode_lower(body), terms) {
            None => None,
            Some((pos, tlen)) => {
                if offset(body, body.len() as int) > usize::MAX {
                    None
                } else {
                    let (s, e) = snippet_range(body, pos, tlen, ctx);
                    let text = body.subrange(s, e);
                    Some((text, all_highlights(text, unicode_lower(text), terms)))
                }
            },
        }
    }
}

pub open spec fn snippet_view(s: Snippet) -> (Seq<char>, Seq<(int, int)>) {
    (s.text@, s.highlights@.map_values(|p: (usize, usize)| (p.0 as int, p.1 as int)))
}

pub open spec fn terms_view(terms: Seq<String>) -> Seq<Seq<char>> {
    terms.map_values(|t: String| t@)
}

fn find_first_hit(lower: &Vec<char>, lower_offs: &Vec<u128>, terms: &[String], lts: &Vec<Vec<char>>) -> (r: Option<(u128, u128)>)
    requires
        lower_offs.len() == lower.len() + 1,
        forall|k: int| 0 <= k <= lower.len() ==> #[trigger] lower_offs@[k] == offset(lower@, k),
        forall|k: int| 0 <= k <= lower.len() ==> #[trigger] lower_offs@[k] <= 4 * k,
    ensures
        match r {
            Some((p, l)) => first_hit_lowered(lower@, terms_view(terms@), lts@.map_values(|v: Vec<char>| v@))
                == Some((p as int, l as int)) && p <= 4 * lower.len() && l <= 4 * 0xFFFF_FFFF_FFFF_FFFFu128,
            None => first_hit_lowered(lower@, terms_view(terms@), lts@.map_values(|v: Vec<char>| v@)) is None,
        },
{
    let ghost tv = terms_view(terms@);
    let ghost lv = lts@.map_values(|v: Vec<char>| v@);
    let mut i: usize = 0;
    assert(tv.skip(0) =~= tv);
    assert(lv.skip(0) =~= lv);
    while i < terms.len() && i < lts.len()
        invariant
            i <= terms.len(),
            i <= lts.len(),
            tv == terms_view(terms@),
            lv == lts@.map_values(|v: Vec<char>| v@),
            lower_offs.len() == lower.len() + 1,
            forall|k: int| 0 <= k <= lower.len() ==> #[trigger] lower_offs@[k] == offset(lower@, k),
            forall|k: int| 0 <= k <= lower.len() ==> #[trigger] lower_offs@[k] <= 4 * k,
            first_hit_lowered(lower@, tv, lv) == first_hit_lowered(lower@, tv.skip(i as int), lv.skip(i as int)),
        decreases terms.len() - i,
    {
        assert(tv.skip(i as int).drop_first() =~= tv.skip(i + 1));
        assert(lv.skip(i as int).drop_first() =~= lv.skip(i + 1));
        assert(tv.skip(i as int)[0] == terms@[i as int]@);
        assert(lv.skip(i as int)[0] == lts@[i as int]@);
        let raw = chars_of(terms[i].as_str());
        if raw.len() > 0 {
            let t = &lts[i];
            match find_exec(lower, t, 0) {
                Some(ci) => {
                    proof {
                        lemma_find_from(lower@, t@, 0);
                    }
                    let offs_t = byte_offsets(&t);
                    assert(t@.take(t.len() as int) =~= t@);
                    return Some((lower_offs[ci], offs_t[t.len()]));
                },
                None => {},
            }
        }
        i += 1;
    }
    None
}

/// The lowercase forms of the terms.
fn lower_all(terms: &[String]) -> (r: Vec<Vec<char>>)
    ensures
        r@.map_values(|v: Vec<char>| v@) == lowered_terms(terms_view(terms@)),
{
    let mut r: Vec<Vec<char>> = Vec::new();
    let mut i: usize = 0;
    while i < terms.len()
        invariant
            i <= terms.len(),
            r.len() == i,
            forall|k: int| 0 <= k < i ==> #[trigger] r@[k]@ == unicode_lower(terms@[k]@),
        decreases terms.len() - i,
    {
        r.push(to_lowercase_vec(&chars_of(terms[i].as_str())));
        i += 1;
    }
    assert(r@.map_values(|v: Vec<char>| v@) =~= lowered_terms(terms_view(terms@)));
    r
}

/// Where the snippet is centred, given the lowercase body and the
/// lowercase forms of the terms: the byte offset in the lowercase body and
/// the byte length of the first occurrence of the first non-empty term
/// that occurs.
pub fn first_term_hit(lowered_body: &str, terms: &[String], lowered: &[String]) -> (r: Option<(u128, u128)>)
    ensures
        match r {
            Some((p, l)) => first_hit_lowered(lowered_body@, terms_view(terms@), terms_view(lowered@))
                == Some((p as int, l as int)),
            None => first_hit_lowered(lowered_body@, terms_view(terms@), terms_view(lowered@)) is None,
        },
{
    let lower = chars_of(lowered_body);
    let offs = byte_offsets(&lower);
    let mut lts: Vec<Vec<char>> = Vec::new();
    let mut i: usize = 0;
    while i < lowered.len()
        invariant
            i <= lowered.len(),
            lts.len() == i,
            forall|k: int| 0 <= k < i ==> #[trigger] lts@[k]@ == lowered@[k]@,
        decreases lowered.len() - i,
    {
        lts.push(chars_of(lowered[i].as_str()));
        i += 1;
    }
    assert(lts@.map_values(|v: Vec<char>| v@) =~= terms_view(lowered@));
    find_first_hit(&lower, &offs, terms, &lts)
}

/// The highlights of one term in a snippet text, given the lowercase text
/// and the lowercase term: the byte ranges of its successive
/// non-overlapping occurrences in the lowercase text that are also
/// character boundaries of the text.
pub fn highlight_ranges(text: &str, lowered_text: &str, lowered_term: &str) -> (r: Vec<(usize, usize)>)
    requires
        byte_len(text@) <= usize::MAX,
    ensures
        r@.map_values(|p: (usize, usize)| (p.0 as int, p.1 as int)) == highlights_from(
            text@,
            lowered_text@,
            lowered_term@,
            0,
        ),
{
    let t = chars_of(text);
    let sl = chars_of(lowered_text);
    let term = chars_of(lowered_term);
    let t_offs = byte_offsets(&t);
    let sl_offs = byte_offsets(&sl);
    assert(t@.take(t.len() as int) =~= t@);
    highlights_exec(&t, &t_offs, &sl, &sl_offs, &term)
}

fn highlights_exec(
    text: &Vec<char>,
    text_offs: &Vec<u128>,
    sl: &Vec<char>,
    sl_offs: &Vec<u128>,
    t: &Vec<char>,
) -> (r: Vec<(usize, usize)>)
    requires
        text_offs.len() == text.len() + 1,
        forall|k: int| 0 <= k <= text.len() ==> #[trigger] text_offs@[k] == offset(text@, k),
        sl_offs.len() == sl.len() + 1,
        forall|k: int| 0 <= k <= sl.len() ==> #[trigger] sl_offs@[k] == offset(sl@, k),
        offset(text@, text.len() as int) <= usize::MAX,
    ensures
        r@.map_values(|p: (usize, usize)| (p.0 as int, p.1 as int)) == highlights_from(text@, sl@, t@, 0),
{
    let mut out: Vec<(usize, usize)> = Vec::new();
    if t.len() == 0 {
        return out;
    }
    let ghost target = highlights_from(text@, sl@, t@, 0);
    let mut from: usize = 0;
    loop
        invariant_except_break
            target == out@.map_values(|p: (usize, usize)| (p.0 as int, p.1 as int))
                + highlights_from(text@, sl@, t@, from as int),
        invariant
            text_offs.len() == text.len() + 1,
            forall|k: int| 0 <= k <= text.len() ==> #[trigger] text_offs@[k] == offset(text@, k),
            sl_offs.len() == sl.len() + 1,
            forall|k: int| 0 <= k <= sl.len() ==> #[trigger] sl_offs@[k] == offset(sl@, k),
            offset(text@, text.len() as int) <= usize::MAX,
            t.len() > 0,
            from <= sl.len(),
            target == highlights_from(text@, sl@, t@, 0),
        ensures
            target == out@.map_values(|p: (usize, usize)| (p.0 as int, p.1 as int)),
        decreases sl.len() + 1 - from,
    {
        let ghost before = out@.map_values(|p: (usize, usize)| (p.0 as int, p.1 as int));
        match find_exec(sl, t, from) {
            None => {
                assert(before + Seq::<(int, int)>::empty() =~= before);
                break;
            },
            Some(ci) => {
                proof {
                    lemma_find_from(sl@, t@, from as int);
                }
                let a = sl_offs[ci];
                let b = sl_offs[ci + t.len()];
                let ghost rest = if ci + t.len() >= sl.len() {
                    Seq::<(int, int)>::empty()
                } else {
                    highlights_from(text@, sl@, t@, (ci + t.len()) as int)
                };
                if boundary_index(text_offs, a, Ghost(text@)) && boundary_index(text_offs, b, Ghost(text@)) {
                    proof {
                        let ka = choose|k: int| 0 <= k <= text.len() && #[trigger] offset(text@, k) == a;
                        let kb = choose|k: int| 0 <= k <= text.len() && #[trigger] offset(text@, k) == b;
                        lemma_offset_mono(text@, ka, text.len() as int);
                        lemma_offset_mono(text@, kb, text.len() as int);
                    }
                    out.push((a as usize, b as usize));
                    assert(out@.map_values(|p: (usize, usize)| (p.0 as int, p.1 as int)) =~= before.push(
                        (a as int, b as int),
                    ));
                    assert(before.push((a as int, b as int)) + rest =~= before + (seq![(a as int, b as int)] + rest));
                } else {
                    assert(out@.map_values(|p: (usize, usize)| (p.0 as int, p.1 as int)) =~= before);
                }
                if ci + t.len() >= sl.len() {
                    let ghost now = out@.map_values(|p: (usize, usize)| (p.0 as int, p.1 as int));
                    assert(now + Seq::<(int, int)>::empty() =~= now);
                    break;
                }
                from = ci + t.len();
            },
        }
    }
    out
}

/// A piece of `body` around the first matched term, with `ctx` bytes of
/// context on each side, and the byte ranges in it of every occurrence of
/// every term (ignoring case).
pub fn make_snippet(body: &str, terms: &[String], ctx: usize) -> (r: Option<Snippet>)
    ensures
        match r {
            Some(s) => snippet_of(body@, terms_view(terms@), ctx as int) == Some(snippet_view(s)),
            None => snippet_of(body@, terms_view(terms@), ctx as int) is None,
        },
{
    if terms.len() == 0 {
        return None;
    }
    let b = chars_of(body);
    let lower = to_lowercase_vec(&b);
    let lower_offs = byte_offsets(&lower);
    let lts = lower_all(terms);
    proof {
        lemma_first_hit_lowered(lower@, terms_view(terms@));
    }
    let (pos, tlen) = match find_first_hit(&lower, &lower_offs, terms, &lts) {
        Some(h) => h,
        None => return None,
    };
    let offs = byte_offsets(&b);
    let n = b.len();
    let total = offs[n];
    if total > usize::MAX as u128 {
        return None;
    }
    let c = ctx as u128;
    let start0: u128 = if pos >= c {
        pos - c
    } else {
        0
    };
    let end0: u128 = if pos + tlen + c <= total {
        pos + tlen + c
    } else {
        total
    };
    let mut s = n;
    while s > 0 && offs[s] > start0
        invariant
            s <= n == b.len(),
            offs.len() == n + 1,
            forall|k: int| 0 <= k <= n ==> #[trigger] offs@[k] == offset(b@, k),
            floor_char(b@, start0 as int, n as int) == floor_char(b@, start0 as int, s as int),
        decreases s,
    {
        s -= 1;
    }
    let mut e: usize = 0;
    while e < n && offs[e] < end0
        invariant
            e <= n == b.len(),
            offs.len() == n + 1,
            forall|k: int| 0 <= k <= n ==> #[trigger] offs@[k] == offset(b@, k),
            ceil_char(b@, end0 as int, 0) == ceil_char(b@, end0 as int, e as int),
        decreases n - e,
    {
        e += 1;
    }
    proof {
        lemma_floor_ceil(b@, start0 as int, end0 as int, s as int, e as int);
    }
    let text = slice_chars(&b, s, e);
    let text_offs = byte_offsets(&text);
    proof {
        lemma_offset_sub(b@, s as int, e as int, (e - s) as int);
        lemma_offset_mono(b@, s as int, e as int);
        lemma_offset_mono(b@, e as int, n as int);
        assert(b@.take(n as int) =~= b@);
    }
    let sl = to_lowercase_vec(&text);
    let sl_offs = byte_offsets(&sl);
    let mut highlights: Vec<(usize, usize)> = Vec::new();
    let ghost tv = terms_view(terms@);
    let mut i: usize = 0;
    while i < terms.len()
        invariant
            i <= terms.len(),
            tv == terms_view(terms@),
            text_offs.len() == text.len() + 1,
            forall|k: int| 0 <= k <= text.len() ==> #[trigger] text_offs@[k] == offset(text@, k),
            sl_offs.len() == sl.len() + 1,
            forall|k: int| 0 <= k <= sl.len() ==> #[trigger] sl_offs@[k] == offset(sl@, k),
            offset(text@, text.len() as int) <= usize::MAX,
            sl@ == unicode_lower(text@),
            highlights@.map_values(|p: (usize, usize)| (p.0 as int, p.1 as int)) == all_highlights(
                text@,
                sl@,
                tv.take(i as int),
            ),
        decreases terms.len() - i,
    {
        let ghost before = highlights@.map_values(|p: (usize, usize)| (p.0 as int, p.1 as int));
        assert(tv.take(i + 1).drop_last() =~= tv.take(i as int));
        assert(tv[i as int] == terms@[i as int]@);
        let raw = chars_of(terms[i].as_str());
        if raw.len() > 0 {
            let t = to_lowercase_vec(&raw);
            let hs = highlights_exec(&text, &text_offs, &sl, &sl_offs, &t);
            let mut j: usize = 0;
            while j < hs.len()
                invariant
                    j <= hs.len(),
                    highlights@.map_values(|p: (usize, usize)| (p.0 as int, p.1 as int)) == before
                        + hs@.take(j as int).map_values(|p: (usize, usize)| (p.0 as int, p.1 as int)),
                decreases hs.len() - j,
            {
                let ghost prev = highlights@.map_values(|p: (usize, usize)| (p.0 as int, p.1 as int));
                let ghost x = (hs@[j as int].0 as int, hs@[j as int].1 as int);
                highlights.push(hs[j]);
                assert(highlights@.map_values(|p: (usize, usize)| (p.0 as int, p.1 as int)) =~= prev.push(x));
                assert(hs@.take(j + 1).map_values(|p: (usize, usize)| (p.0 as int, p.1 as int)) =~= hs@.take(
                    j as int,
                ).map_values(|p: (usize, usize)| (p.0 as int, p.1 as int)).push(x));
                j += 1;
                assert(highlights@.map_values(|p: (usize, usize)| (p.0 as int, p.1 as int)) =~= before
                    + hs@.take(j as int).map_values(|p: (usize, usize)| (p.0 as int, p.1 as int)));
            }
            assert(hs@.take(j as int) =~= hs@);
        } else {
            assert(before + Seq::<(int, int)>::empty() =~= before);
        }
        i += 1;
    }
    assert(tv.take(i as int) =~= tv);
    Some(Snippet { text: string_of(&text), highlights })
}

proof fn lemma_floor_ceil(s: Seq<char>, x: int, y: int, a: int, b: int)
    requires
        a == floor_char(s, x, s.len() as int),
        b == ceil_char(s, y, 0),
        x >= 0,
        x <= y || y == offset(s, s.len() as int),
        y <= offset(s, s.len() as int),
    ensures
        0 <= a <= b <= s.len(),
{
    lemma_floor_range(s, x, s.len() as int);
    lemma_ceil_range(s, y, 0);
    if a > b {
        lemma_floor_below(s, x, s.len() as int);
        lemma_ceil_reaches(s, y, 0);
        lemma_offset_mono(s, b, a);
        lemma_offset_mono(s, a, s.len() as int);
    }
}

proof fn lemma_floor_range(s: Seq<char>, x: int, k: int)
    requires
        k <= s.len(),
    ensures
        0 <= floor_char(s, x, k) <= (if k < 0 { 0 } else { k }),
    decreases k,
{
    if k > 0 && offset(s, k) > x {
        lemma_floor_range(s, x, k - 1);
    }
}

proof fn lemma_floor_below(s: Seq<char>, x: int, k: int)
    requires
        0 <= k <= s.len(),
        x >= 0,
    ensures
        offset(s, floor_char(s, x, k)) <= x,
    decreases k,
{
    if k > 0 && offset(s, k) > x {
        lemma_floor_below(s, x, k - 1);
    }
    if k <= 0 {
        assert(s.take(0) =~= Seq::<char>::empty());
    }
}

proof fn lemma_ceil_range(s: Seq<char>, y: int, k: int)
    requires
        0 <= k,
    ensures
        k <= s.len() ==> k <= ceil_char(s, y, k) <= s.len(),
        k > s.len() ==> ceil_char(s, y, k) == s.len(),
    decreases s.len() - k,
{
    if k < s.len() && offset(s, k) < y {
        lemma_ceil_range(s, y, k + 1);
    }
}

proof fn lemma_ceil_reaches(s: Seq<char>, y: int, k: int)
    requires
        0 <= k <= s.len(),
        y <= offset(s, s.len() as int),
    ensures
        offset(s, ceil_char(s, y, k)) >= y,
    decreases s.len() - k,
{
    if k < s.len() && offset(s, k) < y {
        lemma_ceil_reaches(s, y, k + 1);
    }
}


// ---------------------------------------------------------------------------
// The index
// ---------------------------------------------------------------------------

/// `w` is a word of the body stored for `p`.
pub open spec fn has_word(bodies: Map<Seq<char>, Seq<char>>, p: Seq<char>, w: Seq<char>) -> bool {
    bodies.contains_key(p) && words_of(bodies[p]).contains(w)
}

/// The postings list exactly, and each once, the paths whose bodies hold
/// each word.
pub open spec fn postings_ok(bodies: Map<Seq<char>, Seq<char>>, post: Map<Seq<char>, Vec<String>>) -> bool {
    &&& forall|w: Seq<char>, p: Seq<char>|
        post.contains_key(w) && #[trigger] strings_view(post[w]@).contains(p) ==> has_word(bodies, p, w)
    &&& forall|w: Seq<char>, p: Seq<char>|
        #[trigger] has_word(bodies, p, w) ==> post.contains_key(w) && strings_view(post[w]@).contains(p)
    &&& forall|w: Seq<char>| post.contains_key(w) ==> (#[trigger] strings_view(post[w]@)).no_duplicates()
}

/// The list without the entries equal to `p`, in order.
pub open spec fn drop_path(s: Seq<Seq<char>>, p: Seq<char>) -> Seq<Seq<char>>
    decreases s.len(),
{
    if s.len() == 0 {
        Seq::empty()
    } else if s.last() == p {
        drop_path(s.drop_last(), p)
    } else {
        drop_path(s.drop_last(), p).push(s.last())
    }
}

pub proof fn lemma_drop_path_absent(s: Seq<Seq<char>>, p: Seq<char>)
    requires
        !s.contains(p),
    ensures
        drop_path(s, p) == s,
    decreases s.len(),
{
    if s.len() > 0 {
        assert(!s.drop_last().contains(p)) by {
            if s.drop_last().contains(p) {
                let k = choose|k: int| 0 <= k < s.drop_last().len() && s.drop_last()[k] == p;
                assert(s[k] == p);
            }
        }
        assert(s[s.len() - 1] == s.last());
        lemma_drop_path_absent(s.drop_last(), p);
        assert(s.drop_last().push(s.last()) =~= s);
    }
}

pub proof fn lemma_drop_path_excludes(s: Seq<Seq<char>>, p: Seq<char>)
    ensures
        !drop_path(s, p).contains(p),
    decreases s.len(),
{
    if s.len() > 0 {
        lemma_drop_path_excludes(s.drop_last(), p);
        let r = drop_path(s.drop_last(), p);
        if s.last() != p {
            assert forall|k: int| 0 <= k < r.push(s.last()).len() implies r.push(s.last())[k] != p by {
                if k < r.len() {
                    assert(r.push(s.last())[k] == r[k]);
                }
            }
        }
    }
}

pub proof fn lemma_drop_path_twice(s: Seq<Seq<char>>, p: Seq<char>)
    ensures
        drop_path(drop_path(s, p), p) == drop_path(s, p),
{
    lemma_drop_path_excludes(s, p);
    lemma_drop_path_absent(drop_path(s, p), p);
}

/// The paths a postings map lists for `w` (none when `w` has no entry).
pub open spec fn listed(post: Map<Seq<char>, Vec<String>>, w: Seq<char>) -> Seq<Seq<char>> {
    if post.contains_key(w) {
        strings_view(post[w]@)
    } else {
        Seq::empty()
    }
}

/// A word's list after `p` is indexed: `p` moves to the end when its body
/// holds the word, and leaves the list otherwise.
pub open spec fn index_paths(l: Seq<Seq<char>>, p: Seq<char>, holds: bool) -> Seq<Seq<char>> {
    if holds {
        drop_path(l, p).push(p)
    } else {
        drop_path(l, p)
    }
}

pub open spec fn bodies_view(m: Map<Seq<char>, String>) -> Map<Seq<char>, Seq<char>> {
    m.map_values(|b: String| b@)
}

/// Extracted bodies by path, and the lowercase words of each.
pub struct ContentIndex {
    bodies: StringHashMap<String>,
    /// Lowercase word to the paths whose bodies hold it.
    postings: StringHashMap<Vec<String>>,
}

impl View for ContentIndex {
    type V = Map<Seq<char>, Seq<char>>;

    closed spec fn view(&self) -> Map<Seq<char>, Seq<char>> {
        bodies_view(self.bodies@)
    }
}

fn copy_strings(v: &Vec<String>) -> (r: Vec<String>)
    ensures
        strings_view(r@) == strings_view(v@),
{
    let mut r: Vec<String> = Vec::new();
    let mut i: usize = 0;
    while i < v.len()
        invariant
            i <= v.len(),
            r.len() == i,
            forall|j: int| 0 <= j < i ==> #[trigger] r@[j]@ == v@[j]@,
        decreases v.len() - i,
    {
        r.push(string_of(&chars_of(v[i].as_str())));
        i += 1;
    }
    assert(strings_view(r@) =~= strings_view(v@));
    r
}

fn contains_string(v: &Vec<String>, x: &Vec<char>) -> (r: bool)
    ensures
        r == strings_view(v@).contains(x@),
{
    let mut i: usize = 0;
    while i < v.len()
        invariant
            i <= v.len(),
            forall|j: int| 0 <= j < i ==> #[trigger] v@[j]@ != x@,
        decreases v.len() - i,
    {
        if chars_eq(&chars_of(v[i].as_str()), x) {
            assert(strings_view(v@)[i as int] == x@);
            return true;
        }
        i += 1;
    }
    proof {
        if strings_view(v@).contains(x@) {
            let k = choose|k: int| 0 <= k < v@.len() && #[trigger] strings_view(v@)[k] == x@;
            assert(v@[k]@ == x@);
        }
    }
    false
}

fn strings_without(v: &Vec<String>, x: &Vec<char>) -> (r: Vec<String>)
    requires
        strings_view(v@).no_duplicates(),
    ensures
        strings_view(r@).no_duplicates(),
        forall|y: Seq<char>| strings_view(r@).contains(y) <==> (strings_view(v@).contains(y) && y != x@),
        strings_view(r@) == drop_path(strings_view(v@), x@),
{
    let ghost vv = strings_view(v@);
    let mut r: Vec<String> = Vec::new();
    let mut i: usize = 0;
    assert(vv.take(0) =~= Seq::<Seq<char>>::empty());
    assert(strings_view(r@) =~= Seq::<Seq<char>>::empty());
    while i < v.len()
        invariant
            i <= v.len(),
            vv == strings_view(v@),
            vv.no_duplicates(),
            strings_view(r@).no_duplicates(),
            strings_view(r@) == drop_path(vv.take(i as int), x@),
            forall|y: Seq<char>| strings_view(r@).contains(y) <==> (vv.take(i as int).contains(y) && y != x@),
        decreases v.len() - i,
    {
        let cur = chars_of(v[i].as_str());
        let ghost y0 = vv[i as int];
        assert(cur@ == y0);
        assert(vv.take(i + 1) =~= vv.take(i as int).push(y0));
        assert(vv.take(i + 1).drop_last() =~= vv.take(i as int));
        let ghost before = strings_view(r@);
        if !chars_eq(&cur, x) {
            r.push(string_of(&cur));
            assert(strings_view(r@) =~= before.push(y0));
            proof {
                assert(!vv.take(i as int).contains(y0)) by {
                    if vv.take(i as int).contains(y0) {
                        let k = choose|k: int| 0 <= k < i && #[trigger] vv.take(i as int)[k] == y0;
                        assert(vv[k] == vv[i as int]);
                    }
                }
                let now = strings_view(r@);
                assert forall|a: int, b: int| 0 <= a < now.len() && 0 <= b < now.len() && a != b implies now[a] != now[b] by {
                    if a == now.len() - 1 {
                        assert(before.contains(now[b]));
                    } else if b == now.len() - 1 {
                        assert(before.contains(now[a]));
                    }
                }
                assert forall|y: Seq<char>| now.contains(y) <==> (vv.take(i + 1).contains(y) && y != x@) by {
                    if now.contains(y) {
                        if y == y0 {
                            assert(vv.take(i + 1)[i as int] == y);
                        } else {
                            let k = choose|k: int| 0 <= k < now.len() && #[trigger] now[k] == y;
                            assert(before[k] == y);
                            assert(before.contains(y));
                            let m = choose|m: int| 0 <= m < i && #[trigger] vv.take(i as int)[m] == y;
                            assert(vv.take(i + 1)[m] == y);
                        }
                    }
                    if vv.take(i + 1).contains(y) && y != x@ {
                        if y == y0 {
                            assert(now[now.len() - 1] == y);
                        } else {
                            let k = choose|k: int| 0 <= k < i + 1 && #[trigger] vv.take(i + 1)[k] == y;
                            assert(vv.take(i as int)[k] == y);
                            assert(before.contains(y));
                            let m = choose|m: int| 0 <= m < before.len() && #[trigger] before[m] == y;
                            assert(now[m] == y);
                        }
                    }
                }
            }
        } else {
            proof {
                assert forall|y: Seq<char>| before.contains(y) <==> (vv.take(i + 1).contains(y) && y != x@) by {
                    if vv.take(i + 1).contains(y) && y != x@ {
                        let k = choose|k: int| 0 <= k < i + 1 && #[trigger] vv.take(i + 1)[k] == y;
                        assert(k != i);
                        assert(vv.take(i as int)[k] == y);
                    }
                    if before.contains(y) {
                        let m = choose|m: int| 0 <= m < i && #[trigger] vv.take(i as int)[m] == y;
                        assert(vv.take(i + 1)[m] == y);
                    }
                }
            }
        }
        i += 1;
    }
    assert(vv.take(i as int) =~= vv);
    r
}

impl ContentIndex {
    pub closed spec fn wf(&self) -> bool {
        postings_ok(bodies_view(self.bodies@), self.postings@)
    }

    /// The paths listed for word `w`, in the order they were indexed.
    pub closed spec fn word_paths(&self, w: Seq<char>) -> Seq<Seq<char>> {
        listed(self.postings@, w)
    }

    /// A path with no body is listed under no word.
    pub proof fn lemma_unlisted(&self, p: Seq<char>, w: Seq<char>)
        requires
            self.wf(),
            !self@.contains_key(p),
        ensures
            !self.word_paths(w).contains(p),
    {
        if self.postings@.contains_key(w) && strings_view(self.postings@[w]@).contains(p) {
            assert(has_word(bodies_view(self.bodies@), p, w));
        }
    }

    pub fn new() -> (c: ContentIndex)
        ensures
            c.wf(),
            c@ == Map::<Seq<char>, Seq<char>>::empty(),
    {
        let c = ContentIndex { bodies: StringHashMap::new(), postings: StringHashMap::new() };
        assert(bodies_view(c.bodies@) =~= Map::<Seq<char>, Seq<char>>::empty());
        c
    }

    /// Number of stored bodies.
    pub fn bodies_len(&self) -> (n: usize)
        ensures
            n == self@.len(),
    {
        assert(self@.dom() =~= self.bodies@.dom());
        self.bodies.len()
    }

    /// The body stored for `path`.
    pub fn body(&self, path: &str) -> (r: Option<&str>)
        ensures
            match r {
                Some(b) => self@.contains_key(path@) && self@[path@] == b@,
                None => !self@.contains_key(path@),
            },
    {
        match self.bodies.get(path) {
            Some(b) => Some(b.as_str()),
            None => None,
        }
    }

    /// The paths whose bodies hold the lowercase form of `word` as a word,
    /// each once.
    pub fn paths_for_word(&self, word: &str) -> (r: Vec<String>)
        requires
            self.wf(),
        ensures
            strings_view(r@).no_duplicates(),
            forall|p: Seq<char>| strings_view(r@).contains(p) <==> has_word(self@, p, unicode_lower(word@)),
            strings_view(r@) == self.word_paths(unicode_lower(word@)),
    {
        let key = string_of(&to_lowercase_vec(&chars_of(word)));
        match self.postings.get(key.as_str()) {
            Some(v) => copy_strings(v),
            None => {
                let r: Vec<String> = Vec::new();
                assert(strings_view(r@) =~= Seq::<Seq<char>>::empty());
                r
            },
        }
    }

    /// Whether the body stored for `path` holds every term (ignoring case).
    pub fn contains_all(&self, path: &str, terms: &[String]) -> (r: bool)
        ensures
            r == (self@.contains_key(path@) && forall|i: int|
                0 <= i < terms@.len() ==> contains_ci_spec(self@[path@], #[trigger] terms@[i]@)),
    {
        match self.body(path) {
            None => false,
            Some(b) => {
                let mut i: usize = 0;
                while i < terms.len()
                    invariant
                        i <= terms.len(),
                        self@.contains_key(path@) && self@[path@] == b@,
                        forall|k: int| 0 <= k < i ==> contains_ci_spec(self@[path@], #[trigger] terms@[k]@),
                    decreases terms.len() - i,
                {
                    if !crate::query::contains_ci(b, terms[i].as_str()) {
                        return false;
                    }
                    i += 1;
                }
                true
            },
        }
    }

    /// The snippet of the body stored for `path`, with 80 bytes of context.
    pub fn snippet_for(&self, path: &str, terms: &[String]) -> (r: Option<Snippet>)
        ensures
            match r {
                Some(s) => self@.contains_key(path@) && snippet_of(self@[path@], terms_view(terms@), 80)
                    == Some(snippet_view(s)),
                None => !self@.contains_key(path@) || snippet_of(self@[path@], terms_view(terms@), 80) is None,
            },
    {
        match self.body(path) {
            None => None,
            Some(b) => make_snippet(b, terms, 80),
        }
    }
}


impl ContentIndex {
    /// Forgets the body stored for `path`.
    #[verifier::spinoff_prover]
    pub fn remove(&mut self, path: &str)
        requires
            old(self).wf(),
        ensures
            final(self).wf(),
            final(self)@ == old(self)@.remove(path@),
            forall|w: Seq<char>| #[trigger] final(self).word_paths(w) == drop_path(old(self).word_paths(w), path@),
    {
        let ghost bv = bodies_view(self.bodies@);
        let ghost post0 = self.postings@;
        let words: Vec<String> = match self.bodies.get(path) {
            None => {
                assert(bv.remove(path@) =~= bv);
                proof {
                    assert forall|w: Seq<char>| #[trigger] self.word_paths(w) == drop_path(self.word_paths(w), path@) by {
                        self.lemma_unlisted(path@, w);
                        lemma_drop_path_absent(self.word_paths(w), path@);
                    }
                }
                return;
            },
            Some(b) => tokenize_words(b.as_str()),
        };
        let ghost p0 = path@;
        let ghost wv = strings_view(words@);
        let pc = chars_of(path);
        let mut j: usize = 0;
        assert(wv.take(0) =~= Seq::<Seq<char>>::empty());
        while j < words.len()
            invariant
                wv == strings_view(words@),
                forall|w: Seq<char>| #[trigger] listed(self.postings@, w) == if wv.take(j as int).contains(w) {
                    drop_path(listed(post0, w), p0)
                } else {
                    listed(post0, w)
                },
                j <= words.len(),
                pc@ == p0,
                bv == bodies_view(self.bodies@),
                bv.contains_key(p0),
                strings_view(words@) == words_of(bv[p0]),
                forall|w: Seq<char>, p: Seq<char>|
                    self.postings@.contains_key(w) && #[trigger] strings_view(self.postings@[w]@).contains(p) ==> has_word(bv, p, w),
                forall|w: Seq<char>, p: Seq<char>|
                    #[trigger] has_word(bv, p, w) && p != p0 ==> self.postings@.contains_key(w) && strings_view(self.postings@[w]@).contains(p),
                forall|w: Seq<char>| self.postings@.contains_key(w) ==> (#[trigger] strings_view(self.postings@[w]@)).no_duplicates(),
                forall|a: int| 0 <= a < j ==> !(self.postings@.contains_key(#[trigger] words@[a]@) && strings_view(self.postings@[words@[a]@]@).contains(p0)),
            decreases words.len() - j,
        {
            let ghost w = words@[j as int]@;
            let ghost before = self.postings@;
            let found: Option<Vec<String>> = match self.postings.get(words[j].as_str()) {
                Some(v) => Some(strings_without(v, &pc)),
                None => None,
            };
            assert(found matches Some(nv) ==> strings_view(nv@) == drop_path(listed(before, w), p0));
            assert(found is None ==> !before.contains_key(w));
            proof {
                assert(wv[j as int] == w);
                assert(wv.take(j + 1) =~= wv.take(j as int).push(w));
                assert(wv.take(j + 1)[j as int] == w);
                lemma_drop_path_twice(listed(post0, w), p0);
                assert forall|w2: Seq<char>| w2 != w implies (wv.take(j + 1).contains(w2) <==> wv.take(j as int).contains(w2)) by {
                    if wv.take(j + 1).contains(w2) {
                        let k = choose|k: int| 0 <= k < j + 1 && #[trigger] wv.take(j + 1)[k] == w2;
                        assert(wv.take(j as int)[k] == w2);
                    }
                    if wv.take(j as int).contains(w2) {
                        let k = choose|k: int| 0 <= k < j && #[trigger] wv.take(j as int)[k] == w2;
                        assert(wv.take(j + 1)[k] == w2);
                    }
                }
            }
            match found {
                Some(nv) => {
                    let ghost nvv = nv;
                    self.postings.insert(string_of(&chars_of(words[j].as_str())), nv);
                    proof {
                        assert(self.postings@ == before.insert(w, nvv));
                        assert forall|w2: Seq<char>| #[trigger] listed(self.postings@, w2) == if wv.take(j + 1).contains(w2) {
                            drop_path(listed(post0, w2), p0)
                        } else {
                            listed(post0, w2)
                        } by {
                            if w2 != w {
                                assert(listed(self.postings@, w2) == listed(before, w2));
                            } else {
                                assert(listed(self.postings@, w) == strings_view(nvv@));
                            }
                        }
                        assert forall|w2: Seq<char>, p: Seq<char>|
                            self.postings@.contains_key(w2) && #[trigger] strings_view(self.postings@[w2]@).contains(p) implies has_word(bv, p, w2) by {
                            if w2 == w {
                                assert(strings_view(before[w]@).contains(p));
                            }
                        }
                        assert forall|w2: Seq<char>, p: Seq<char>|
                            #[trigger] has_word(bv, p, w2) && p != p0 implies self.postings@.contains_key(w2) && strings_view(self.postings@[w2]@).contains(p) by {
                            if w2 == w {
                                assert(strings_view(before[w]@).contains(p));
                            }
                        }
                    }
                },
                None => {
                    proof {
                        assert(listed(before, w) =~= Seq::<Seq<char>>::empty());
                        assert(drop_path(Seq::<Seq<char>>::empty(), p0) =~= Seq::<Seq<char>>::empty());
                        assert forall|w2: Seq<char>| #[trigger] listed(self.postings@, w2) == if wv.take(j + 1).contains(w2) {
                            drop_path(listed(post0, w2), p0)
                        } else {
                            listed(post0, w2)
                        } by {
                            if w2 == w && !wv.take(j as int).contains(w) {
                                assert(listed(post0, w) =~= Seq::<Seq<char>>::empty());
                            }
                        }
                    }
                },
            }
            proof {
                assert forall|a: int| 0 <= a < j + 1 implies !(self.postings@.contains_key(#[trigger] words@[a]@) && strings_view(self.postings@[words@[a]@]@).contains(p0)) by {
                    if a < j && words@[a]@ != w {
                        assert(!(before.contains_key(words@[a]@) && strings_view(before[words@[a]@]@).contains(p0)));
                    }
                }
            }
            j += 1;
        }
        proof {
            assert(wv.take(j as int) =~= wv);
            assert forall|w: Seq<char>| #[trigger] listed(self.postings@, w) == drop_path(listed(post0, w), p0) by {
                if !wv.contains(w) {
                    if listed(post0, w).contains(p0) {
                        assert(has_word(bv, p0, w));
                    }
                    lemma_drop_path_absent(listed(post0, w), p0);
                }
            }
        }
        self.bodies.remove(path);
        proof {
            let nb = bodies_view(self.bodies@);
            assert(nb =~= bv.remove(p0));
            assert forall|w: Seq<char>, p: Seq<char>|
                self.postings@.contains_key(w) && #[trigger] strings_view(self.postings@[w]@).contains(p) implies has_word(nb, p, w) by {
                assert(has_word(bv, p, w));
                if p == p0 {
                    assert(words_of(bv[p0]).contains(w));
                    let a = choose|a: int| 0 <= a < words_of(bv[p0]).len() && #[trigger] words_of(bv[p0])[a] == w;
                    assert(words@[a]@ == w);
                }
            }
            assert forall|w: Seq<char>, p: Seq<char>| #[trigger] has_word(nb, p, w) implies self.postings@.contains_key(w)
                && strings_view(self.postings@[w]@).contains(p) by {
                assert(has_word(bv, p, w));
            }
        }
    }

    /// Stores `body` for `path`, replacing an earlier one, and indexes its
    /// words.
    #[verifier::spinoff_prover]
    pub fn index(&mut self, path: String, body: String)
        requires
            old(self).wf(),
        ensures
            final(self).wf(),
            final(self)@ == old(self)@.insert(path@, body@),
            forall|w: Seq<char>| #[trigger] final(self).word_paths(w) == index_paths(
                old(self).word_paths(w),
                path@,
                words_of(body@).contains(w),
            ),
    {
        self.remove(path.as_str());
        let ghost post1 = self.postings@;
        proof {
            assert forall|w: Seq<char>| #[trigger] listed(post1, w) == drop_path(old(self).word_paths(w), path@) by {
                assert(self.word_paths(w) == drop_path(old(self).word_paths(w), path@));
            }
        }
        let ghost bv = bodies_view(self.bodies@);
        let ghost p0 = path@;
        let ghost target = bv.insert(p0, body@);
        let words = tokenize_words(body.as_str());
        let pc = chars_of(path.as_str());
        proof {
            assert forall|w: Seq<char>, p: Seq<char>|
                self.postings@.contains_key(w) && #[trigger] strings_view(self.postings@[w]@).contains(p) implies has_word(target, p, w) by {
                assert(has_word(bv, p, w));
            }
        }
        let ghost wv = strings_view(words@);
        proof {
            assert forall|w: Seq<char>| !(#[trigger] listed(post1, w)).contains(p0) by {
                self.lemma_unlisted(p0, w);
            }
        }
        let mut j: usize = 0;
        assert(wv.take(0) =~= Seq::<Seq<char>>::empty());
        while j < words.len()
            invariant
                wv == strings_view(words@),
                forall|w: Seq<char>| !(#[trigger] listed(post1, w)).contains(p0),
                forall|w: Seq<char>| #[trigger] listed(self.postings@, w) == if wv.take(j as int).contains(w) {
                    listed(post1, w).push(p0)
                } else {
                    listed(post1, w)
                },
                j <= words.len(),
                pc@ == p0,
                bv == bodies_view(self.bodies@),
                !bv.contains_key(p0),
                target == bv.insert(p0, body@),
                strings_view(words@) == words_of(body@),
                forall|w: Seq<char>, p: Seq<char>|
                    self.postings@.contains_key(w) && #[trigger] strings_view(self.postings@[w]@).contains(p) ==> has_word(target, p, w),
                forall|w: Seq<char>, p: Seq<char>|
                    #[trigger] has_word(bv, p, w) ==> self.postings@.contains_key(w) && strings_view(self.postings@[w]@).contains(p),
                forall|w: Seq<char>| self.postings@.contains_key(w) ==> (#[trigger] strings_view(self.postings@[w]@)).no_duplicates(),
                forall|a: int| 0 <= a < j ==> self.postings@.contains_key(#[trigger] words@[a]@) && strings_view(self.postings@[words@[a]@]@).contains(p0),
            decreases words.len() - j,
        {
            let ghost w = words@[j as int]@;
            let ghost before = self.postings@;
            let mut bucket: Vec<String> = match self.postings.get(words[j].as_str()) {
                Some(v) => copy_strings(v),
                None => Vec::new(),
            };
            let ghost ob = strings_view(bucket@);
            assert(ob =~= (if before.contains_key(w) { strings_view(before[w]@) } else { Seq::<Seq<char>>::empty() }));
            if !contains_string(&bucket, &pc) {
                bucket.push(string_of(&pc));
                proof {
                    let nb = strings_view(bucket@);
                    assert(nb =~= ob.push(p0));
                    assert forall|a: int, b: int| 0 <= a < nb.len() && 0 <= b < nb.len() && a != b implies nb[a] != nb[b] by {
                        if a == nb.len() - 1 {
                            assert(ob.contains(nb[b]));
                        } else if b == nb.len() - 1 {
                            assert(ob.contains(nb[a]));
                        }
                    }
                }
            }
            let ghost nb = strings_view(bucket@);
            proof {
                assert(nb.contains(p0)) by {
                    if !ob.contains(p0) {
                        assert(nb[nb.len() - 1] == p0);
                    }
                }
                assert forall|x: Seq<char>| ob.contains(x) implies nb.contains(x) by {
                    let a = choose|a: int| 0 <= a < ob.len() && #[trigger] ob[a] == x;
                    assert(nb[a] == x);
                }
                assert forall|x: Seq<char>| nb.contains(x) implies ob.contains(x) || x == p0 by {
                    let a = choose|a: int| 0 <= a < nb.len() && #[trigger] nb[a] == x;
                    if a < ob.len() {
                        assert(ob[a] == x);
                    }
                }
            }
            let ghost bucket_v = bucket;
            proof {
                assert(ob == listed(before, w));
                assert(wv[j as int] == w);
                assert(wv.take(j + 1) =~= wv.take(j as int).push(w));
                assert(wv.take(j + 1)[j as int] == w);
                assert(!listed(post1, w).contains(p0));
                if wv.take(j as int).contains(w) {
                    assert(listed(post1, w).push(p0)[listed(post1, w).len() as int] == p0);
                    assert(ob.contains(p0));
                    assert(nb == ob);
                } else {
                    assert(!ob.contains(p0));
                    assert(nb =~= ob.push(p0));
                }
                assert forall|w2: Seq<char>| w2 != w implies (wv.take(j + 1).contains(w2) <==> wv.take(j as int).contains(w2)) by {
                    if wv.take(j + 1).contains(w2) {
                        let k = choose|k: int| 0 <= k < j + 1 && #[trigger] wv.take(j + 1)[k] == w2;
                        assert(wv.take(j as int)[k] == w2);
                    }
                    if wv.take(j as int).contains(w2) {
                        let k = choose|k: int| 0 <= k < j && #[trigger] wv.take(j as int)[k] == w2;
                        assert(wv.take(j + 1)[k] == w2);
                    }
                }
            }
            self.postings.insert(string_of(&chars_of(words[j].as_str())), bucket);
            proof {
                assert(self.postings@ == before.insert(w, bucket_v));
                assert forall|w2: Seq<char>| #[trigger] listed(self.postings@, w2) == if wv.take(j + 1).contains(w2) {
                    listed(post1, w2).push(p0)
                } else {
                    listed(post1, w2)
                } by {
                    if w2 != w {
                        assert(listed(self.postings@, w2) == listed(before, w2));
                    } else {
                        assert(listed(self.postings@, w) == nb);
                    }
                }
                assert(words_of(body@).contains(w)) by {
                    assert(words_of(body@)[j as int] == w);
                }
                assert forall|w2: Seq<char>, p: Seq<char>|
                    self.postings@.contains_key(w2) && #[trigger] strings_view(self.postings@[w2]@).contains(p) implies has_word(target, p, w2) by {
                    if w2 == w {
                        if p != p0 {
                            assert(ob.contains(p));
                            assert(strings_view(before[w]@).contains(p));
                        }
                    }
                }
                assert forall|w2: Seq<char>, p: Seq<char>| #[trigger] has_word(bv, p, w2) implies self.postings@.contains_key(w2)
                    && strings_view(self.postings@[w2]@).contains(p) by {
                    if w2 == w {
                        assert(strings_view(before[w]@).contains(p));
                    }
                }
                assert forall|w2: Seq<char>| self.postings@.contains_key(w2) implies (#[trigger] strings_view(self.postings@[w2]@)).no_duplicates() by {
                    if w2 != w {
                        assert(strings_view(before[w2]@).no_duplicates());
                    } else if before.contains_key(w) {
                        assert(strings_view(before[w]@).no_duplicates());
                    }
                }
                assert forall|a: int| 0 <= a < j + 1 implies self.postings@.contains_key(#[trigger] words@[a]@) && strings_view(self.postings@[words@[a]@]@).contains(p0) by {
                    if a < j && words@[a]@ != w {
                        assert(before.contains_key(words@[a]@) && strings_view(before[words@[a]@]@).contains(p0));
                    }
                }
            }
            j += 1;
        }
        proof {
            assert(wv.take(j as int) =~= wv);
            assert forall|w: Seq<char>| #[trigger] listed(self.postings@, w) == index_paths(
                old(self).word_paths(w),
                p0,
                words_of(body@).contains(w),
            ) by {
                assert(listed(post1, w) == drop_path(old(self).word_paths(w), path@));
            }
        }
        self.bodies.insert(path, body);
        proof {
            let nbv = bodies_view(self.bodies@);
            assert(nbv =~= target);
            assert forall|w: Seq<char>, p: Seq<char>| #[trigger] has_word(nbv, p, w) implies self.postings@.contains_key(w)
                && strings_view(self.postings@[w]@).contains(p) by {
                if p == p0 {
                    let a = choose|a: int| 0 <= a < words_of(body@).len() && #[trigger] words_of(body@)[a] == w;
                    assert(words@[a]@ == w);
                } else {
                    assert(has_word(bv, p, w));
                }
            }
        }
    }
}


/// A highlight is a range of whole characters of the snippet text.
pub open spec fn highlight_ok(text: Seq<char>, h: (int, int)) -> bool {
    is_boundary(text, h.0) && is_boundary(text, h.1) && h.0 <= h.1
}

proof fn lemma_highlights_from_ok(text: Seq<char>, sl: Seq<char>, t: Seq<char>, from: int)
    ensures
        forall|k: int|
            0 <= k < highlights_from(text, sl, t, from).len() ==> highlight_ok(
                text,
                #[trigger] highlights_from(text, sl, t, from)[k],
            ),
    decreases sl.len() + 1 - from,
{
    if t.len() > 0 && 0 <= from <= sl.len() {
        match find_from(sl, t, from) {
            None => {},
            Some(ci) => {
                lemma_find_from(sl, t, from);
                let rest = if ci + t.len() >= sl.len() {
                    Seq::<(int, int)>::empty()
                } else {
                    highlights_from(text, sl, t, ci + t.len())
                };
                if ci + t.len() < sl.len() {
                    lemma_highlights_from_ok(text, sl, t, ci + t.len());
                }
                lemma_offset_mono(sl, ci, ci + t.len());
                let h = highlights_from(text, sl, t, from);
                assert forall|k: int| 0 <= k < h.len() implies highlight_ok(text, #[trigger] h[k]) by {
                    let a = offset(sl, ci);
                    let b = offset(sl, ci + t.len());
                    if is_boundary(text, a) && is_boundary(text, b) {
                        if k > 0 {
                            assert(h[k] == rest[k - 1]);
                        }
                    } else {
                        assert(h[k] == rest[k]);
                    }
                }
            },
        }
    }
}

proof fn lemma_all_highlights_ok(text: Seq<char>, sl: Seq<char>, terms: Seq<Seq<char>>)
    ensures
        forall|k: int|
            0 <= k < all_highlights(text, sl, terms).len() ==> highlight_ok(
                text,
                #[trigger] all_highlights(text, sl, terms)[k],
            ),
    decreases terms.len(),
{
    if terms.len() > 0 {
        lemma_all_highlights_ok(text, sl, terms.drop_last());
        if terms.last().len() > 0 {
            let a = all_highlights(text, sl, terms.drop_last());
            let b = highlights_from(text, sl, unicode_lower(terms.last()), 0);
            lemma_highlights_from_ok(text, sl, unicode_lower(terms.last()), 0);
            assert(all_highlights(text, sl, terms) == a + b);
            assert forall|k: int| 0 <= k < (a + b).len() implies highlight_ok(text, #[trigger] (a + b)[k]) by {
                if k < a.len() {
                    assert((a + b)[k] == a[k]);
                } else {
                    assert((a + b)[k] == b[k - a.len()]);
                }
            }
        } else {
            assert(all_highlights(text, sl, terms) == all_highlights(text, sl, terms.drop_last()));
        }
    }
}

/// Every highlight of a snippet is an ordered pair of character boundaries
/// of the snippet text, so slicing the text by it is always valid.
pub proof fn law_highlights_in_text(body: Seq<char>, terms: Seq<Seq<char>>, ctx: int)
    requires
        snippet_of(body, terms, ctx) is Some,
    ensures
        ({
            let (text, hs) = snippet_of(body, terms, ctx)->0;
            forall|k: int| 0 <= k < hs.len() ==> highlight_ok(text, #[trigger] hs[k])
        }),
{
    let (text, hs) = snippet_of(body, terms, ctx)->0;
    lemma_all_highlights_ok(text, unicode_lower(text), terms);
}

proof fn lemma_highlights_from_has(text: Seq<char>, sl: Seq<char>, t: Seq<char>, from: int, ci: int)
    requires
        t.len() > 0,
        0 <= from <= ci,
        match_at(sl, t, ci),
        forall|c: int| 0 <= c && ci - t.len() < c < ci ==> !#[trigger] match_at(sl, t, c),
        is_boundary(text, offset(sl, ci)),
        is_boundary(text, offset(sl, ci + t.len())),
    ensures
        highlights_from(text, sl, t, from).contains((offset(sl, ci), offset(sl, ci + t.len()))),
    decreases ci - from,
{
    lemma_find_from(sl, t, from);
    let c = find_from(sl, t, from)->0;
    let h = (offset(sl, ci), offset(sl, ci + t.len()));
    let a = offset(sl, c);
    let b = offset(sl, c + t.len());
    if c == ci {
        let rest = if ci + t.len() >= sl.len() {
            Seq::<(int, int)>::empty()
        } else {
            highlights_from(text, sl, t, ci + t.len())
        };
        assert((seq![(a, b)] + rest)[0] == h);
    } else {
        assert(c + t.len() <= ci);
        lemma_highlights_from_has(text, sl, t, c + t.len(), ci);
        let rest = highlights_from(text, sl, t, c + t.len());
        let k = choose|k: int| 0 <= k < rest.len() && rest[k] == h;
        if is_boundary(text, a) && is_boundary(text, b) {
            assert((seq![(a, b)] + rest)[k + 1] == h);
        }
    }
}

proof fn lemma_all_highlights_has(text: Seq<char>, sl: Seq<char>, terms: Seq<Seq<char>>, i: int, h: (int, int))
    requires
        0 <= i < terms.len(),
        terms[i].len() > 0,
        highlights_from(text, sl, unicode_lower(terms[i]), 0).contains(h),
    ensures
        all_highlights(text, sl, terms).contains(h),
    decreases terms.len(),
{
    let a = all_highlights(text, sl, terms.drop_last());
    if i < terms.len() - 1 {
        assert(terms.drop_last()[i] == terms[i]);
        lemma_all_highlights_has(text, sl, terms.drop_last(), i, h);
        let k = choose|k: int| 0 <= k < a.len() && a[k] == h;
        if terms.last().len() > 0 {
            let b = highlights_from(text, sl, unicode_lower(terms.last()), 0);
            assert((a + b)[k] == h);
        }
    } else {
        let b = highlights_from(text, sl, unicode_lower(terms.last()), 0);
        let k = choose|k: int| 0 <= k < b.len() && b[k] == h;
        assert((a + b)[a.len() + k] == h);
    }
}

/// Every term is highlighted wherever it occurs in the snippet text: each
/// occurrence (compared in lowercase) of each non-empty term that does not
/// overlap an earlier occurrence of the same term, and that starts and
/// ends on character boundaries of the text, is among the highlights, as
/// its byte range.
pub proof fn law_every_term_occurrence_highlighted(
    body: Seq<char>,
    terms: Seq<Seq<char>>,
    ctx: int,
    i: int,
    ci: int,
)
    requires
        snippet_of(body, terms, ctx) is Some,
        0 <= i < terms.len(),
        terms[i].len() > 0,
    ensures
        ({
            let (text, hs) = snippet_of(body, terms, ctx)->0;
            let sl = unicode_lower(text);
            let t = unicode_lower(terms[i]);
            (t.len() > 0 && 0 <= ci && ci + t.len() <= sl.len() && sl.subrange(ci, ci + t.len()) == t
                && (forall|c: int|
                0 <= c && ci - t.len() < c < ci ==> #[trigger] sl.subrange(c, c + t.len()) != t)
                && is_boundary(text, offset(sl, ci)) && is_boundary(text, offset(sl, ci + t.len())))
                ==> hs.contains((offset(sl, ci), offset(sl, ci + t.len())))
        }),
{
    let (text, hs) = snippet_of(body, terms, ctx)->0;
    let sl = unicode_lower(text);
    let t = unicode_lower(terms[i]);
    if t.len() > 0 && 0 <= ci && ci + t.len() <= sl.len() && sl.subrange(ci, ci + t.len()) == t
        && (forall|c: int| 0 <= c && ci - t.len() < c < ci ==> #[trigger] sl.subrange(c, c + t.len()) != t)
        && is_boundary(text, offset(sl, ci)) && is_boundary(text, offset(sl, ci + t.len())) {
        assert forall|c: int| 0 <= c && ci - t.len() < c < ci implies !#[trigger] match_at(sl, t, c) by {
            assert(sl.subrange(c, c + t.len()) != t);
        }
        lemma_highlights_from_has(text, sl, t, 0, ci);
        lemma_all_highlights_has(text, sl, terms, i, (offset(sl, ci), offset(sl, ci + t.len())));
    }
}

/// After a body is indexed for a path, looking a word up finds that path
/// exactly when the body holds the word; after the path is removed, no
/// word finds it.
pub proof fn law_index_then_lookup(
    bodies: Map<Seq<char>, Seq<char>>,
    path: Seq<char>,
    body: Seq<char>,
    w: Seq<char>,
)
    ensures
        has_word(bodies.insert(path, body), path, w) <==> words_of(body).contains(w),
        !has_word(bodies.remove(path), path, w),
{
}

/// Removing a path just indexed into an index that had no body for it
/// gives the index back as it was: the same bodies, and every word lists
/// the same paths in the same order.
pub proof fn law_remove_undoes_index(
    i0: ContentIndex,
    i1: ContentIndex,
    i2: ContentIndex,
    p: Seq<char>,
    b: Seq<char>,
)
    requires
        i0.wf(),
        !i0@.contains_key(p),
        i1@ == i0@.insert(p, b),
        forall|w: Seq<char>| #[trigger] i1.word_paths(w) == index_paths(i0.word_paths(w), p, words_of(b).contains(w)),
        i2@ == i1@.remove(p),
        forall|w: Seq<char>| #[trigger] i2.word_paths(w) == drop_path(i1.word_paths(w), p),
    ensures
        i2@ == i0@,
        forall|w: Seq<char>| #[trigger] i2.word_paths(w) == i0.word_paths(w),
{
    assert(i2@ =~= i0@);
    assert forall|w: Seq<char>| #[trigger] i2.word_paths(w) == i0.word_paths(w) by {
        let l = i0.word_paths(w);
        i0.lemma_unlisted(p, w);
        lemma_drop_path_absent(l, p);
        assert(i1.word_paths(w) == index_paths(l, p, words_of(b).contains(w)));
        if words_of(b).contains(w) {
            assert(l.push(p).drop_last() =~= l);
            assert(drop_path(l.push(p), p) == drop_path(l, p));
        }
    }
}

} // verus!
