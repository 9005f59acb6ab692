//! Korean natural-language queries: date words (`지난주`, `오늘`, `어제`,
//! `이번달`, `올해`, `최근`), type words (`사진`, `문서`, ...) and bare
//! extensions, mixed with plain terms.  Input with query operators goes to
//! the query language instead.

use vstd::prelude::*;
use crate::query::{
    atoms_view, empty_query, ext_list, minus, op_of, op_of_exec, parse_query, plain_pattern,
    query_of, skip_dots, strings_view, term_kind_of, tokenize_chars, tokens_of, Atom, AtomSpec,
    Pattern, Query, QuerySpec,
};
use crate::text::{
    chars_eq, chars_of, contains_exec, contains_seq, lower_ascii, lower_ascii_vec, slice_chars, starts_with_ci,
    starts_with_ci_exec, string_of, to_lowercase_vec, trim, trim_exec, unicode_lower,
};

verus! {

/// Date words: seconds back for the start of the window, and for its end
/// (0 when the window is open-ended).
pub open spec fn window_word(l: Seq<char>) -> Option<(u64, u64)> {
    if l == "지난주"@ || l == "지난주일"@ || l == "최근"@ || l == "일주일"@ {
        Some((604800, 0))
    } else if l == "오늘"@ {
        Some((86400, 0))
    } else if l == "어제"@ {
        Some((172800, 86400))
    } else if l == "이번달"@ {
        Some((2592000, 0))
    } else if l == "올해"@ {
        Some((31536000, 0))
    } else {
        None
    }
}

/// Type words and the extensions they add.
pub open spec fn type_word(l: Seq<char>) -> Option<Seq<Seq<char>>> {
    if l == "사진"@ || l == "이미지"@ {
        Some(seq!["png"@, "jpg"@, "jpeg"@])
    } else if l == "동영상"@ || l == "영상"@ {
        Some(seq!["mp4"@, "mkv"@, "webm"@])
    } else if l == "음악"@ {
        Some(seq!["mp3"@, "wav"@, "flac"@])
    } else if l == "문서"@ {
        Some(seq!["docx"@, "pdf"@])
    } else if l == "스프레드시트"@ {
        Some(seq!["xlsx"@])
    } else if l == "슬라이드"@ {
        Some(seq!["pptx"@])
    } else {
        None
    }
}

/// Extensions that, written alone, filter by type.
pub open spec fn known_exts() -> Seq<Seq<char>> {
    seq![
        "pdf"@, "txt"@, "md"@, "html"@, "htm"@, "docx"@, "xlsx"@, "pptx"@, "png"@, "jpg"@,
        "jpeg"@, "gif"@, "rs"@, "py"@, "js"@, "ts"@, "json"@, "xml"@, "csv"@, "zip"@, "log"@,
    ]
}

pub open spec fn apply_window(q: QuerySpec, w: (u64, u64), now: u64) -> QuerySpec {
    QuerySpec {
        modified_after: minus(now, w.0),
        modified_before: if w.1 > 0 {
            minus(now, w.1)
        } else {
            q.modified_before
        },
        ..q
    }
}

/// Adds an extension unless it is already there.
pub open spec fn push_ext(q: QuerySpec, e: Seq<char>) -> QuerySpec {
    if q.extensions.contains(e) {
        q
    } else {
        QuerySpec { extensions: q.extensions.push(e), ..q }
    }
}

pub open spec fn push_exts(q: QuerySpec, es: Seq<Seq<char>>) -> QuerySpec
    decreases es.len(),
{
    if es.len() == 0 {
        q
    } else {
        push_ext(push_exts(q, es.drop_last()), es.last())
    }
}

/// `size:` and `dm:` tokens fill what is not set yet.
pub open spec fn fill_from(q: QuerySpec, p: QuerySpec) -> QuerySpec {
    QuerySpec {
        size: if q.size is None {
            p.size
        } else {
            q.size
        },
        modified_after: if q.modified_after is None {
            p.modified_after
        } else {
            q.modified_after
        },
        modified_before: if q.modified_before is None {
            p.modified_before
        } else {
            q.modified_before
        },
        ..q
    }
}

/// What a token that is neither a date word nor a date phrase does.
pub open spec fn nl_word(q: QuerySpec, t: Seq<char>, now: u64) -> QuerySpec {
    nl_word_lowered(q, t, unicode_lower(t), now)
}

/// `nl_word` for token `t` whose lowercase form is `l`.
pub open spec fn nl_word_lowered(q: QuerySpec, t: Seq<char>, l: Seq<char>, now: u64) -> QuerySpec {
    if type_word(l) is Some {
        push_exts(q, type_word(l)->0)
    } else if starts_with_ci(t, "ext:"@) {
        QuerySpec { extensions: ext_list(t.skip("ext:"@.len() as int)), ..q }
    } else if starts_with_ci(t, "size:"@) || starts_with_ci(t, "dm:"@) {
        fill_from(q, query_of(t, now))
    } else if known_exts().contains(lower_ascii(skip_dots(t))) {
        push_ext(q, lower_ascii(skip_dots(t)))
    } else {
        QuerySpec { must: q.must.push(AtomSpec::Term(plain_pattern(t))), ..q }
    }
}

/// One step over token `i`: the new query and how many tokens were used.
pub open spec fn nl_step(q: QuerySpec, toks: Seq<Seq<char>>, i: int, now: u64) -> (QuerySpec, int) {
    nl_step_lowered(q, toks, i, unicode_lower(toks[i]), now)
}

/// `nl_step` when the lowercase form of token `i` is `l`.
pub open spec fn nl_step_lowered(q: QuerySpec, toks: Seq<Seq<char>>, i: int, l: Seq<char>, now: u64) -> (QuerySpec, int) {
    let t = toks[i];
    let next_is = |w: Seq<char>| i + 1 < toks.len() && toks[i + 1] == w;
    if window_word(l) is Some {
        (apply_window(q, window_word(l)->0, now), 1)
    } else if l == "지난"@ && next_is("주"@) {
        (apply_window(q, (604800, 0), now), 2)
    } else if l == "이번"@ && next_is("달"@) {
        (apply_window(q, (2592000, 0), now), 2)
    } else {
        (nl_word_lowered(q, t, l, now), 1)
    }
}

pub open spec fn nl_from(q: QuerySpec, toks: Seq<Seq<char>>, i: int, now: u64) -> QuerySpec
    decreases toks.len() - i,
{
    if i < 0 || i >= toks.len() {
        q
    } else {
        let (q2, k) = nl_step(q, toks, i, now);
        if k >= 1 {
            nl_from(q2, toks, i + k, now)
        } else {
            q2
        }
    }
}

/// Filter spellings that, found anywhere in the input (ASCII case
/// ignored), send it to the query language.
pub open spec fn has_filter_text(s: Seq<char>) -> bool {
    let l = lower_ascii(s);
    contains_seq(l, "ext:"@) || contains_seq(l, "size:"@) || contains_seq(l, "dm:"@)
        || contains_seq(l, "attrib:"@)
}

/// The input uses the query language: `|`, `!`, `ext:`, `size:`, `dm:` or
/// `attrib:` anywhere, or a token starting with an operator or a term kind.
pub open spec fn looks_structured(s: Seq<char>) -> bool {
    s.contains('|') || s.contains('!') || has_filter_text(s) || exists|i: int|
        0 <= i < tokens_of(s).len() && (op_of(#[trigger] tokens_of(s)[i]) is Some || term_kind_of(
            tokens_of(s)[i],
        ) is Some)
}

/// The query a natural-language input means at time `now`.
pub open spec fn nl_query(input: Seq<char>, now: u64) -> QuerySpec {
    let t = trim(input);
    if t.len() == 0 {
        empty_query()
    } else if looks_structured(t) {
        query_of(t, now)
    } else {
        nl_from(empty_query(), tokens_of(t), 0, now)
    }
}

fn contains_char_exec(s: &Vec<char>, c: char) -> (r: bool)
    ensures
        r == s@.contains(c),
{
    let mut i: usize = 0;
    while i < s.len()
        invariant
            i <= s.len(),
            forall|k: int| 0 <= k < i ==> s@[k] != c,
        decreases s.len() - i,
    {
        if s[i] == c {
            assert(s@[i as int] == c);
            return true;
        }
        i += 1;
    }
    false
}

fn looks_structured_exec(s: &Vec<char>) -> (r: bool)
    ensures
        r == looks_structured(s@),
{
    if contains_char_exec(s, '|') || contains_char_exec(s, '!') {
        return true;
    }
    let l = lower_ascii_vec(s);
    if contains_exec(&l, &chars_of("ext:")) || contains_exec(&l, &chars_of("size:")) || contains_exec(
        &l,
        &chars_of("dm:"),
    ) || contains_exec(&l, &chars_of("attrib:")) {
        return true;
    }
    let toks = tokenize_chars(s);
    let ghost tv = toks@.map_values(|v: Vec<char>| v@);
    let mut i: usize = 0;
    while i < toks.len()
        invariant
            i <= toks.len(),
            tv == toks@.map_values(|v: Vec<char>| v@),
            tv == tokens_of(s@),
            forall|k: int| 0 <= k < i ==> !(op_of(#[trigger] tv[k]) is Some || term_kind_of(tv[k]) is Some),
        decreases toks.len() - i,
    {
        assert(tv[i as int] == toks@[i as int]@);
        if op_of_exec(&toks[i]).is_some() || crate::query::term_kind_of_exec(&toks[i]).is_some() {
            return true;
        }
        i += 1;
    }
    false
}

fn window_word_exec(l: &Vec<char>) -> (r: Option<(u64, u64)>)
    ensures
        r == window_word(l@),
{
    if chars_eq(l, &chars_of("지난주")) || chars_eq(l, &chars_of("지난주일")) || chars_eq(
        l,
        &chars_of("최근"),
    ) || chars_eq(l, &chars_of("일주일")) {
        Some((604800, 0))
    } else if chars_eq(l, &chars_of("오늘")) {
        Some((86400, 0))
    } else if chars_eq(l, &chars_of("어제")) {
        Some((172800, 86400))
    } else if chars_eq(l, &chars_of("이번달")) {
        Some((2592000, 0))
    } else if chars_eq(l, &chars_of("올해")) {
        Some((31536000, 0))
    } else {
        None
    }
}

fn strings_from(words: &[&str]) -> (r: Vec<String>)
    ensures
        r.len() == words@.len(),
        forall|k: int| 0 <= k < r.len() ==> #[trigger] r@[k]@ == words@[k]@,
{
    let mut r: Vec<String> = Vec::new();
    let mut k: usize = 0;
    while k < words.len()
        invariant
            k <= words.len(),
            r.len() == k,
            forall|j: int| 0 <= j < k ==> #[trigger] r@[j]@ == words@[j]@,
        decreases words.len() - k,
    {
        r.push(words[k].to_owned());
        k += 1;
    }
    r
}

fn type_word_exec(l: &Vec<char>) -> (r: Option<Vec<String>>)
    ensures
        match r {
            Some(v) => type_word(l@) == Some(strings_view(v@)),
            None => type_word(l@) is None,
        },
{
    let r = if chars_eq(l, &chars_of("사진")) || chars_eq(l, &chars_of("이미지")) {
        Some(strings_from(&["png", "jpg", "jpeg"]))
    } else if chars_eq(l, &chars_of("동영상")) || chars_eq(l, &chars_of("영상")) {
        Some(strings_from(&["mp4", "mkv", "webm"]))
    } else if chars_eq(l, &chars_of("음악")) {
        Some(strings_from(&["mp3", "wav", "flac"]))
    } else if chars_eq(l, &chars_of("문서")) {
        Some(strings_from(&["docx", "pdf"]))
    } else if chars_eq(l, &chars_of("스프레드시트")) {
        Some(strings_from(&["xlsx"]))
    } else if chars_eq(l, &chars_of("슬라이드")) {
        Some(strings_from(&["pptx"]))
    } else {
        None
    };
    match &r {
        Some(v) => {
            assert(type_word(l@)->0 =~= strings_view(v@));
        },
        None => {},
    }
    r
}

fn known_ext_exec(e: &Vec<char>) -> (r: bool)
    ensures
        r == known_exts().contains(e@),
{
    let list = strings_from(
        &[
            "pdf", "txt", "md", "html", "htm", "docx", "xlsx", "pptx", "png", "jpg", "jpeg", "gif",
            "rs", "py", "js", "ts", "json", "xml", "csv", "zip", "log",
        ],
    );
    assert(strings_view(list@) =~= known_exts());
    let mut i: usize = 0;
    while i < list.len()
        invariant
            i <= list.len(),
            strings_view(list@) == known_exts(),
            forall|k: int| 0 <= k < i ==> #[trigger] known_exts()[k] != e@,
        decreases list.len() - i,
    {
        assert(known_exts()[i as int] == list@[i as int]@);
        if chars_eq(&chars_of(list[i].as_str()), e) {
            return true;
        }
        i += 1;
    }
    false
}

fn push_ext_exec(q: &mut Query, e: &Vec<char>)
    ensures
        final(q)@ == push_ext(old(q)@, e@),
{
    let mut i: usize = 0;
    while i < q.extensions.len()
        invariant
            i <= q.extensions.len(),
            forall|k: int| 0 <= k < i ==> #[trigger] q.extensions@[k]@ != e@,
        decreases q.extensions.len() - i,
    {
        if chars_eq(&chars_of(q.extensions[i].as_str()), e) {
            assert(strings_view(q.extensions@)[i as int] == e@);
            return;
        }
        i += 1;
    }
    assert(!strings_view(q.extensions@).contains(e@)) by {
        if strings_view(q.extensions@).contains(e@) {
            let k = choose|k: int| 0 <= k < q.extensions@.len() && #[trigger] strings_view(q.extensions@)[k] == e@;
            assert(q.extensions@[k]@ == e@);
        }
    }
    let ghost before = strings_view(q.extensions@);
    q.extensions.push(string_of(e));
    assert(strings_view(q.extensions@) =~= before.push(e@));
}

fn push_exts_exec(q: &mut Query, es: &Vec<String>)
    ensures
        final(q)@ == push_exts(old(q)@, strings_view(es@)),
{
    let ghost ev = strings_view(es@);
    let ghost q0 = q@;
    let mut i: usize = 0;
    assert(ev.take(0) =~= Seq::<Seq<char>>::empty());
    while i < es.len()
        invariant
            i <= es.len(),
            ev == strings_view(es@),
            q@ == push_exts(q0, ev.take(i as int)),
        decreases es.len() - i,
    {
        assert(ev.take(i + 1).drop_last() =~= ev.take(i as int));
        assert(ev[i as int] == es@[i as int]@);
        push_ext_exec(q, &chars_of(es[i].as_str()));
        i += 1;
    }
    assert(ev.take(i as int) =~= ev);
}

fn nl_step_exec(q: &mut Query, toks: &Vec<Vec<char>>, i: usize, now: u64) -> (k: usize)
    requires
        i < toks.len(),
    ensures
        (final(q)@, k as int) == nl_step(old(q)@, toks@.map_values(|v: Vec<char>| v@), i as int, now),
{
    let ghost tv = toks@.map_values(|v: Vec<char>| v@);
    assert(tv[i as int] == toks@[i as int]@);
    let l = to_lowercase_vec(&toks[i]);
    nl_step_with_lower(q, toks, i, &l, now)
}

/// One natural-language step over token `i`, given the token's lowercase
/// form `l`: a date word or phrase sets the window, anything else goes to
/// `nl_word_with_lower`; returns how many tokens were used.
#[verifier::spinoff_prover]
pub fn nl_step_with_lower(q: &mut Query, toks: &Vec<Vec<char>>, i: usize, l: &Vec<char>, now: u64) -> (k: usize)
    requires
        i < toks.len(),
    ensures
        (final(q)@, k as int) == nl_step_lowered(old(q)@, toks@.map_values(|v: Vec<char>| v@), i as int, l@, now),
{
    let ghost tv = toks@.map_values(|v: Vec<char>| v@);
    assert(tv[i as int] == toks@[i as int]@);
    let t = &toks[i];
    let next_is = |w: &Vec<char>| -> (r: bool)
        ensures
            r == (i + 1 < toks.len() && toks@[i + 1]@ == w@),
        {
            i + 1 < toks.len() && chars_eq(&toks[i + 1], w)
        };
    match window_word_exec(l) {
        Some(w) => {
            q.modified_after = crate::query::minus_exec(now, w.0);
            if w.1 > 0 {
                q.modified_before = crate::query::minus_exec(now, w.1);
            }
            return 1;
        },
        None => {},
    }
    if i + 1 < toks.len() {
        assert(tv[i + 1] == toks@[i + 1]@);
    }
    if chars_eq(l, &chars_of("지난")) && next_is(&chars_of("주")) {
        q.modified_after = crate::query::minus_exec(now, 604800);
        return 2;
    }
    if chars_eq(l, &chars_of("이번")) && next_is(&chars_of("달")) {
        q.modified_after = crate::query::minus_exec(now, 2592000);
        return 2;
    }
    nl_word_with_lower(q, t, l, now);
    1
}

/// What a token that is neither a date word nor a date phrase does, given
/// its lowercase form `l`: a type word adds its extensions, a bare known
/// extension adds itself, anything else is a plain term.
#[verifier::spinoff_prover]
pub fn nl_word_with_lower(q: &mut Query, t: &Vec<char>, l: &Vec<char>, now: u64)
    ensures
        final(q)@ == nl_word_lowered(old(q)@, t@, l@, now),
{
    match type_word_exec(l) {
        Some(es) => {
            push_exts_exec(q, &es);
            return;
        },
        None => {},
    }
    let ext_p = chars_of("ext:");
    if starts_with_ci_exec(t, &ext_p) {
        let rest = slice_chars(t, ext_p.len(), t.len());
        assert(rest@ =~= t@.skip("ext:"@.len() as int));
        q.extensions = crate::query::ext_list_exec(&rest);
        return;
    }
    if starts_with_ci_exec(t, &chars_of("size:")) || starts_with_ci_exec(t, &chars_of("dm:")) {
        let p = parse_query(string_of(t).as_str(), now);
        if q.size.is_none() {
            q.size = p.size;
        }
        if q.modified_after.is_none() {
            q.modified_after = p.modified_after;
        }
        if q.modified_before.is_none() {
            q.modified_before = p.modified_before;
        }
        return;
    }
    let e = lower_ascii_vec(&crate::query::skip_dots_exec(t));
    if known_ext_exec(&e) {
        push_ext_exec(q, &e);
        return;
    }
    let ghost before = atoms_view(q.must@);
    let raw = string_of(t);
    q.must.push(Atom::Term(Pattern::new(raw.as_str())));
    assert(atoms_view(q.must@) =~= before.push(AtomSpec::Term(plain_pattern(t@))));
}

/// Compiles an input that may be Korean natural language, the query
/// language, or a mix, at time `now` (seconds since the epoch).
pub fn compile_nl(input: &str, now: u64) -> (q: Query)
    ensures
        q@ == nl_query(input@, now),
{
    let t = trim_exec(&chars_of(input));
    if t.len() == 0 {
        return Query::default();
    }
    if looks_structured_exec(&t) {
        return parse_query(string_of(&t).as_str(), now);
    }
    let toks = tokenize_chars(&t);
    let ghost tv = toks@.map_values(|v: Vec<char>| v@);
    let mut q = Query::default();
    let mut i: usize = 0;
    while i < toks.len()
        invariant
            i <= toks.len(),
            tv == toks@.map_values(|v: Vec<char>| v@),
            tv == tokens_of(t@),
            t@ == trim(input@),
            nl_query(input@, now) == nl_from(q@, tv, i as int, now),
        decreases toks.len() - i,
    {
        let k = nl_step_exec(&mut q, &toks, i, now);
        i = i + k;
    }
    q
}

proof fn lemma_push_ext_has(q: QuerySpec, e: Seq<char>)
    ensures
        push_ext(q, e) == (QuerySpec { extensions: push_ext(q, e).extensions, ..q }),
        forall|x: Seq<char>|
            push_ext(q, e).extensions.contains(x) <==> (q.extensions.contains(x) || x == e),
{
    if !q.extensions.contains(e) {
        assert forall|x: Seq<char>|
            push_ext(q, e).extensions.contains(x) <==> (q.extensions.contains(x) || x == e) by {
            let v = q.extensions.push(e);
            if x == e {
                assert(v[v.len() - 1] == e);
            }
            if v.contains(x) && x != e {
                let k = choose|k: int| 0 <= k < v.len() && v[k] == x;
                assert(q.extensions[k] == x);
            }
            if q.extensions.contains(x) {
                let k = choose|k: int| 0 <= k < q.extensions.len() && q.extensions[k] == x;
                assert(v[k] == x);
            }
        }
    }
}

/// The image words `사진` and `이미지` (in any letter case) are one and
/// the same filter: each uses one token and only adds the extensions png,
/// jpg and jpeg to the query; no search term is added and nothing else
/// changes.
pub proof fn law_image_words_filter_by_type(q: QuerySpec, toks: Seq<Seq<char>>, i: int, now: u64)
    requires
        0 <= i < toks.len(),
        unicode_lower(toks[i]) == "사진"@ || unicode_lower(toks[i]) == "이미지"@,
    ensures
        nl_step(q, toks, i, now).1 == 1,
        nl_step(q, toks, i, now).0 == (QuerySpec { extensions: nl_step(q, toks, i, now).0.extensions, ..q }),
        forall|x: Seq<char>|
            #[trigger] nl_step(q, toks, i, now).0.extensions.contains(x) <==> (q.extensions.contains(x)
                || x == "png"@ || x == "jpg"@ || x == "jpeg"@),
{
    reveal_strlit("사진");
    reveal_strlit("이미지");
    reveal_strlit("지난주");
    reveal_strlit("지난주일");
    reveal_strlit("최근");
    reveal_strlit("일주일");
    reveal_strlit("오늘");
    reveal_strlit("어제");
    reveal_strlit("이번달");
    reveal_strlit("올해");
    reveal_strlit("지난");
    reveal_strlit("이번");
    let l = unicode_lower(toks[i]);
    assert(l[0] == '사' || l[0] == '이');
    assert(l.len() == 2 || l[1] == '미');
    assert(l != "최근"@ && l != "오늘"@ && l != "어제"@ && l != "지난"@ && l != "이번"@ && l != "지난주"@
        && l != "이번달"@ && l != "일주일"@ && l != "지난주일"@ && l != "올해"@) by {
        assert("최근"@[0] == '최' && "오늘"@[0] == '오' && "어제"@[0] == '어' && "지난"@[0] == '지');
        assert("이번"@[1] == '번' && "지난주"@[0] == '지' && "이번달"@[1] == '번' && "일주일"@[0] == '일');
        assert("올해"@[0] == '올');
    }
    assert(window_word(l) is None);
    assert(l != "지난"@ && l != "이번"@);
    assert(type_word(l) == Some(seq!["png"@, "jpg"@, "jpeg"@]));
    let es = seq!["png"@, "jpg"@, "jpeg"@];
    assert(es.drop_last().drop_last().drop_last() =~= Seq::<Seq<char>>::empty());
    assert(es.drop_last().drop_last() =~= seq!["png"@]);
    assert(es.drop_last() =~= seq!["png"@, "jpg"@]);
    let q1 = push_exts(q, es.drop_last().drop_last());
    let q2 = push_exts(q, es.drop_last());
    let q3 = push_exts(q, es);
    assert(push_exts(q, es.drop_last().drop_last().drop_last()) == q);
    lemma_push_ext_has(q, "png"@);
    lemma_push_ext_has(q1, "jpg"@);
    lemma_push_ext_has(q2, "jpeg"@);
    assert(nl_step(q, toks, i, now) == (q3, 1int));
}

/// The video words `동영상` and `영상` (in any letter case) are one and
/// the same filter: each uses one token and only adds the extensions mp4,
/// mkv and webm to the query; no search term is added and nothing else
/// changes.
pub proof fn law_video_words_filter_by_type(q: QuerySpec, toks: Seq<Seq<char>>, i: int, now: u64)
    requires
        0 <= i < toks.len(),
        unicode_lower(toks[i]) == "동영상"@ || unicode_lower(toks[i]) == "영상"@,
    ensures
        nl_step(q, toks, i, now).1 == 1,
        nl_step(q, toks, i, now).0 == (QuerySpec { extensions: nl_step(q, toks, i, now).0.extensions, ..q }),
        forall|x: Seq<char>|
            #[trigger] nl_step(q, toks, i, now).0.extensions.contains(x) <==> (q.extensions.contains(x)
                || x == "mp4"@ || x == "mkv"@ || x == "webm"@),
{
    reveal_strlit("동영상");
    reveal_strlit("영상");
    reveal_strlit("사진");
    reveal_strlit("이미지");
    reveal_strlit("지난주");
    reveal_strlit("지난주일");
    reveal_strlit("최근");
    reveal_strlit("일주일");
    reveal_strlit("오늘");
    reveal_strlit("어제");
    reveal_strlit("이번달");
    reveal_strlit("올해");
    reveal_strlit("지난");
    reveal_strlit("이번");
    let l = unicode_lower(toks[i]);
    assert(l[0] == '동' || l[0] == '영');
    assert(l != "최근"@ && l != "오늘"@ && l != "어제"@ && l != "지난"@ && l != "이번"@ && l != "지난주"@
        && l != "이번달"@ && l != "일주일"@ && l != "지난주일"@ && l != "올해"@ && l != "사진"@
        && l != "이미지"@) by {
        assert("최근"@[0] == '최' && "오늘"@[0] == '오' && "어제"@[0] == '어' && "지난"@[0] == '지');
        assert("이번"@[0] == '이' && "지난주"@[0] == '지' && "이번달"@[0] == '이' && "일주일"@[0] == '일');
        assert("올해"@[0] == '올' && "지난주일"@[0] == '지' && "사진"@[0] == '사' && "이미지"@[0] == '이');
    }
    assert(window_word(l) is None);
    assert(type_word(l) == Some(seq!["mp4"@, "mkv"@, "webm"@]));
    let es = seq!["mp4"@, "mkv"@, "webm"@];
    assert(es.drop_last().drop_last().drop_last() =~= Seq::<Seq<char>>::empty());
    assert(es.drop_last().drop_last() =~= seq!["mp4"@]);
    assert(es.drop_last() =~= seq!["mp4"@, "mkv"@]);
    let q1 = push_exts(q, es.drop_last().drop_last());
    let q2 = push_exts(q, es.drop_last());
    let q3 = push_exts(q, es);
    assert(push_exts(q, es.drop_last().drop_last().drop_last()) == q);
    lemma_push_ext_has(q, "mp4"@);
    lemma_push_ext_has(q1, "mkv"@);
    lemma_push_ext_has(q2, "webm"@);
    assert(nl_step(q, toks, i, now) == (q3, 1int));
}

} // verus!
