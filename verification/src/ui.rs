//! Decisions of the search window: reading its content-folder field, which
//! result a key acts on, which selection survives a new query, whether a
//! result shows as an image, and how a snippet is cut into plain and
//! highlighted pieces.  Drawing is done by the caller.

use vstd::prelude::*;
pub use crate::engine::apply_config_to_fields;
use crate::engine::join_with;
use crate::path::{path_extension, path_extension_exec};
use crate::query::strings_view;
use crate::text::{
    chars_eq, chars_of, lower_ascii, lower_ascii_vec, split_exec, split_on, string_of, trim,
    trim_exec,
};

verus! {

broadcast use vstd::seq_lib::group_to_multiset_ensures;

// ---------------------------------------------------------------------------
// The content-folder field
// ---------------------------------------------------------------------------

/// The trimmed pieces of `ps` that are not empty, in order.
pub open spec fn nonempty_trimmed(ps: Seq<Seq<char>>) -> Seq<Seq<char>>
    decreases ps.len(),
{
    if ps.len() == 0 {
        Seq::empty()
    } else if trim(ps.last()).len() > 0 {
        nonempty_trimmed(ps.drop_last()).push(trim(ps.last()))
    } else {
        nonempty_trimmed(ps.drop_last())
    }
}

/// The folders a `;`-separated field names: each piece trimmed, empty
/// pieces dropped.
pub open spec fn root_list(field: Seq<char>) -> Seq<Seq<char>> {
    nonempty_trimmed(split_on(field, ';'))
}

/// The content folders typed into the window's content field.
pub fn split_content_roots(field: &str) -> (r: Vec<String>)
    ensures
        strings_view(r@) == root_list(field@),
{
    let pieces = split_exec(&chars_of(field), ';');
    let ghost pv = pieces@.map_values(|v: Vec<char>| v@);
    let mut out: Vec<String> = Vec::new();
    let mut i: usize = 0;
    assert(pv.take(0) =~= Seq::<Seq<char>>::empty());
    assert(strings_view(out@) =~= Seq::<Seq<char>>::empty());
    while i < pieces.len()
        invariant
            i <= pieces.len(),
            pv == pieces@.map_values(|v: Vec<char>| v@),
            pv == split_on(field@, ';'),
            strings_view(out@) == nonempty_trimmed(pv.take(i as int)),
        decreases pieces.len() - i,
    {
        assert(pv.take(i + 1).drop_last() =~= pv.take(i as int));
        assert(pv[i as int] == pieces@[i as int]@);
        let t = trim_exec(&pieces[i]);
        if t.len() > 0 {
            let ghost before = strings_view(out@);
            out.push(string_of(&t));
            assert(strings_view(out@) =~= before.push(t@));
        }
        i += 1;
    }
    assert(pv.take(i as int) =~= pv);
    out
}

proof fn lemma_split_no_sep(b: Seq<char>, sep: char)
    requires
        !b.contains(sep),
    ensures
        split_on(b, sep) == seq![b],
    decreases b.len(),
{
    if b.len() > 0 {
        let c = b.last();
        let b0 = b.drop_last();
        assert(!b0.contains(sep)) by {
            if b0.contains(sep) {
                let k = choose|k: int| 0 <= k < b0.len() && b0[k] == sep;
                assert(b[k] == sep);
            }
        }
        lemma_split_no_sep(b0, sep);
        assert(b[b.len() - 1] == c);
        assert(c != sep);
        let r = split_on(b0, sep);
        assert(r =~= seq![b0]);
        assert(r.update(r.len() - 1, r.last().push(c)) =~= seq![b]) by {
            assert(b0.push(c) =~= b);
        }
    } else {
        assert(b =~= Seq::<char>::empty());
    }
}

proof fn lemma_split_after_sep(x: Seq<char>, b: Seq<char>, sep: char)
    requires
        !b.contains(sep),
    ensures
        split_on(x.push(sep) + b, sep) == split_on(x, sep).push(b),
    decreases b.len(),
{
    let s = x.push(sep) + b;
    if b.len() == 0 {
        assert(s =~= x.push(sep));
        assert(s.drop_last() =~= x);
        assert(s.last() == sep);
        assert(b =~= Seq::<char>::empty());
    } else {
        let c = b.last();
        let b0 = b.drop_last();
        assert(!b0.contains(sep)) by {
            if b0.contains(sep) {
                let k = choose|k: int| 0 <= k < b0.len() && b0[k] == sep;
                assert(b[k] == sep);
            }
        }
        assert(b[b.len() - 1] == c);
        assert(c != sep);
        lemma_split_after_sep(x, b0, sep);
        assert(s.drop_last() =~= x.push(sep) + b0);
        assert(s.last() == c);
        let r = split_on(s.drop_last(), sep);
        assert(r == split_on(x, sep).push(b0));
        assert(r.update(r.len() - 1, r.last().push(c)) =~= split_on(x, sep).push(b)) by {
            assert(b0.push(c) =~= b);
        }
    }
}

proof fn lemma_split_join(roots: Seq<Seq<char>>, sep: char)
    requires
        roots.len() > 0,
        forall|i: int| 0 <= i < roots.len() ==> !(#[trigger] roots[i]).contains(sep),
    ensures
        split_on(join_with(roots, sep), sep) == roots,
    decreases roots.len(),
{
    if roots.len() == 1 {
        lemma_split_no_sep(roots[0], sep);
        assert(seq![roots[0]] =~= roots);
    } else {
        let init = roots.drop_last();
        assert forall|i: int| 0 <= i < init.len() implies !(#[trigger] init[i]).contains(sep) by {
            assert(init[i] == roots[i]);
        }
        lemma_split_join(init, sep);
        lemma_split_after_sep(join_with(init, sep), roots.last(), sep);
        assert(init.push(roots.last()) =~= roots);
    }
}

proof fn lemma_nonempty_trimmed_id(ps: Seq<Seq<char>>)
    requires
        forall|i: int| 0 <= i < ps.len() ==> (#[trigger] ps[i]).len() > 0 && trim(ps[i]) == ps[i],
    ensures
        nonempty_trimmed(ps) == ps,
    decreases ps.len(),
{
    if ps.len() > 0 {
        let init = ps.drop_last();
        assert forall|i: int| 0 <= i < init.len() implies (#[trigger] init[i]).len() > 0 && trim(init[i]) == init[i] by {
            assert(init[i] == ps[i]);
        }
        lemma_nonempty_trimmed_id(init);
        assert(ps[ps.len() - 1] == ps.last());
        assert(init.push(ps.last()) =~= ps);
    }
}

/// Splitting the content field that `apply_config_to_fields` fills gives
/// back the configured content folders, when each folder is non-empty,
/// free of surrounding blanks and of `;`.
pub proof fn law_content_field_round_trip(roots: Seq<Seq<char>>)
    requires
        forall|i: int|
            0 <= i < roots.len() ==> (#[trigger] roots[i]).len() > 0 && trim(roots[i]) == roots[i]
                && !roots[i].contains(';'),
    ensures
        root_list(join_with(roots, ';')) == roots,
{
    if roots.len() == 0 {
        let e = Seq::<char>::empty();
        let ps = seq![e];
        assert(trim(e) =~= e);
        assert(join_with(roots, ';') =~= e);
        assert(split_on(e, ';') == ps);
        assert(ps.last() == e);
        assert(ps.drop_last() =~= Seq::<Seq<char>>::empty());
        assert(nonempty_trimmed(Seq::<Seq<char>>::empty()) =~= Seq::<Seq<char>>::empty());
        assert(trim(ps.last()).len() == 0);
        assert(nonempty_trimmed(ps) == nonempty_trimmed(ps.drop_last()));
        assert(nonempty_trimmed(ps) =~= Seq::<Seq<char>>::empty());
        assert(roots =~= Seq::<Seq<char>>::empty());
    } else {
        lemma_split_join(roots, ';');
        lemma_nonempty_trimmed_id(roots);
    }
}

// ---------------------------------------------------------------------------
// Results, keys and selection
// ---------------------------------------------------------------------------

/// The result that Enter opens and Ctrl+C copies: the selected one, or the
/// first when nothing is selected; nothing when that index has no result.
pub open spec fn acted_index(selected: Option<usize>, n_hits: usize) -> Option<usize> {
    let i: usize = match selected {
        Some(i) => i,
        None => 0,
    };
    if i < n_hits {
        Some(i)
    } else {
        None
    }
}

pub fn action_index(selected: Option<usize>, n_hits: usize) -> (r: Option<usize>)
    ensures
        r == acted_index(selected, n_hits),
{
    let i = match selected {
        Some(i) => i,
        None => 0,
    };
    if i < n_hits {
        Some(i)
    } else {
        None
    }
}

/// After a new query the selection is kept while it still names a result.
pub fn selection_after_refresh(selected: Option<usize>, n_hits: usize) -> (r: Option<usize>)
    ensures
        r == (match selected {
            Some(i) => if i < n_hits {
                Some(i)
            } else {
                None
            },
            None => None,
        }),
{
    match selected {
        Some(i) => if i < n_hits {
            Some(i)
        } else {
            None
        },
        None => None,
    }
}

/// Image types shown as images instead of text.
pub open spec fn image_ext(e: Seq<char>) -> bool {
    e == "png"@ || e == "jpg"@ || e == "jpeg"@ || e == "gif"@ || e == "bmp"@ || e == "webp"@
}

/// The path names an image (by its extension, ignoring ASCII case).
pub fn is_image(path: &str) -> (r: bool)
    ensures
        r == match path_extension(path@) {
            Some(e) => image_ext(lower_ascii(e)),
            None => false,
        },
{
    match path_extension_exec(&chars_of(path)) {
        Some(e) => {
            let l = lower_ascii_vec(&e);
            chars_eq(&l, &chars_of("png")) || chars_eq(&l, &chars_of("jpg")) || chars_eq(
                &l,
                &chars_of("jpeg"),
            ) || chars_eq(&l, &chars_of("gif")) || chars_eq(&l, &chars_of("bmp")) || chars_eq(
                &l,
                &chars_of("webp"),
            )
        },
        None => false,
    }
}

// ---------------------------------------------------------------------------
// Snippet pieces
// ---------------------------------------------------------------------------

/// Lexicographic order of byte ranges.
pub open spec fn span_le(a: (usize, usize), b: (usize, usize)) -> bool {
    a.0 < b.0 || (a.0 == b.0 && a.1 <= b.1)
}

pub open spec fn spans_sorted(s: Seq<(usize, usize)>) -> bool {
    forall|i: int, j: int| 0 <= i < j < s.len() ==> span_le(#[trigger] s[i], #[trigger] s[j])
}

/// The ranges in ascending order.
pub fn sort_spans(spans: &Vec<(usize, usize)>) -> (r: Vec<(usize, usize)>)
    ensures
        r@.to_multiset() == spans@.to_multiset(),
        spans_sorted(r@),
{
    let mut out: Vec<(usize, usize)> = Vec::new();
    let mut k: usize = 0;
    assert(spans@.take(0) =~= Seq::<(usize, usize)>::empty());
    while k < spans.len()
        invariant
            k <= spans.len(),
            out@.to_multiset() == spans@.take(k as int).to_multiset(),
            spans_sorted(out@),
        decreases spans.len() - k,
    {
        let x = spans[k];
        let mut p: usize = 0;
        while p < out.len() && span_le_exec(out[p], x)
            invariant
                p <= out.len(),
                forall|i: int| 0 <= i < p ==> span_le(#[trigger] out@[i], x),
            decreases out.len() - p,
        {
            p += 1;
        }
        let ghost before = out@;
        out.insert(p, x);
        proof {
            assert(spans@.take(k + 1) =~= spans@.take(k as int).push(x));
            assert(out@ == before.insert(p as int, x));
            assert forall|i: int, j: int| 0 <= i < j < out@.len() implies span_le(#[trigger] out@[i], #[trigger] out@[j]) by {
                if j == p as int {
                    assert(out@[i] == before[i]);
                } else if i == p as int {
                    assert(out@[j] == before[j - 1]);
                    assert(!span_le(before[p as int], x));
                    assert(span_le(before[p as int], before[j - 1]) || j - 1 == p);
                } else if i < p as int && j > p as int {
                    assert(out@[i] == before[i]);
                    assert(out@[j] == before[j - 1]);
                } else if j < p as int {
                    assert(out@[i] == before[i]);
                    assert(out@[j] == before[j]);
                } else {
                    assert(out@[i] == before[i - 1]);
                    assert(out@[j] == before[j - 1]);
                }
            }
        }
        k += 1;
    }
    assert(spans@.take(k as int) =~= spans@);
    out
}

fn span_le_exec(a: (usize, usize), b: (usize, usize)) -> (r: bool)
    ensures
        r == span_le(a, b),
{
    a.0 < b.0 || (a.0 == b.0 && a.1 <= b.1)
}

/// A piece of the snippet text: byte range and whether it is highlighted.
pub type Segment = (usize, usize, bool);

/// One highlighted range `(a, b)` read at `cursor`: the plain text from
/// the cursor up to `a` when `a` lies after the cursor and within the text,
/// then the range clipped to the text when that is not empty, which moves
/// the cursor to its end.
pub open spec fn segment_step(
    state: (usize, Seq<Segment>),
    span: (usize, usize),
    len: usize,
) -> (usize, Seq<Segment>) {
    let (cursor, out) = state;
    let (a, b) = span;
    let out1 = if a > cursor && a <= len {
        out.push((cursor, a, false))
    } else {
        out
    };
    let end: usize = if b < len {
        b
    } else {
        len
    };
    if a < end {
        (end, out1.push((a, end, true)))
    } else {
        (cursor, out1)
    }
}

pub open spec fn segments_fold(spans: Seq<(usize, usize)>, len: usize) -> (usize, Seq<Segment>)
    decreases spans.len(),
{
    if spans.len() == 0 {
        (0, Seq::empty())
    } else {
        segment_step(segments_fold(spans.drop_last(), len), spans.last(), len)
    }
}

/// The pieces of a text of `len` bytes for highlighted ranges taken in
/// ascending order, ending with the plain rest after the last range.
pub open spec fn segments_of(sorted: Seq<(usize, usize)>, len: usize) -> Seq<Segment> {
    let (cursor, out) = segments_fold(sorted, len);
    if cursor < len {
        out.push((cursor, len, false))
    } else {
        out
    }
}

/// How a snippet of `text_len` bytes is drawn: the highlights in ascending
/// order, each preceded by the plain text before it.
pub fn snippet_segments(text_len: usize, highlights: &Vec<(usize, usize)>) -> (r: (Vec<(usize, usize)>, Vec<Segment>))
    ensures
        r.0@.to_multiset() == highlights@.to_multiset(),
        spans_sorted(r.0@),
        r.1@ == segments_of(r.0@, text_len),
{
    let spans = sort_spans(highlights);
    let mut out: Vec<Segment> = Vec::new();
    let mut cursor: usize = 0;
    let mut i: usize = 0;
    assert(spans@.take(0) =~= Seq::<(usize, usize)>::empty());
    while i < spans.len()
        invariant
            i <= spans.len(),
            (cursor, out@) == segments_fold(spans@.take(i as int), text_len),
        decreases spans.len() - i,
    {
        assert(spans@.take(i + 1).drop_last() =~= spans@.take(i as int));
        let (a, b) = spans[i];
        if a > cursor && a <= text_len {
            out.push((cursor, a, false));
        }
        let end = if b < text_len {
            b
        } else {
            text_len
        };
        if a < end {
            out.push((a, end, true));
            cursor = end;
        }
        i += 1;
    }
    assert(spans@.take(i as int) =~= spans@);
    if cursor < text_len {
        out.push((cursor, text_len, false));
    }
    (spans, out)
}

} // verus!
