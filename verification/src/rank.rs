//! Ranking: name hits outrank path hits, body hits add a little, recent
//! files get a boost that fades over a week, and a name equal to a term
//! (without its extension) ranks above one that only contains it.
//!
//! Scores are whole numbers in units of 1/604800 of a point, so that the
//! recency boost `50 * (1 - age / week)` is exact.

use vstd::prelude::*;
use crate::path::{stem_of_name, stem_of_name_exec};
use crate::query::SortMode;
use crate::text::{chars_eq, chars_of, to_lowercase_vec, unicode_lower};
use crate::types::Hit;

verus! {

broadcast use vstd::seq_lib::group_to_multiset_ensures;

/// Seconds in the recency window (one week).
pub const RECENCY_WINDOW_SECS: u64 = 604800;

/// Points for a match in the name, in the path, in the body, for recency,
/// and for a name equal to a term.
pub const NAME_POINTS: u64 = 1000;
pub const PATH_POINTS: u64 = 100;
pub const CONTENT_POINTS: u64 = 10;
pub const RECENCY_POINTS: u64 = 50;
pub const EXACT_NAME_POINTS: u64 = 200;

/// The recency window.
pub fn recency_window() -> (r: u64)
    ensures
        r == RECENCY_WINDOW_SECS,
{
    RECENCY_WINDOW_SECS
}

/// Some non-empty term equals the name without its extension, ignoring case.
pub open spec fn exact_name(name: Seq<char>, terms: Seq<Seq<char>>) -> bool {
    exists|i: int|
        0 <= i < terms.len() && terms[i].len() > 0 && #[trigger] unicode_lower(terms[i])
            == unicode_lower(stem_of_name(name))
}

/// The score of a hit, in units of 1/604800 point.
pub open spec fn score_of(
    name_match: bool,
    path_match: bool,
    content_match: bool,
    exact: bool,
    modified: u64,
    now: u64,
) -> int {
    let w = RECENCY_WINDOW_SECS as int;
    let base = if name_match {
        NAME_POINTS + (if exact {
            EXACT_NAME_POINTS
        } else {
            0
        })
    } else if path_match {
        PATH_POINTS as int
    } else {
        0
    };
    let content = if content_match {
        CONTENT_POINTS
    } else {
        0
    };
    let recency = if modified <= now && now - modified < w {
        RECENCY_POINTS * (w - (now - modified))
    } else {
        0
    };
    (base + content) * w + recency
}

pub open spec fn hit_score(h: Hit, now: u64, terms: Seq<Seq<char>>) -> int {
    score_of(
        h.name_match,
        h.path_match,
        h.content_match,
        exact_name(h.record.name@, terms),
        h.record.modified,
        now,
    )
}

pub open spec fn terms_view(terms: Seq<String>) -> Seq<Seq<char>> {
    terms.map_values(|t: String| t@)
}

fn exact_name_exec(name: &str, terms: &[String]) -> (r: bool)
    ensures
        r == exact_name(name@, terms_view(terms@)),
{
    let stem = to_lowercase_vec(&stem_of_name_exec(&chars_of(name)));
    let ghost tv = terms_view(terms@);
    let mut i: usize = 0;
    while i < terms.len()
        invariant
            i <= terms.len(),
            tv == terms_view(terms@),
            stem@ == unicode_lower(stem_of_name(name@)),
            forall|k: int| 0 <= k < i ==> !(tv[k].len() > 0 && #[trigger] unicode_lower(tv[k]) == unicode_lower(stem_of_name(name@))),
        decreases terms.len() - i,
    {
        let t = chars_of(terms[i].as_str());
        assert(tv[i as int] == t@);
        if t.len() > 0 && chars_eq(&to_lowercase_vec(&t), &stem) {
            return true;
        }
        i += 1;
    }
    false
}

/// The score of `hit` at time `now` for the literal query terms `terms`.
pub fn score(hit: &Hit, now: u64, terms: &[String]) -> (s: u64)
    ensures
        s == hit_score(*hit, now, terms_view(terms@)),
{
    let w = RECENCY_WINDOW_SECS;
    let exact = exact_name_exec(hit.record.name.as_str(), terms);
    let base: u64 = if hit.name_match {
        NAME_POINTS + if exact {
            EXACT_NAME_POINTS
        } else {
            0
        }
    } else if hit.path_match {
        PATH_POINTS
    } else {
        0
    };
    let content: u64 = if hit.content_match {
        CONTENT_POINTS
    } else {
        0
    };
    let m = hit.record.modified;
    let recency: u64 = if m <= now && now - m < w {
        RECENCY_POINTS * (w - (now - m))
    } else {
        0
    };
    (base + content) * w + recency
}

// ---------------------------------------------------------------------------
// Ordering
// ---------------------------------------------------------------------------

/// Lexicographic order of character sequences (the order of `str`).
pub open spec fn name_lt(a: Seq<char>, b: Seq<char>) -> bool
    decreases a.len(),
{
    if a.len() == 0 {
        b.len() > 0
    } else if b.len() == 0 {
        false
    } else if a[0] != b[0] {
        (a[0] as u32) < (b[0] as u32)
    } else {
        name_lt(a.drop_first(), b.drop_first())
    }
}

pub proof fn lemma_name_lt_asym(a: Seq<char>, b: Seq<char>)
    ensures
        !(name_lt(a, b) && name_lt(b, a)),
    decreases a.len(),
{
    if a.len() > 0 && b.len() > 0 && a[0] == b[0] {
        lemma_name_lt_asym(a.drop_first(), b.drop_first());
    }
}

pub proof fn lemma_name_lt_trans(a: Seq<char>, b: Seq<char>, c: Seq<char>)
    requires
        name_lt(a, b),
        name_lt(b, c),
    ensures
        name_lt(a, c),
    decreases a.len(),
{
    if a.len() > 0 && b.len() > 0 && c.len() > 0 && a[0] == b[0] && b[0] == c[0] {
        lemma_name_lt_trans(a.drop_first(), b.drop_first(), c.drop_first());
    }
}

/// Whether `a` sorts strictly before `b` under `mode`: by score, size or
/// modification time, largest first, then by name; or by name alone.
pub open spec fn hit_lt(a: Hit, b: Hit, mode: SortMode) -> bool {
    let (ka, kb) = (sort_key(a, mode), sort_key(b, mode));
    ka > kb || (ka == kb && name_lt(a.record.name@, b.record.name@))
}

/// The number a mode sorts by, largest first (none for `Name`).
pub open spec fn sort_key(h: Hit, mode: SortMode) -> int {
    match mode {
        SortMode::Score => h.score as int,
        SortMode::Size => h.record.size as int,
        SortMode::Date => h.record.modified as int,
        SortMode::Name => 0int,
    }
}

/// Hits that `mode` cannot tell apart: equal key and equal name.
pub open spec fn same_rank(a: Hit, b: Hit, mode: SortMode) -> bool {
    sort_key(a, mode) == sort_key(b, mode) && a.record.name@ == b.record.name@
}

/// The hits of `s` that rank the same as `e`, in order.
pub open spec fn ties_of(s: Seq<Hit>, e: Hit, mode: SortMode) -> Seq<Hit>
    decreases s.len(),
{
    if s.len() == 0 {
        Seq::empty()
    } else if same_rank(s.last(), e, mode) {
        ties_of(s.drop_last(), e, mode).push(s.last())
    } else {
        ties_of(s.drop_last(), e, mode)
    }
}

/// `t` keeps the order that `s` gives to hits that rank the same (a stable
/// sort).
pub open spec fn keeps_tie_order(s: Seq<Hit>, t: Seq<Hit>, mode: SortMode) -> bool {
    forall|e: Hit| #[trigger] ties_of(t, e, mode) == ties_of(s, e, mode)
}

proof fn lemma_ties_insert(s: Seq<Hit>, p: int, x: Hit, e: Hit, mode: SortMode)
    requires
        0 <= p <= s.len(),
        forall|k: int| p <= k < s.len() ==> !same_rank(#[trigger] s[k], x, mode),
    ensures
        ties_of(s.insert(p, x), e, mode) == if same_rank(x, e, mode) {
            ties_of(s, e, mode).push(x)
        } else {
            ties_of(s, e, mode)
        },
    decreases s.len(),
{
    let t = s.insert(p, x);
    if p == s.len() {
        assert(t =~= s.push(x));
        assert(t.drop_last() =~= s);
    } else {
        let s0 = s.drop_last();
        assert(t.drop_last() =~= s0.insert(p, x));
        assert(t.last() == s.last());
        assert forall|k: int| p <= k < s0.len() implies !same_rank(#[trigger] s0[k], x, mode) by {
            assert(s0[k] == s[k]);
        }
        lemma_ties_insert(s0, p, x, e, mode);
        assert(!same_rank(s[s.len() - 1], x, mode));
    }
}

pub proof fn lemma_hit_lt_asym(a: Hit, b: Hit, mode: SortMode)
    ensures
        !(hit_lt(a, b, mode) && hit_lt(b, a, mode)),
{
    lemma_name_lt_asym(a.record.name@, b.record.name@);
}

pub proof fn lemma_hit_lt_trans(a: Hit, b: Hit, c: Hit, mode: SortMode)
    requires
        hit_lt(a, b, mode),
        hit_lt(b, c, mode),
    ensures
        hit_lt(a, c, mode),
{
    if name_lt(a.record.name@, b.record.name@) && name_lt(b.record.name@, c.record.name@) {
        lemma_name_lt_trans(a.record.name@, b.record.name@, c.record.name@);
    }
}

/// No hit sorts strictly before an earlier one.
pub open spec fn sorted_by(s: Seq<Hit>, mode: SortMode) -> bool {
    forall|i: int, j: int| 0 <= i < j < s.len() ==> !hit_lt(#[trigger] s[j], #[trigger] s[i], mode)
}

fn name_lt_exec(a: &Vec<char>, b: &Vec<char>) -> (r: bool)
    ensures
        r == name_lt(a@, b@),
{
    let mut i: usize = 0;
    assert(a@.skip(0) =~= a@);
    assert(b@.skip(0) =~= b@);
    while i < a.len() && i < b.len()
        invariant
            i <= a.len(),
            i <= b.len(),
            name_lt(a@, b@) == name_lt(a@.skip(i as int), b@.skip(i as int)),
        decreases a.len() - i,
    {
        if a[i] != b[i] {
            return (a[i] as u32) < (b[i] as u32);
        }
        assert(a@.skip(i as int).drop_first() =~= a@.skip(i + 1));
        assert(b@.skip(i as int).drop_first() =~= b@.skip(i + 1));
        i += 1;
    }
    i == a.len() && i < b.len()
}

fn hit_lt_exec(a: &Hit, b: &Hit, mode: SortMode) -> (r: bool)
    ensures
        r == hit_lt(*a, *b, mode),
{
    let (ka, kb): (u64, u64) = match mode {
        SortMode::Score => (a.score, b.score),
        SortMode::Size => (a.record.size, b.record.size),
        SortMode::Date => (a.record.modified, b.record.modified),
        SortMode::Name => (0, 0),
    };
    if ka != kb {
        return ka > kb;
    }
    name_lt_exec(&chars_of(a.record.name.as_str()), &chars_of(b.record.name.as_str()))
}

/// Sorts hits by `mode` (an insertion sort: hits that tie keep their order).
pub fn sort_hits_by(hits: &mut Vec<Hit>, mode: SortMode)
    ensures
        final(hits)@.to_multiset() == old(hits)@.to_multiset(),
        sorted_by(final(hits)@, mode),
        keeps_tie_order(old(hits)@, final(hits)@, mode),
{
    let mut src: Vec<Hit> = Vec::new();
    std::mem::swap(&mut src, hits);
    let ghost orig = src@;
    let mut out: Vec<Hit> = Vec::new();
    let mut k: usize = 0;
    assert(orig.len() == src.len());
    assert(orig.skip(0) =~= orig);
    assert(orig.take(0) =~= Seq::<Hit>::empty());
    while src.len() > 0
        invariant
            k + src.len() == orig.len(),
            orig.len() <= usize::MAX,
            src@ == orig.skip(k as int),
            out@.to_multiset() == orig.take(k as int).to_multiset(),
            sorted_by(out@, mode),
            keeps_tie_order(orig.take(k as int), out@, mode),
        decreases src.len(),
    {
        let x = src.remove(0);
        let mut p: usize = 0;
        while p < out.len() && !hit_lt_exec(&x, &out[p], mode)
            invariant
                p <= out.len(),
                forall|i: int| 0 <= i < p ==> !hit_lt(x, #[trigger] out@[i], mode),
            decreases out.len() - p,
        {
            p += 1;
        }
        let ghost before = out@;
        let ghost item = x;
        proof {
            assert forall|j: int| p <= j < before.len() implies !same_rank(#[trigger] before[j], item, mode) by {
                lemma_name_lt_asym(item.record.name@, item.record.name@);
                if same_rank(before[j], item, mode) {
                    assert(hit_lt(item, before[p as int], mode));
                    if j > p {
                        assert(!hit_lt(before[j], before[p as int], mode));
                    }
                }
            }
            assert forall|e: Hit| #[trigger] ties_of(before.insert(p as int, item), e, mode) == ties_of(orig.take(k + 1), e, mode) by {
                lemma_ties_insert(before, p as int, item, e, mode);
                assert(orig.take(k + 1).drop_last() =~= orig.take(k as int));
                assert(orig.take(k + 1).last() == orig[k as int]);
            }
        }
        out.insert(p, x);
        proof {
            assert(item == orig[k as int]);
            assert(orig.take(k + 1) =~= orig.take(k as int).push(item));
            assert(orig.skip(k + 1) =~= orig.skip(k as int).drop_first());
            assert(out@ == before.insert(p as int, item));
            assert forall|i: int, j: int| 0 <= i < j < out@.len() implies !hit_lt(#[trigger] out@[j], #[trigger] out@[i], mode) by {
                if i < p as int && j == p as int {
                    assert(out@[i] == before[i]);
                } else if i == p as int && j > p as int {
                    let y = before[j - 1];
                    assert(out@[j] == y);
                    if hit_lt(y, item, mode) {
                        assert(p < before.len());
                        assert(hit_lt(item, before[p as int], mode));
                        if j - 1 > p {
                            lemma_hit_lt_trans(y, item, before[p as int], mode);
                            assert(!hit_lt(before[j - 1], before[p as int], mode));
                        } else {
                            lemma_hit_lt_asym(item, y, mode);
                        }
                    }
                } else if i < p as int && j > p as int {
                    assert(out@[i] == before[i]);
                    assert(out@[j] == before[j - 1]);
                } else if j < p as int {
                    assert(out@[i] == before[i]);
                    assert(out@[j] == before[j]);
                } else {
                    assert(out@[i] == before[i - 1]);
                    assert(out@[j] == before[j - 1]);
                }
            }
        }
        k += 1;
    }
    assert(orig.take(k as int) =~= orig);
    *hits = out;
}

/// Scores every hit for `terms` and sorts best first (ties by name).
pub fn rank_hits_with_terms(hits: &mut Vec<Hit>, now: u64, terms: &[String])
    ensures
        final(hits)@.to_multiset() == old(hits)@.map_values(
            |h: Hit| Hit { score: hit_score(h, now, terms_view(terms@)) as u64, ..h },
        ).to_multiset(),
        sorted_by(final(hits)@, SortMode::Score),
        keeps_tie_order(
            old(hits)@.map_values(|h: Hit| Hit { score: hit_score(h, now, terms_view(terms@)) as u64, ..h }),
            final(hits)@,
            SortMode::Score,
        ),
{
    let mut src: Vec<Hit> = Vec::new();
    std::mem::swap(&mut src, hits);
    let ghost orig = src@;
    let mut out: Vec<Hit> = Vec::new();
    let mut k: usize = 0;
    assert(orig.len() == src.len());
    assert(orig.skip(0) =~= orig);
    while src.len() > 0
        invariant
            k + src.len() == orig.len(),
            orig.len() <= usize::MAX,
            src@ == orig.skip(k as int),
            out.len() == k,
            forall|j: int| 0 <= j < k ==> #[trigger] out@[j] == (Hit { score: hit_score(orig[j], now, terms_view(terms@)) as u64, ..orig[j] }),
        decreases src.len(),
    {
        let mut h = src.remove(0);
        assert(h == orig[k as int]);
        assert(orig.skip(k + 1) =~= orig.skip(k as int).drop_first());
        let s = score(&h, now, terms);
        h.score = s;
        out.push(h);
        k += 1;
    }
    assert(out@ =~= orig.map_values(
        |h: Hit| Hit { score: hit_score(h, now, terms_view(terms@)) as u64, ..h },
    ));
    sort_hits_by(&mut out, SortMode::Score);
    *hits = out;
}

/// Scores and sorts hits with no literal terms.
pub fn rank_hits(hits: &mut Vec<Hit>, now: u64)
    ensures
        final(hits)@.to_multiset() == old(hits)@.map_values(
            |h: Hit| Hit { score: hit_score(h, now, Seq::empty()) as u64, ..h },
        ).to_multiset(),
        sorted_by(final(hits)@, SortMode::Score),
        keeps_tie_order(
            old(hits)@.map_values(|h: Hit| Hit { score: hit_score(h, now, Seq::empty()) as u64, ..h }),
            final(hits)@,
            SortMode::Score,
        ),
{
    let terms: Vec<String> = Vec::new();
    assert(terms_view(terms@) =~= Seq::<Seq<char>>::empty());
    rank_hits_with_terms(hits, now, terms.as_slice());
}


/// A name match always outranks a hit without one, whatever the path,
/// body and recency parts.
pub proof fn law_name_outranks_path(
    p1: bool,
    c1: bool,
    e1: bool,
    m1: u64,
    p2: bool,
    c2: bool,
    e2: bool,
    m2: u64,
    now: u64,
)
    ensures
        score_of(true, p1, c1, e1, m1, now) > score_of(false, p2, c2, e2, m2, now),
{
}

/// A name equal to a term (without its extension) outranks a name that only
/// contains it, whatever the path, body and recency parts.
pub proof fn law_exact_name_outranks_partial(
    p1: bool,
    c1: bool,
    m1: u64,
    p2: bool,
    c2: bool,
    m2: u64,
    now: u64,
)
    ensures
        score_of(true, p1, c1, true, m1, now) >= score_of(true, p2, c2, false, m2, now) + 140 * (RECENCY_WINDOW_SECS as int),
{
}

/// Among hits matched the same way, a more recent modification within the
/// week scores higher.
pub proof fn law_newer_scores_higher(n: bool, p: bool, c: bool, e: bool, newer: u64, older: u64, now: u64)
    requires
        older < newer <= now,
        now - older < RECENCY_WINDOW_SECS,
    ensures
        score_of(n, p, c, e, newer, now) > score_of(n, p, c, e, older, now),
{
}

} // verus!
