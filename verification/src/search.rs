//! Evaluating a query against the catalog and the content index.

use vstd::prelude::*;
use crate::catalog::{
    find_id, insert_spec, law_rename_then_get, lemma_find_id_some, lemma_without_id_excludes,
    rename_matches, without_id, Catalog,
};
use crate::content::{make_snippet, snippet_of, snippet_view, ContentIndex};
use crate::path::{
    depth, depth_exec, last_index_of, last_index_of_exec, lemma_last_index_of, norm_parent,
    norm_parent_exec, norm_path, norm_path_exec, path_extension, path_extension_exec, under_norm,
    under_norm_exec,
};
use crate::query::{
    atom_patterns, empty_query, opt_string_view, pattern_matches, patterns_view, size_filter_holds,
    strings_view, term_strings_of, Atom, AtomSpec, Pattern, PatternSpec, Query, QuerySpec,
    SizeFilter,
};
use crate::nl::{compile_nl, nl_query};
use crate::rank::{hit_score, keeps_tie_order, score, sort_hits_by, sorted_by, terms_view};
use crate::text::{
    chars_eq, chars_of, contains_exec, contains_seq, lower_ascii, lower_ascii_vec, trim,
};
use crate::types::{FileRecord, Hit, ATTR_DIRECTORY};

verus! {

broadcast use vstd::seq_lib::group_to_multiset_ensures;

// ---------------------------------------------------------------------------
// Filters
// ---------------------------------------------------------------------------

/// The attribute bits of a record, with the directory bit for folders.
pub open spec fn effective_attributes(r: FileRecord) -> u32 {
    if r.is_dir {
        r.attributes | ATTR_DIRECTORY
    } else {
        r.attributes
    }
}

/// Characters after the last `.` of a name (0 without a dot).
pub open spec fn ext_len_of(name: Seq<char>) -> int {
    let k = last_index_of(name, '.');
    if k < 0 {
        0
    } else {
        name.len() - k - 1
    }
}

pub open spec fn opt_filter_holds(f: Option<SizeFilter>, v: int) -> bool {
    match f {
        Some(f) => size_filter_holds(f, v),
        None => true,
    }
}

/// The lowercase extension of a path (empty when it has none).
pub open spec fn lower_extension(p: Seq<char>) -> Seq<char> {
    match path_extension(p) {
        Some(e) => lower_ascii(e),
        None => Seq::empty(),
    }
}

/// A record passes every filter of the query (everything but the terms).
pub open spec fn filters_ok(r: FileRecord, q: QuerySpec) -> bool {
    &&& (q.extensions.len() > 0 ==> !r.is_dir && q.extensions.contains(lower_extension(r.path@)))
    &&& opt_filter_holds(q.size, r.size as int)
    &&& (q.modified_after matches Some(a) ==> r.modified >= a)
    &&& (q.modified_before matches Some(b) ==> r.modified < b)
    &&& (q.files_only ==> !r.is_dir)
    &&& (q.folders_only ==> r.is_dir)
    &&& (effective_attributes(r) & q.attrib_mask) == q.attrib_mask
    &&& (q.attrib_any != 0 ==> (effective_attributes(r) & q.attrib_any) != 0)
    &&& opt_filter_holds(q.depth, depth(r.path@) as int)
    &&& opt_filter_holds(q.name_len, r.name@.len() as int)
    &&& opt_filter_holds(q.ext_len, ext_len_of(r.name@))
    &&& (q.no_ext ==> !r.is_dir && path_extension(r.path@) is None)
    &&& (q.dotfile ==> r.name@.len() > 0 && r.name@[0] == '.')
    &&& (q.parent matches Some(p) ==> norm_parent(norm_path(r.path@)) == norm_path(p))
    &&& (q.path_contains matches Some(p) ==> contains_seq(norm_path(r.path@), norm_path(p)))
    &&& (q.root matches Some(p) ==> under_norm(r.path@, p))
}

fn opt_filter_exec(f: Option<SizeFilter>, v: u64) -> (r: bool)
    ensures
        r == opt_filter_holds(f, v as int),
{
    match f {
        Some(f) => f.matches(v),
        None => true,
    }
}

fn contains_string_chars(v: &Vec<String>, x: &Vec<char>) -> (r: bool)
    ensures
        r == strings_view(v@).contains(x@),
{
    let mut i: usize = 0;
    while i < v.len()
        invariant
            i <= v.len(),
            forall|j: int| 0 <= j < i ==> #[trigger] v@[j]@ != x@,
        decreases v.len() - i,
    {
        if chars_eq(&chars_of(v[i].as_str()), x) {
            assert(strings_view(v@)[i as int] == x@);
            return true;
        }
        i += 1;
    }
    proof {
        if strings_view(v@).contains(x@) {
            let k = choose|k: int| 0 <= k < v@.len() && #[trigger] strings_view(v@)[k] == x@;
            assert(v@[k]@ == x@);
        }
    }
    false
}

fn ext_len_exec(name: &Vec<char>) -> (r: u64)
    ensures
        r == ext_len_of(name@),
{
    proof {
        lemma_last_index_of(name@, '.');
    }
    match last_index_of_exec(name, '.') {
        Some(k) => (name.len() - k - 1) as u64,
        None => 0,
    }
}

#[verifier::spinoff_prover]
pub fn filters_ok_exec(r: &FileRecord, q: &Query) -> (ok: bool)
    ensures
        ok == filters_ok(*r, q@),
{
    let path = chars_of(r.path.as_str());
    let name = chars_of(r.name.as_str());
    if q.extensions.len() > 0 {
        if r.is_dir {
            return false;
        }
        let ext = match path_extension_exec(&path) {
            Some(e) => lower_ascii_vec(&e),
            None => Vec::new(),
        };
        if !contains_string_chars(&q.extensions, &ext) {
            return false;
        }
    }
    if !opt_filter_exec(q.size, r.size) {
        return false;
    }
    match q.modified_after {
        Some(a) => if r.modified < a {
            return false;
        },
        None => {},
    }
    match q.modified_before {
        Some(b) => if r.modified >= b {
            return false;
        },
        None => {},
    }
    if q.files_only && r.is_dir {
        return false;
    }
    if q.folders_only && !r.is_dir {
        return false;
    }
    let eff = if r.is_dir {
        r.attributes | ATTR_DIRECTORY
    } else {
        r.attributes
    };
    if (eff & q.attrib_mask) != q.attrib_mask {
        return false;
    }
    if q.attrib_any != 0 && (eff & q.attrib_any) == 0 {
        return false;
    }
    if !opt_filter_exec(q.depth, depth_exec(&path) as u64) {
        return false;
    }
    if !opt_filter_exec(q.name_len, name.len() as u64) {
        return false;
    }
    if !opt_filter_exec(q.ext_len, ext_len_exec(&name)) {
        return false;
    }
    if q.no_ext && (r.is_dir || path_extension_exec(&path).is_some()) {
        return false;
    }
    if q.dotfile && !(name.len() > 0 && name[0] == '.') {
        return false;
    }
    match &q.parent {
        Some(p) => {
            let want = norm_path_exec(&chars_of(p.as_str()));
            if !chars_eq(&norm_parent_exec(&norm_path_exec(&path)), &want) {
                return false;
            }
        },
        None => {},
    }
    match &q.path_contains {
        Some(p) => {
            let want = norm_path_exec(&chars_of(p.as_str()));
            if !contains_exec(&norm_path_exec(&path), &want) {
                return false;
            }
        },
        None => {},
    }
    match &q.root {
        Some(p) => {
            if !under_norm_exec(&path, &chars_of(p.as_str())) {
                return false;
            }
        },
        None => {},
    }
    true
}

// ---------------------------------------------------------------------------
// Terms
// ---------------------------------------------------------------------------

/// Where a pattern may match: the name (0), the path (1) or the body (2).
/// `content:` terms look at the body only; `startwith:`, `endwith:` and
/// `stem:` terms at the name only; `n:` keeps every term to the name.
pub open spec fn applies(p: PatternSpec, field: int, name_only: bool) -> bool {
    if field == 0 {
        !p.content_only
    } else if field == 1 {
        !name_only && !p.content_only && !p.prefix && !p.suffix && !p.stem_only
    } else {
        !name_only && !p.prefix && !p.suffix && !p.stem_only
    }
}

/// Some pattern of the atom applies to the field and matches its text.
pub open spec fn atom_hits(a: AtomSpec, field: int, text: Seq<char>, q: QuerySpec) -> bool {
    exists|k: int|
        0 <= k < atom_patterns(a).len() && applies(#[trigger] atom_patterns(a)[k], field, q.name_only)
            && pattern_matches(atom_patterns(a)[k], text, q.case_sensitive, q.whole_word)
}

pub open spec fn body_hits(a: AtomSpec, body: Option<Seq<char>>, q: QuerySpec) -> bool {
    match body {
        Some(b) => atom_hits(a, 2, b, q),
        None => false,
    }
}

/// Some excluded pattern matches the name, the path or the body.
pub open spec fn excluded(r: FileRecord, body: Option<Seq<char>>, q: QuerySpec) -> bool {
    exists|k: int|
        0 <= k < q.must_not.len() && {
            let p = #[trigger] q.must_not[k];
            ||| pattern_matches(p, r.name@, q.case_sensitive, q.whole_word)
            ||| pattern_matches(p, r.path@, q.case_sensitive, q.whole_word)
            ||| (body matches Some(b) && pattern_matches(p, b, q.case_sensitive, q.whole_word))
        }
}

/// Every atom matches the name, the path or the body.
pub open spec fn atoms_ok(r: FileRecord, body: Option<Seq<char>>, q: QuerySpec) -> bool {
    forall|i: int|
        0 <= i < q.must.len() ==> {
            let a = #[trigger] q.must[i];
            atom_hits(a, 0, r.name@, q) || atom_hits(a, 1, r.path@, q) || body_hits(a, body, q)
        }
}

pub open spec fn all_name(r: FileRecord, q: QuerySpec) -> bool {
    q.must.len() > 0 && forall|i: int| 0 <= i < q.must.len() ==> atom_hits(#[trigger] q.must[i], 0, r.name@, q)
}

pub open spec fn all_path(r: FileRecord, q: QuerySpec) -> bool {
    q.must.len() > 0 && forall|i: int| 0 <= i < q.must.len() ==> atom_hits(#[trigger] q.must[i], 1, r.path@, q)
}

pub open spec fn all_body(body: Option<Seq<char>>, q: QuerySpec) -> bool {
    q.must.len() > 0 && forall|i: int| 0 <= i < q.must.len() ==> body_hits(#[trigger] q.must[i], body, q)
}

pub open spec fn body_of(bodies: Map<Seq<char>, Seq<char>>, path: Seq<char>) -> Option<Seq<char>> {
    if bodies.contains_key(path) {
        Some(bodies[path])
    } else {
        None
    }
}

/// A record is a result of the query.
pub open spec fn record_matches(r: FileRecord, bodies: Map<Seq<char>, Seq<char>>, q: QuerySpec) -> bool {
    let body = body_of(bodies, r.path@);
    filters_ok(r, q) && !excluded(r, body, q) && atoms_ok(r, body, q)
}

/// The records that are results, in catalog order.
pub open spec fn matching_records(
    recs: Seq<FileRecord>,
    bodies: Map<Seq<char>, Seq<char>>,
    q: QuerySpec,
) -> Seq<FileRecord>
    decreases recs.len(),
{
    if recs.len() == 0 {
        Seq::empty()
    } else if record_matches(recs.last(), bodies, q) {
        matching_records(recs.drop_last(), bodies, q).push(recs.last())
    } else {
        matching_records(recs.drop_last(), bodies, q)
    }
}

/// The hit reported for a matching record: where the terms matched, its
/// score, and the snippet of its body.
pub open spec fn hit_ok(h: Hit, bodies: Map<Seq<char>, Seq<char>>, q: QuerySpec, now: u64) -> bool {
    let r = h.record;
    let body = body_of(bodies, r.path@);
    let terms = term_strings_of(q.must);
    &&& h.name_match == all_name(r, q)
    &&& h.path_match == all_path(r, q)
    &&& h.content_match == all_body(body, q)
    &&& h.score == hit_score(h, now, terms)
    &&& match body {
        None => h.snippet is None,
        Some(b) => match snippet_of(b, terms, 80) {
            None => h.snippet is None,
            Some(v) => h.snippet is Some && snippet_view(h.snippet->0) == v,
        },
    }
}

/// `hs` are the hits for the matching records, in catalog order.
pub open spec fn hits_for(
    hs: Seq<Hit>,
    recs: Seq<FileRecord>,
    bodies: Map<Seq<char>, Seq<char>>,
    q: QuerySpec,
    now: u64,
) -> bool {
    &&& hs.map_values(|h: Hit| h.record) == matching_records(recs, bodies, q)
    &&& forall|k: int| 0 <= k < hs.len() ==> #[trigger] hit_ok(hs[k], bodies, q, now)
}

/// How many results are kept.
pub open spec fn result_limit(q: QuerySpec, n: int) -> int {
    match q.max_results {
        Some(m) => if m < n {
            m as int
        } else {
            n
        },
        None => n,
    }
}

/// `r` is what a search returns: the hits of the matching records, sorted
/// as the query says (hits that rank the same stay in catalog order), the
/// first `count:` of them.
pub open spec fn search_result(
    r: Seq<Hit>,
    recs: Seq<FileRecord>,
    bodies: Map<Seq<char>, Seq<char>>,
    q: QuerySpec,
    now: u64,
) -> bool {
    exists|hs: Seq<Hit>, s: Seq<Hit>|
        hits_for(hs, recs, bodies, q, now) && s.to_multiset() == hs.to_multiset() && sorted_by(
            s,
            q.sort,
        ) && keeps_tie_order(hs, s, q.sort) && r == s.take(result_limit(q, s.len() as int))
}

fn pattern_hits_exec(p: &Pattern, field: u8, text: &Vec<char>, q: &Query) -> (r: bool)
    requires
        field <= 2,
    ensures
        r == (applies(p@, field as int, q.name_only) && pattern_matches(p@, text@, q.case_sensitive, q.whole_word)),
{
    let ok = if field == 0 {
        !p.content_only
    } else if field == 1 {
        !q.name_only && !p.content_only && !p.prefix && !p.suffix && !p.stem_only
    } else {
        !q.name_only && !p.prefix && !p.suffix && !p.stem_only
    };
    ok && p.matches_chars(text, q.case_sensitive, q.whole_word)
}

fn atom_hits_exec(a: &Atom, field: u8, text: &Vec<char>, q: &Query) -> (r: bool)
    requires
        field <= 2,
    ensures
        r == atom_hits(a@, field as int, text@, q@),
{
    let ps = a.patterns();
    let mut k: usize = 0;
    while k < ps.len()
        invariant
            k <= ps.len(),
            field <= 2,
            patterns_view(ps@) == atom_patterns(a@),
            forall|j: int| 0 <= j < k ==> !(applies(#[trigger] atom_patterns(a@)[j], field as int, q@.name_only)
                && pattern_matches(atom_patterns(a@)[j], text@, q@.case_sensitive, q@.whole_word)),
        decreases ps.len() - k,
    {
        assert(atom_patterns(a@)[k as int] == ps@[k as int]@);
        if pattern_hits_exec(&ps[k], field, text, q) {
            return true;
        }
        k += 1;
    }
    false
}

fn excluded_exec(name: &Vec<char>, path: &Vec<char>, body: &Option<Vec<char>>, q: &Query, Ghost(r): Ghost<FileRecord>) -> (x: bool)
    requires
        name@ == r.name@,
        path@ == r.path@,
    ensures
        x == excluded(r, match body { Some(b) => Some(b@), None => None }, q@),
{
    let ghost bv: Option<Seq<char>> = match body {
        Some(b) => Some(b@),
        None => None,
    };
    let mut k: usize = 0;
    while k < q.must_not.len()
        invariant
            k <= q.must_not.len(),
            name@ == r.name@,
            path@ == r.path@,
            bv == (match body { Some(b) => Some(b@), None => None }),
            forall|j: int| 0 <= j < k ==> !{
                let p = #[trigger] q@.must_not[j];
                ||| pattern_matches(p, r.name@, q@.case_sensitive, q@.whole_word)
                ||| pattern_matches(p, r.path@, q@.case_sensitive, q@.whole_word)
                ||| (bv matches Some(b) && pattern_matches(p, b, q@.case_sensitive, q@.whole_word))
            },
        decreases q.must_not.len() - k,
    {
        let p = &q.must_not[k];
        assert(q@.must_not[k as int] == p@);
        let cs = q.case_sensitive;
        let ww = q.whole_word;
        let hit_body = match body {
            Some(b) => p.matches_chars(b, cs, ww),
            None => false,
        };
        if p.matches_chars(name, cs, ww) || p.matches_chars(path, cs, ww) || hit_body {
            return true;
        }
        k += 1;
    }
    false
}

/// The result flags of a record: (all atoms matched, all in the name, all in
/// the path, all in the body).
#[verifier::spinoff_prover]
fn atoms_exec(name: &Vec<char>, path: &Vec<char>, body: &Option<Vec<char>>, q: &Query, Ghost(r): Ghost<FileRecord>) -> (res: (bool, bool, bool, bool))
    requires
        name@ == r.name@,
        path@ == r.path@,
    ensures
        ({
            let bv = match body { Some(b) => Some(b@), None => None };
            &&& res.0 == atoms_ok(r, bv, q@)
            &&& res.0 ==> res.1 == all_name(r, q@)
            &&& res.0 ==> res.2 == all_path(r, q@)
            &&& res.0 ==> res.3 == all_body(bv, q@)
        }),
{
    let ghost bv: Option<Seq<char>> = match body {
        Some(b) => Some(b@),
        None => None,
    };
    if q.must.len() == 0 {
        return (true, false, false, false);
    }
    let mut n_all = true;
    let mut p_all = true;
    let mut c_all = true;
    let mut i: usize = 0;
    while i < q.must.len()
        invariant
            i <= q.must.len(),
            q@.must.len() > 0,
            name@ == r.name@,
            path@ == r.path@,
            bv == (match body { Some(b) => Some(b@), None => None }),
            forall|j: int| 0 <= j < i ==> {
                let a = #[trigger] q@.must[j];
                atom_hits(a, 0, r.name@, q@) || atom_hits(a, 1, r.path@, q@) || body_hits(a, bv, q@)
            },
            n_all == forall|j: int| 0 <= j < i ==> atom_hits(#[trigger] q@.must[j], 0, r.name@, q@),
            p_all == forall|j: int| 0 <= j < i ==> atom_hits(#[trigger] q@.must[j], 1, r.path@, q@),
            c_all == forall|j: int| 0 <= j < i ==> body_hits(#[trigger] q@.must[j], bv, q@),
        decreases q.must.len() - i,
    {
        let a = &q.must[i];
        assert(q@.must[i as int] == a@);
        let n = atom_hits_exec(a, 0, name, q);
        let p = atom_hits_exec(a, 1, path, q);
        let c = match body {
            Some(b) => atom_hits_exec(a, 2, b, q),
            None => false,
        };
        if !(n || p || c) {
            return (false, false, false, false);
        }
        n_all = n_all && n;
        p_all = p_all && p;
        c_all = c_all && c;
        i += 1;
    }
    (true, n_all, p_all, c_all)
}

/// The hit for one record, or `None` when it is not a result.
#[verifier::spinoff_prover]
fn hit_for(r: &FileRecord, content: &ContentIndex, q: &Query, terms: &Vec<String>, now: u64) -> (h: Option<Hit>)
    requires
        strings_view(terms@) == term_strings_of(q@.must),
    ensures
        match h {
            Some(h) => record_matches(*r, content@, q@) && h.record == *r && hit_ok(h, content@, q@, now),
            None => !record_matches(*r, content@, q@),
        },
{
    if !filters_ok_exec(r, q) {
        return None;
    }
    let name = chars_of(r.name.as_str());
    let path = chars_of(r.path.as_str());
    let body_str = content.body(r.path.as_str());
    let body: Option<Vec<char>> = match body_str {
        Some(b) => Some(chars_of(b)),
        None => None,
    };
    let ghost bv = body_of(content@, r.path@);
    assert(bv == (match body { Some(b) => Some(b@), None => None }));
    if excluded_exec(&name, &path, &body, q, Ghost(*r)) {
        return None;
    }
    let (ok, n_all, p_all, c_all) = atoms_exec(&name, &path, &body, q, Ghost(*r));
    if !ok {
        return None;
    }
    assert(terms_view(terms@) =~= strings_view(terms@));
    let snippet = match body_str {
        Some(b) => make_snippet(b, terms.as_slice(), 80),
        None => None,
    };
    let mut h = Hit {
        record: r.duplicate(),
        score: 0,
        name_match: n_all,
        path_match: p_all,
        content_match: c_all,
        snippet,
    };
    let s = score(&h, now, terms.as_slice());
    h.score = s;
    Some(h)
}

/// Runs a query: the matching records, scored at time `now`, sorted as the
/// query says (by score unless `sort:` chose otherwise), at most `count:`
/// of them.
#[verifier::spinoff_prover]
pub fn search(catalog: &Catalog, content: &ContentIndex, query: &Query, now: u64) -> (r: Vec<Hit>)
    ensures
        search_result(r@, catalog@, content@, query@, now),
{
    let terms = query.term_strings();
    let recs = catalog.records();
    let mut hits: Vec<Hit> = Vec::new();
    let mut i: usize = 0;
    while i < recs.len()
        invariant
            i <= recs.len(),
            recs@ == catalog@,
            strings_view(terms@) == term_strings_of(query@.must),
            hits@.map_values(|h: Hit| h.record) == matching_records(recs@.take(i as int), content@, query@),
            forall|k: int| 0 <= k < hits.len() ==> #[trigger] hit_ok(hits@[k], content@, query@, now),
        decreases recs.len() - i,
    {
        let ghost before = hits@;
        assert(recs@.take(i + 1).drop_last() =~= recs@.take(i as int));
        match hit_for(&recs[i], content, query, &terms, now) {
            Some(h) => {
                hits.push(h);
                assert(hits@.map_values(|h: Hit| h.record) =~= before.map_values(|h: Hit| h.record).push(
                    recs@[i as int],
                ));
            },
            None => {},
        }
        i += 1;
    }
    assert(recs@.take(i as int) =~= recs@);
    let ghost hs = hits@;
    sort_hits_by(&mut hits, query.sort);
    let ghost s = hits@;
    match query.max_results {
        Some(m) => {
            if m < hits.len() {
                hits.truncate(m);
            }
        },
        None => {},
    }
    assert(hits@ =~= s.take(result_limit(query@, s.len() as int)));
    hits
}

/// Compiles a natural-language input (see `crate::nl`) and runs it.
pub fn search_text(catalog: &Catalog, content: &ContentIndex, input: &str, now: u64) -> (r: Vec<Hit>)
    ensures
        search_result(r@, catalog@, content@, nl_query(input@, now), now),
{
    let q = compile_nl(input, now);
    search(catalog, content, &q, now)
}


proof fn lemma_matching_records(recs: Seq<FileRecord>, bodies: Map<Seq<char>, Seq<char>>, q: QuerySpec, k: int)
    requires
        0 <= k < matching_records(recs, bodies, q).len(),
    ensures
        recs.contains(matching_records(recs, bodies, q)[k]),
        record_matches(matching_records(recs, bodies, q)[k], bodies, q),
    decreases recs.len(),
{
    let m = matching_records(recs.drop_last(), bodies, q);
    if k < m.len() {
        lemma_matching_records(recs.drop_last(), bodies, q, k);
        let x = m[k];
        let i = choose|i: int| 0 <= i < recs.drop_last().len() && #[trigger] recs.drop_last()[i] == x;
        assert(recs[i] == x);
    } else {
        assert(recs[recs.len() - 1] == recs.last());
    }
}

/// Every hit of a search is a catalog record that passes the query's
/// filters, is not excluded and matches every term; there are at most
/// `count:` of them; they are in the query's order.
pub proof fn law_search_results_match(
    r: Seq<Hit>,
    recs: Seq<FileRecord>,
    bodies: Map<Seq<char>, Seq<char>>,
    q: QuerySpec,
    now: u64,
)
    requires
        search_result(r, recs, bodies, q, now),
    ensures
        forall|j: int| 0 <= j < r.len() ==> recs.contains(#[trigger] r[j].record) && record_matches(
            r[j].record,
            bodies,
            q,
        ) && hit_ok(r[j], bodies, q, now),
        q.max_results matches Some(m) ==> r.len() <= m,
        sorted_by(r, q.sort),
{
    let (hs, s) = choose|hs: Seq<Hit>, s: Seq<Hit>|
        hits_for(hs, recs, bodies, q, now) && s.to_multiset() == hs.to_multiset() && sorted_by(
            s,
            q.sort,
        ) && keeps_tie_order(hs, s, q.sort) && r == s.take(result_limit(q, s.len() as int));
    assert forall|j: int| 0 <= j < r.len() implies recs.contains(#[trigger] r[j].record) && record_matches(
        r[j].record,
        bodies,
        q,
    ) && hit_ok(r[j], bodies, q, now) by {
        let h = r[j];
        assert(s[j] == h);
        assert(s.contains(h));
        assert(s.to_multiset().count(h) > 0);
        assert(hs.to_multiset().count(h) > 0);
        assert(hs.contains(h));
        let k = choose|k: int| 0 <= k < hs.len() && #[trigger] hs[k] == h;
        assert(hit_ok(hs[k], bodies, q, now));
        assert(hs.map_values(|x: Hit| x.record)[k] == h.record);
        lemma_matching_records(recs, bodies, q, k);
    }
    assert forall|i: int, j: int| 0 <= i < j < r.len() implies !crate::rank::hit_lt(#[trigger] r[j], #[trigger] r[i], q.sort) by {
        assert(r[i] == s[i]);
        assert(r[j] == s[j]);
    }
}

proof fn lemma_matching_has(recs: Seq<FileRecord>, bodies: Map<Seq<char>, Seq<char>>, q: QuerySpec, i: int)
    requires
        0 <= i < recs.len(),
        record_matches(recs[i], bodies, q),
    ensures
        matching_records(recs, bodies, q).contains(recs[i]),
    decreases recs.len(),
{
    let m = matching_records(recs.drop_last(), bodies, q);
    if i == recs.len() - 1 {
        assert(m.push(recs.last())[m.len() as int] == recs[i]);
    } else {
        assert(recs.drop_last()[i] == recs[i]);
        lemma_matching_has(recs.drop_last(), bodies, q, i);
        let k = choose|k: int| 0 <= k < m.len() && m[k] == recs[i];
        if record_matches(recs.last(), bodies, q) {
            assert(m.push(recs.last())[k] == recs[i]);
        }
    }
}

proof fn lemma_matching_all(recs: Seq<FileRecord>, bodies: Map<Seq<char>, Seq<char>>, q: QuerySpec)
    requires
        forall|i: int| 0 <= i < recs.len() ==> record_matches(#[trigger] recs[i], bodies, q),
    ensures
        matching_records(recs, bodies, q) == recs,
    decreases recs.len(),
{
    if recs.len() > 0 {
        let init = recs.drop_last();
        assert forall|i: int| 0 <= i < init.len() implies record_matches(#[trigger] init[i], bodies, q) by {
            assert(init[i] == recs[i]);
        }
        lemma_matching_all(init, bodies, q);
        assert(recs[recs.len() - 1] == recs.last());
        assert(init.push(recs.last()) =~= recs);
    }
}

/// Without `count:`, every catalog record that matches the query is among
/// the hits, and there is exactly one hit per matching record.
pub proof fn law_search_complete(
    r: Seq<Hit>,
    recs: Seq<FileRecord>,
    bodies: Map<Seq<char>, Seq<char>>,
    q: QuerySpec,
    now: u64,
)
    requires
        search_result(r, recs, bodies, q, now),
        q.max_results is None,
    ensures
        forall|i: int|
            0 <= i < recs.len() && record_matches(#[trigger] recs[i], bodies, q) ==> exists|j: int|
                #![trigger r[j]] 0 <= j < r.len() && r[j].record == recs[i],
        r.len() == matching_records(recs, bodies, q).len(),
{
    let (hs, s) = choose|hs: Seq<Hit>, s: Seq<Hit>|
        hits_for(hs, recs, bodies, q, now) && s.to_multiset() == hs.to_multiset() && sorted_by(
            s,
            q.sort,
        ) && keeps_tie_order(hs, s, q.sort) && r == s.take(result_limit(q, s.len() as int));
    assert(r =~= s);
    let m = matching_records(recs, bodies, q);
    assert(hs.map_values(|h: Hit| h.record).len() == hs.len());
    assert forall|i: int|
        0 <= i < recs.len() && record_matches(#[trigger] recs[i], bodies, q) implies exists|j: int|
            #![trigger r[j]] 0 <= j < r.len() && r[j].record == recs[i] by {
        lemma_matching_has(recs, bodies, q, i);
        let k = choose|k: int| 0 <= k < m.len() && m[k] == recs[i];
        assert(hs.map_values(|h: Hit| h.record)[k] == hs[k].record);
        let h = hs[k];
        assert(hs.contains(h));
        assert(hs.to_multiset().count(h) > 0);
        assert(s.to_multiset().count(h) > 0);
        assert(s.contains(h));
        let j = choose|j: int| 0 <= j < s.len() && s[j] == h;
        assert(r[j].record == recs[i]);
    }
    assert(s.to_multiset().len() == s.len());
    assert(hs.to_multiset().len() == hs.len());
}

/// An empty (or blank) query lists the complete catalog: one hit per
/// record, every record among them.
pub proof fn law_empty_query_lists_catalog(
    r: Seq<Hit>,
    recs: Seq<FileRecord>,
    bodies: Map<Seq<char>, Seq<char>>,
    input: Seq<char>,
    now: u64,
)
    requires
        trim(input).len() == 0,
        search_result(r, recs, bodies, nl_query(input, now), now),
    ensures
        r.len() == recs.len(),
        forall|i: int|
            #![trigger recs[i]]
            0 <= i < recs.len() ==> exists|j: int| #![trigger r[j]] 0 <= j < r.len() && r[j].record == recs[i],
{
    let q = empty_query();
    assert(nl_query(input, now) == q);
    assert forall|i: int| 0 <= i < recs.len() implies record_matches(#[trigger] recs[i], bodies, q) by {
        let x = recs[i];
        let a = effective_attributes(x);
        assert(a & 0u32 == 0u32) by (bit_vector);
    }
    lemma_matching_all(recs, bodies, q);
    law_search_complete(r, recs, bodies, q, now);
    assert forall|i: int| #![trigger recs[i]] 0 <= i < recs.len() implies exists|j: int| #![trigger r[j]] 0 <= j < r.len() && r[j].record == recs[i] by {
        assert(record_matches(recs[i], bodies, q));
    }
}

/// A record created live is a hit of every query it matches (without
/// `count:`).
pub proof fn law_created_record_is_found(
    r: Seq<Hit>,
    before: Seq<FileRecord>,
    bodies: Map<Seq<char>, Seq<char>>,
    rec: FileRecord,
    q: QuerySpec,
    now: u64,
)
    requires
        search_result(r, insert_spec(before, rec), bodies, q, now),
        q.max_results is None,
        record_matches(rec, bodies, q),
    ensures
        exists|j: int| 0 <= j < r.len() && #[trigger] r[j].record == rec,
{
    let after = insert_spec(before, rec);
    let i = after.len() - 1;
    assert(after[i] == rec);
    law_search_complete(r, after, bodies, q, now);
    assert(record_matches(after[i], bodies, q));
}

/// After a delete, no hit of any query has the deleted id.
pub proof fn law_deleted_record_is_gone(
    r: Seq<Hit>,
    before: Seq<FileRecord>,
    bodies: Map<Seq<char>, Seq<char>>,
    id: u64,
    q: QuerySpec,
    now: u64,
)
    requires
        search_result(r, without_id(before, id), bodies, q, now),
    ensures
        forall|j: int| 0 <= j < r.len() ==> (#[trigger] r[j]).record.id != id,
{
    let after = without_id(before, id);
    law_search_results_match(r, after, bodies, q, now);
    assert forall|j: int| 0 <= j < r.len() implies (#[trigger] r[j]).record.id != id by {
        assert(after.contains(r[j].record));
        let k = choose|k: int| 0 <= k < after.len() && after[k] == r[j].record;
        lemma_without_id_excludes(before, id, k);
    }
}

/// After a live rename of a known record, the record under its new name
/// and path is a hit of every query it matches (without `count:`).
pub proof fn law_renamed_record_is_found(
    r: Seq<Hit>,
    before: Seq<FileRecord>,
    after: Seq<FileRecord>,
    bodies: Map<Seq<char>, Seq<char>>,
    id: u64,
    new_name: Seq<char>,
    new_path: Seq<char>,
    q: QuerySpec,
    now: u64,
)
    requires
        rename_matches(before, after, id, new_name, new_path),
        find_id(before, id) is Some,
        search_result(r, after, bodies, q, now),
        q.max_results is None,
        record_matches(find_id(after, id)->0, bodies, q),
    ensures
        find_id(after, id)->0.name@ == new_name,
        find_id(after, id)->0.path@ == new_path,
        exists|j: int| 0 <= j < r.len() && #[trigger] r[j].record == find_id(after, id)->0,
{
    law_rename_then_get(before, after, id, new_name, new_path);
    let p = lemma_find_id_some(after, id);
    law_search_complete(r, after, bodies, q, now);
    assert(record_matches(after[p], bodies, q));
}

/// An excluded (`!`) pattern keeps a record out of the results when it
/// matches the record's name, its path, or the body indexed for its path.
pub proof fn law_excluded_never_returned(
    r: Seq<Hit>,
    recs: Seq<FileRecord>,
    bodies: Map<Seq<char>, Seq<char>>,
    q: QuerySpec,
    now: u64,
)
    requires
        search_result(r, recs, bodies, q, now),
    ensures
        forall|j: int, k: int|
            #![trigger r[j], q.must_not[k]]
            0 <= j < r.len() && 0 <= k < q.must_not.len() ==> {
                let x = r[j].record;
                let p = q.must_not[k];
                &&& !pattern_matches(p, x.name@, q.case_sensitive, q.whole_word)
                &&& !pattern_matches(p, x.path@, q.case_sensitive, q.whole_word)
                &&& bodies.contains_key(x.path@) ==> !pattern_matches(
                    p,
                    bodies[x.path@],
                    q.case_sensitive,
                    q.whole_word,
                )
            },
{
    law_search_results_match(r, recs, bodies, q, now);
    assert forall|j: int, k: int|
        #![trigger r[j], q.must_not[k]]
        0 <= j < r.len() && 0 <= k < q.must_not.len() implies {
            let x = r[j].record;
            let p = q.must_not[k];
            &&& !pattern_matches(p, x.name@, q.case_sensitive, q.whole_word)
            &&& !pattern_matches(p, x.path@, q.case_sensitive, q.whole_word)
            &&& bodies.contains_key(x.path@) ==> !pattern_matches(
                p,
                bodies[x.path@],
                q.case_sensitive,
                q.whole_word,
            )
        } by {
        assert(record_matches(r[j].record, bodies, q));
        let x = r[j].record;
        let p = q.must_not[k];
        assert(!excluded(x, body_of(bodies, x.path@), q));
    }
}

} // verus!
