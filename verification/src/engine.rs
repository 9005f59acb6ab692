//! The engine: the name catalog and the content index together, and the
//! configuration file that names the folders to index.

use vstd::prelude::*;
use crate::catalog::{apply_matches, Catalog};
use crate::content::ContentIndex;
use crate::nl::nl_query;
use crate::query::strings_view;
use crate::search::{search_result, search_text};
use crate::text::{
    chars_eq, chars_of, split_exec, split_on, string_of, trim, trim_exec, find_from,
};
use crate::types::{CatalogEvent, Hit};

verus! {

/// The catalog of names and the index of bodies.
pub struct Engine {
    pub catalog: Catalog,
    pub content: ContentIndex,
}

impl Engine {
    pub open spec fn wf(&self) -> bool {
        self.catalog.wf() && self.content.wf()
    }

    pub fn new() -> (e: Engine)
        ensures
            e.wf(),
            e.catalog@ == Seq::<crate::types::FileRecord>::empty(),
            e.content@ == Map::<Seq<char>, Seq<char>>::empty(),
    {
        Engine { catalog: Catalog::new(), content: ContentIndex::new() }
    }

    /// Applies a catalog change; the content index is kept.
    pub fn apply(&mut self, event: CatalogEvent)
        requires
            old(self).wf(),
        ensures
            final(self).wf(),
            apply_matches(old(self).catalog@, final(self).catalog@, event),
            final(self).content@ == old(self).content@,
    {
        self.catalog.apply(event);
    }

    /// Runs a (natural-language or structured) query at time `now`.
    pub fn query(&self, input: &str, now: u64) -> (r: Vec<Hit>)
        ensures
            search_result(r@, self.catalog@, self.content@, nl_query(input@, now), now),
    {
        search_text(&self.catalog, &self.content, input, now)
    }
}

/// What a configuration file names: the folder for the name catalog and the
/// folders whose bodies are indexed.
pub struct EngineConfig {
    pub name_root: String,
    pub content_roots: Vec<String>,
}

/// A configuration line: `None` for a blank or `#` comment line, else the
/// trimmed key and value around the first `=` (`None` as key when there is
/// no `=`).
pub open spec fn config_line(line: Seq<char>) -> Option<(Option<Seq<char>>, Seq<char>)> {
    let t = trim(line);
    if t.len() == 0 || t[0] == '#' {
        None
    } else {
        match find_from(t, seq!['='], 0) {
            Some(k) => Some((Some(trim(t.take(k))), trim(t.skip(k + 1)))),
            None => Some((None, t)),
        }
    }
}

/// Reading the lines in order: the name root seen last, the content roots
/// in order, or the first bad line.
pub open spec fn config_state(lines: Seq<Seq<char>>) -> Result<(Option<Seq<char>>, Seq<Seq<char>>), Seq<char>>
    decreases lines.len(),
{
    if lines.len() == 0 {
        Ok((None, Seq::empty()))
    } else {
        match config_state(lines.drop_last()) {
            Err(e) => Err(e),
            Ok((name, roots)) => match config_line(lines.last()) {
                None => Ok((name, roots)),
                Some((None, t)) => Err("invalid config line: "@ + t),
                Some((Some(k), v)) => if k == "name_root"@ {
                    Ok((Some(v), roots))
                } else if k == "content_root"@ {
                    Ok((name, roots.push(v)))
                } else {
                    Err("unknown config key: "@ + k)
                },
            },
        }
    }
}

/// `name_root=DIR` and `content_root=DIR` lines (the latter repeatable);
/// blank lines and `#` comments are skipped; a name root is required.
pub open spec fn engine_config_of(text: Seq<char>) -> Result<(Seq<char>, Seq<Seq<char>>), Seq<char>> {
    match config_state(split_on(text, '\n')) {
        Err(e) => Err(e),
        Ok((None, _)) => Err("missing name_root"@),
        Ok((Some(n), roots)) => Ok((n, roots)),
    }
}

fn concat_str(a: &str, b: &Vec<char>) -> (r: String)
    ensures
        r@ == a@ + b@,
{
    let mut v = chars_of(a);
    let mut i: usize = 0;
    let ghost start = v@;
    while i < b.len()
        invariant
            i <= b.len(),
            v@ == start + b@.take(i as int),
        decreases b.len() - i,
    {
        v.push(b[i]);
        i += 1;
        assert(v@ =~= start + b@.take(i as int));
    }
    assert(b@.take(i as int) =~= b@);
    string_of(&v)
}

fn config_line_exec(line: &Vec<char>) -> (r: Option<(Option<Vec<char>>, Vec<char>)>)
    ensures
        match r {
            None => config_line(line@) is None,
            Some((None, t)) => config_line(line@) == Some((None::<Seq<char>>, t@)),
            Some((Some(k), v)) => config_line(line@) == Some((Some(k@), v@)),
        },
{
    let t = trim_exec(line);
    if t.len() == 0 || t[0] == '#' {
        return None;
    }
    let eq: Vec<char> = vec!['='];
    assert(eq@ =~= seq!['=']);
    match crate::text::find_exec(&t, &eq, 0) {
        Some(k) => {
            proof {
                crate::text::lemma_find_from(t@, eq@, 0);
            }
            let key = trim_exec(&crate::text::slice_chars(&t, 0, k));
            let val = trim_exec(&crate::text::slice_chars(&t, k + 1, t.len()));
            assert(t@.subrange(0, k as int) =~= t@.take(k as int));
            assert(t@.subrange(k + 1, t.len() as int) =~= t@.skip(k + 1));
            Some((Some(key), val))
        },
        None => Some((None, t)),
    }
}

proof fn lemma_config_err_stays(lines: Seq<Seq<char>>, i: int)
    requires
        0 <= i <= lines.len(),
        config_state(lines.take(i)) is Err,
    ensures
        config_state(lines) == config_state(lines.take(i)),
    decreases lines.len() - i,
{
    if i < lines.len() {
        assert(lines.take(i + 1).drop_last() =~= lines.take(i));
        lemma_config_err_stays(lines, i + 1);
    } else {
        assert(lines.take(i) =~= lines);
    }
}

/// Parses a configuration file.
pub fn parse_engine_config(text: &str) -> (r: Result<EngineConfig, String>)
    ensures
        match r {
            Ok(c) => engine_config_of(text@) == Ok::<(Seq<char>, Seq<Seq<char>>), Seq<char>>((c.name_root@, strings_view(c.content_roots@))),
            Err(e) => engine_config_of(text@) == Err::<(Seq<char>, Seq<Seq<char>>), Seq<char>>(e@),
        },
{
    let lines = split_exec(&chars_of(text), '\n');
    let ghost lv = split_on(text@, '\n');
    let mut name: Option<String> = None;
    let mut roots: Vec<String> = Vec::new();
    let mut i: usize = 0;
    assert(lv.take(0) =~= Seq::<Seq<char>>::empty());
    assert(strings_view(roots@) =~= Seq::<Seq<char>>::empty());
    while i < lines.len()
        invariant
            i <= lines.len(),
            lines@.map_values(|v: Vec<char>| v@) == lv,
            lv == split_on(text@, '\n'),
            config_state(lv.take(i as int)) == Ok::<(Option<Seq<char>>, Seq<Seq<char>>), Seq<char>>((
                match name {
                    Some(n) => Some(n@),
                    None => None,
                },
                strings_view(roots@),
            )),
        decreases lines.len() - i,
    {
        assert(lv.take(i + 1).drop_last() =~= lv.take(i as int));
        assert(lv[i as int] == lines@[i as int]@);
        match config_line_exec(&lines[i]) {
            None => {},
            Some((None, t)) => {
                let e = concat_str("invalid config line: ", &t);
                proof {
                    lemma_config_err_stays(lv, i + 1);
                }
                return Err(e);
            },
            Some((Some(k), v)) => {
                if chars_eq(&k, &chars_of("name_root")) {
                    name = Some(string_of(&v));
                } else if chars_eq(&k, &chars_of("content_root")) {
                    let ghost before = strings_view(roots@);
                    roots.push(string_of(&v));
                    assert(strings_view(roots@) =~= before.push(v@));
                } else {
                    let e = concat_str("unknown config key: ", &k);
                    proof {
                        lemma_config_err_stays(lv, i + 1);
                    }
                    return Err(e);
                }
            },
        }
        i += 1;
    }
    assert(lv.take(i as int) =~= lv);
    match name {
        None => Err("missing name_root".to_owned()),
        Some(n) => Ok(EngineConfig { name_root: n, content_roots: roots }),
    }
}

/// The text of the two path fields of the window for a configuration: the
/// name root, and the content roots joined with `;`.
pub fn apply_config_to_fields(cfg: &EngineConfig) -> (r: (String, String))
    ensures
        r.0@ == cfg.name_root@,
        r.1@ == join_with(strings_view(cfg.content_roots@), ';'),
{
    let mut out: Vec<char> = Vec::new();
    let mut i: usize = 0;
    while i < cfg.content_roots.len()
        invariant
            i <= cfg.content_roots.len(),
            out@ == join_with(strings_view(cfg.content_roots@).take(i as int), ';'),
        decreases cfg.content_roots.len() - i,
    {
        let ghost sv = strings_view(cfg.content_roots@);
        assert(sv.take(i + 1).drop_last() =~= sv.take(i as int));
        assert(sv[i as int] == cfg.content_roots@[i as int]@);
        if i > 0 {
            out.push(';');
        }
        let piece = chars_of(cfg.content_roots[i].as_str());
        let ghost base = out@;
        let mut j: usize = 0;
        while j < piece.len()
            invariant
                j <= piece.len(),
                out@ == base + piece@.take(j as int),
            decreases piece.len() - j,
        {
            out.push(piece[j]);
            j += 1;
            assert(out@ =~= base + piece@.take(j as int));
        }
        assert(piece@.take(j as int) =~= piece@);
        i += 1;
    }
    assert(strings_view(cfg.content_roots@).take(i as int) =~= strings_view(cfg.content_roots@));
    (string_of(&chars_of(cfg.name_root.as_str())), string_of(&out))
}

/// Pieces joined with a separator.
pub open spec fn join_with(pieces: Seq<Seq<char>>, sep: char) -> Seq<char>
    decreases pieces.len(),
{
    if pieces.len() == 0 {
        Seq::empty()
    } else if pieces.len() == 1 {
        pieces[0]
    } else {
        join_with(pieces.drop_last(), sep).push(sep) + pieces.last()
    }
}

} // verus!
