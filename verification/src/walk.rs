//! Decisions of the folder walk that fills the catalog: record ids, which
//! folders are entered, and which files have their bodies indexed.  Reading
//! the folders is left to the caller.

use vstd::prelude::*;
use crate::catalog::{insert_spec, Catalog};
use crate::extract::{is_extractable, is_extractable_spec};
use crate::path::{strip_path_prefix, strip_path_prefix_exec};
use crate::query::strings_view;
use crate::text::{chars_eq, chars_of};
use crate::types::FileRecord;

verus! {

/// Bodies larger than this are not extracted, so the name catalog stays
/// instant.
pub const MAX_CONTENT_BYTES: u64 = 33554432;

/// A file's body is indexed when it is of an extractable type, lies under a
/// content root, and is not larger than `MAX_CONTENT_BYTES`.
pub fn should_index_content(size: u64, extractable: bool, under_root: bool) -> (r: bool)
    ensures
        r == (extractable && under_root && size <= MAX_CONTENT_BYTES),
{
    extractable && under_root && size <= MAX_CONTENT_BYTES
}

/// `path` lies at or below one of `roots` (whole components).
pub open spec fn under_any_spec(path: Seq<char>, roots: Seq<Seq<char>>) -> bool {
    exists|i: int| 0 <= i < roots.len() && strip_path_prefix(path, #[trigger] roots[i]) is Some
}

pub fn under_any(path: &str, roots: &[String]) -> (r: bool)
    ensures
        r == under_any_spec(path@, strings_view(roots@)),
{
    let p = chars_of(path);
    let mut i: usize = 0;
    while i < roots.len()
        invariant
            i <= roots.len(),
            p@ == path@,
            forall|k: int| 0 <= k < i ==> strip_path_prefix(path@, #[trigger] strings_view(roots@)[k]) is None,
        decreases roots.len() - i,
    {
        assert(strings_view(roots@)[i as int] == roots@[i as int]@);
        if strip_path_prefix_exec(&p, &chars_of(roots[i].as_str())).is_some() {
            return true;
        }
        i += 1;
    }
    false
}

/// Folders whose contents are not walked (version-control and package
/// folders), unless the walk starts inside them.
pub open spec fn skipped_dir_name(name: Seq<char>) -> bool {
    name == ".git"@ || name == "node_modules"@ || name == ".svn"@ || name == ".hg"@
}

pub fn is_skipped_dir_name(name: &str) -> (r: bool)
    ensures
        r == skipped_dir_name(name@),
{
    let n = chars_of(name);
    chars_eq(&n, &chars_of(".git")) || chars_eq(&n, &chars_of("node_modules")) || chars_eq(
        &n,
        &chars_of(".svn"),
    ) || chars_eq(&n, &chars_of(".hg"))
}

/// The largest id in the catalog, or 0.
pub open spec fn max_id(recs: Seq<FileRecord>) -> u64
    decreases recs.len(),
{
    if recs.len() == 0 {
        0
    } else {
        let m = max_id(recs.drop_last());
        if recs.last().id > m {
            recs.last().id
        } else {
            m
        }
    }
}

/// The first id a walk hands out: one more than the largest id so far.
pub fn first_free_id(catalog: &Catalog) -> (r: u64)
    requires
        max_id(catalog@) < u64::MAX,
    ensures
        r == max_id(catalog@) + 1,
{
    let recs = catalog.records();
    let mut m: u64 = 0;
    let mut i: usize = 0;
    while i < recs.len()
        invariant
            i <= recs.len(),
            recs@ == catalog@,
            m == max_id(recs@.take(i as int)),
        decreases recs.len() - i,
    {
        assert(recs@.take(i + 1).drop_last() =~= recs@.take(i as int));
        if recs[i].id > m {
            m = recs[i].id;
        }
        i += 1;
    }
    assert(recs@.take(i as int) =~= recs@);
    m + 1
}

/// One entry read from a folder.
pub struct WalkEntry {
    pub path: String,
    pub name: String,
    pub is_dir: bool,
    /// Length in bytes.
    pub len: u64,
    /// Last modification (seconds since the epoch), when it could be read.
    pub modified: Option<u64>,
}

/// What to do after an entry was recorded.
pub struct WalkStep {
    /// The id the entry got.
    pub id: u64,
    /// Extract and index the entry's body.
    pub index_body: bool,
    /// Walk into the entry (a folder that is not skipped).
    pub descend: bool,
}

/// The record a walk makes for an entry.
pub open spec fn walk_record(e: WalkEntry, id: u64, parent: Option<u64>) -> FileRecord {
    FileRecord {
        id,
        parent_id: parent,
        name: e.name,
        path: e.path,
        size: if e.is_dir {
            0
        } else {
            e.len
        },
        modified: match e.modified {
            Some(m) => m,
            None => 0,
        },
        is_dir: e.is_dir,
        attributes: 0,
    }
}

/// Records an entry of the folder with id `parent` under the next id.
pub fn walk_entry(
    catalog: &mut Catalog,
    e: WalkEntry,
    parent: Option<u64>,
    content_roots: &[String],
    next_id: &mut u64,
) -> (s: WalkStep)
    requires
        old(catalog).wf(),
        *old(next_id) < u64::MAX,
    ensures
        final(catalog).wf(),
        s.id == *old(next_id),
        *final(next_id) == *old(next_id) + 1,
        final(catalog)@ == insert_spec(old(catalog)@, walk_record(e, s.id, parent)),
        s.index_body == (!e.is_dir && is_extractable_spec(e.path@) && under_any_spec(
            e.path@,
            strings_view(content_roots@),
        ) && e.len <= MAX_CONTENT_BYTES),
        s.descend == (e.is_dir && !skipped_dir_name(e.name@)),
{
    let id = *next_id;
    *next_id = id + 1;
    let size = if e.is_dir {
        0
    } else {
        e.len
    };
    let index_body = !e.is_dir && should_index_content(
        size,
        is_extractable(e.path.as_str()),
        under_any(e.path.as_str(), content_roots),
    );
    let descend = e.is_dir && !is_skipped_dir_name(e.name.as_str());
    let ghost ev = e;
    let rec = FileRecord {
        id,
        parent_id: parent,
        name: e.name,
        path: e.path,
        size,
        modified: match e.modified {
            Some(m) => m,
            None => 0,
        },
        is_dir: e.is_dir,
        attributes: 0,
    };
    assert(rec == walk_record(ev, id, parent));
    catalog.insert(rec);
    WalkStep { id, index_body, descend }
}

} // verus!
