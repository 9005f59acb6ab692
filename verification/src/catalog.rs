//! The name catalog: every known file and folder, with an index from the
//! first one to three lowercase characters of each name to the records
//! carrying that name prefix.

use vstd::prelude::*;
use vstd::hash_map::StringHashMap;
use crate::path::{
    is_sep, join_path, join_path_exec, strip_path_prefix, strip_path_prefix_exec, trim_end_seps,
    trim_start_seps,
};
use crate::text::{
    chars_eq, chars_of, lower_ascii, lower_ascii_vec, slice_chars, starts_with, starts_with_exec,
    string_of,
};
use crate::types::{CatalogEvent, FileRecord};

verus! {

/// `k` is one of the index keys of `name`: its first one to three characters,
/// ASCII-lowercased.
pub open spec fn is_key_of(k: Seq<char>, name: Seq<char>) -> bool {
    1 <= k.len() <= 3 && k.len() <= name.len() && k == lower_ascii(name.take(k.len() as int))
}

/// Ids and names of a list of records.
pub open spec fn entries_of(recs: Seq<FileRecord>) -> Seq<(u64, Seq<char>)> {
    recs.map_values(|r: FileRecord| (r.id, r.name@))
}

pub open spec fn has_key_entry(es: Seq<(u64, Seq<char>)>, k: Seq<char>, id: u64) -> bool {
    exists|i: int| 0 <= i < es.len() && es[i].0 == id && #[trigger] is_key_of(k, es[i].1)
}

/// Every id listed under a key belongs to an entry having that key.
pub open spec fn index_sound(es: Seq<(u64, Seq<char>)>, idx: Map<Seq<char>, Vec<u64>>) -> bool {
    forall|k: Seq<char>, id: u64|
        idx.contains_key(k) && #[trigger] idx[k]@.contains(id) ==> has_key_entry(es, k, id)
}

/// Every entry is listed under each of its keys.
pub open spec fn index_complete(es: Seq<(u64, Seq<char>)>, idx: Map<Seq<char>, Vec<u64>>) -> bool {
    forall|i: int, k: Seq<char>|
        0 <= i < es.len() && #[trigger] is_key_of(k, es[i].1) ==> idx.contains_key(k)
            && idx[k]@.contains(es[i].0)
}

pub open spec fn buckets_distinct(idx: Map<Seq<char>, Vec<u64>>) -> bool {
    forall|k: Seq<char>| idx.contains_key(k) ==> (#[trigger] idx[k]@).no_duplicates()
}

pub open spec fn index_ok(es: Seq<(u64, Seq<char>)>, idx: Map<Seq<char>, Vec<u64>>) -> bool {
    index_sound(es, idx) && index_complete(es, idx) && buckets_distinct(idx)
}

pub open spec fn ids_distinct(es: Seq<(u64, Seq<char>)>) -> bool {
    forall|i: int, j: int| 0 <= i < es.len() && 0 <= j < es.len() && i != j ==> es[i].0 != es[j].0
}

/// The first record with id `id`.
pub open spec fn find_id(recs: Seq<FileRecord>, id: u64) -> Option<FileRecord>
    decreases recs.len(),
{
    if recs.len() == 0 {
        None
    } else if recs[0].id == id {
        Some(recs[0])
    } else {
        find_id(recs.drop_first(), id)
    }
}

/// The records without those with id `id`, in order.
pub open spec fn without_id(recs: Seq<FileRecord>, id: u64) -> Seq<FileRecord>
    decreases recs.len(),
{
    if recs.len() == 0 {
        Seq::empty()
    } else if recs.last().id == id {
        without_id(recs.drop_last(), id)
    } else {
        without_id(recs.drop_last(), id).push(recs.last())
    }
}

/// Inserting replaces the record with the same id, and puts the new one last.
pub open spec fn insert_spec(recs: Seq<FileRecord>, rec: FileRecord) -> Seq<FileRecord> {
    without_id(recs, rec.id).push(rec)
}

/// What a record looks like after the rename (see `renamed_record`).
pub open spec fn rename_record_spec(
    r: FileRecord,
    id: u64,
    is_dir: bool,
    old_path: Seq<char>,
    new_name: Seq<char>,
    new_path: Seq<char>,
) -> (Seq<char>, Seq<char>) {
    if r.id == id {
        (new_name, new_path)
    } else if is_dir && strip_path_prefix(r.path@, old_path) is Some {
        (r.name@, join_path(new_path, strip_path_prefix(r.path@, old_path)->0))
    } else {
        (r.name@, r.path@)
    }
}

/// Record `after` is record `before` once record `id` (a folder when
/// `is_dir`, at `old_path`) was renamed to `new_name` at `new_path`: only
/// the name and path may differ, as `rename_record_spec` says.
pub open spec fn renamed_ok(
    before: FileRecord,
    after: FileRecord,
    id: u64,
    is_dir: bool,
    old_path: Seq<char>,
    new_name: Seq<char>,
    new_path: Seq<char>,
) -> bool {
    let (n, p) = rename_record_spec(before, id, is_dir, old_path, new_name, new_path);
    &&& after.name@ == n
    &&& after.path@ == p
    &&& after.id == before.id
    &&& after.parent_id == before.parent_id
    &&& after.size == before.size
    &&& after.modified == before.modified
    &&& after.is_dir == before.is_dir
    &&& after.attributes == before.attributes
}

/// The records after renaming record `id` (no change when there is none).
pub open spec fn rename_matches(
    before: Seq<FileRecord>,
    after: Seq<FileRecord>,
    id: u64,
    new_name: Seq<char>,
    new_path: Seq<char>,
) -> bool {
    match find_id(before, id) {
        None => after == before,
        Some(target) => {
            &&& after.len() == before.len()
            &&& forall|i: int|
                0 <= i < before.len() ==> #[trigger] renamed_ok(
                    before[i],
                    after[i],
                    id,
                    target.is_dir,
                    target.path@,
                    new_name,
                    new_path,
                )
        },
    }
}

/// The name catalog.  Records are kept in a list, in the order they were
/// added (a replaced record moves to the end), so searches and listings
/// see them in a fixed order; a prefix index finds names quickly.
pub struct Catalog {
    records: Vec<FileRecord>,
    /// Lowercase name prefixes (one to three characters) to record ids.
    by_prefix: StringHashMap<Vec<u64>>,
}

impl View for Catalog {
    type V = Seq<FileRecord>;

    closed spec fn view(&self) -> Seq<FileRecord> {
        self.records@
    }
}

/// The index keys of `name`, shortest first.
fn name_prefixes(name: &Vec<char>) -> (r: Vec<Vec<char>>)
    ensures
        r.len() <= 3,
        forall|j: int| 0 <= j < r.len() ==> #[trigger] is_key_of(r@[j]@, name@) && r@[j]@.len() == j + 1,
        forall|k: Seq<char>| is_key_of(k, name@) ==> exists|j: int| 0 <= j < r.len() && #[trigger] r@[j]@ == k,
{
    let lower = lower_ascii_vec(name);
    let n: usize = if name.len() < 3 {
        name.len()
    } else {
        3
    };
    let mut r: Vec<Vec<char>> = Vec::new();
    let mut j: usize = 0;
    while j < n
        invariant
            j <= n <= 3,
            n <= name.len(),
            n == name.len() || n == 3,
            lower@ == lower_ascii(name@),
            r.len() == j,
            forall|i: int| 0 <= i < j ==> #[trigger] is_key_of(r@[i]@, name@) && r@[i]@.len() == i + 1,
        decreases n - j,
    {
        let key = slice_chars(&lower, 0, j + 1);
        assert(key@ =~= lower_ascii(name@.take(j + 1)));
        r.push(key);
        j += 1;
    }
    assert forall|k: Seq<char>| is_key_of(k, name@) implies exists|i: int|
        0 <= i < r.len() && #[trigger] r@[i]@ == k by {
        let i = k.len() - 1;
        assert(is_key_of(r@[i]@, name@));
        assert(r@[i]@ =~= k);
    }
    r
}

fn copy_ids(v: &Vec<u64>) -> (r: Vec<u64>)
    ensures
        r@ == v@,
{
    let mut r: Vec<u64> = Vec::new();
    let mut i: usize = 0;
    while i < v.len()
        invariant
            i <= v.len(),
            r@ == v@.take(i as int),
        decreases v.len() - i,
    {
        r.push(v[i]);
        i += 1;
        assert(r@ =~= v@.take(i as int));
    }
    assert(v@.take(i as int) =~= v@);
    r
}

fn contains_id(v: &Vec<u64>, id: u64) -> (r: bool)
    ensures
        r == v@.contains(id),
{
    let mut i: usize = 0;
    while i < v.len()
        invariant
            i <= v.len(),
            forall|k: int| 0 <= k < i ==> v@[k] != id,
        decreases v.len() - i,
    {
        if v[i] == id {
            assert(v@[i as int] == id);
            return true;
        }
        i += 1;
    }
    false
}

fn without_value(v: &Vec<u64>, id: u64) -> (r: Vec<u64>)
    requires
        v@.no_duplicates(),
    ensures
        r@.no_duplicates(),
        forall|x: u64| r@.contains(x) <==> (v@.contains(x) && x != id),
{
    let mut r: Vec<u64> = Vec::new();
    let mut i: usize = 0;
    while i < v.len()
        invariant
            i <= v.len(),
            v@.no_duplicates(),
            r@.no_duplicates(),
            forall|x: u64| r@.contains(x) <==> (v@.take(i as int).contains(x) && x != id),
        decreases v.len() - i,
    {
        let x = v[i];
        assert(v@.take(i + 1) =~= v@.take(i as int).push(x));
        if x != id {
            proof {
                assert(!v@.take(i as int).contains(x)) by {
                    if v@.take(i as int).contains(x) {
                        let k = choose|k: int| 0 <= k < i&& #[trigger] v@.take(i as int)[k] == x;
                        assert(v@[k] == v@[i as int]);
                    }
                }
            }
            let ghost before = r@;
            r.push(x);
            assert forall|a: int, b: int|
                0 <= a < r@.len() && 0 <= b < r@.len() && a != b implies r@[a] != r@[b] by {
                if a == r@.len() - 1 {
                    assert(before.contains(r@[b]));
                } else if b == r@.len() - 1 {
                    assert(before.contains(r@[a]));
                }
            }
            assert forall|y: u64| r@.contains(y) <==> (v@.take(i + 1).contains(y) && y != id) by {
                if r@.contains(y) {
                    if y == x {
                        assert(v@.take(i + 1)[i as int] == y);
                    } else {
                        let k = choose|k: int| 0 <= k < r@.len() && #[trigger] r@[k] == y;
                        assert(before[k] == y);
                        assert(before.contains(y));
                        let m = choose|m: int| 0 <= m < i && #[trigger] v@.take(i as int)[m] == y;
                        assert(v@.take(i + 1)[m] == y);
                    }
                }
                if v@.take(i + 1).contains(y) && y != id {
                    if y == x {
                        assert(r@[r@.len() - 1] == y);
                    } else {
                        let k = choose|k: int| 0 <= k < i + 1 && #[trigger] v@.take(i + 1)[k] == y;
                        assert(k != i);
                        assert(v@.take(i as int)[k] == y);
                        assert(before.contains(y));
                        let m = choose|m: int| 0 <= m < before.len() && #[trigger] before[m] == y;
                        assert(r@[m] == y);
                    }
                }
            }
        } else {
            assert forall|y: u64| r@.contains(y) <==> (v@.take(i + 1).contains(y) && y != id) by {
                if v@.take(i + 1).contains(y) && y != id {
                    let k = choose|k: int| 0 <= k < i + 1&& #[trigger] v@.take(i + 1)[k] == y;
                    assert(k != i);
                    assert(v@.take(i as int)[k] == y);
                }
            }
        }
        i += 1;
    }
    assert(v@.take(i as int) =~= v@);
    r
}

impl Catalog {
    /// Records with distinct ids, and an index that lists exactly, and each
    /// once, the ids of the records having each key.
    pub closed spec fn wf(&self) -> bool {
        &&& ids_distinct(entries_of(self.records@))
        &&& index_ok(entries_of(self.records@), self.by_prefix@)
    }

    /// A well-formed catalog holds each id at most once.
    pub proof fn lemma_ids_distinct(&self)
        requires
            self.wf(),
        ensures
            ids_unique(self@),
    {
        let es = entries_of(self.records@);
        assert forall|i: int, j: int|
            #![trigger self.records@[i], self.records@[j]]
            0 <= i < self.records@.len() && 0 <= j < self.records@.len() && i != j implies
                self.records@[i].id != self.records@[j].id by {
            assert(es[i].0 == self.records@[i].id);
            assert(es[j].0 == self.records@[j].id);
        }
    }

    pub fn new() -> (c: Catalog)
        ensures
            c.wf(),
            c@ == Seq::<FileRecord>::empty(),
    {
        let c = Catalog { records: Vec::new(), by_prefix: StringHashMap::new() };
        assert(entries_of(c.records@) =~= Seq::<(u64, Seq<char>)>::empty());
        c
    }

    pub fn len(&self) -> (n: usize)
        ensures
            n == self@.len(),
    {
        self.records.len()
    }

    pub fn is_empty(&self) -> (b: bool)
        ensures
            b == (self@.len() == 0),
    {
        self.records.len() == 0
    }

    /// All records, in catalog order.
    pub fn records(&self) -> (r: &Vec<FileRecord>)
        ensures
            r@ == self@,
    {
        &self.records
    }

    /// An iterator over all records, in catalog order.
    pub fn iter(&self) -> (r: std::slice::Iter<'_, FileRecord>)
        ensures
            vstd::std_specs::slice::into_iter_elts(r) == self@,
    {
        let s = self.records.as_slice();
        let it = s.iter();
        proof {
            broadcast use vstd::std_specs::slice::axiom_spec_slice_iter;
            assert(s@.as_ref().unref() =~= s@);
        }
        it
    }
}


proof fn lemma_has_key_push(es: Seq<(u64, Seq<char>)>, e: (u64, Seq<char>), k: Seq<char>, id: u64)
    requires
        has_key_entry(es, k, id),
    ensures
        has_key_entry(es.push(e), k, id),
{
    let i = choose|i: int| 0 <= i < es.len() && es[i].0 == id && #[trigger] is_key_of(k, es[i].1);
    assert(es.push(e)[i] == es[i]);
}

/// The index conditions only depend on which entries there are.
proof fn lemma_index_ok_same_entries(
    a: Seq<(u64, Seq<char>)>,
    b: Seq<(u64, Seq<char>)>,
    idx: Map<Seq<char>, Vec<u64>>,
)
    requires
        index_ok(a, idx),
        forall|e: (u64, Seq<char>)| a.contains(e) <==> b.contains(e),
    ensures
        index_ok(b, idx),
{
    assert forall|k: Seq<char>, id: u64|
        idx.contains_key(k) && #[trigger] idx[k]@.contains(id) implies has_key_entry(b, k, id) by {
        let i = choose|i: int| 0 <= i < a.len() && a[i].0 == id && #[trigger] is_key_of(k, a[i].1);
        assert(a.contains(a[i]));
        let j = choose|j: int| 0 <= j < b.len() && #[trigger] b[j] == a[i];
        assert(is_key_of(k, b[j].1));
    }
    assert forall|j: int, k: Seq<char>|
        0 <= j < b.len() && #[trigger] is_key_of(k, b[j].1) implies idx.contains_key(k)
            && idx[k]@.contains(b[j].0) by {
        assert(b.contains(b[j]));
        let i = choose|i: int| 0 <= i < a.len() && #[trigger] a[i] == b[j];
        assert(is_key_of(k, a[i].1));
    }
}

proof fn lemma_without_id_absent(s: Seq<FileRecord>, id: u64)
    requires
        forall|i: int| 0 <= i < s.len() ==> #[trigger] s[i].id != id,
    ensures
        without_id(s, id) == s,
    decreases s.len(),
{
    if s.len() > 0 {
        lemma_without_id_absent(s.drop_last(), id);
        assert(s.drop_last().push(s.last()) =~= s);
    }
}

proof fn lemma_without_id_at(s: Seq<FileRecord>, id: u64, p: int)
    requires
        0 <= p < s.len(),
        s[p].id == id,
        forall|i: int| 0 <= i < s.len() && i != p ==> #[trigger] s[i].id != id,
    ensures
        without_id(s, id) == s.remove(p),
    decreases s.len(),
{
    if p == s.len() - 1 {
        lemma_without_id_absent(s.drop_last(), id);
        assert(s.drop_last() =~= s.remove(p));
    } else {
        lemma_without_id_at(s.drop_last(), id, p);
        assert(s.drop_last().remove(p).push(s.last()) =~= s.remove(p));
    }
}

proof fn lemma_find_id_at(s: Seq<FileRecord>, id: u64, p: int)
    requires
        0 <= p < s.len(),
        s[p].id == id,
        forall|i: int| 0 <= i < p ==> #[trigger] s[i].id != id,
    ensures
        find_id(s, id) == Some(s[p]),
    decreases p,
{
    if p > 0 {
        assert forall|i: int| 0 <= i < p - 1 implies #[trigger] s.drop_first()[i].id != id by {
            assert(s.drop_first()[i] == s[i + 1]);
        }
        lemma_find_id_at(s.drop_first(), id, p - 1);
    }
}

proof fn lemma_find_id_none(s: Seq<FileRecord>, id: u64)
    requires
        forall|i: int| 0 <= i < s.len() ==> #[trigger] s[i].id != id,
    ensures
        find_id(s, id) is None,
    decreases s.len(),
{
    if s.len() > 0 {
        assert forall|i: int| 0 <= i < s.len() - 1 implies #[trigger] s.drop_first()[i].id != id by {
            assert(s.drop_first()[i] == s[i + 1]);
        }
        lemma_find_id_none(s.drop_first(), id);
    }
}

/// The first record with path `path`.
pub open spec fn find_path(recs: Seq<FileRecord>, path: Seq<char>) -> Option<FileRecord>
    decreases recs.len(),
{
    if recs.len() == 0 {
        None
    } else if recs[0].path@ == path {
        Some(recs[0])
    } else {
        find_path(recs.drop_first(), path)
    }
}

proof fn lemma_find_path_at(s: Seq<FileRecord>, path: Seq<char>, p: int)
    requires
        0 <= p <= s.len(),
        p < s.len() ==> s[p].path@ == path,
        forall|i: int| 0 <= i < p ==> #[trigger] s[i].path@ != path,
    ensures
        p < s.len() ==> find_path(s, path) == Some(s[p]),
        p == s.len() ==> find_path(s, path) is None,
    decreases p,
{
    if p > 0 {
        assert forall|i: int| 0 <= i < p - 1 implies #[trigger] s.drop_first()[i].path@ != path by {
            assert(s.drop_first()[i] == s[i + 1]);
        }
        lemma_find_path_at(s.drop_first(), path, p - 1);
    }
}

/// A record whose lowercase name starts with the lowercase, non-empty
/// `prefix`.
pub open spec fn prefix_match(r: FileRecord, prefix: Seq<char>) -> bool {
    prefix.len() > 0 && starts_with(lower_ascii(r.name@), lower_ascii(prefix))
}

/// What a catalog change does to the records.
pub open spec fn apply_matches(before: Seq<FileRecord>, after: Seq<FileRecord>, ev: CatalogEvent) -> bool {
    match ev {
        CatalogEvent::Create(rec) => after == insert_spec(before, rec),
        CatalogEvent::Delete { id } => after == without_id(before, id),
        CatalogEvent::Rename { id, new_name, new_path } => rename_matches(
            before,
            after,
            id,
            new_name@,
            new_path@,
        ),
    }
}

impl Catalog {
    fn position_of(&self, id: u64) -> (r: Option<usize>)
        ensures
            match r {
                Some(p) => p < self.records@.len() && self.records@[p as int].id == id && forall|i: int|
                    0 <= i < p ==> #[trigger] self.records@[i].id != id,
                None => forall|i: int| 0 <= i < self.records@.len() ==> #[trigger] self.records@[i].id != id,
            },
    {
        let mut i: usize = 0;
        while i < self.records.len()
            invariant
                i <= self.records.len(),
                forall|k: int| 0 <= k < i ==> #[trigger] self.records@[k].id != id,
            decreases self.records.len() - i,
        {
            if self.records[i].id == id {
                return Some(i);
            }
            i += 1;
        }
        None
    }

    #[verifier::spinoff_prover]
    fn index_name(&mut self, id: u64, name: &Vec<char>, Ghost(es): Ghost<Seq<(u64, Seq<char>)>>)
        requires
            index_ok(es, old(self).by_prefix@),
        ensures
            index_ok(es.push((id, name@)), final(self).by_prefix@),
            final(self).records == old(self).records,
    {
        let keys = name_prefixes(name);
        let ghost e = (id, name@);
        let ghost es2 = es.push(e);
        proof {
            assert forall|k: Seq<char>, x: u64|
                self.by_prefix@.contains_key(k) && #[trigger] self.by_prefix@[k]@.contains(x) implies has_key_entry(
                es2,
                k,
                x,
            ) by {
                lemma_has_key_push(es, e, k, x);
            }
        }
        let mut j: usize = 0;
        while j < keys.len()
            invariant
                j <= keys.len() <= 3,
                es2 == es.push(e),
                e == (id, name@),
                forall|a: int| 0 <= a < keys.len() ==> #[trigger] is_key_of(keys@[a]@, name@) && keys@[a]@.len() == a + 1,
                forall|k: Seq<char>| is_key_of(k, name@) ==> exists|a: int| 0 <= a < keys.len() && #[trigger] keys@[a]@ == k,
                buckets_distinct(self.by_prefix@),
                index_sound(es2, self.by_prefix@),
                index_complete(es, self.by_prefix@),
                forall|a: int| 0 <= a < j ==> self.by_prefix@.contains_key(#[trigger] keys@[a]@) && self.by_prefix@[keys@[a]@]@.contains(id),
                self.records == old(self).records,
            decreases keys.len() - j,
        {
            let ks = string_of(&keys[j]);
            let ghost k = keys@[j as int]@;
            let ghost before = self.by_prefix@;
            let mut bucket: Vec<u64> = match self.by_prefix.get(ks.as_str()) {
                Some(b) => copy_ids(b),
                None => Vec::new(),
            };
            let ghost old_bucket = bucket@;
            if !contains_id(&bucket, id) {
                bucket.push(id);
                proof {
                    assert forall|a: int, b: int|
                        0 <= a < bucket@.len() && 0 <= b < bucket@.len() && a != b implies bucket@[a] != bucket@[b] by {
                        if a == bucket@.len() - 1 {
                            assert(old_bucket.contains(bucket@[b]) || b == a);
                        } else if b == bucket@.len() - 1 {
                            assert(old_bucket.contains(bucket@[a]));
                        }
                    }
                }
            }
            let ghost nb = bucket@;
            assert(nb.contains(id)) by {
                if old_bucket.contains(id) {
                } else {
                    assert(nb[nb.len() - 1] == id);
                }
            }
            assert(forall|x: u64| old_bucket.contains(x) ==> nb.contains(x)) by {
                assert forall|x: u64| old_bucket.contains(x) implies nb.contains(x) by {
                    let a = choose|a: int| 0 <= a < old_bucket.len() && #[trigger] old_bucket[a] == x;
                    assert(nb[a] == x);
                }
            }
            assert(forall|x: u64| nb.contains(x) ==> old_bucket.contains(x) || x == id) by {
                assert forall|x: u64| nb.contains(x) implies old_bucket.contains(x) || x == id by {
                    let a = choose|a: int| 0 <= a < nb.len() && #[trigger] nb[a] == x;
                    if a < old_bucket.len() {
                        assert(old_bucket[a] == x);
                    }
                }
            }
            let ghost bv = bucket;
            self.by_prefix.insert(ks, bucket);
            proof {
                let after = self.by_prefix@;
                assert(after == before.insert(k, bv));
                assert forall|k2: Seq<char>, x: u64|
                    after.contains_key(k2) && #[trigger] after[k2]@.contains(x) implies has_key_entry(es2, k2, x) by {
                    if k2 == k {
                        if x == id {
                            assert(es2[es.len() as int] == e);
                            assert(is_key_of(k, es2[es.len() as int].1));
                        } else {
                            assert(old_bucket.contains(x));
                            assert(before.contains_key(k));
                            assert(before[k]@.contains(x));
                        }
                    } else {
                        assert(before[k2]@.contains(x));
                    }
                }
                assert forall|i: int, k2: Seq<char>|
                    0 <= i < es.len() && #[trigger] is_key_of(k2, es[i].1) implies after.contains_key(k2)
                        && after[k2]@.contains(es[i].0) by {
                    if k2 == k {
                        assert(before.contains_key(k) && before[k]@.contains(es[i].0));
                    }
                }
                assert forall|k2: Seq<char>| after.contains_key(k2) implies (#[trigger] after[k2]@).no_duplicates() by {
                    if k2 != k {
                        assert(before[k2]@.no_duplicates());
                    } else if before.contains_key(k) {
                        assert(old_bucket == before[k]@);
                    }
                }
                assert forall|a: int| 0 <= a < j + 1 implies after.contains_key(#[trigger] keys@[a]@) && after[keys@[a]@]@.contains(id) by {
                    if a < j {
                        assert(is_key_of(keys@[a]@, name@));
                        assert(is_key_of(keys@[j as int]@, name@));
                        assert(keys@[a]@.len() != k.len());
                        assert(keys@[a]@ != k);
                        assert(before.contains_key(keys@[a]@) && before[keys@[a]@]@.contains(id));
                    }
                }
            }
            j += 1;
        }
        proof {
            assert forall|i: int, k2: Seq<char>|
                0 <= i < es2.len() && #[trigger] is_key_of(k2, es2[i].1) implies self.by_prefix@.contains_key(k2)
                    && self.by_prefix@[k2]@.contains(es2[i].0) by {
                if i < es.len() {
                    assert(es2[i] == es[i]);
                } else {
                    assert(es2[i] == e);
                    assert(is_key_of(k2, name@));
                    let a = choose|a: int| 0 <= a < keys.len() && #[trigger] keys@[a]@ == k2;
                }
            }
        }
    }
}


impl Catalog {
    #[verifier::spinoff_prover]
    fn unindex_name(
        &mut self,
        id: u64,
        name: &Vec<char>,
        Ghost(es): Ghost<Seq<(u64, Seq<char>)>>,
        Ghost(pos): Ghost<int>,
    )
        requires
            index_ok(es, old(self).by_prefix@),
            ids_distinct(es),
            0 <= pos < es.len(),
            es[pos] == (id, name@),
        ensures
            index_ok(es.remove(pos), final(self).by_prefix@),
            final(self).records == old(self).records,
    {
        let keys = name_prefixes(name);
        let ghost es2 = es.remove(pos);
        let mut j: usize = 0;
        while j < keys.len()
            invariant
                j <= keys.len() <= 3,
                es2 == es.remove(pos),
                ids_distinct(es),
                0 <= pos < es.len(),
                es[pos] == (id, name@),
                forall|a: int| 0 <= a < keys.len() ==> #[trigger] is_key_of(keys@[a]@, name@) && keys@[a]@.len() == a + 1,
                forall|k: Seq<char>| is_key_of(k, name@) ==> exists|a: int| 0 <= a < keys.len() && #[trigger] keys@[a]@ == k,
                buckets_distinct(self.by_prefix@),
                index_sound(es, self.by_prefix@),
                forall|i: int, k: Seq<char>|
                    0 <= i < es.len() && i != pos && #[trigger] is_key_of(k, es[i].1) ==> self.by_prefix@.contains_key(k)
                        && self.by_prefix@[k]@.contains(es[i].0),
                forall|a: int| 0 <= a < j ==> !(self.by_prefix@.contains_key(#[trigger] keys@[a]@) && self.by_prefix@[keys@[a]@]@.contains(id)),
                self.records == old(self).records,
            decreases keys.len() - j,
        {
            let ks = string_of(&keys[j]);
            let ghost k = keys@[j as int]@;
            let ghost before = self.by_prefix@;
            let found: Option<Vec<u64>> = match self.by_prefix.get(ks.as_str()) {
                Some(b) => Some(without_value(b, id)),
                None => None,
            };
            match found {
                Some(nb) => {
                    let ghost nbv = nb;
                    if nb.len() == 0 {
                        self.by_prefix.remove(ks.as_str());
                        proof {
                            assert(self.by_prefix@ == before.remove(k));
                            assert forall|i: int, k2: Seq<char>|
                                0 <= i < es.len() && i != pos && #[trigger] is_key_of(k2, es[i].1) implies self.by_prefix@.contains_key(k2)
                                    && self.by_prefix@[k2]@.contains(es[i].0) by {
                                if k2 == k {
                                    assert(es[i].0 != id);
                                    assert(before[k]@.contains(es[i].0));
                                    assert(nbv@.contains(es[i].0));
                                }
                            }
                        }
                    } else {
                        self.by_prefix.insert(ks, nb);
                        proof {
                            assert(self.by_prefix@ == before.insert(k, nbv));
                            assert forall|i: int, k2: Seq<char>|
                                0 <= i < es.len() && i != pos && #[trigger] is_key_of(k2, es[i].1) implies self.by_prefix@.contains_key(k2)
                                    && self.by_prefix@[k2]@.contains(es[i].0) by {
                                if k2 == k {
                                    assert(es[i].0 != id);
                                    assert(before[k]@.contains(es[i].0));
                                }
                            }
                            assert forall|k2: Seq<char>, x: u64|
                                self.by_prefix@.contains_key(k2) && #[trigger] self.by_prefix@[k2]@.contains(x) implies has_key_entry(es, k2, x) by {
                                if k2 == k {
                                    assert(before[k]@.contains(x));
                                }
                            }
                        }
                    }
                },
                None => {},
            }
            proof {
                assert forall|a: int| 0 <= a < j + 1 implies !(self.by_prefix@.contains_key(#[trigger] keys@[a]@) && self.by_prefix@[keys@[a]@]@.contains(id)) by {
                    if a < j {
                        assert(is_key_of(keys@[a]@, name@));
                        assert(is_key_of(keys@[j as int]@, name@));
                        assert(keys@[a]@.len() != k.len());
                    }
                }
            }
            j += 1;
        }
        proof {
            let idx = self.by_prefix@;
            assert forall|k: Seq<char>, x: u64| idx.contains_key(k) && #[trigger] idx[k]@.contains(x) implies has_key_entry(es2, k, x) by {
                let i = choose|i: int| 0 <= i < es.len() && es[i].0 == x && #[trigger] is_key_of(k, es[i].1);
                if i == pos {
                    let a = choose|a: int| 0 <= a < keys.len() && #[trigger] keys@[a]@ == k;
                    assert(false);
                } else if i < pos {
                    assert(es2[i] == es[i]);
                } else {
                    assert(es2[i - 1] == es[i]);
                }
            }
            assert forall|i: int, k: Seq<char>| 0 <= i < es2.len() && #[trigger] is_key_of(k, es2[i].1) implies idx.contains_key(k)
                && idx[k]@.contains(es2[i].0) by {
                if i < pos {
                    assert(es2[i] == es[i]);
                } else {
                    assert(es2[i] == es[i + 1]);
                }
            }
        }
    }

    /// Adds a record, replacing the one with the same id; the new record
    /// comes last.
    pub fn insert(&mut self, rec: FileRecord)
        requires
            old(self).wf(),
        ensures
            final(self).wf(),
            final(self)@ == insert_spec(old(self)@, rec),
            final(self)@.len() == old(self)@.len() + (if find_id(old(self)@, rec.id) is None {
                1int
            } else {
                0int
            }),
    {
        proof {
            self.lemma_ids_distinct();
            lemma_without_id_len(self@, rec.id);
        }
        let ghost es0 = entries_of(self.records@);
        let name = chars_of(rec.name.as_str());
        match self.position_of(rec.id) {
            Some(p) => {
                let ghost r0 = self.records@;
                let old_rec = self.records.remove(p);
                let old_name = chars_of(old_rec.name.as_str());
                proof {
                    assert(es0[p as int] == (old_rec.id, old_rec.name@));
                }
                self.unindex_name(old_rec.id, &old_name, Ghost(es0), Ghost(p as int));
                proof {
                    assert(entries_of(self.records@) =~= es0.remove(p as int));
                    assert forall|i: int| 0 <= i < r0.len() && i != p implies #[trigger] r0[i].id != rec.id by {
                        assert(es0[i].0 == r0[i].id);
                        assert(es0[p as int].0 == r0[p as int].id);
                    }
                    lemma_without_id_at(r0, rec.id, p as int);
                }
            },
            None => {
                proof {
                    lemma_without_id_absent(self.records@, rec.id);
                }
            },
        }
        let ghost es1 = entries_of(self.records@);
        proof {
            assert forall|i: int| 0 <= i < es1.len() implies #[trigger] es1[i].0 != rec.id by {
                let r1 = self.records@;
                assert(es1[i].0 == r1[i].id);
                assert(without_id(old(self)@, rec.id) == r1);
                lemma_without_id_excludes(old(self)@, rec.id, i);
            }
        }
        self.index_name(rec.id, &name, Ghost(es1));
        self.records.push(rec);
        proof {
            assert(entries_of(self.records@) =~= es1.push((rec.id, name@)));
        }
    }
}

/// The catalog after inserting `recs` in order.
pub open spec fn insert_all_spec(s: Seq<FileRecord>, recs: Seq<FileRecord>) -> Seq<FileRecord>
    decreases recs.len(),
{
    if recs.len() == 0 {
        s
    } else {
        insert_spec(insert_all_spec(s, recs.drop_last()), recs.last())
    }
}

impl Catalog {
    /// Inserts the records in order and returns how many there were.
    pub fn insert_all(&mut self, recs: Vec<FileRecord>) -> (n: u64)
        requires
            old(self).wf(),
        ensures
            final(self).wf(),
            final(self)@ == insert_all_spec(old(self)@, recs@),
            n == recs.len(),
    {
        let mut src = recs;
        let ghost orig = src@;
        let mut k: usize = 0;
        let mut n: u64 = 0;
        assert(orig.len() == src.len());
        assert(orig.skip(0) =~= orig);
        assert(orig.take(0) =~= Seq::<FileRecord>::empty());
        while src.len() > 0
            invariant
                k + src.len() == orig.len(),
                orig.len() <= usize::MAX,
                n == k,
                src@ == orig.skip(k as int),
                self.wf(),
                self@ == insert_all_spec(old(self)@, orig.take(k as int)),
            decreases src.len(),
        {
            let r = src.remove(0);
            assert(r == orig[k as int]);
            assert(orig.take(k + 1).drop_last() =~= orig.take(k as int));
            assert(orig.skip(k + 1) =~= orig.skip(k as int).drop_first());
            self.insert(r);
            k += 1;
            n += 1;
        }
        assert(orig.take(k as int) =~= orig);
        n
    }
}

pub proof fn lemma_without_id_excludes(s: Seq<FileRecord>, id: u64, i: int)
    requires
        0 <= i < without_id(s, id).len(),
    ensures
        without_id(s, id)[i].id != id,
    decreases s.len(),
{
    if s.len() > 0 {
        let w = without_id(s.drop_last(), id);
        if s.last().id == id {
            lemma_without_id_excludes(s.drop_last(), id, i);
        } else if i < w.len() {
            lemma_without_id_excludes(s.drop_last(), id, i);
        }
    }
}


impl Catalog {
    /// The record with id `id`.
    pub fn get(&self, id: u64) -> (r: Option<&FileRecord>)
        ensures
            match r {
                Some(x) => find_id(self@, id) == Some(*x),
                None => find_id(self@, id) is None,
            },
    {
        match self.position_of(id) {
            Some(p) => {
                proof {
                    lemma_find_id_at(self.records@, id, p as int);
                }
                Some(&self.records[p])
            },
            None => {
                proof {
                    lemma_find_id_none(self.records@, id);
                }
                None
            },
        }
    }

    /// The record with id `id`, to change in place.  The name index is
    /// keyed by id and name, so the catalog stays well-formed when the
    /// change keeps both.
    pub fn get_mut(&mut self, id: u64) -> (r: Option<&mut FileRecord>)
        requires
            old(self).wf(),
        ensures
            r is None ==> find_id(old(self)@, id) is None && final(self)@ == old(self)@
                && final(self).wf(),
            r is Some ==> find_id(old(self)@, id) == Some(*r->0) && exists|p: int|
                0 <= p < old(self)@.len() && old(self)@[p].id == id && final(self)@ == old(
                    self,
                )@.update(p, *final(r->0)) && ((*final(r->0)).id == id && (*final(r->0)).name@
                    == old(self)@[p].name@ ==> final(self).wf()),
    {
        match self.position_of(id) {
            Some(p) => {
                let ghost recs = self.records@;
                proof {
                    lemma_find_id_at(recs, id, p as int);
                    assert forall|y: FileRecord| y.id == id && y.name@ == recs[p as int].name@ implies #[trigger] entries_of(
                        recs.update(p as int, y),
                    ) == entries_of(recs) by {
                        assert(entries_of(recs.update(p as int, y)) =~= entries_of(recs));
                    }
                }
                Some(&mut self.records[p])
            },
            None => {
                proof {
                    lemma_find_id_none(self.records@, id);
                }
                None
            },
        }
    }

    /// The first record whose path is `path`.
    pub fn by_path(&self, path: &str) -> (r: Option<&FileRecord>)
        ensures
            match r {
                Some(x) => find_path(self@, path@) == Some(*x),
                None => find_path(self@, path@) is None,
            },
    {
        let want = chars_of(path);
        let mut i: usize = 0;
        while i < self.records.len()
            invariant
                i <= self.records.len(),
                want@ == path@,
                forall|k: int| 0 <= k < i ==> #[trigger] self.records@[k].path@ != path@,
            decreases self.records.len() - i,
        {
            let p = chars_of(self.records[i].path.as_str());
            if chars_eq(&p, &want) {
                proof {
                    lemma_find_path_at(self.records@, path@, i as int);
                }
                return Some(&self.records[i]);
            }
            i += 1;
        }
        proof {
            lemma_find_path_at(self.records@, path@, i as int);
        }
        None
    }

    /// The records whose names start with `prefix` (ASCII case ignored),
    /// looked up through the index under the first one to three characters
    /// of the prefix; each record once, in the order the index lists them.
    #[verifier::spinoff_prover]
    pub fn names_with_prefix(&self, prefix: &str) -> (r: Vec<FileRecord>)
        requires
            self.wf(),
        ensures
            forall|j: int| 0 <= j < r.len() ==> self@.contains(#[trigger] r@[j]) && prefix_match(r@[j], prefix@),
            forall|i: int| 0 <= i < self@.len() && prefix_match(#[trigger] self@[i], prefix@) ==> r@.contains(self@[i]),
            forall|a: int, b: int| 0 <= a < r.len() && 0 <= b < r.len() && a != b ==> r@[a].id != r@[b].id,
    {
        let needle = lower_ascii_vec(&chars_of(prefix));
        let mut out: Vec<FileRecord> = Vec::new();
        if needle.len() == 0 {
            return out;
        }
        let kl: usize = if needle.len() < 3 {
            needle.len()
        } else {
            3
        };
        let key = slice_chars(&needle, 0, kl);
        let ks = string_of(&key);
        let ghost es = entries_of(self.records@);
        let ghost idx = self.by_prefix@;
        proof {
            assert forall|i: int| 0 <= i < self@.len() && prefix_match(#[trigger] self@[i], prefix@) implies is_key_of(key@, es[i].1) by {
                let nm = self@[i].name@;
                assert(es[i].1 == nm);
                assert(lower_ascii(nm).len() == nm.len());
                assert(lower_ascii(nm).take(needle@.len() as int) == needle@);
                assert(needle@.take(kl as int) =~= lower_ascii(nm).take(kl as int));
                assert(lower_ascii(nm.take(kl as int)) =~= lower_ascii(nm).take(kl as int));
                assert(key@ =~= needle@.take(kl as int));
            }
        }
        match self.by_prefix.get(ks.as_str()) {
            None => {
                proof {
                    assert forall|i: int| 0 <= i < self@.len() && prefix_match(#[trigger] self@[i], prefix@) implies false by {
                        assert(is_key_of(key@, es[i].1));
                    }
                }
                out
            },
            Some(ids) => {
                let mut j: usize = 0;
                while j < ids.len()
                    invariant
                        j <= ids.len(),
                        self.wf(),
                        es == entries_of(self.records@),
                        idx == self.by_prefix@,
                        idx.contains_key(key@),
                        ids@ == idx[key@]@,
                        needle@ == lower_ascii(prefix@),
                        needle.len() > 0,
                        forall|a: int| 0 <= a < out.len() ==> self@.contains(#[trigger] out@[a]) && prefix_match(out@[a], prefix@),
                        forall|a: int| 0 <= a < out.len() ==> ids@.take(j as int).contains(#[trigger] out@[a].id),
                        forall|a: int, b: int| 0 <= a < out.len() && 0 <= b < out.len() && a != b ==> out@[a].id != out@[b].id,
                        forall|i: int| 0 <= i < self@.len() && prefix_match(#[trigger] self@[i], prefix@) && ids@.take(j as int).contains(self@[i].id) ==> out@.contains(self@[i]),
                    decreases ids.len() - j,
                {
                    let id = ids[j];
                    assert(ids@.take(j + 1) =~= ids@.take(j as int).push(id));
                    proof {
                        assert(idx[key@]@.no_duplicates());
                        assert(!ids@.take(j as int).contains(id)) by {
                            if ids@.take(j as int).contains(id) {
                                let m = choose|m: int| 0 <= m < j && #[trigger] ids@.take(j as int)[m] == id;
                                assert(ids@[m] == ids@[j as int]);
                            }
                        }
                    }
                    match self.position_of(id) {
                        Some(p) => {
                            let rec = &self.records[p];
                            let lname = lower_ascii_vec(&chars_of(rec.name.as_str()));
                            if starts_with_exec(&lname, &needle) {
                                let ghost before = out@;
                                out.push(rec.duplicate());
                                proof {
                                    assert(self@.contains(self@[p as int]));
                                    assert(lower_ascii(prefix@).len() == prefix@.len());
                                    assert(prefix_match(self@[p as int], prefix@));
                                    assert(out@[out.len() - 1] == self@[p as int]);
                                    assert forall|a: int, b: int| 0 <= a < out.len() && 0 <= b < out.len() && a != b implies out@[a].id != out@[b].id by {
                                        if a == out.len() - 1 && b < before.len() {
                                            assert(ids@.take(j as int).contains(before[b].id));
                                        } else if b == out.len() - 1 && a < before.len() {
                                            assert(ids@.take(j as int).contains(before[a].id));
                                        }
                                    }
                                    assert forall|a: int| 0 <= a < out.len() implies ids@.take(j + 1).contains(#[trigger] out@[a].id) by {
                                        if a < before.len() {
                                            assert(ids@.take(j as int).contains(before[a].id));
                                            let m = choose|m: int| 0 <= m < j && #[trigger] ids@.take(j as int)[m] == before[a].id;
                                            assert(ids@.take(j + 1)[m] == before[a].id);
                                        } else {
                                            assert(ids@.take(j + 1)[j as int] == id);
                                        }
                                    }
                                    assert forall|i: int| 0 <= i < self@.len() && prefix_match(#[trigger] self@[i], prefix@) && ids@.take(j + 1).contains(self@[i].id) implies out@.contains(self@[i]) by {
                                        if self@[i].id == id {
                                            assert(es[i].0 == es[p as int].0);
                                            assert(i == p);
                                            assert(out@[out.len() - 1] == self@[i]);
                                        } else {
                                            let m = choose|m: int| 0 <= m < j + 1 && #[trigger] ids@.take(j + 1)[m] == self@[i].id;
                                            assert(ids@.take(j as int)[m] == self@[i].id);
                                            assert(before.contains(self@[i]));
                                            let c = choose|c: int| 0 <= c < before.len() && #[trigger] before[c] == self@[i];
                                            assert(out@[c] == self@[i]);
                                        }
                                    }
                                }
                            } else {
                                proof {
                                    assert forall|a: int| 0 <= a < out.len() implies ids@.take(j + 1).contains(#[trigger] out@[a].id) by {
                                        let m = choose|m: int| 0 <= m < j && #[trigger] ids@.take(j as int)[m] == out@[a].id;
                                        assert(ids@.take(j + 1)[m] == out@[a].id);
                                    }
                                    assert forall|i: int| 0 <= i < self@.len() && prefix_match(#[trigger] self@[i], prefix@) && ids@.take(j + 1).contains(self@[i].id) implies out@.contains(self@[i]) by {
                                        if self@[i].id == id {
                                            assert(es[i].0 == es[p as int].0);
                                            assert(i == p);
                                        } else {
                                            let m = choose|m: int| 0 <= m < j + 1 && #[trigger] ids@.take(j + 1)[m] == self@[i].id;
                                            assert(ids@.take(j as int)[m] == self@[i].id);
                                        }
                                    }
                                }
                            }
                        },
                        None => {
                            proof {
                                assert forall|a: int| 0 <= a < out.len() implies ids@.take(j + 1).contains(#[trigger] out@[a].id) by {
                                    let m = choose|m: int| 0 <= m < j && #[trigger] ids@.take(j as int)[m] == out@[a].id;
                                    assert(ids@.take(j + 1)[m] == out@[a].id);
                                }
                                assert forall|i: int| 0 <= i < self@.len() && prefix_match(#[trigger] self@[i], prefix@) && ids@.take(j + 1).contains(self@[i].id) implies out@.contains(self@[i]) by {
                                    assert(es[i].0 == self@[i].id);
                                    if self@[i].id == id {
                                        assert(self.records@[i].id == id);
                                    } else {
                                        let m = choose|m: int| 0 <= m < j + 1 && #[trigger] ids@.take(j + 1)[m] == self@[i].id;
                                        assert(ids@.take(j as int)[m] == self@[i].id);
                                    }
                                }
                            }
                        },
                    }
                    j += 1;
                }
                proof {
                    assert(ids@.take(j as int) =~= ids@);
                    assert forall|i: int| 0 <= i < self@.len() && prefix_match(#[trigger] self@[i], prefix@) implies out@.contains(self@[i]) by {
                        assert(is_key_of(key@, es[i].1));
                        assert(es[i].0 == self@[i].id);
                    }
                }
                out
            },
        }
    }
}


impl Catalog {
    fn remove_id(&mut self, id: u64)
        requires
            old(self).wf(),
        ensures
            final(self).wf(),
            final(self)@ == without_id(old(self)@, id),
    {
        let ghost es0 = entries_of(self.records@);
        let ghost r0 = self.records@;
        match self.position_of(id) {
            Some(p) => {
                let old_rec = self.records.remove(p);
                let old_name = chars_of(old_rec.name.as_str());
                proof {
                    assert(es0[p as int] == (old_rec.id, old_rec.name@));
                }
                self.unindex_name(id, &old_name, Ghost(es0), Ghost(p as int));
                proof {
                    assert(entries_of(self.records@) =~= es0.remove(p as int));
                    assert forall|i: int| 0 <= i < r0.len() && i != p implies #[trigger] r0[i].id != id by {
                        assert(es0[i].0 == r0[i].id);
                        assert(es0[p as int].0 == r0[p as int].id);
                    }
                    lemma_without_id_at(r0, id, p as int);
                }
            },
            None => {
                proof {
                    lemma_without_id_absent(self.records@, id);
                }
            },
        }
    }

    #[verifier::spinoff_prover]
    fn rename(&mut self, id: u64, new_name: String, new_path: String)
        requires
            old(self).wf(),
        ensures
            final(self).wf(),
            rename_matches(old(self)@, final(self)@, id, new_name@, new_path@),
    {
        let ghost r0 = self.records@;
        let ghost es0 = entries_of(r0);
        let p = match self.position_of(id) {
            Some(p) => p,
            None => {
                proof {
                    lemma_find_id_none(self.records@, id);
                }
                return;
            },
        };
        proof {
            lemma_find_id_at(r0, id, p as int);
            assert forall|i: int| 0 <= i < r0.len() && i != p implies #[trigger] r0[i].id != id by {
                assert(es0[i].0 == r0[i].id);
                assert(es0[p as int].0 == r0[p as int].id);
            }
        }
        let old_path = chars_of(self.records[p].path.as_str());
        let old_name = chars_of(self.records[p].name.as_str());
        let is_dir = self.records[p].is_dir;
        let nn = chars_of(new_name.as_str());
        let np = chars_of(new_path.as_str());
        let ghost es1 = es0.update(p as int, (id, nn@));
        if !chars_eq(&old_name, &nn) {
            self.unindex_name(id, &old_name, Ghost(es0), Ghost(p as int));
            self.index_name(id, &nn, Ghost(es0.remove(p as int)));
            proof {
                let a = es0.remove(p as int).push((id, nn@));
                assert forall|e: (u64, Seq<char>)| a.contains(e) <==> es1.contains(e) by {
                    if a.contains(e) {
                        let k = choose|k: int| 0 <= k < a.len() && #[trigger] a[k] == e;
                        if k == a.len() - 1 {
                            assert(es1[p as int] == e);
                        } else if k < p {
                            assert(es1[k] == e);
                        } else {
                            assert(es1[k + 1] == e);
                        }
                    }
                    if es1.contains(e) {
                        let k = choose|k: int| 0 <= k < es1.len() && #[trigger] es1[k] == e;
                        if k == p {
                            assert(a[a.len() - 1] == e);
                        } else if k < p {
                            assert(a[k] == e);
                        } else {
                            assert(a[k - 1] == e);
                        }
                    }
                }
                lemma_index_ok_same_entries(a, es1, self.by_prefix@);
            }
        } else {
            assert(es1 =~= es0);
        }
        let t = &self.records[p];
        let nr = FileRecord {
            id: t.id,
            parent_id: t.parent_id,
            name: new_name,
            path: new_path,
            size: t.size,
            modified: t.modified,
            is_dir: t.is_dir,
            attributes: t.attributes,
        };
        self.records.set(p, nr);
        proof {
            assert(entries_of(self.records@) =~= es1);
            assert(renamed_ok(r0[p as int], self.records@[p as int], id, is_dir, old_path@, nn@, np@));
        }
        if is_dir {
            let mut i: usize = 0;
            while i < self.records.len()
                invariant
                    i <= self.records.len() == r0.len(),
                    0 <= p < r0.len(),
                    r0[p as int].id == id,
                    r0[p as int].is_dir == is_dir,
                    is_dir,
                    r0[p as int].path@ == old_path@,
                    nn@ == new_name@,
                    np@ == new_path@,
                    forall|k: int| 0 <= k < r0.len() && k != p ==> #[trigger] r0[k].id != id,
                    entries_of(self.records@) == es1,
                    index_ok(es1, self.by_prefix@),
                    ids_distinct(es1),
                    forall|k: int| 0 <= k < i ==> #[trigger] renamed_ok(r0[k], self.records@[k], id, is_dir, old_path@, nn@, np@),
                    forall|k: int| i <= k < r0.len() && k != p ==> #[trigger] self.records@[k] == r0[k],
                    renamed_ok(r0[p as int], self.records@[p as int], id, is_dir, old_path@, nn@, np@),
                decreases r0.len() - i,
            {
                if self.records[i].id != id {
                    assert(i != p);
                    assert(self.records@[i as int] == r0[i as int]);
                    let cur = chars_of(self.records[i].path.as_str());
                    match strip_path_prefix_exec(&cur, &old_path) {
                        Some(rel) => {
                            let joined = join_path_exec(&np, &rel);
                            let t = &self.records[i];
                            let nr = FileRecord {
                                id: t.id,
                                parent_id: t.parent_id,
                                name: string_of(&chars_of(t.name.as_str())),
                                path: string_of(&joined),
                                size: t.size,
                                modified: t.modified,
                                is_dir: t.is_dir,
                                attributes: t.attributes,
                            };
                            let ghost before = self.records@;
                            self.records.set(i, nr);
                            proof {
                                assert(entries_of(self.records@) =~= entries_of(before));
                                assert(self.records@[i as int].path@ == join_path(np@, rel@));
                                assert(self.records@[i as int].name@ == r0[i as int].name@);
                                assert(strip_path_prefix(r0[i as int].path@, old_path@) == Some(rel@));
                            }
                        },
                        None => {},
                    }
                    assert(renamed_ok(r0[i as int], self.records@[i as int], id, is_dir, old_path@, nn@, np@));
                }
                i += 1;
            }
        } else {
            proof {
                assert forall|k: int| 0 <= k < r0.len() implies #[trigger] renamed_ok(r0[k], self.records@[k], id, is_dir, old_path@, nn@, np@) by {
                    if k != p {
                        assert(self.records@[k] == r0[k]);
                    }
                }
            }
        }
        proof {
            assert(self.records@.len() == r0.len());
            assert forall|k: int| 0 <= k < r0.len() implies #[trigger] renamed_ok(r0[k], self.records@[k], id, r0[p as int].is_dir, r0[p as int].path@, new_name@, new_path@) by {
                assert(renamed_ok(r0[k], self.records@[k], id, is_dir, old_path@, nn@, np@));
            }
        }
    }

    /// Applies a change: after it, lookups and searches see the new catalog.
    pub fn apply(&mut self, event: CatalogEvent)
        requires
            old(self).wf(),
        ensures
            final(self).wf(),
            apply_matches(old(self)@, final(self)@, event),
            event matches CatalogEvent::Create(rec) ==> final(self)@.len() == old(self)@.len() + (
            if find_id(old(self)@, rec.id) is None {
                1int
            } else {
                0int
            }),
            event matches CatalogEvent::Delete { id } ==> final(self)@.len() == old(self)@.len() - (
            if find_id(old(self)@, id) is Some {
                1int
            } else {
                0int
            }),
            event is Rename ==> final(self)@.len() == old(self)@.len(),
    {
        proof {
            self.lemma_ids_distinct();
            if let CatalogEvent::Delete { id } = event {
                lemma_without_id_len(self@, id);
            }
        }
        match event {
            CatalogEvent::Create(rec) => self.insert(rec),
            CatalogEvent::Delete { id } => self.remove_id(id),
            CatalogEvent::Rename { id, new_name, new_path } => self.rename(id, new_name, new_path),
        }
    }
}


pub proof fn lemma_find_id_some(s: Seq<FileRecord>, id: u64) -> (p: int)
    requires
        find_id(s, id) is Some,
    ensures
        0 <= p < s.len(),
        s[p] == find_id(s, id)->0,
        s[p].id == id,
        forall|i: int| 0 <= i < p ==> #[trigger] s[i].id != id,
    decreases s.len(),
{
    if s[0].id == id {
        0
    } else {
        let q = lemma_find_id_some(s.drop_first(), id);
        assert forall|i: int| 0 <= i < q + 1 implies #[trigger] s[i].id != id by {
            if i > 0 {
                assert(s[i] == s.drop_first()[i - 1]);
            }
        }
        q + 1
    }
}

/// No two records of the list share an id.
pub open spec fn ids_unique(s: Seq<FileRecord>) -> bool {
    forall|i: int, j: int|
        #![trigger s[i], s[j]]
        0 <= i < s.len() && 0 <= j < s.len() && i != j ==> s[i].id != s[j].id
}

/// When no record has id `id`, none is found.
pub proof fn lemma_find_id_none_absent(s: Seq<FileRecord>, id: u64)
    requires
        find_id(s, id) is None,
    ensures
        forall|i: int| 0 <= i < s.len() ==> #[trigger] s[i].id != id,
    decreases s.len(),
{
    if s.len() > 0 {
        lemma_find_id_none_absent(s.drop_first(), id);
        assert forall|i: int| 0 <= i < s.len() implies #[trigger] s[i].id != id by {
            if i > 0 {
                assert(s[i] == s.drop_first()[i - 1]);
            }
        }
    }
}

/// With distinct ids, dropping id `id` removes one record when it is
/// there and none otherwise.
pub proof fn lemma_without_id_len(s: Seq<FileRecord>, id: u64)
    requires
        ids_unique(s),
    ensures
        without_id(s, id).len() == s.len() - (if find_id(s, id) is Some { 1int } else { 0int }),
{
    if find_id(s, id) is Some {
        let p = lemma_find_id_some(s, id);
        assert forall|i: int| 0 <= i < s.len() && i != p implies #[trigger] s[i].id != id by {
            assert(s[i].id != s[p].id);
        }
        lemma_without_id_at(s, id, p);
    } else {
        lemma_find_id_none_absent(s, id);
        lemma_without_id_absent(s, id);
    }
}

/// After a record is inserted, looking up its id gives that record.
pub proof fn law_insert_then_get(s: Seq<FileRecord>, rec: FileRecord)
    ensures
        find_id(insert_spec(s, rec), rec.id) == Some(rec),
{
    let w = without_id(s, rec.id);
    let s2 = w.push(rec);
    assert forall|i: int| 0 <= i < s2.len() - 1 implies #[trigger] s2[i].id != rec.id by {
        assert(s2[i] == w[i]);
        lemma_without_id_excludes(s, rec.id, i);
    }
    lemma_find_id_at(s2, rec.id, s2.len() - 1);
}

/// After a delete, the id is no longer found.
pub proof fn law_delete_then_get(s: Seq<FileRecord>, id: u64)
    ensures
        find_id(without_id(s, id), id) is None,
{
    let w = without_id(s, id);
    assert forall|i: int| 0 <= i < w.len() implies #[trigger] w[i].id != id by {
        lemma_without_id_excludes(s, id, i);
    }
    lemma_find_id_none(w, id);
}

/// After a rename of a known record, its id finds it under the new name and
/// path; an unknown id leaves the catalog as it was.
pub proof fn law_rename_then_get(
    before: Seq<FileRecord>,
    after: Seq<FileRecord>,
    id: u64,
    new_name: Seq<char>,
    new_path: Seq<char>,
)
    requires
        rename_matches(before, after, id, new_name, new_path),
    ensures
        find_id(before, id) is Some ==> (find_id(after, id) is Some && find_id(after, id)->0.name@
            == new_name && find_id(after, id)->0.path@ == new_path),
        find_id(before, id) is None ==> after == before,
{
    if find_id(before, id) is Some {
        let t = find_id(before, id)->0;
        let p = lemma_find_id_some(before, id);
        assert(renamed_ok(before[p], after[p], id, t.is_dir, t.path@, new_name, new_path));
        assert forall|i: int| 0 <= i < p implies #[trigger] after[i].id != id by {
            assert(renamed_ok(before[i], after[i], id, t.is_dir, t.path@, new_name, new_path));
        }
        lemma_find_id_at(after, id, p);
    }
}

/// Renaming a folder moves everything under it, at any depth.  With the
/// folder's old path `P` and the new path `N` (neither ending in a
/// separator): a record whose path is `P`, a separator, then a relative
/// path not starting with a separator, now has the path `N`, `\` and that
/// same relative path, and keeps its name; a record whose path does not
/// start with `P` keeps its name and path.
pub proof fn law_folder_rename_moves_descendants(
    before: Seq<FileRecord>,
    after: Seq<FileRecord>,
    id: u64,
    new_name: Seq<char>,
    new_path: Seq<char>,
    j: int,
)
    requires
        rename_matches(before, after, id, new_name, new_path),
        find_id(before, id) is Some,
        find_id(before, id)->0.is_dir,
        find_id(before, id)->0.path@.len() > 0,
        !is_sep(find_id(before, id)->0.path@.last()),
        new_path.len() > 0,
        !is_sep(new_path.last()),
        0 <= j < before.len(),
        before[j].id != id,
    ensures
        ({
            let old_dir = find_id(before, id)->0.path@;
            let p = before[j].path@;
            p.len() > old_dir.len() + 1int && p.take(old_dir.len() as int) == old_dir && is_sep(
                p[old_dir.len() as int],
            ) && !is_sep(p[old_dir.len() + 1int]) ==> after[j].path@ == new_path.push('\\') + p.skip(
                old_dir.len() + 1int,
            ) && after[j].name@ == before[j].name@
        }),
        ({
            let old_dir = find_id(before, id)->0.path@;
            let p = before[j].path@;
            !(old_dir.len() <= p.len() && p.take(old_dir.len() as int) == old_dir) ==> after[j].path@
                == p && after[j].name@ == before[j].name@
        }),
        after[j].id == before[j].id,
{
    let t = find_id(before, id)->0;
    let old_dir = t.path@;
    let p = before[j].path@;
    assert(renamed_ok(before[j], after[j], id, t.is_dir, old_dir, new_name, new_path));
    assert(trim_end_seps(old_dir) == old_dir);
    if p.len() > old_dir.len() + 1int && p.take(old_dir.len() as int) == old_dir && is_sep(p[old_dir.len() as int])
        && !is_sep(p[old_dir.len() + 1int]) {
        let rest = p.skip(old_dir.len() as int);
        let rel = p.skip(old_dir.len() + 1int);
        assert(rest.drop_first() =~= rel);
        assert(rest[0] == p[old_dir.len() as int]);
        assert(rel[0] == p[old_dir.len() + 1int]);
        assert(trim_start_seps(rel) == rel);
        assert(trim_start_seps(rest) == rel);
        assert(strip_path_prefix(p, old_dir) == Some(rel));
    }
}

/// A record with its texts read as characters.
pub open spec fn record_chars(r: FileRecord) -> (u64, Option<u64>, Seq<char>, Seq<char>, u64, u64, bool, u32) {
    (r.id, r.parent_id, r.name@, r.path@, r.size, r.modified, r.is_dir, r.attributes)
}

/// A catalog change has one outcome: two record lists that both follow
/// from applying the same change to the same records agree record by
/// record (texts compared by their characters).  So the engine's catalog
/// after `Engine::apply` is the one `Catalog::apply` gives, and the next
/// query runs over it.
pub proof fn law_apply_has_one_outcome(
    before: Seq<FileRecord>,
    a1: Seq<FileRecord>,
    a2: Seq<FileRecord>,
    ev: CatalogEvent,
)
    requires
        apply_matches(before, a1, ev),
        apply_matches(before, a2, ev),
    ensures
        a1.map_values(|r: FileRecord| record_chars(r)) == a2.map_values(|r: FileRecord| record_chars(r)),
{
    match ev {
        CatalogEvent::Rename { id, new_name, new_path } => {
            match find_id(before, id) {
                None => {},
                Some(t) => {
                    assert forall|i: int| 0 <= i < a1.len() implies #[trigger] record_chars(a1[i])
                        == record_chars(a2[i]) by {
                        assert(renamed_ok(before[i], a1[i], id, t.is_dir, t.path@, new_name@, new_path@));
                        assert(renamed_ok(before[i], a2[i], id, t.is_dir, t.path@, new_name@, new_path@));
                    }
                    assert(a1.map_values(|r: FileRecord| record_chars(r)) =~= a2.map_values(
                        |r: FileRecord| record_chars(r),
                    ));
                },
            }
        },
        _ => {},
    }
}

} // verus!
