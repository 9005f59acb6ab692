//! A model of Windows-style paths held as strings: `\` and `/` both separate
//! components, and a leading `X:` is the drive prefix.

use vstd::prelude::*;
use crate::text::{is_ascii_alpha, lower_ascii_char, lower_ascii_char_exec, slice_chars, starts_with, starts_with_exec};

verus! {

pub open spec fn is_sep(c: char) -> bool {
    c == '\\' || c == '/'
}

pub fn is_sep_exec(c: char) -> (r: bool)
    ensures
        r == is_sep(c),
{
    c == '\\' || c == '/'
}

/// Length of the drive prefix (`C:`), 0 when there is none.
pub open spec fn drive_len(p: Seq<char>) -> nat {
    if p.len() >= 2 && is_ascii_alpha(p[0]) && p[1] == ':' {
        2
    } else {
        0
    }
}

/// Splitting into components: the finished components and the one being read.
pub open spec fn comps_state(s: Seq<char>) -> (Seq<Seq<char>>, Seq<char>)
    decreases s.len(),
{
    if s.len() == 0 {
        (Seq::empty(), Seq::empty())
    } else {
        let (done, cur) = comps_state(s.drop_last());
        if is_sep(s.last()) {
            if cur.len() > 0 {
                (done.push(cur), Seq::empty())
            } else {
                (done, Seq::empty())
            }
        } else {
            (done, cur.push(s.last()))
        }
    }
}

/// The non-empty runs of non-separator characters of `s`, in order.
pub open spec fn comps(s: Seq<char>) -> Seq<Seq<char>> {
    let (done, cur) = comps_state(s);
    if cur.len() > 0 {
        done.push(cur)
    } else {
        done
    }
}

/// The components after the drive prefix.
pub open spec fn path_components(p: Seq<char>) -> Seq<Seq<char>> {
    comps(p.skip(drive_len(p) as int))
}

pub open spec fn dot_dot() -> Seq<char> {
    seq!['.', '.']
}

/// `Path::file_name`: the last component, unless there is none or it is `..`.
pub open spec fn file_name(p: Seq<char>) -> Option<Seq<char>> {
    let cs = path_components(p);
    if cs.len() == 0 || cs.last() == dot_dot() {
        None
    } else {
        Some(cs.last())
    }
}

/// Number of components after the drive prefix and root.
pub open spec fn depth(p: Seq<char>) -> nat {
    path_components(p).len()
}

/// Index of the last occurrence of `c` in `s`, or -1.
pub open spec fn last_index_of(s: Seq<char>, c: char) -> int
    decreases s.len(),
{
    if s.len() == 0 {
        -1
    } else if s.last() == c {
        s.len() - 1
    } else {
        last_index_of(s.drop_last(), c)
    }
}

pub proof fn lemma_last_index_of(s: Seq<char>, c: char)
    ensures
        -1 <= last_index_of(s, c) < s.len(),
        last_index_of(s, c) >= 0 ==> s[last_index_of(s, c)] == c,
        forall|j: int| last_index_of(s, c) < j < s.len() ==> s[j] != c,
    decreases s.len(),
{
    if s.len() > 0 && s.last() != c {
        lemma_last_index_of(s.drop_last(), c);
        assert forall|j: int| last_index_of(s, c) < j < s.len() implies s[j] != c by {
            if j < s.len() - 1 {
                assert(s.drop_last()[j] == s[j]);
            }
        }
    }
}

pub fn last_index_of_exec(s: &Vec<char>, c: char) -> (r: Option<usize>)
    ensures
        match r {
            Some(k) => last_index_of(s@, c) == k as int,
            None => last_index_of(s@, c) == -1,
        },
{
    let mut n = s.len();
    assert(s@.take(n as int) =~= s@);
    while n > 0
        invariant
            n <= s.len(),
            last_index_of(s@, c) == last_index_of(s@.take(n as int), c),
        decreases n,
    {
        if s[n - 1] == c {
            return Some(n - 1);
        }
        assert(s@.take(n as int).drop_last() =~= s@.take(n - 1));
        n -= 1;
    }
    None
}

/// `Path::extension` of a file name: the text after the last `.`, unless the
/// name has no `.`, starts with its only `.`, or is `..`.
pub open spec fn ext_of_name(n: Seq<char>) -> Option<Seq<char>> {
    let k = last_index_of(n, '.');
    if n == dot_dot() || k <= 0 {
        None
    } else {
        Some(n.skip(k + 1))
    }
}

/// `Path::file_stem` of a file name.
pub open spec fn stem_of_name(n: Seq<char>) -> Seq<char> {
    let k = last_index_of(n, '.');
    if n == dot_dot() || k <= 0 {
        n
    } else {
        n.take(k)
    }
}

/// `Path::extension` of a whole path.
pub open spec fn path_extension(p: Seq<char>) -> Option<Seq<char>> {
    match file_name(p) {
        Some(n) => ext_of_name(n),
        None => None,
    }
}

pub fn is_dot_dot(n: &Vec<char>) -> (r: bool)
    ensures
        r == (n@ == dot_dot()),
{
    let r = n.len() == 2 && n[0] == '.' && n[1] == '.';
    if n.len() == 2 {
        assert(r ==> n@ =~= dot_dot());
    }
    r
}

pub fn ext_of_name_exec(n: &Vec<char>) -> (r: Option<Vec<char>>)
    ensures
        match r {
            Some(e) => ext_of_name(n@) == Some(e@),
            None => ext_of_name(n@) is None,
        },
{
    if is_dot_dot(n) {
        return None;
    }
    proof {
        lemma_last_index_of(n@, '.');
    }
    match last_index_of_exec(n, '.') {
        Some(k) => {
            assert(k < n.len());
            if k == 0 {
                None
            } else {
                Some(slice_chars(n, k + 1, n.len()))
            }
        },
        None => None,
    }
}

pub fn stem_of_name_exec(n: &Vec<char>) -> (r: Vec<char>)
    ensures
        r@ == stem_of_name(n@),
{
    if is_dot_dot(n) {
        return n.clone();
    }
    proof {
        lemma_last_index_of(n@, '.');
    }
    match last_index_of_exec(n, '.') {
        Some(k) => {
            if k == 0 {
                n.clone()
            } else {
                slice_chars(n, 0, k)
            }
        },
        None => n.clone(),
    }
}

pub fn drive_len_exec(p: &Vec<char>) -> (r: usize)
    ensures
        r == drive_len(p@),
{
    if p.len() >= 2 && (('a' <= p[0] && p[0] <= 'z') || ('A' <= p[0] && p[0] <= 'Z')) && p[1]
        == ':' {
        2
    } else {
        0
    }
}

pub fn comps_exec(s: &Vec<char>) -> (r: Vec<Vec<char>>)
    ensures
        r@.map_values(|v: Vec<char>| v@) == comps(s@),
{
    let mut done: Vec<Vec<char>> = Vec::new();
    let mut cur: Vec<char> = Vec::new();
    let mut i: usize = 0;
    while i < s.len()
        invariant
            i <= s.len(),
            comps_state(s@.take(i as int)) == (done@.map_values(|v: Vec<char>| v@), cur@),
        decreases s.len() - i,
    {
        assert(s@.take(i + 1).drop_last() =~= s@.take(i as int));
        if is_sep_exec(s[i]) {
            if cur.len() > 0 {
                let piece = cur;
                done.push(piece);
                cur = Vec::new();
            }
        } else {
            cur.push(s[i]);
        }
        i += 1;
        assert(done@.map_values(|v: Vec<char>| v@) =~= comps_state(s@.take(i as int)).0);
        assert(cur@ =~= comps_state(s@.take(i as int)).1);
    }
    assert(s@.take(s.len() as int) =~= s@);
    if cur.len() > 0 {
        done.push(cur);
    }
    assert(done@.map_values(|v: Vec<char>| v@) =~= comps(s@));
    done
}

pub fn path_components_exec(p: &Vec<char>) -> (r: Vec<Vec<char>>)
    ensures
        r@.map_values(|v: Vec<char>| v@) == path_components(p@),
{
    let d = drive_len_exec(p);
    let rest = slice_chars(p, d, p.len());
    assert(rest@ =~= p@.skip(d as int));
    comps_exec(&rest)
}

pub fn file_name_exec(p: &Vec<char>) -> (r: Option<Vec<char>>)
    ensures
        match r {
            Some(n) => file_name(p@) == Some(n@),
            None => file_name(p@) is None,
        },
{
    let cs = path_components_exec(p);
    let ghost m = cs@.map_values(|v: Vec<char>| v@);
    if cs.len() == 0 {
        return None;
    }
    let last = cs[cs.len() - 1].clone();
    assert(m.last() == last@);
    if is_dot_dot(&last) {
        None
    } else {
        Some(last)
    }
}

pub fn path_extension_exec(p: &Vec<char>) -> (r: Option<Vec<char>>)
    ensures
        match r {
            Some(e) => path_extension(p@) == Some(e@),
            None => path_extension(p@) is None,
        },
{
    match file_name_exec(p) {
        Some(n) => ext_of_name_exec(&n),
        None => None,
    }
}

pub fn depth_exec(p: &Vec<char>) -> (r: usize)
    ensures
        r == depth(p@),
{
    let cs = path_components_exec(p);
    assert(cs@.map_values(|v: Vec<char>| v@).len() == cs@.len());
    cs.len()
}

// ---------------------------------------------------------------------------
// Normalised forms for location filters
// ---------------------------------------------------------------------------

/// One character of a normalised path: `/` becomes `\`, ASCII letters are
/// lowered.
pub open spec fn norm_char(c: char) -> char {
    if c == '/' {
        '\\'
    } else {
        lower_ascii_char(c)
    }
}

pub open spec fn trim_end_seps(s: Seq<char>) -> Seq<char>
    decreases s.len(),
{
    if s.len() > 0 && is_sep(s.last()) {
        trim_end_seps(s.drop_last())
    } else {
        s
    }
}

/// Case- and slash-insensitive form of a path, without trailing separators.
pub open spec fn norm_path(s: Seq<char>) -> Seq<char> {
    trim_end_seps(s.map_values(|c: char| norm_char(c)))
}

/// The normalised directory holding a normalised path (empty when there is
/// no separator).
pub open spec fn norm_parent(n: Seq<char>) -> Seq<char> {
    let k = last_index_of(n, '\\');
    if k < 0 {
        Seq::empty()
    } else {
        n.take(k)
    }
}

/// `path` lies at or below `root`, component-wise, after normalisation.
pub open spec fn under_norm(path: Seq<char>, root: Seq<char>) -> bool {
    let p = norm_path(path);
    let r = norm_path(root);
    p == r || starts_with(p, r.push('\\'))
}

pub fn norm_path_exec(s: &Vec<char>) -> (r: Vec<char>)
    ensures
        r@ == norm_path(s@),
{
    let mut m: Vec<char> = Vec::new();
    let mut i: usize = 0;
    while i < s.len()
        invariant
            i <= s.len(),
            m@ == s@.take(i as int).map_values(|c: char| norm_char(c)),
        decreases s.len() - i,
    {
        let c = if s[i] == '/' {
            '\\'
        } else {
            lower_ascii_char_exec(s[i])
        };
        m.push(c);
        i += 1;
        assert(m@ =~= s@.take(i as int).map_values(|c: char| norm_char(c)));
    }
    assert(s@.take(s.len() as int) =~= s@);
    let mut n = m.len();
    let ghost full = m@;
    assert(full.take(n as int) =~= full);
    while n > 0 && is_sep_exec(m[n - 1])
        invariant
            n <= m.len(),
            m@ == full,
            trim_end_seps(full) == trim_end_seps(full.take(n as int)),
        decreases n,
    {
        assert(full.take(n as int).drop_last() =~= full.take(n - 1));
        n -= 1;
    }
    let r = slice_chars(&m, 0, n);
    assert(r@ =~= full.take(n as int));
    r
}

pub fn norm_parent_exec(n: &Vec<char>) -> (r: Vec<char>)
    ensures
        r@ == norm_parent(n@),
{
    match last_index_of_exec(n, '\\') {
        Some(k) => {
            proof {
                lemma_last_index_of(n@, '\\');
            }
            slice_chars(n, 0, k)
        },
        None => Vec::new(),
    }
}

pub fn under_norm_exec(path: &Vec<char>, root: &Vec<char>) -> (r: bool)
    ensures
        r == under_norm(path@, root@),
{
    let p = norm_path_exec(path);
    let mut r = norm_path_exec(root);
    if p.len() == r.len() && starts_with_exec(&p, &r) {
        assert(p@ =~= r@);
        return true;
    }
    let ghost r0 = r@;
    proof {
        if p@ == r0 {
            assert(p@.take(r0.len() as int) =~= r0);
        }
    }
    r.push('\\');
    starts_with_exec(&p, &r)
}

// ---------------------------------------------------------------------------
// Re-rooting paths (directory rename)
// ---------------------------------------------------------------------------

pub open spec fn trim_start_seps(s: Seq<char>) -> Seq<char>
    decreases s.len(),
{
    if s.len() > 0 && is_sep(s[0]) {
        trim_start_seps(s.drop_first())
    } else {
        s
    }
}

/// `Path::strip_prefix`: `path` with the components of `base` removed, when
/// `base` (without trailing separators) is a whole-component prefix of it.
pub open spec fn strip_path_prefix(path: Seq<char>, base: Seq<char>) -> Option<Seq<char>> {
    let b = trim_end_seps(base);
    if starts_with(path, b) && (path.len() == b.len() || is_sep(path[b.len() as int])) {
        Some(trim_start_seps(path.skip(b.len() as int)))
    } else {
        None
    }
}

/// `PathBuf::join` with a relative path, using `\` as separator.
pub open spec fn join_path(base: Seq<char>, rel: Seq<char>) -> Seq<char> {
    if base.len() > 0 && is_sep(base.last()) {
        base + rel
    } else {
        base.push('\\') + rel
    }
}

pub fn trim_end_seps_exec(s: &Vec<char>) -> (r: Vec<char>)
    ensures
        r@ == trim_end_seps(s@),
{
    let mut n = s.len();
    assert(s@.take(n as int) =~= s@);
    while n > 0 && is_sep_exec(s[n - 1])
        invariant
            n <= s.len(),
            trim_end_seps(s@) == trim_end_seps(s@.take(n as int)),
        decreases n,
    {
        assert(s@.take(n as int).drop_last() =~= s@.take(n - 1));
        n -= 1;
    }
    let r = slice_chars(s, 0, n);
    assert(r@ =~= s@.take(n as int));
    r
}

pub fn strip_path_prefix_exec(path: &Vec<char>, base: &Vec<char>) -> (r: Option<Vec<char>>)
    ensures
        match r {
            Some(v) => strip_path_prefix(path@, base@) == Some(v@),
            None => strip_path_prefix(path@, base@) is None,
        },
{
    let b = trim_end_seps_exec(base);
    if !starts_with_exec(path, &b) {
        return None;
    }
    if !(path.len() == b.len() || is_sep_exec(path[b.len()])) {
        return None;
    }
    let mut i = b.len();
    assert(path@.skip(i as int) =~= path@.skip(b.len() as int));
    while i < path.len() && is_sep_exec(path[i])
        invariant
            b.len() <= i <= path.len(),
            trim_start_seps(path@.skip(b.len() as int)) == trim_start_seps(path@.skip(i as int)),
        decreases path.len() - i,
    {
        assert(path@.skip(i as int).drop_first() =~= path@.skip(i + 1));
        i += 1;
    }
    let r = slice_chars(path, i, path.len());
    assert(r@ =~= path@.skip(i as int));
    Some(r)
}

pub fn join_path_exec(base: &Vec<char>, rel: &Vec<char>) -> (r: Vec<char>)
    ensures
        r@ == join_path(base@, rel@),
{
    let mut r = base.clone();
    if !(base.len() > 0 && is_sep_exec(base[base.len() - 1])) {
        r.push('\\');
    }
    let mut i: usize = 0;
    let ghost start = r@;
    while i < rel.len()
        invariant
            i <= rel.len(),
            r@ == start + rel@.take(i as int),
        decreases rel.len() - i,
    {
        r.push(rel[i]);
        i += 1;
        assert(r@ =~= start + rel@.take(i as int));
    }
    assert(rel@.take(rel.len() as int) =~= rel@);
    r
}

} // verus!
