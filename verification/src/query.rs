//! The Everything-style query language: space is AND, `|` is OR, `!` is NOT,
//! `"quoted phrases"`, wildcards, and filter operators such as `ext:`,
//! `size:`, `dm:`, `attrib:`, `sort:` and `count:`.

use vstd::prelude::*;
pub use crate::pattern::{
    atom_matches, atom_patterns, pattern_matches, patterns_view, plain_pattern, special_pattern,
    Atom, AtomSpec, Pattern, PatternSpec, TermKind,
};
use crate::text::{
    all_digits, chars_eq, chars_of, starts_with_ci, starts_with_ci_exec, contains_exec, contains_seq, digit_value, digits_value, ends_with,
    ends_with_exec, is_white, is_white_exec, lower_ascii, lower_ascii_vec, parse_u64,
    parse_u64_spec, slice_chars, split_exec, split_on, string_of, to_lowercase_vec, trim,
    trim_exec, unicode_lower,
};

verus! {

/// A comparison against a number (`size:`, `depth:`, `len:`, `extlen:`).
#[derive(Debug, Clone, Copy, PartialEq, Eq, Structural)]
pub enum SizeFilter {
    Gt(u64),
    Ge(u64),
    Lt(u64),
    Le(u64),
    Eq(u64),
}

pub open spec fn size_filter_holds(f: SizeFilter, v: int) -> bool {
    match f {
        SizeFilter::Gt(n) => v > n,
        SizeFilter::Ge(n) => v >= n,
        SizeFilter::Lt(n) => v < n,
        SizeFilter::Le(n) => v <= n,
        SizeFilter::Eq(n) => v == n,
    }
}

impl SizeFilter {
    pub fn matches(&self, size: u64) -> (r: bool)
        ensures
            r == size_filter_holds(*self, size as int),
    {
        match *self {
            SizeFilter::Gt(n) => size > n,
            SizeFilter::Ge(n) => size >= n,
            SizeFilter::Lt(n) => size < n,
            SizeFilter::Le(n) => size <= n,
            SizeFilter::Eq(n) => size == n,
        }
    }
}

/// Order of the results (`sort:`).
#[derive(Debug, Clone, Copy, PartialEq, Eq, Structural)]
pub enum SortMode {
    /// By rank score, best first.
    Score,
    /// Largest first.
    Size,
    /// Most recently modified first.
    Date,
    /// By name.
    Name,
}

/// A parsed query.
#[derive(Debug, Clone, PartialEq)]
pub struct Query {
    pub must: Vec<Atom>,
    pub must_not: Vec<Pattern>,
    /// Lowercase extensions without the dot; a file must have one of them.
    pub extensions: Vec<String>,
    pub size: Option<SizeFilter>,
    /// Seconds since the Unix epoch.
    pub modified_after: Option<u64>,
    pub modified_before: Option<u64>,
    /// `n:` / `name:` — atoms may match the basename only, not path or body.
    pub name_only: bool,
    /// `file:` — exclude directories.
    pub files_only: bool,
    /// `folder:` — exclude files.
    pub folders_only: bool,
    /// `case:` — terms match case-sensitively.
    pub case_sensitive: bool,
    /// `ww:` — terms match whole words only.
    pub whole_word: bool,
    /// `attrib:` — every one of these attribute bits must be set.
    pub attrib_mask: u32,
    /// `attrib:X|Y` — at least one of these bits must be set (when non-zero).
    pub attrib_any: u32,
    /// `count:` / `max:` — at most this many results.
    pub max_results: Option<usize>,
    pub sort: SortMode,
    /// `depth:` — number of path components after the drive.
    pub depth: Option<SizeFilter>,
    /// `len:` — number of characters of the name.
    pub name_len: Option<SizeFilter>,
    /// `extlen:` — number of characters after the last dot of the name.
    pub ext_len: Option<SizeFilter>,
    /// `noext:` — files without an extension.
    pub no_ext: bool,
    /// `dot:` — names starting with a dot.
    pub dotfile: bool,
    /// `parent:` — the immediate parent folder.
    pub parent: Option<String>,
    /// `path:` — a piece of the path.
    pub path_contains: Option<String>,
    /// `root:` — a folder the entry lies at or below.
    pub root: Option<String>,
}

#[verifier::ext_equal]
pub struct QuerySpec {
    pub must: Seq<AtomSpec>,
    pub must_not: Seq<PatternSpec>,
    pub extensions: Seq<Seq<char>>,
    pub size: Option<SizeFilter>,
    pub modified_after: Option<u64>,
    pub modified_before: Option<u64>,
    pub name_only: bool,
    pub files_only: bool,
    pub folders_only: bool,
    pub case_sensitive: bool,
    pub whole_word: bool,
    pub attrib_mask: u32,
    pub attrib_any: u32,
    pub max_results: Option<usize>,
    pub sort: SortMode,
    pub depth: Option<SizeFilter>,
    pub name_len: Option<SizeFilter>,
    pub ext_len: Option<SizeFilter>,
    pub no_ext: bool,
    pub dotfile: bool,
    pub parent: Option<Seq<char>>,
    pub path_contains: Option<Seq<char>>,
    pub root: Option<Seq<char>>,
}

pub open spec fn atoms_view(a: Seq<Atom>) -> Seq<AtomSpec> {
    a.map_values(|x: Atom| x@)
}

pub open spec fn strings_view(a: Seq<String>) -> Seq<Seq<char>> {
    a.map_values(|x: String| x@)
}

pub open spec fn opt_string_view(o: Option<String>) -> Option<Seq<char>> {
    match o {
        Some(s) => Some(s@),
        None => None,
    }
}

impl View for Query {
    type V = QuerySpec;

    open spec fn view(&self) -> QuerySpec {
        QuerySpec {
            must: atoms_view(self.must@),
            must_not: patterns_view(self.must_not@),
            extensions: strings_view(self.extensions@),
            size: self.size,
            modified_after: self.modified_after,
            modified_before: self.modified_before,
            name_only: self.name_only,
            files_only: self.files_only,
            folders_only: self.folders_only,
            case_sensitive: self.case_sensitive,
            whole_word: self.whole_word,
            attrib_mask: self.attrib_mask,
            attrib_any: self.attrib_any,
            max_results: self.max_results,
            sort: self.sort,
            depth: self.depth,
            name_len: self.name_len,
            ext_len: self.ext_len,
            no_ext: self.no_ext,
            dotfile: self.dotfile,
            parent: opt_string_view(self.parent),
            path_contains: opt_string_view(self.path_contains),
            root: opt_string_view(self.root),
        }
    }
}

/// The query that matches everything.
pub open spec fn empty_query() -> QuerySpec {
    QuerySpec {
        must: Seq::empty(),
        must_not: Seq::empty(),
        extensions: Seq::empty(),
        size: None,
        modified_after: None,
        modified_before: None,
        name_only: false,
        files_only: false,
        folders_only: false,
        case_sensitive: false,
        whole_word: false,
        attrib_mask: 0,
        attrib_any: 0,
        max_results: None,
        sort: SortMode::Score,
        depth: None,
        name_len: None,
        ext_len: None,
        no_ext: false,
        dotfile: false,
        parent: None,
        path_contains: None,
        root: None,
    }
}

impl Default for Query {
    fn default() -> (q: Query)
        ensures
            q@ == empty_query(),
    {
        let q = Query {
            must: Vec::new(),
            must_not: Vec::new(),
            extensions: Vec::new(),
            size: None,
            modified_after: None,
            modified_before: None,
            name_only: false,
            files_only: false,
            folders_only: false,
            case_sensitive: false,
            whole_word: false,
            attrib_mask: 0,
            attrib_any: 0,
            max_results: None,
            sort: SortMode::Score,
            depth: None,
            name_len: None,
            ext_len: None,
            no_ext: false,
            dotfile: false,
            parent: None,
            path_contains: None,
            root: None,
        };
        assert(q@ =~= empty_query());
        q
    }
}

// ---------------------------------------------------------------------------
// Tokens
// ---------------------------------------------------------------------------

/// Reading the input left to right: finished tokens, the token being read,
/// and whether a quote is open.
pub open spec fn tok_state(s: Seq<char>) -> (Seq<Seq<char>>, Seq<char>, bool)
    decreases s.len(),
{
    if s.len() == 0 {
        (Seq::empty(), Seq::empty(), false)
    } else {
        let (out, cur, q) = tok_state(s.drop_last());
        let c = s.last();
        if c == '"' {
            (out, cur, !q)
        } else if is_white(c) && !q {
            if cur.len() > 0 {
                (out.push(cur), Seq::empty(), q)
            } else {
                (out, cur, q)
            }
        } else {
            (out, cur.push(c), q)
        }
    }
}

/// Whitespace separates tokens outside quotes; quote characters only toggle
/// quoting and are dropped; empty tokens are never produced.
pub open spec fn tokens_of(s: Seq<char>) -> Seq<Seq<char>> {
    let (out, cur, _q) = tok_state(s);
    if cur.len() > 0 {
        out.push(cur)
    } else {
        out
    }
}

pub fn tokenize_chars(s: &Vec<char>) -> (r: Vec<Vec<char>>)
    ensures
        r@.map_values(|v: Vec<char>| v@) == tokens_of(s@),
{
    let mut out: Vec<Vec<char>> = Vec::new();
    let mut cur: Vec<char> = Vec::new();
    let mut in_quotes = false;
    let mut i: usize = 0;
    while i < s.len()
        invariant
            i <= s.len(),
            tok_state(s@.take(i as int)) == (out@.map_values(|v: Vec<char>| v@), cur@, in_quotes),
        decreases s.len() - i,
    {
        let c = s[i];
        assert(s@.take(i + 1).drop_last() =~= s@.take(i as int));
        if c == '"' {
            in_quotes = !in_quotes;
        } else if is_white_exec(c) && !in_quotes {
            if cur.len() > 0 {
                let piece = cur;
                out.push(piece);
                cur = Vec::new();
                assert(out@.map_values(|v: Vec<char>| v@) =~= tok_state(s@.take(i as int)).0.push(
                    piece@,
                ));
            }
        } else {
            cur.push(c);
        }
        i += 1;
    }
    assert(s@.take(s.len() as int) =~= s@);
    if cur.len() > 0 {
        let ghost before = out@.map_values(|v: Vec<char>| v@);
        out.push(cur);
        assert(out@.map_values(|v: Vec<char>| v@) =~= before.push(tok_state(s@).1));
    }
    out
}

/// Splits a query into tokens (see `tokens_of`).
pub fn tokenize(s: &str) -> (r: Vec<String>)
    ensures
        strings_view(r@) == tokens_of(s@),
{
    let v = chars_of(s);
    let toks = tokenize_chars(&v);
    let mut r: Vec<String> = Vec::new();
    let mut k: usize = 0;
    while k < toks.len()
        invariant
            k <= toks.len(),
            r.len() == k,
            forall|j: int| 0 <= j < k ==> #[trigger] r@[j]@ == toks@[j]@,
        decreases toks.len() - k,
    {
        r.push(string_of(&toks[k]));
        k += 1;
    }
    assert(strings_view(r@) =~= toks@.map_values(|v: Vec<char>| v@));
    r
}

// ---------------------------------------------------------------------------
// Numbers: comparisons, byte counts, dates
// ---------------------------------------------------------------------------

/// The comparison written at the start of `s` and the rest: `>=`, `<=`, `>`,
/// `<`, `=`, or none (equality).
pub open spec fn split_comparison(s: Seq<char>) -> (u8, Seq<char>) {
    if s.len() >= 2 && s[0] == '>' && s[1] == '=' {
        (1, s.skip(2))
    } else if s.len() >= 2 && s[0] == '<' && s[1] == '=' {
        (3, s.skip(2))
    } else if s.len() >= 1 && s[0] == '>' {
        (0, s.skip(1))
    } else if s.len() >= 1 && s[0] == '<' {
        (2, s.skip(1))
    } else if s.len() >= 1 && s[0] == '=' {
        (4, s.skip(1))
    } else {
        (4, s)
    }
}

pub open spec fn make_filter(kind: u8, n: u64) -> SizeFilter {
    if kind == 0 {
        SizeFilter::Gt(n)
    } else if kind == 1 {
        SizeFilter::Ge(n)
    } else if kind == 2 {
        SizeFilter::Lt(n)
    } else if kind == 3 {
        SizeFilter::Le(n)
    } else {
        SizeFilter::Eq(n)
    }
}

fn split_comparison_exec(s: &Vec<char>) -> (r: (u8, Vec<char>))
    ensures
        (r.0, r.1@) == split_comparison(s@),
{
    let n = s.len();
    if n >= 2 && s[0] == '>' && s[1] == '=' {
        (1, slice_chars(s, 2, n))
    } else if n >= 2 && s[0] == '<' && s[1] == '=' {
        (3, slice_chars(s, 2, n))
    } else if n >= 1 && s[0] == '>' {
        (0, slice_chars(s, 1, n))
    } else if n >= 1 && s[0] == '<' {
        (2, slice_chars(s, 1, n))
    } else if n >= 1 && s[0] == '=' {
        (4, slice_chars(s, 1, n))
    } else {
        let r = slice_chars(s, 0, n);
        assert(r@ =~= s@);
        (4, r)
    }
}

fn make_filter_exec(kind: u8, n: u64) -> (r: SizeFilter)
    ensures
        r == make_filter(kind, n),
{
    if kind == 0 {
        SizeFilter::Gt(n)
    } else if kind == 1 {
        SizeFilter::Ge(n)
    } else if kind == 2 {
        SizeFilter::Lt(n)
    } else if kind == 3 {
        SizeFilter::Le(n)
    } else {
        SizeFilter::Eq(n)
    }
}

/// `depth:`, `len:`, `extlen:` values: a comparison and a whole number.
pub open spec fn parse_compare(s: Seq<char>) -> Option<SizeFilter> {
    let (kind, rest) = split_comparison(trim(s));
    match parse_u64_spec(trim(rest)) {
        Some(n) => Some(make_filter(kind, n)),
        None => None,
    }
}

pub fn parse_compare_exec(s: &Vec<char>) -> (r: Option<SizeFilter>)
    ensures
        r == parse_compare(s@),
{
    let t = trim_exec(s);
    let (kind, rest) = split_comparison_exec(&t);
    let num = trim_exec(&rest);
    match parse_u64(&num) {
        Some(n) => Some(make_filter_exec(kind, n)),
        None => None,
    }
}

/// `floor(mul × 0.ds)` for the fraction digits `ds`, read from the right.
pub open spec fn frac_scaled(ds: Seq<char>, mul: int) -> int
    decreases ds.len(),
{
    if ds.len() == 0 {
        0
    } else {
        (digit_value(ds[0]) * mul + frac_scaled(ds.drop_first(), mul)) / 10
    }
}

/// A decimal number `[+-]digits[.digits]` (at least one digit) times `mul`,
/// rounded down, with negative values giving 0 and large ones `u64::MAX`.
pub open spec fn scaled_decimal(s: Seq<char>, mul: int) -> Option<u64> {
    let neg = s.len() > 0 && s[0] == '-';
    let body = if s.len() > 0 && (s[0] == '-' || s[0] == '+') {
        s.drop_first()
    } else {
        s
    };
    let parts = split_on(body, '.');
    let ip = parts[0];
    let fp = if parts.len() >= 2 {
        parts[1]
    } else {
        Seq::<char>::empty()
    };
    if parts.len() > 2 || !all_digits(ip) || !all_digits(fp) || ip.len() + fp.len() == 0 {
        None
    } else if neg {
        Some(0)
    } else {
        let v = digits_value(ip) * mul + frac_scaled(fp, mul);
        Some(
            if v > u64::MAX {
                u64::MAX
            } else {
                v as u64
            },
        )
    }
}

proof fn lemma_frac_scaled_bound(ds: Seq<char>, mul: int)
    requires
        all_digits(ds),
        mul >= 0,
    ensures
        0 <= frac_scaled(ds, mul) <= mul,
    decreases ds.len(),
{
    if ds.len() > 0 {
        assert(all_digits(ds.drop_first()));
        lemma_frac_scaled_bound(ds.drop_first(), mul);
        let d = digit_value(ds[0]);
        assert(0 <= d <= 9);
        let f = frac_scaled(ds.drop_first(), mul);
        assert(0 <= d * mul + f <= 10 * mul) by (nonlinear_arith)
            requires
                0 <= d <= 9,
                0 <= f <= mul,
                mul >= 0,
        ;
    }
}

fn frac_scaled_exec(ds: &Vec<char>, mul: u64) -> (r: u64)
    requires
        all_digits(ds@),
        mul <= 0x4000_0000,
    ensures
        r == frac_scaled(ds@, mul as int),
{
    let mut acc: u64 = 0;
    let mut i = ds.len();
    assert(ds@.skip(i as int) =~= Seq::<char>::empty());
    while i > 0
        invariant
            i <= ds.len(),
            all_digits(ds@),
            mul <= 0x4000_0000,
            acc == frac_scaled(ds@.skip(i as int), mul as int),
            acc <= mul,
        decreases i,
    {
        let d = (ds[i - 1] as u32 - '0' as u32) as u64;
        assert(d == digit_value(ds@[i - 1]));
        assert(ds@.skip(i - 1).drop_first() =~= ds@.skip(i as int));
        assert(d * mul + acc <= 10 * 0x4000_0000u64) by (nonlinear_arith)
            requires
                d <= 9,
                mul <= 0x4000_0000,
                acc <= mul,
        ;
        acc = (d * mul + acc) / 10;
        i -= 1;
        proof {
            lemma_frac_scaled_bound(ds@.skip(i as int), mul as int);
        }
    }
    assert(ds@.skip(0) =~= ds@);
    acc
}

fn all_digits_exec(s: &Vec<char>) -> (r: bool)
    ensures
        r == all_digits(s@),
{
    let mut i: usize = 0;
    while i < s.len()
        invariant
            i <= s.len(),
            forall|k: int| 0 <= k < i ==> crate::text::is_digit(#[trigger] s@[k]),
        decreases s.len() - i,
    {
        if !('0' <= s[i] && s[i] <= '9') {
            return false;
        }
        i += 1;
    }
    true
}

/// `min(digits_value(ds), cap)`, folding from the left.
fn capped_digits(ds: &Vec<char>, cap: u128) -> (r: u128)
    requires
        all_digits(ds@),
        1 <= cap <= 0x1_0000_0000_0000_0000_0000_0000_0000,
    ensures
        r == (if digits_value(ds@) > cap {
            cap as int
        } else {
            digits_value(ds@)
        }),
{
    let mut v: u128 = 0;
    let mut i: usize = 0;
    while i < ds.len()
        invariant
            i <= ds.len(),
            all_digits(ds@),
            1 <= cap <= 0x1_0000_0000_0000_0000_0000_0000_0000,
            v == (if digits_value(ds@.take(i as int)) > cap {
                cap as int
            } else {
                digits_value(ds@.take(i as int))
            }),
        decreases ds.len() - i,
    {
        let d = (ds[i] as u32 - '0' as u32) as u128;
        assert(ds@.take(i + 1).drop_last() =~= ds@.take(i as int));
        let ghost prev = digits_value(ds@.take(i as int));
        proof {
            crate::text::lemma_digits_value_nonneg(ds@.take(i as int));
        }
        assert(digits_value(ds@.take(i + 1)) == prev * 10 + d);
        let nv = v * 10 + d;
        if nv > cap {
            assert(prev * 10 + d > cap) by (nonlinear_arith)
                requires
                    v * 10 + d > cap,
                    v == (if prev > cap {
                        cap as int
                    } else {
                        prev
                    }),
                    prev >= 0,
            ;
            v = cap;
        } else {
            v = nv;
            assert(prev <= cap);
        }
        i += 1;
    }
    assert(ds@.take(ds.len() as int) =~= ds@);
    v
}

pub fn scaled_decimal_exec(s: &Vec<char>, mul: u64) -> (r: Option<u64>)
    requires
        1 <= mul <= 0x4000_0000,
    ensures
        r == scaled_decimal(s@, mul as int),
{
    let neg = s.len() > 0 && s[0] == '-';
    let body = if s.len() > 0 && (s[0] == '-' || s[0] == '+') {
        slice_chars(s, 1, s.len())
    } else {
        slice_chars(s, 0, s.len())
    };
    assert(s@.subrange(0, s.len() as int) =~= s@);
    assert(s.len() > 0 ==> s@.subrange(1, s.len() as int) =~= s@.drop_first());
    let parts = split_exec(&body, '.');
    proof {
        crate::text::lemma_split_on_nonempty(body@, '.');
        assert(parts@.map_values(|v: Vec<char>| v@)[0] == parts@[0]@);
    }
    if parts.len() > 2 {
        return None;
    }
    let ip = &parts[0];
    let fp: Vec<char> = if parts.len() >= 2 {
        assert(parts@.map_values(|v: Vec<char>| v@)[1] == parts@[1]@);
        slice_chars(&parts[1], 0, parts[1].len())
    } else {
        Vec::new()
    };
    assert(parts.len() >= 2 ==> parts@[1]@.subrange(0, parts@[1]@.len() as int) =~= parts@[1]@);
    if !all_digits_exec(ip) || !all_digits_exec(&fp) || (ip.len() == 0 && fp.len() == 0) {
        return None;
    }
    if neg {
        return Some(0);
    }
    Some(scale_digits(ip, &fp, mul))
}

/// A value capped at `u64::MAX`.
pub open spec fn sat(v: int) -> u64 {
    if v > u64::MAX {
        u64::MAX
    } else {
        v as u64
    }
}

/// `digits(ip).digits(fp)` times `mul`, rounded down, capped at `u64::MAX`.
fn scale_digits(ip: &Vec<char>, fp: &Vec<char>, mul: u64) -> (r: u64)
    requires
        all_digits(ip@),
        all_digits(fp@),
        1 <= mul <= 0x4000_0000,
    ensures
        r == sat(digits_value(ip@) * mul + frac_scaled(fp@, mul as int)),
{
    let whole = capped_digits(ip, 0x1_0000_0000_0000_0000);
    let frac = frac_scaled_exec(fp, mul);
    proof {
        lemma_frac_scaled_bound(fp@, mul as int);
        crate::text::lemma_digits_value_nonneg(ip@);
    }
    assert(whole * mul <= 0x1_0000_0000_0000_0000 * 0x4000_0000) by (nonlinear_arith)
        requires
            whole <= 0x1_0000_0000_0000_0000u128,
            mul <= 0x4000_0000,
    ;
    let total: u128 = whole * (mul as u128) + (frac as u128);
    let ghost exact = digits_value(ip@) * mul + frac_scaled(fp@, mul as int);
    if total > u64::MAX as u128 {
        assert(exact > u64::MAX) by (nonlinear_arith)
            requires
                total > u64::MAX,
                total == whole * mul + frac,
                exact == digits_value(ip@) * mul + frac,
                whole == (if digits_value(ip@) > 0x1_0000_0000_0000_0000 {
                    0x1_0000_0000_0000_0000
                } else {
                    digits_value(ip@)
                }),
                mul >= 1,
                frac >= 0,
        ;
        u64::MAX
    } else {
        assert(exact == total) by (nonlinear_arith)
            requires
                total <= u64::MAX,
                total == whole * mul + frac,
                exact == digits_value(ip@) * mul + frac,
                whole == (if digits_value(ip@) > 0x1_0000_0000_0000_0000 {
                    0x1_0000_0000_0000_0000
                } else {
                    digits_value(ip@)
                }),
                mul >= 1,
                frac >= 0,
        ;
        total as u64
    }
}

/// `n` zero digits.
pub open spec fn zeros(n: nat) -> Seq<char> {
    Seq::new(n, |i: int| '0')
}

pub open spec fn pow10(n: nat) -> int
    decreases n,
{
    if n == 0 {
        1
    } else {
        10 * pow10((n - 1) as nat)
    }
}

/// The digits `d` read as a whole number whose decimal point is moved `z`
/// places to the right (to the left when `z` is negative), times `mul`,
/// rounded down and capped at `u64::MAX`.
pub open spec fn shifted_value(d: Seq<char>, z: int, mul: int) -> u64 {
    if z >= 0 {
        sat(digits_value(d + zeros(z as nat)) * mul)
    } else if -z <= d.len() {
        sat(digits_value(d.take(d.len() + z)) * mul + frac_scaled(d.skip(d.len() + z), mul))
    } else {
        sat(frac_scaled(zeros((-z - d.len()) as nat) + d, mul))
    }
}

/// A number in the form `f64::from_str` reads (lowercase here): an optional
/// sign, then `inf`, `infinity`, `nan`, or digits with an optional `.` and
/// fraction (at least one digit) and an optional exponent `e`, sign and
/// digits; times `mul`, rounded down exactly, negative values and NaN
/// giving 0 and large ones `u64::MAX`.
pub open spec fn float_scaled(s: Seq<char>, mul: int) -> Option<u64> {
    let neg = s.len() > 0 && s[0] == '-';
    let body = if s.len() > 0 && (s[0] == '-' || s[0] == '+') {
        s.drop_first()
    } else {
        s
    };
    let parts = split_on(body, 'e');
    if body == "inf"@ || body == "infinity"@ {
        Some(if neg { 0 } else { u64::MAX })
    } else if body == "nan"@ {
        Some(0)
    } else if parts.len() == 1 {
        scaled_decimal(s, mul)
    } else if parts.len() == 2 {
        let m = split_on(parts[0], '.');
        let ip = m[0];
        let fp = if m.len() >= 2 {
            m[1]
        } else {
            Seq::<char>::empty()
        };
        let x = parts[1];
        let xneg = x.len() > 0 && x[0] == '-';
        let xd = if x.len() > 0 && (x[0] == '-' || x[0] == '+') {
            x.drop_first()
        } else {
            x
        };
        if m.len() > 2 || !all_digits(ip) || !all_digits(fp) || ip.len() + fp.len() == 0
            || xd.len() == 0 || !all_digits(xd) {
            None
        } else if neg {
            Some(0)
        } else {
            let e = if xneg {
                -digits_value(xd)
            } else {
                digits_value(xd)
            };
            Some(shifted_value(ip + fp, e - fp.len(), mul))
        }
    } else {
        None
    }
}

proof fn lemma_zeros_digits(d: Seq<char>, z: nat)
    requires
        all_digits(d),
    ensures
        all_digits(d + zeros(z)),
        digits_value(d + zeros(z)) == digits_value(d) * pow10(z),
    decreases z,
{
    if z == 0 {
        assert(d + zeros(0) =~= d);
    } else {
        lemma_zeros_digits(d, (z - 1) as nat);
        let a = d + zeros((z - 1) as nat);
        let b = d + zeros(z);
        assert(b.drop_last() =~= a);
        assert(b.last() == '0');
        let dv = digits_value(d);
        let p = pow10((z - 1) as nat);
        assert((dv * p) * 10 == dv * (10 * p)) by (nonlinear_arith);
    }
}

proof fn lemma_pow10_grows(n: nat)
    ensures
        pow10(n) >= 1,
        n >= 21 ==> pow10(n) >= 1_000_000_000_000_000_000_000,
        n >= 10 ==> pow10(n) >= 10_000_000_000,
    decreases n,
{
    if n > 0 {
        lemma_pow10_grows((n - 1) as nat);
        if n <= 21 {
            reveal_with_fuel(pow10, 22);
        }
    }
}

proof fn lemma_leading_zeros_frac(d: Seq<char>, k: nat, mul: int)
    requires
        all_digits(d),
        0 <= mul,
    ensures
        all_digits(zeros(k) + d),
        0 <= frac_scaled(zeros(k) + d, mul),
        frac_scaled(zeros(k) + d, mul) * pow10(k) <= frac_scaled(d, mul),
    decreases k,
{
    if k == 0 {
        assert(zeros(0) + d =~= d);
        lemma_frac_scaled_bound(d, mul);
    } else {
        lemma_leading_zeros_frac(d, (k - 1) as nat, mul);
        let a = zeros((k - 1) as nat) + d;
        let b = zeros(k) + d;
        assert(b.drop_first() =~= a);
        assert(b[0] == '0');
        let fa = frac_scaled(a, mul);
        let fb = frac_scaled(b, mul);
        assert(fb == (0 * mul + fa) / 10);
        let p = pow10((k - 1) as nat);
        lemma_pow10_grows((k - 1) as nat);
        assert(fb * (10 * p) <= fa * p) by (nonlinear_arith)
            requires
                fb == (0 * mul + fa) / 10,
                fa >= 0,
                p >= 1,
        ;
    }
}

fn zeros_then(n: usize, d: &Vec<char>) -> (r: Vec<char>)
    ensures
        r@ == zeros(n as nat) + d@,
{
    let mut v: Vec<char> = Vec::new();
    let mut i: usize = 0;
    while i < n
        invariant
            i <= n,
            v@ == zeros(i as nat),
        decreases n - i,
    {
        v.push('0');
        i += 1;
        assert(v@ =~= zeros(i as nat));
    }
    crate::text::append_chars(&mut v, d);
    v
}

fn digits_then_zeros(d: &Vec<char>, n: usize) -> (r: Vec<char>)
    ensures
        r@ == d@ + zeros(n as nat),
{
    let mut v: Vec<char> = slice_chars(d, 0, d.len());
    assert(d@.subrange(0, d.len() as int) =~= d@);
    let mut i: usize = 0;
    while i < n
        invariant
            i <= n,
            v@ == d@ + zeros(i as nat),
        decreases n - i,
    {
        v.push('0');
        i += 1;
        assert(v@ =~= d@ + zeros(i as nat));
    }
    v
}

/// `shifted_value(ip + fp, ±e - fp.len(), mul)`, with the exponent digits
/// `xd` read capped (beyond the cap the result no longer changes).
fn shifted_value_exec(ip: &Vec<char>, fp: &Vec<char>, xneg: bool, xd: &Vec<char>, mul: u64) -> (r: u64)
    requires
        all_digits(ip@),
        all_digits(fp@),
        all_digits(xd@),
        1 <= mul <= 0x4000_0000,
    ensures
        r == shifted_value(
            ip@ + fp@,
            (if xneg {
                -digits_value(xd@)
            } else {
                digits_value(xd@)
            }) - fp@.len(),
            mul as int,
        ),
{
    let mut d: Vec<char> = slice_chars(ip, 0, ip.len());
    assert(ip@.subrange(0, ip.len() as int) =~= ip@);
    crate::text::append_chars(&mut d, fp);
    let cap: u128 = 0x1_0000_0000_0000_0000_0000_0000;
    let ec = capped_digits(xd, cap);
    proof {
        crate::text::lemma_digits_value_nonneg(xd@);
    }
    assert(all_digits(d@)) by {
        assert forall|k: int| 0 <= k < d@.len() implies crate::text::is_digit(#[trigger] d@[k]) by {
            if k < ip@.len() {
                assert(d@[k] == ip@[k]);
            } else {
                assert(d@[k] == fp@[k - ip@.len()]);
            }
        }
    }
    let ghost e: int = if xneg {
        -digits_value(xd@)
    } else {
        digits_value(xd@)
    };
    let ghost z: int = e - fp@.len();
    let f = fp.len() as i128;
    let l = d.len() as i128;
    let zc: i128 = if xneg {
        -(ec as i128) - f
    } else {
        ec as i128 - f
    };
    let empty: Vec<char> = Vec::new();
    assert(empty@ =~= Seq::<char>::empty());
    if zc >= 0 {
        if zc <= 20 {
            assert(z == zc);
            let dz = digits_then_zeros(&d, zc as usize);
            proof {
                lemma_zeros_digits(d@, zc as nat);
            }
            scale_digits(&dz, &empty, mul)
        } else {
            assert(z >= 21);
            proof {
                lemma_zeros_digits(d@, z as nat);
                lemma_pow10_grows(z as nat);
                crate::text::lemma_digits_value_nonneg(d@);
            }
            let dv = capped_digits(&d, 1);
            if dv == 0 {
                assert(digits_value(d@ + zeros(z as nat)) * mul == 0) by (nonlinear_arith)
                    requires
                        digits_value(d@ + zeros(z as nat)) == digits_value(d@) * pow10(z as nat),
                        digits_value(d@) == 0,
                ;
                0
            } else {
                assert(digits_value(d@ + zeros(z as nat)) * mul > u64::MAX) by (nonlinear_arith)
                    requires
                        digits_value(d@ + zeros(z as nat)) == digits_value(d@) * pow10(z as nat),
                        digits_value(d@) >= 1,
                        pow10(z as nat) >= 1_000_000_000_000_000_000_000,
                        mul >= 1,
                ;
                u64::MAX
            }
        }
    } else {
        let g: i128 = -zc;
        if g <= l {
            assert(z == zc);
            let cut = (l - g) as usize;
            let a = slice_chars(&d, 0, cut);
            let b = slice_chars(&d, cut, d.len());
            assert(a@ =~= d@.take(d@.len() + z));
            assert(b@ =~= d@.skip(d@.len() + z));
            assert(all_digits(a@)) by {
                assert forall|k: int| 0 <= k < a@.len() implies crate::text::is_digit(#[trigger] a@[k]) by {
                    assert(a@[k] == d@[k]);
                }
            }
            assert(all_digits(b@)) by {
                assert forall|k: int| 0 <= k < b@.len() implies crate::text::is_digit(#[trigger] b@[k]) by {
                    assert(b@[k] == d@[k + cut]);
                }
            }
            scale_digits(&a, &b, mul)
        } else if g - l < 10 {
            assert(z == zc);
            let zd = zeros_then((g - l) as usize, &d);
            proof {
                lemma_leading_zeros_frac(d@, (g - l) as nat, mul as int);
            }
            assert(digits_value(empty@) == 0);
            scale_digits(&empty, &zd, mul)
        } else {
            let ghost k: nat = (-z - d@.len()) as nat;
            assert(k >= 10);
            proof {
                lemma_leading_zeros_frac(d@, k, mul as int);
                lemma_pow10_grows(k);
                lemma_frac_scaled_bound(d@, mul as int);
            }
            assert(frac_scaled(zeros(k) + d@, mul as int) == 0) by (nonlinear_arith)
                requires
                    frac_scaled(zeros(k) + d@, mul as int) * pow10(k) <= frac_scaled(d@, mul as int),
                    frac_scaled(d@, mul as int) <= mul,
                    mul <= 0x4000_0000,
                    pow10(k) >= 10_000_000_000,
                    frac_scaled(zeros(k) + d@, mul as int) >= 0,
            ;
            0
        }
    }
}

pub fn float_scaled_exec(s: &Vec<char>, mul: u64) -> (r: Option<u64>)
    requires
        1 <= mul <= 0x4000_0000,
    ensures
        r == float_scaled(s@, mul as int),
{
    let neg = s.len() > 0 && s[0] == '-';
    let body = if s.len() > 0 && (s[0] == '-' || s[0] == '+') {
        slice_chars(s, 1, s.len())
    } else {
        slice_chars(s, 0, s.len())
    };
    assert(s@.subrange(0, s.len() as int) =~= s@);
    assert(s.len() > 0 ==> s@.subrange(1, s.len() as int) =~= s@.drop_first());
    if chars_eq(&body, &chars_of("inf")) || chars_eq(&body, &chars_of("infinity")) {
        return Some(if neg { 0 } else { u64::MAX });
    }
    if chars_eq(&body, &chars_of("nan")) {
        return Some(0);
    }
    let parts = split_exec(&body, 'e');
    proof {
        crate::text::lemma_split_on_nonempty(body@, 'e');
    }
    if parts.len() == 1 {
        return scaled_decimal_exec(s, mul);
    }
    if parts.len() > 2 {
        return None;
    }
    let ghost pv = parts@.map_values(|v: Vec<char>| v@);
    assert(pv[0] == parts@[0]@);
    assert(pv[1] == parts@[1]@);
    let m = split_exec(&parts[0], '.');
    proof {
        crate::text::lemma_split_on_nonempty(parts@[0]@, '.');
        assert(m@.map_values(|v: Vec<char>| v@)[0] == m@[0]@);
    }
    if m.len() > 2 {
        return None;
    }
    let ip = &m[0];
    let fp: Vec<char> = if m.len() >= 2 {
        assert(m@.map_values(|v: Vec<char>| v@)[1] == m@[1]@);
        slice_chars(&m[1], 0, m[1].len())
    } else {
        Vec::new()
    };
    assert(m.len() >= 2 ==> m@[1]@.subrange(0, m@[1]@.len() as int) =~= m@[1]@);
    let x = &parts[1];
    let xneg = x.len() > 0 && x[0] == '-';
    let xd = if x.len() > 0 && (x[0] == '-' || x[0] == '+') {
        slice_chars(x, 1, x.len())
    } else {
        slice_chars(x, 0, x.len())
    };
    assert(x@.subrange(0, x.len() as int) =~= x@);
    assert(x.len() > 0 ==> x@.subrange(1, x.len() as int) =~= x@.drop_first());
    if !all_digits_exec(ip) || !all_digits_exec(&fp) || (ip.len() == 0 && fp.len() == 0) || xd.len()
        == 0 || !all_digits_exec(&xd) {
        return None;
    }
    if neg {
        return Some(0);
    }
    Some(shifted_value_exec(ip, &fp, xneg, &xd, mul))
}

pub open spec fn kb() -> Seq<char> {
    seq!['k', 'b']
}

pub open spec fn mb() -> Seq<char> {
    seq!['m', 'b']
}

pub open spec fn gb() -> Seq<char> {
    seq!['g', 'b']
}

/// A byte count with an optional unit `b`, `kb`, `mb` or `gb` (any case).
pub open spec fn parse_bytes(s: Seq<char>) -> Option<u64> {
    let t = lower_ascii(trim(s));
    if ends_with(t, gb()) {
        float_scaled(trim(t.take(t.len() - 2)), 0x4000_0000)
    } else if ends_with(t, mb()) {
        float_scaled(trim(t.take(t.len() - 2)), 0x10_0000)
    } else if ends_with(t, kb()) {
        float_scaled(trim(t.take(t.len() - 2)), 0x400)
    } else if ends_with(t, seq!['b']) {
        float_scaled(trim(t.take(t.len() - 1)), 1)
    } else {
        float_scaled(trim(t), 1)
    }
}

pub fn parse_bytes_exec(s: &Vec<char>) -> (r: Option<u64>)
    ensures
        r == parse_bytes(s@),
{
    let t0 = trim_exec(s);
    let t = lower_ascii_vec(&t0);
    let n = t.len();
    let gbv: Vec<char> = vec!['g', 'b'];
    let mbv: Vec<char> = vec!['m', 'b'];
    let kbv: Vec<char> = vec!['k', 'b'];
    let bv: Vec<char> = vec!['b'];
    assert(gbv@ =~= gb());
    assert(mbv@ =~= mb());
    assert(kbv@ =~= kb());
    assert(bv@ =~= seq!['b']);
    if ends_with_exec(&t, &gbv) {
        let num = trim_exec(&slice_chars(&t, 0, n - 2));
        assert(t@.subrange(0, n - 2) =~= t@.take(n - 2));
        float_scaled_exec(&num, 0x4000_0000)
    } else if ends_with_exec(&t, &mbv) {
        let num = trim_exec(&slice_chars(&t, 0, n - 2));
        assert(t@.subrange(0, n - 2) =~= t@.take(n - 2));
        float_scaled_exec(&num, 0x10_0000)
    } else if ends_with_exec(&t, &kbv) {
        let num = trim_exec(&slice_chars(&t, 0, n - 2));
        assert(t@.subrange(0, n - 2) =~= t@.take(n - 2));
        float_scaled_exec(&num, 0x400)
    } else if ends_with_exec(&t, &bv) {
        let num = trim_exec(&slice_chars(&t, 0, n - 1));
        assert(t@.subrange(0, n - 1) =~= t@.take(n - 1));
        float_scaled_exec(&num, 1)
    } else {
        let num = trim_exec(&t);
        float_scaled_exec(&num, 1)
    }
}

/// `size:` values: a comparison and a byte count.
pub open spec fn parse_size(s: Seq<char>) -> Option<SizeFilter> {
    let (kind, rest) = split_comparison(trim(s));
    match parse_bytes(rest) {
        Some(n) => Some(make_filter(kind, n)),
        None => None,
    }
}

pub fn parse_size_exec(s: &Vec<char>) -> (r: Option<SizeFilter>)
    ensures
        r == parse_size(s@),
{
    let t = trim_exec(s);
    let (kind, rest) = split_comparison_exec(&t);
    match parse_bytes_exec(&rest) {
        Some(n) => Some(make_filter_exec(kind, n)),
        None => None,
    }
}

pub open spec fn is_leap(y: int) -> bool {
    (y % 4 == 0 && y % 100 != 0) || y % 400 == 0
}

/// Leap years in `1..=n`.
pub open spec fn leaps_upto(n: int) -> int {
    n / 4 - n / 100 + n / 400
}

/// Days from 1970-01-01 to the first day of year `y` (`y >= 1970`).
pub open spec fn days_before_year(y: int) -> int {
    365 * (y - 1970) + leaps_upto(y - 1) - leaps_upto(1969)
}

/// Days of the months before month `m` in a year, counting 29 for February
/// in a leap year.
pub open spec fn days_before_month(m: int, leap: bool) -> int {
    let base: int = if m <= 1 {
        0
    } else if m == 2 {
        31
    } else if m == 3 {
        59
    } else if m == 4 {
        90
    } else if m == 5 {
        120
    } else if m == 6 {
        151
    } else if m == 7 {
        181
    } else if m == 8 {
        212
    } else if m == 9 {
        243
    } else if m == 10 {
        273
    } else if m == 11 {
        304
    } else {
        334
    };
    if leap && m > 2 {
        base + 1
    } else {
        base
    }
}

/// Seconds from the epoch to midnight (UTC) starting day `d` of month `m`
/// of year `y`.
pub open spec fn ymd_seconds(y: int, m: int, d: int) -> int {
    (days_before_year(y) + days_before_month(m, is_leap(y)) + d - 1) * 86400
}

/// Days in month `m` (1..=12) of year `y`.
pub open spec fn month_days(m: int, y: int) -> int {
    if m == 2 {
        if is_leap(y) {
            29
        } else {
            28
        }
    } else if m == 4 || m == 6 || m == 9 || m == 11 {
        30
    } else {
        31
    }
}

proof fn lemma_step_div(y: int, n: int)
    requires
        y >= 1,
        n >= 1,
    ensures
        y / n - (y - 1) / n == (if y % n == 0 { 1int } else { 0int }),
{
    assert(y / n - (y - 1) / n == (if y % n == 0 { 1int } else { 0int })) by (nonlinear_arith)
        requires
            y >= 1,
            n >= 1,
    {
        let q = y / n;
        let r = y % n;
        assert(y == n * q + r);
        assert(0 <= r < n);
        if r == 0 {
            assert(y - 1 == n * (q - 1) + (n - 1));
        } else {
            assert(y - 1 == n * q + (r - 1));
        }
    }
}

/// Dates count days as the calendar does: 1970-01-01 is second zero, each
/// day of a month starts 86400 seconds after the day before, the first of
/// each month starts `month_days` days after the first of the month
/// before, and a year starts 31 days after the first of December before.
pub proof fn law_calendar_dates(y: int, m: int, d: int)
    requires
        y >= 1970,
        1 <= m <= 12,
        1 <= d <= 31,
    ensures
        ymd_seconds(1970, 1, 1) == 0,
        ymd_seconds(y, m, d) == ymd_seconds(y, m, 1) + (d - 1) * 86400,
        m < 12 ==> ymd_seconds(y, m + 1, 1) == ymd_seconds(y, m, 1) + month_days(m, y) * 86400,
        ymd_seconds(y + 1, 1, 1) == ymd_seconds(y, 12, 1) + 31 * 86400,
{
    lemma_step_div(y, 4);
    lemma_step_div(y, 100);
    lemma_step_div(y, 400);
    assert(leaps_upto(y) - leaps_upto(y - 1) == (if is_leap(y) { 1int } else { 0int })) by {
        if y % 400 == 0 {
            assert(y % 100 == 0) by (nonlinear_arith)
                requires
                    y % 400 == 0,
            {
                assert(y == 400 * (y / 400));
                assert(y == 100 * (4 * (y / 400)));
            }
            assert(y % 4 == 0) by (nonlinear_arith)
                requires
                    y % 400 == 0,
            {
                assert(y == 400 * (y / 400));
                assert(y == 4 * (100 * (y / 400)));
            }
        } else if y % 100 == 0 {
            assert(y % 4 == 0) by (nonlinear_arith)
                requires
                    y % 100 == 0,
            {
                assert(y == 100 * (y / 100));
                assert(y == 4 * (25 * (y / 100)));
            }
        }
    }
}

/// `YYYY-MM-DD` (more `-` pieces are ignored): a date from 1970 on with a
/// month in 1..=12 and a day in 1..=31, as seconds since the epoch.
pub open spec fn parse_ymd(s: Seq<char>) -> Option<u64> {
    let parts = split_on(trim(s), '-');
    if parts.len() < 3 {
        None
    } else {
        match (parse_u64_spec(parts[0]), parse_u64_spec(parts[1]), parse_u64_spec(parts[2])) {
            (Some(y), Some(m), Some(d)) => {
                if !(1 <= m <= 12) || !(1 <= d <= 31) || y < 1970 || ymd_seconds(y as int, m as int, d as int) > u64::MAX {
                    None
                } else {
                    Some(ymd_seconds(y as int, m as int, d as int) as u64)
                }
            },
            _ => None,
        }
    }
}

fn days_before_month_exec(m: u64, leap: bool) -> (r: u64)
    ensures
        r == days_before_month(m as int, leap),
{
    let base: u64 = if m <= 1 {
        0
    } else if m == 2 {
        31
    } else if m == 3 {
        59
    } else if m == 4 {
        90
    } else if m == 5 {
        120
    } else if m == 6 {
        151
    } else if m == 7 {
        181
    } else if m == 8 {
        212
    } else if m == 9 {
        243
    } else if m == 10 {
        273
    } else if m == 11 {
        304
    } else {
        334
    };
    if leap && m > 2 {
        base + 1
    } else {
        base
    }
}

pub fn parse_ymd_exec(s: &Vec<char>) -> (r: Option<u64>)
    ensures
        r == parse_ymd(s@),
{
    let t = trim_exec(s);
    let parts = split_exec(&t, '-');
    if parts.len() < 3 {
        return None;
    }
    assert(parts@.map_values(|v: Vec<char>| v@)[0] == parts@[0]@);
    assert(parts@.map_values(|v: Vec<char>| v@)[1] == parts@[1]@);
    assert(parts@.map_values(|v: Vec<char>| v@)[2] == parts@[2]@);
    let y = match parse_u64(&parts[0]) {
        Some(v) => v,
        None => return None,
    };
    let m = match parse_u64(&parts[1]) {
        Some(v) => v,
        None => return None,
    };
    let d = match parse_u64(&parts[2]) {
        Some(v) => v,
        None => return None,
    };
    if !(1 <= m && m <= 12) || !(1 <= d && d <= 31) || y < 1970 {
        return None;
    }
    let leap = (y % 4 == 0 && y % 100 != 0) || y % 400 == 0;
    let yy = y as u128;
    let days: u128 = 365 * (yy - 1970) + ((yy - 1) / 4 - (yy - 1) / 100 + (yy - 1) / 400) - 477
        + days_before_month_exec(m, leap) as u128 + (d as u128) - 1;
    let ghost spec_days = days_before_year(y as int) + days_before_month(m as int, is_leap(y as int)) + d - 1;
    assert(leaps_upto(1969) == 477);
    assert((yy - 1) / 4 - (yy - 1) / 100 + (yy - 1) / 400 >= 477) by (nonlinear_arith)
        requires
            yy >= 1970,
    ;
    assert(days == spec_days);
    if days > (u64::MAX as u128) / 86400 {
        assert(spec_days * 86400 > u64::MAX) by (nonlinear_arith)
            requires
                spec_days > 0xFFFF_FFFF_FFFF_FFFFu128 / 86400,
        ;
        return None;
    }
    assert(days * 86400 <= u64::MAX) by (nonlinear_arith)
        requires
            days <= 0xFFFF_FFFF_FFFF_FFFFu128 / 86400,
    ;
    Some((days * 86400) as u64)
}

// ---------------------------------------------------------------------------
// Other helpers of the query language
// ---------------------------------------------------------------------------

/// Case-insensitive (full Unicode lowercase) substring test; the empty
/// needle is always found.
pub open spec fn contains_ci_spec(hay: Seq<char>, needle: Seq<char>) -> bool {
    needle.len() == 0 || contains_seq(unicode_lower(hay), unicode_lower(needle))
}

pub fn contains_ci(hay: &str, needle: &str) -> (r: bool)
    ensures
        r == contains_ci_spec(hay@, needle@),
{
    let n = chars_of(needle);
    if n.len() == 0 {
        return true;
    }
    let h = chars_of(hay);
    contains_exec(&to_lowercase_vec(&h), &to_lowercase_vec(&n))
}


// ---------------------------------------------------------------------------
// Operators
// ---------------------------------------------------------------------------

/// The filter operators of the query language.
#[derive(Debug, Clone, Copy, PartialEq, Eq, Structural)]
pub enum Op {
    Ext,
    Size,
    Dm,
    Name,
    File,
    Folder,
    Case,
    WholeWord,
    Attrib,
    Hidden,
    Readonly,
    Count,
    Sort,
    Depth,
    Len,
    ExtLen,
    NoExt,
    Dot,
    Empty,
    Parent,
    PathIn,
    Root,
    Pic,
    Video,
    Audio,
    Zip,
    Exe,
    Doc,
}

pub open spec fn n_ops() -> int {
    37
}

/// The operator spellings (matched case-insensitively at the start of a
/// token) and what each one means.
pub open spec fn op_entry(k: int) -> (Seq<char>, Op) {
    if k == 0 {
        ("ext:"@, Op::Ext)
    } else if k == 1 {
        ("type:"@, Op::Ext)
    } else if k == 2 {
        ("size:"@, Op::Size)
    } else if k == 3 {
        ("dm:"@, Op::Dm)
    } else if k == 4 {
        ("datemodified:"@, Op::Dm)
    } else if k == 5 {
        ("modified:"@, Op::Dm)
    } else if k == 6 {
        ("n:"@, Op::Name)
    } else if k == 7 {
        ("name:"@, Op::Name)
    } else if k == 8 {
        ("filename:"@, Op::Name)
    } else if k == 9 {
        ("file:"@, Op::File)
    } else if k == 10 {
        ("files:"@, Op::File)
    } else if k == 11 {
        ("folder:"@, Op::Folder)
    } else if k == 12 {
        ("dir:"@, Op::Folder)
    } else if k == 13 {
        ("case:"@, Op::Case)
    } else if k == 14 {
        ("ww:"@, Op::WholeWord)
    } else if k == 15 {
        ("wholeword:"@, Op::WholeWord)
    } else if k == 16 {
        ("attrib:"@, Op::Attrib)
    } else if k == 17 {
        ("hidden:"@, Op::Hidden)
    } else if k == 18 {
        ("readonly:"@, Op::Readonly)
    } else if k == 19 {
        ("count:"@, Op::Count)
    } else if k == 20 {
        ("max:"@, Op::Count)
    } else if k == 21 {
        ("sort:"@, Op::Sort)
    } else if k == 22 {
        ("depth:"@, Op::Depth)
    } else if k == 23 {
        ("len:"@, Op::Len)
    } else if k == 24 {
        ("extlen:"@, Op::ExtLen)
    } else if k == 25 {
        ("noext:"@, Op::NoExt)
    } else if k == 26 {
        ("dot:"@, Op::Dot)
    } else if k == 27 {
        ("empty:"@, Op::Empty)
    } else if k == 28 {
        ("parent:"@, Op::Parent)
    } else if k == 29 {
        ("path:"@, Op::PathIn)
    } else if k == 30 {
        ("root:"@, Op::Root)
    } else if k == 31 {
        ("pic:"@, Op::Pic)
    } else if k == 32 {
        ("video:"@, Op::Video)
    } else if k == 33 {
        ("audio:"@, Op::Audio)
    } else if k == 34 {
        ("zip:"@, Op::Zip)
    } else if k == 35 {
        ("exe:"@, Op::Exe)
    } else {
        ("doc:"@, Op::Doc)
    }
}

fn op_entry_exec(k: usize) -> (r: (Vec<char>, Op))
    requires
        k < 37,
    ensures
        (r.0@, r.1) == op_entry(k as int),
{
    if k == 0 {
        (chars_of("ext:"), Op::Ext)
    } else if k == 1 {
        (chars_of("type:"), Op::Ext)
    } else if k == 2 {
        (chars_of("size:"), Op::Size)
    } else if k == 3 {
        (chars_of("dm:"), Op::Dm)
    } else if k == 4 {
        (chars_of("datemodified:"), Op::Dm)
    } else if k == 5 {
        (chars_of("modified:"), Op::Dm)
    } else if k == 6 {
        (chars_of("n:"), Op::Name)
    } else if k == 7 {
        (chars_of("name:"), Op::Name)
    } else if k == 8 {
        (chars_of("filename:"), Op::Name)
    } else if k == 9 {
        (chars_of("file:"), Op::File)
    } else if k == 10 {
        (chars_of("files:"), Op::File)
    } else if k == 11 {
        (chars_of("folder:"), Op::Folder)
    } else if k == 12 {
        (chars_of("dir:"), Op::Folder)
    } else if k == 13 {
        (chars_of("case:"), Op::Case)
    } else if k == 14 {
        (chars_of("ww:"), Op::WholeWord)
    } else if k == 15 {
        (chars_of("wholeword:"), Op::WholeWord)
    } else if k == 16 {
        (chars_of("attrib:"), Op::Attrib)
    } else if k == 17 {
        (chars_of("hidden:"), Op::Hidden)
    } else if k == 18 {
        (chars_of("readonly:"), Op::Readonly)
    } else if k == 19 {
        (chars_of("count:"), Op::Count)
    } else if k == 20 {
        (chars_of("max:"), Op::Count)
    } else if k == 21 {
        (chars_of("sort:"), Op::Sort)
    } else if k == 22 {
        (chars_of("depth:"), Op::Depth)
    } else if k == 23 {
        (chars_of("len:"), Op::Len)
    } else if k == 24 {
        (chars_of("extlen:"), Op::ExtLen)
    } else if k == 25 {
        (chars_of("noext:"), Op::NoExt)
    } else if k == 26 {
        (chars_of("dot:"), Op::Dot)
    } else if k == 27 {
        (chars_of("empty:"), Op::Empty)
    } else if k == 28 {
        (chars_of("parent:"), Op::Parent)
    } else if k == 29 {
        (chars_of("path:"), Op::PathIn)
    } else if k == 30 {
        (chars_of("root:"), Op::Root)
    } else if k == 31 {
        (chars_of("pic:"), Op::Pic)
    } else if k == 32 {
        (chars_of("video:"), Op::Video)
    } else if k == 33 {
        (chars_of("audio:"), Op::Audio)
    } else if k == 34 {
        (chars_of("zip:"), Op::Zip)
    } else if k == 35 {
        (chars_of("exe:"), Op::Exe)
    } else {
        (chars_of("doc:"), Op::Doc)
    }
}

/// The first operator spelling, from entry `k` on, that starts `t`.
pub open spec fn op_search(t: Seq<char>, k: int) -> Option<(Op, int)>
    decreases n_ops() - k,
{
    if k < 0 || k >= n_ops() {
        None
    } else if starts_with_ci(t, op_entry(k).0) {
        Some((op_entry(k).1, op_entry(k).0.len() as int))
    } else {
        op_search(t, k + 1)
    }
}

/// The operator a token starts with, and the length of its spelling.
pub open spec fn op_of(t: Seq<char>) -> Option<(Op, int)> {
    op_search(t, 0)
}

pub fn op_of_exec(t: &Vec<char>) -> (r: Option<(Op, usize)>)
    ensures
        match r {
            Some((op, n)) => op_of(t@) == Some((op, n as int)) && n <= t@.len(),
            None => op_of(t@) is None,
        },
{
    let mut k: usize = 0;
    while k < 37
        invariant
            k <= 37,
            op_of(t@) == op_search(t@, k as int),
        decreases 37 - k,
    {
        let (name, op) = op_entry_exec(k);
        if starts_with_ci_exec(t, &name) {
            return Some((op, name.len()));
        }
        k += 1;
    }
    None
}

/// Spellings that give a term a kind: `regex:`/`r:`, `startwith:`/`start:`,
/// `endwith:`/`end:`, `stem:`, `content:`/`body:`.
pub open spec fn term_entry(k: int) -> (Seq<char>, TermKind) {
    if k == 0 {
        ("regex:"@, TermKind::Regex)
    } else if k == 1 {
        ("r:"@, TermKind::Regex)
    } else if k == 2 {
        ("startwith:"@, TermKind::Prefix)
    } else if k == 3 {
        ("start:"@, TermKind::Prefix)
    } else if k == 4 {
        ("endwith:"@, TermKind::Suffix)
    } else if k == 5 {
        ("end:"@, TermKind::Suffix)
    } else if k == 6 {
        ("stem:"@, TermKind::Stem)
    } else if k == 7 {
        ("content:"@, TermKind::Content)
    } else {
        ("body:"@, TermKind::Content)
    }
}

fn term_entry_exec(k: usize) -> (r: (Vec<char>, TermKind))
    requires
        k < 9,
    ensures
        (r.0@, r.1) == term_entry(k as int),
{
    if k == 0 {
        (chars_of("regex:"), TermKind::Regex)
    } else if k == 1 {
        (chars_of("r:"), TermKind::Regex)
    } else if k == 2 {
        (chars_of("startwith:"), TermKind::Prefix)
    } else if k == 3 {
        (chars_of("start:"), TermKind::Prefix)
    } else if k == 4 {
        (chars_of("endwith:"), TermKind::Suffix)
    } else if k == 5 {
        (chars_of("end:"), TermKind::Suffix)
    } else if k == 6 {
        (chars_of("stem:"), TermKind::Stem)
    } else if k == 7 {
        (chars_of("content:"), TermKind::Content)
    } else {
        (chars_of("body:"), TermKind::Content)
    }
}

pub open spec fn term_search(t: Seq<char>, k: int) -> Option<(TermKind, int)>
    decreases 9 - k,
{
    if k < 0 || k >= 9 {
        None
    } else if starts_with_ci(t, term_entry(k).0) {
        Some((term_entry(k).1, term_entry(k).0.len() as int))
    } else {
        term_search(t, k + 1)
    }
}

/// The term kind a token starts with, and the length of its spelling.
pub open spec fn term_kind_of(t: Seq<char>) -> Option<(TermKind, int)> {
    term_search(t, 0)
}

pub fn term_kind_of_exec(t: &Vec<char>) -> (r: Option<(TermKind, usize)>)
    ensures
        match r {
            Some((kind, n)) => term_kind_of(t@) == Some((kind, n as int)) && n <= t@.len(),
            None => term_kind_of(t@) is None,
        },
{
    let mut k: usize = 0;
    while k < 9
        invariant
            k <= 9,
            term_kind_of(t@) == term_search(t@, k as int),
        decreases 9 - k,
    {
        let (name, kind) = term_entry_exec(k);
        if starts_with_ci_exec(t, &name) {
            return Some((kind, name.len()));
        }
        k += 1;
    }
    None
}

/// The non-empty pieces, in order.
pub open spec fn nonempty_pieces(ps: Seq<Seq<char>>) -> Seq<Seq<char>>
    decreases ps.len(),
{
    if ps.len() == 0 {
        Seq::empty()
    } else if ps.last().len() > 0 {
        nonempty_pieces(ps.drop_last()).push(ps.last())
    } else {
        nonempty_pieces(ps.drop_last())
    }
}

/// The atom a term token adds to the query, if any: a kind prefix with a
/// non-empty rest gives a term of that kind; otherwise `|` separates the
/// alternatives of an OR (empty pieces are dropped, one piece is a plain
/// term).
pub open spec fn must_atom(t: Seq<char>) -> Option<AtomSpec> {
    match term_kind_of(t) {
        Some((kind, n)) => if t.len() == n {
            None
        } else {
            Some(AtomSpec::Term(special_pattern(kind, t.skip(n))))
        },
        None => if t.contains('|') {
            let parts = nonempty_pieces(split_on(t, '|'));
            if parts.len() == 1 {
                Some(AtomSpec::Term(plain_pattern(parts[0])))
            } else if parts.len() > 1 {
                Some(AtomSpec::Or(parts.map_values(|p: Seq<char>| plain_pattern(p))))
            } else {
                None
            }
        } else {
            Some(AtomSpec::Term(plain_pattern(t)))
        },
    }
}

fn contains_char_exec(s: &Vec<char>, c: char) -> (r: bool)
    ensures
        r == s@.contains(c),
{
    let mut i: usize = 0;
    while i < s.len()
        invariant
            i <= s.len(),
            forall|k: int| 0 <= k < i ==> s@[k] != c,
        decreases s.len() - i,
    {
        if s[i] == c {
            assert(s@[i as int] == c);
            return true;
        }
        i += 1;
    }
    false
}

fn must_atom_exec(t: &Vec<char>) -> (r: Option<Atom>)
    ensures
        match r {
            Some(a) => must_atom(t@) == Some(a@),
            None => must_atom(t@) is None,
        },
{
    match term_kind_of_exec(t) {
        Some((kind, n)) => {
            if t.len() == n {
                return None;
            }
            let rest = string_of(&slice_chars(t, n, t.len()));
            assert(t@.subrange(n as int, t.len() as int) =~= t@.skip(n as int));
            Some(Atom::Term(Pattern::of_kind(kind, rest.as_str())))
        },
        None => {
            if !contains_char_exec(t, '|') {
                let raw = string_of(t);
                return Some(Atom::Term(Pattern::new(raw.as_str())));
            }
            let pieces = split_exec(t, '|');
            let ghost sp = split_on(t@, '|');
            let mut parts: Vec<Pattern> = Vec::new();
            let mut k: usize = 0;
            while k < pieces.len()
                invariant
                    k <= pieces.len(),
                    pieces@.map_values(|v: Vec<char>| v@) == sp,
                    patterns_view(parts@) == nonempty_pieces(sp.take(k as int)).map_values(
                        |p: Seq<char>| plain_pattern(p),
                    ),
                decreases pieces.len() - k,
            {
                assert(sp.take(k + 1).drop_last() =~= sp.take(k as int));
                assert(sp[k as int] == pieces@[k as int]@);
                let ghost np = nonempty_pieces(sp.take(k as int));
                let ghost before = patterns_view(parts@);
                if pieces[k].len() > 0 {
                    let raw = string_of(&pieces[k]);
                    parts.push(Pattern::new(raw.as_str()));
                    assert(patterns_view(parts@) =~= before.push(plain_pattern(sp[k as int])));
                    assert(np.push(sp[k as int]).map_values(|p: Seq<char>| plain_pattern(p))
                        =~= np.map_values(|p: Seq<char>| plain_pattern(p)).push(
                        plain_pattern(sp[k as int]),
                    ));
                }
                k += 1;
            }
            assert(sp.take(k as int) =~= sp);
            if parts.len() == 1 {
                let p = parts[0].clone_pattern();
                assert(patterns_view(parts@)[0] == parts@[0]@);
                Some(Atom::Term(p))
            } else if parts.len() > 1 {
                Some(Atom::Or(parts))
            } else {
                None
            }
        },
    }
}

/// Adds the atom of `t` to the query's conjuncts (nothing for an empty `t`).
pub open spec fn push_must(q: QuerySpec, t: Seq<char>) -> QuerySpec {
    match must_atom(t) {
        Some(a) => QuerySpec { must: q.must.push(a), ..q },
        None => q,
    }
}

fn push_must_exec(q: &mut Query, t: &Vec<char>)
    ensures
        final(q)@ == push_must(old(q)@, t@),
{
    match must_atom_exec(t) {
        Some(a) => {
            let ghost av = a@;
            q.must.push(a);
            assert(atoms_view(q.must@) =~= atoms_view(old(q).must@).push(av));
        },
        None => {},
    }
}

/// A flag operator's attached text, when there is any, is a term.
pub open spec fn push_rest(q: QuerySpec, rest: Seq<char>) -> QuerySpec {
    if rest.len() == 0 {
        q
    } else {
        push_must(q, rest)
    }
}

/// Normalises one `ext:` piece: trimmed, leading dots removed, lowercase.
pub open spec fn norm_ext(p: Seq<char>) -> Seq<char> {
    lower_ascii(skip_dots(trim(p)))
}

pub open spec fn skip_dots(s: Seq<char>) -> Seq<char>
    decreases s.len(),
{
    if s.len() > 0 && s[0] == '.' {
        skip_dots(s.drop_first())
    } else {
        s
    }
}

pub open spec fn ext_pieces(ps: Seq<Seq<char>>) -> Seq<Seq<char>>
    decreases ps.len(),
{
    if ps.len() == 0 {
        Seq::empty()
    } else if norm_ext(ps.last()).len() > 0 {
        ext_pieces(ps.drop_last()).push(norm_ext(ps.last()))
    } else {
        ext_pieces(ps.drop_last())
    }
}

/// `ext:a;b;c`: the normalised, non-empty pieces.
pub open spec fn ext_list(rest: Seq<char>) -> Seq<Seq<char>> {
    ext_pieces(split_on(rest, ';'))
}

pub fn skip_dots_exec(t: &Vec<char>) -> (r: Vec<char>)
    ensures
        r@ == skip_dots(t@),
{
    let mut i: usize = 0;
    assert(t@.skip(0) =~= t@);
    while i < t.len() && t[i] == '.'
        invariant
            i <= t.len(),
            skip_dots(t@) == skip_dots(t@.skip(i as int)),
        decreases t.len() - i,
    {
        assert(t@.skip(i as int).drop_first() =~= t@.skip(i + 1));
        i += 1;
    }
    let rest = slice_chars(t, i, t.len());
    assert(rest@ =~= t@.skip(i as int));
    rest
}

fn norm_ext_exec(p: &Vec<char>) -> (r: Vec<char>)
    ensures
        r@ == norm_ext(p@),
{
    let t = trim_exec(p);
    let mut i: usize = 0;
    assert(t@.skip(0) =~= t@);
    while i < t.len() && t[i] == '.'
        invariant
            i <= t.len(),
            skip_dots(t@) == skip_dots(t@.skip(i as int)),
        decreases t.len() - i,
    {
        assert(t@.skip(i as int).drop_first() =~= t@.skip(i + 1));
        i += 1;
    }
    let rest = slice_chars(&t, i, t.len());
    assert(rest@ =~= t@.skip(i as int));
    lower_ascii_vec(&rest)
}

pub fn ext_list_exec(rest: &Vec<char>) -> (r: Vec<String>)
    ensures
        strings_view(r@) == ext_list(rest@),
{
    let pieces = split_exec(rest, ';');
    let ghost sp = split_on(rest@, ';');
    let mut out: Vec<String> = Vec::new();
    let mut k: usize = 0;
    while k < pieces.len()
        invariant
            k <= pieces.len(),
            pieces@.map_values(|v: Vec<char>| v@) == sp,
            strings_view(out@) == ext_pieces(sp.take(k as int)),
        decreases pieces.len() - k,
    {
        assert(sp.take(k + 1).drop_last() =~= sp.take(k as int));
        assert(sp[k as int] == pieces@[k as int]@);
        let e = norm_ext_exec(&pieces[k]);
        if e.len() > 0 {
            out.push(string_of(&e));
        }
        k += 1;
        assert(strings_view(out@) =~= ext_pieces(sp.take(k as int)));
    }
    assert(sp.take(k as int) =~= sp);
    out
}

/// The attribute bit a letter of `attrib:` stands for.
pub open spec fn attrib_letter(c: char) -> u32 {
    if c == 'r' || c == 'R' {
        1
    } else if c == 'h' || c == 'H' {
        2
    } else if c == 's' || c == 'S' {
        4
    } else if c == 'd' || c == 'D' {
        0x10
    } else if c == 'a' || c == 'A' {
        0x20
    } else {
        0
    }
}

pub open spec fn attrib_bits(s: Seq<char>) -> u32
    decreases s.len(),
{
    if s.len() == 0 {
        0
    } else {
        attrib_bits(s.drop_last()) | attrib_letter(s.last())
    }
}

fn attrib_bits_exec(s: &Vec<char>) -> (r: u32)
    ensures
        r == attrib_bits(s@),
{
    let mut bits: u32 = 0;
    let mut i: usize = 0;
    while i < s.len()
        invariant
            i <= s.len(),
            bits == attrib_bits(s@.take(i as int)),
        decreases s.len() - i,
    {
        let c = s[i];
        let b: u32 = if c == 'r' || c == 'R' {
            1
        } else if c == 'h' || c == 'H' {
            2
        } else if c == 's' || c == 'S' {
            4
        } else if c == 'd' || c == 'D' {
            0x10
        } else if c == 'a' || c == 'A' {
            0x20
        } else {
            0
        };
        assert(s@.take(i + 1).drop_last() =~= s@.take(i as int));
        bits = bits | b;
        i += 1;
    }
    assert(s@.take(i as int) =~= s@);
    bits
}

/// The extensions a category operator stands for.
pub open spec fn macro_exts(op: Op) -> Seq<Seq<char>> {
    match op {
        Op::Pic => seq!["jpg"@, "jpeg"@, "png"@, "gif"@, "bmp"@, "webp"@],
        Op::Video => seq!["mp4"@, "mkv"@, "avi"@, "webm"@, "mov"@],
        Op::Audio => seq!["mp3"@, "wav"@, "flac"@, "aac"@, "ogg"@],
        Op::Zip => seq!["zip"@, "7z"@, "rar"@, "tar"@, "gz"@, "tgz"@, "bz2"@],
        Op::Exe => seq!["exe"@, "bat"@, "cmd"@, "com"@, "msi"@, "ps1"@],
        _ => seq!["pdf"@, "doc"@, "docx"@, "txt"@, "md"@, "rtf"@, "odt"@],
    }
}

fn strings_of(words: &[&str]) -> (r: Vec<String>)
    ensures
        r.len() == words@.len(),
        forall|k: int| 0 <= k < r.len() ==> #[trigger] r@[k]@ == words@[k]@,
{
    let mut r: Vec<String> = Vec::new();
    let mut k: usize = 0;
    while k < words.len()
        invariant
            k <= words.len(),
            r.len() == k,
            forall|j: int| 0 <= j < k ==> #[trigger] r@[j]@ == words@[j]@,
        decreases words.len() - k,
    {
        r.push(words[k].to_owned());
        k += 1;
    }
    r
}

fn macro_exts_exec(op: Op) -> (r: Vec<String>)
    ensures
        strings_view(r@) == macro_exts(op),
{
    let r = match op {
        Op::Pic => strings_of(&["jpg", "jpeg", "png", "gif", "bmp", "webp"]),
        Op::Video => strings_of(&["mp4", "mkv", "avi", "webm", "mov"]),
        Op::Audio => strings_of(&["mp3", "wav", "flac", "aac", "ogg"]),
        Op::Zip => strings_of(&["zip", "7z", "rar", "tar", "gz", "tgz", "bz2"]),
        Op::Exe => strings_of(&["exe", "bat", "cmd", "com", "msi", "ps1"]),
        _ => strings_of(&["pdf", "doc", "docx", "txt", "md", "rtf", "odt"]),
    };
    assert(strings_view(r@) =~= macro_exts(op));
    r
}

pub open spec fn minus(now: u64, d: u64) -> Option<u64> {
    if now >= d {
        Some((now - d) as u64)
    } else {
        None
    }
}

/// `dm:` values: `today`, `yesterday`, `lastweek`/`thisweek`, or a date
/// after `>` (on or after), `<` (before) or alone (on or after).
pub open spec fn apply_dm(q: QuerySpec, rest: Seq<char>, now: u64) -> QuerySpec {
    let l = lower_ascii(trim(rest));
    if l == "today"@ {
        QuerySpec { modified_after: minus(now, 86400), ..q }
    } else if l == "yesterday"@ {
        QuerySpec { modified_after: minus(now, 172800), modified_before: minus(now, 86400), ..q }
    } else if l == "lastweek"@ || l == "thisweek"@ {
        QuerySpec { modified_after: minus(now, 604800), ..q }
    } else if l.len() > 0 && l[0] == '>' {
        match parse_ymd(l.drop_first()) {
            Some(t) => QuerySpec { modified_after: Some(t), ..q },
            None => q,
        }
    } else if l.len() > 0 && l[0] == '<' {
        match parse_ymd(l.drop_first()) {
            Some(t) => QuerySpec { modified_before: Some(t), ..q },
            None => q,
        }
    } else {
        match parse_ymd(l) {
            Some(t) => QuerySpec { modified_after: Some(t), ..q },
            None => q,
        }
    }
}

pub fn minus_exec(now: u64, d: u64) -> (r: Option<u64>)
    ensures
        r == minus(now, d),
{
    if now >= d {
        Some(now - d)
    } else {
        None
    }
}

fn apply_dm_exec(q: &mut Query, rest: &Vec<char>, now: u64)
    ensures
        final(q)@ == apply_dm(old(q)@, rest@, now),
{
    let l = lower_ascii_vec(&trim_exec(rest));
    if chars_eq(&l, &chars_of("today")) {
        q.modified_after = minus_exec(now, 86400);
    } else if chars_eq(&l, &chars_of("yesterday")) {
        q.modified_after = minus_exec(now, 172800);
        q.modified_before = minus_exec(now, 86400);
    } else if chars_eq(&l, &chars_of("lastweek")) || chars_eq(&l, &chars_of("thisweek")) {
        q.modified_after = minus_exec(now, 604800);
    } else if l.len() > 0 && l[0] == '>' {
        let d = slice_chars(&l, 1, l.len());
        assert(d@ =~= l@.drop_first());
        match parse_ymd_exec(&d) {
            Some(t) => q.modified_after = Some(t),
            None => {},
        }
    } else if l.len() > 0 && l[0] == '<' {
        let d = slice_chars(&l, 1, l.len());
        assert(d@ =~= l@.drop_first());
        match parse_ymd_exec(&d) {
            Some(t) => q.modified_before = Some(t),
            None => {},
        }
    } else {
        match parse_ymd_exec(&l) {
            Some(t) => q.modified_after = Some(t),
            None => {},
        }
    }
}

/// What one operator token does to the query, given the text after the
/// operator's spelling.
pub open spec fn apply_op(q: QuerySpec, op: Op, rest: Seq<char>, now: u64) -> QuerySpec {
    match op {
        Op::Ext => QuerySpec { extensions: ext_list(rest), ..q },
        Op::Size => match parse_size(rest) {
            Some(f) => QuerySpec { size: Some(f), ..q },
            None => q,
        },
        Op::Dm => apply_dm(q, rest, now),
        Op::Name => push_rest(QuerySpec { name_only: true, ..q }, rest),
        Op::File => push_rest(QuerySpec { files_only: true, ..q }, rest),
        Op::Folder => push_rest(QuerySpec { folders_only: true, ..q }, rest),
        Op::Case => push_rest(QuerySpec { case_sensitive: true, ..q }, rest),
        Op::WholeWord => push_rest(QuerySpec { whole_word: true, ..q }, rest),
        Op::Attrib => if rest.contains('|') {
            QuerySpec { attrib_any: q.attrib_any | attrib_bits(rest), ..q }
        } else {
            QuerySpec { attrib_mask: q.attrib_mask | attrib_bits(rest), ..q }
        },
        Op::Hidden => if rest.len() == 0 {
            QuerySpec { attrib_mask: q.attrib_mask | 2, ..q }
        } else {
            q
        },
        Op::Readonly => if rest.len() == 0 {
            QuerySpec { attrib_mask: q.attrib_mask | 1, ..q }
        } else {
            q
        },
        Op::Count => match parse_u64_spec(rest) {
            Some(n) => if n <= usize::MAX {
                QuerySpec { max_results: Some(n as usize), ..q }
            } else {
                q
            },
            None => q,
        },
        Op::Sort => {
            let l = lower_ascii(rest);
            if l == "size"@ {
                QuerySpec { sort: SortMode::Size, ..q }
            } else if l == "date"@ {
                QuerySpec { sort: SortMode::Date, ..q }
            } else if l == "name"@ {
                QuerySpec { sort: SortMode::Name, ..q }
            } else {
                q
            }
        },
        Op::Depth => match parse_compare(rest) {
            Some(f) => QuerySpec { depth: Some(f), ..q },
            None => q,
        },
        Op::Len => match parse_compare(rest) {
            Some(f) => QuerySpec { name_len: Some(f), ..q },
            None => q,
        },
        Op::ExtLen => match parse_compare(rest) {
            Some(f) => QuerySpec { ext_len: Some(f), ..q },
            None => q,
        },
        Op::NoExt => if rest.len() == 0 {
            QuerySpec { no_ext: true, ..q }
        } else {
            q
        },
        Op::Dot => if rest.len() == 0 {
            QuerySpec { dotfile: true, ..q }
        } else {
            q
        },
        Op::Empty => if rest.len() == 0 || lower_ascii(rest) == "yes"@ {
            QuerySpec { size: Some(SizeFilter::Eq(0)), ..q }
        } else {
            q
        },
        Op::Parent => if rest.len() > 0 {
            QuerySpec { parent: Some(rest), ..q }
        } else {
            q
        },
        Op::PathIn => if rest.len() > 0 {
            QuerySpec { path_contains: Some(rest), ..q }
        } else {
            q
        },
        Op::Root => if rest.len() > 0 {
            QuerySpec { root: Some(rest), ..q }
        } else {
            q
        },
        _ => if rest.len() == 0 {
            QuerySpec { extensions: macro_exts(op), ..q }
        } else {
            q
        },
    }
}

fn apply_flag_op(q: &mut Query, op: Op, rest: &Vec<char>)
    requires
        op is Name || op is File || op is Folder || op is Case || op is WholeWord,
    ensures
        final(q)@ == apply_op(old(q)@, op, rest@, 0),
{
    match op {
        Op::Name => q.name_only = true,
        Op::File => q.files_only = true,
        Op::Folder => q.folders_only = true,
        Op::Case => q.case_sensitive = true,
        _ => q.whole_word = true,
    }
    if rest.len() > 0 {
        push_must_exec(q, rest);
    }
}

fn apply_filter_op(q: &mut Query, op: Op, rest: &Vec<char>)
    requires
        !(op is Name || op is File || op is Folder || op is Case || op is WholeWord || op is Dm),
    ensures
        final(q)@ == apply_op(old(q)@, op, rest@, 0),
{
    let empty = rest.len() == 0;
    match op {
        Op::Ext => q.extensions = ext_list_exec(rest),
        Op::Size => match parse_size_exec(rest) {
            Some(f) => q.size = Some(f),
            None => {},
        },
        Op::Attrib => {
            let bits = attrib_bits_exec(rest);
            if contains_char_exec(rest, '|') {
                q.attrib_any = q.attrib_any | bits;
            } else {
                q.attrib_mask = q.attrib_mask | bits;
            }
        },
        Op::Hidden => if empty {
            q.attrib_mask = q.attrib_mask | 2;
        },
        Op::Readonly => if empty {
            q.attrib_mask = q.attrib_mask | 1;
        },
        Op::Count => match parse_u64(rest) {
            Some(n) => if n <= usize::MAX as u64 {
                q.max_results = Some(n as usize);
            },
            None => {},
        },
        Op::Sort => {
            let l = lower_ascii_vec(rest);
            if chars_eq(&l, &chars_of("size")) {
                q.sort = SortMode::Size;
            } else if chars_eq(&l, &chars_of("date")) {
                q.sort = SortMode::Date;
            } else if chars_eq(&l, &chars_of("name")) {
                q.sort = SortMode::Name;
            }
        },
        Op::Depth => match parse_compare_exec(rest) {
            Some(f) => q.depth = Some(f),
            None => {},
        },
        Op::Len => match parse_compare_exec(rest) {
            Some(f) => q.name_len = Some(f),
            None => {},
        },
        Op::ExtLen => match parse_compare_exec(rest) {
            Some(f) => q.ext_len = Some(f),
            None => {},
        },
        Op::NoExt => if empty {
            q.no_ext = true;
        },
        Op::Dot => if empty {
            q.dotfile = true;
        },
        Op::Empty => if empty || chars_eq(&lower_ascii_vec(rest), &chars_of("yes")) {
            q.size = Some(SizeFilter::Eq(0));
        },
        Op::Parent => if !empty {
            q.parent = Some(string_of(rest));
        },
        Op::PathIn => if !empty {
            q.path_contains = Some(string_of(rest));
        },
        Op::Root => if !empty {
            q.root = Some(string_of(rest));
        },
        _ => if empty {
            q.extensions = macro_exts_exec(op);
        },
    }
}

pub fn apply_op_exec(q: &mut Query, op: Op, rest: &Vec<char>, now: u64)
    ensures
        final(q)@ == apply_op(old(q)@, op, rest@, now),
{
    if matches!(op, Op::Dm) {
        apply_dm_exec(q, rest, now);
    } else if matches!(op, Op::Name | Op::File | Op::Folder | Op::Case | Op::WholeWord) {
        apply_flag_op(q, op, rest);
    } else {
        apply_filter_op(q, op, rest);
    }
}


/// The raw texts of `ps` that hold no wildcard, in order.
pub open spec fn raws_without_wildcards(ps: Seq<PatternSpec>) -> Seq<Seq<char>>
    decreases ps.len(),
{
    if ps.len() == 0 {
        Seq::empty()
    } else {
        let r = raws_without_wildcards(ps.drop_last());
        let x = ps.last().raw;
        if !x.contains('*') && !x.contains('?') {
            r.push(x)
        } else {
            r
        }
    }
}

/// The literal terms of a list of atoms, atom by atom.
pub open spec fn term_strings_of(must: Seq<AtomSpec>) -> Seq<Seq<char>>
    decreases must.len(),
{
    if must.len() == 0 {
        Seq::empty()
    } else {
        term_strings_of(must.drop_last()) + raws_without_wildcards(atom_patterns(must.last()))
    }
}

impl Query {
    /// The terms of the `must` atoms that hold no wildcard (used for
    /// snippets and ranking).
    pub fn term_strings(&self) -> (r: Vec<String>)
        ensures
            strings_view(r@) == term_strings_of(self@.must),
    {
        let mut out: Vec<String> = Vec::new();
        let mut i: usize = 0;
        while i < self.must.len()
            invariant
                i <= self.must.len(),
                strings_view(out@) == term_strings_of(self@.must.take(i as int)),
            decreases self.must.len() - i,
        {
            let ghost m = self@.must;
            assert(m.take(i + 1).drop_last() =~= m.take(i as int));
            assert(m[i as int] == self.must@[i as int]@);
            let ps = self.must[i].patterns();
            let ghost base = strings_view(out@);
            let mut j: usize = 0;
            assert(raws_without_wildcards(patterns_view(ps@).take(0)) =~= Seq::<Seq<char>>::empty());
            assert(base + Seq::<Seq<char>>::empty() =~= base);
            while j < ps.len()
                invariant
                    j <= ps.len(),
                    strings_view(out@) == base + raws_without_wildcards(
                        patterns_view(ps@).take(j as int),
                    ),
                decreases ps.len() - j,
            {
                let ghost pv = patterns_view(ps@);
                assert(pv.take(j + 1).drop_last() =~= pv.take(j as int));
                assert(pv[j as int] == ps@[j as int]@);
                let raw = chars_of(ps[j].raw.as_str());
                let ghost before = strings_view(out@);
                if !contains_char_exec(&raw, '*') && !contains_char_exec(&raw, '?') {
                    out.push(ps[j].raw.clone());
                    assert(strings_view(out@) =~= before.push(pv[j as int].raw));
                }
                j += 1;
                assert(strings_view(out@) =~= base + raws_without_wildcards(pv.take(j as int)));
            }
            assert(patterns_view(ps@).take(j as int) =~= patterns_view(ps@));
            i += 1;
        }
        assert(self@.must.take(i as int) =~= self@.must);
        out
    }
}

// ---------------------------------------------------------------------------
// Parsing
// ---------------------------------------------------------------------------

pub open spec fn is_bar(t: Seq<char>) -> bool {
    t.len() == 1 && t[0] == '|'
}

pub open spec fn is_bang(t: Seq<char>) -> bool {
    t.len() == 1 && t[0] == '!'
}

/// `|` joins the last term and the next token into an OR.
pub open spec fn bar_step(q: QuerySpec, toks: Seq<Seq<char>>, i: int) -> (QuerySpec, int) {
    if q.must.len() == 0 {
        (q, 1)
    } else {
        let prev = q.must.last();
        let q1 = QuerySpec { must: q.must.drop_last(), ..q };
        match prev {
            AtomSpec::Term(p) => if i + 1 < toks.len() {
                let n = toks[i + 1];
                if !is_bar(n) && !(n.len() > 0 && n[0] == '!') && op_of(n) is None {
                    (
                        QuerySpec {
                            must: q1.must.push(AtomSpec::Or(seq![p, plain_pattern(n)])),
                            ..q1
                        },
                        2,
                    )
                } else {
                    (QuerySpec { must: q1.must.push(AtomSpec::Term(p)), ..q1 }, 1)
                }
            } else {
                (q1, 1)
            },
            AtomSpec::Or(_) => (q1, 1),
        }
    }
}

/// One step of parsing at token `i`: the new query and how many tokens were
/// used (one, or two when `|` or `!` took the next token).
pub open spec fn parse_step(q: QuerySpec, toks: Seq<Seq<char>>, i: int, now: u64) -> (QuerySpec, int) {
    let t = toks[i];
    match op_of(t) {
        Some((op, n)) => (apply_op(q, op, t.skip(n), now), 1),
        None => if is_bar(t) {
            bar_step(q, toks, i)
        } else if is_bang(t) {
            if i + 1 < toks.len() && op_of(toks[i + 1]) is None {
                (QuerySpec { must_not: q.must_not.push(plain_pattern(toks[i + 1])), ..q }, 2)
            } else {
                (q, 1)
            }
        } else if t.len() > 0 && t[0] == '!' {
            if t.len() > 1 {
                (QuerySpec { must_not: q.must_not.push(plain_pattern(t.drop_first())), ..q }, 1)
            } else {
                (q, 1)
            }
        } else {
            (push_must(q, t), 1)
        },
    }
}

/// Parsing the tokens from `i` on, starting from `q`.
pub open spec fn parse_from(q: QuerySpec, toks: Seq<Seq<char>>, i: int, now: u64) -> QuerySpec
    decreases toks.len() - i,
{
    if i < 0 || i >= toks.len() {
        q
    } else {
        let (q2, k) = parse_step(q, toks, i, now);
        if k >= 1 {
            parse_from(q2, toks, i + k, now)
        } else {
            q2
        }
    }
}

/// The query an input means at time `now` (seconds since the epoch).
pub open spec fn query_of(input: Seq<char>, now: u64) -> QuerySpec {
    parse_from(empty_query(), tokens_of(input), 0, now)
}

#[verifier::spinoff_prover]
fn bar_step_exec(q: &mut Query, toks: &Vec<Vec<char>>, i: usize) -> (k: usize)
    requires
        i < toks.len(),
    ensures
        (final(q)@, k as int) == bar_step(old(q)@, toks@.map_values(|v: Vec<char>| v@), i as int),
{
    let ghost tv = toks@.map_values(|v: Vec<char>| v@);
    if q.must.len() == 0 {
        return 1;
    }
    let ghost qm = q@.must;
    let prev = q.must.pop().unwrap();
    assert(atoms_view(q.must@) =~= qm.drop_last());
    match prev {
        Atom::Term(p) => {
            if i + 1 < toks.len() {
                assert(tv[i + 1] == toks@[i + 1]@);
                let n = &toks[i + 1];
                let bar = n.len() == 1 && n[0] == '|';
                let bang = n.len() > 0 && n[0] == '!';
                if !bar && !bang && op_of_exec(n).is_none() {
                    let raw = string_of(n);
                    let mut ps: Vec<Pattern> = Vec::new();
                    let ghost pv = p@;
                    ps.push(p);
                    ps.push(Pattern::new(raw.as_str()));
                    assert(patterns_view(ps@) =~= seq![pv, plain_pattern(n@)]);
                    let ghost before = atoms_view(q.must@);
                    q.must.push(Atom::Or(ps));
                    assert(atoms_view(q.must@) =~= before.push(
                        AtomSpec::Or(seq![pv, plain_pattern(n@)]),
                    ));
                    return 2;
                } else {
                    let ghost before = atoms_view(q.must@);
                    let ghost pv = p@;
                    q.must.push(Atom::Term(p));
                    assert(atoms_view(q.must@) =~= before.push(AtomSpec::Term(pv)));
                    return 1;
                }
            } else {
                return 1;
            }
        },
        Atom::Or(_) => {
            return 1;
        },
    }
}

#[verifier::spinoff_prover]
fn parse_step_exec(q: &mut Query, toks: &Vec<Vec<char>>, i: usize, now: u64) -> (k: usize)
    requires
        i < toks.len(),
    ensures
        (final(q)@, k as int) == parse_step(old(q)@, toks@.map_values(|v: Vec<char>| v@), i as int, now),
{
    let ghost tv = toks@.map_values(|v: Vec<char>| v@);
    assert(tv[i as int] == toks@[i as int]@);
    let t = &toks[i];
    match op_of_exec(t) {
        Some((op, n)) => {
            let rest = slice_chars(t, n, t.len());
            assert(rest@ =~= t@.skip(n as int));
            apply_op_exec(q, op, &rest, now);
            1
        },
        None => {
            if t.len() == 1 && t[0] == '|' {
                bar_step_exec(q, toks, i)
            } else if t.len() == 1 && t[0] == '!' {
                if i + 1 < toks.len() {
                    assert(tv[i + 1] == toks@[i + 1]@);
                    if op_of_exec(&toks[i + 1]).is_none() {
                        let raw = string_of(&toks[i + 1]);
                        let ghost before = patterns_view(q.must_not@);
                        q.must_not.push(Pattern::new(raw.as_str()));
                        assert(patterns_view(q.must_not@) =~= before.push(
                            plain_pattern(toks@[i + 1]@),
                        ));
                        return 2;
                    }
                }
                1
            } else if t.len() > 0 && t[0] == '!' {
                if t.len() > 1 {
                    let raw = string_of(&slice_chars(t, 1, t.len()));
                    assert(t@.subrange(1, t.len() as int) =~= t@.drop_first());
                    let ghost before = patterns_view(q.must_not@);
                    q.must_not.push(Pattern::new(raw.as_str()));
                    assert(patterns_view(q.must_not@) =~= before.push(
                        plain_pattern(t@.drop_first()),
                    ));
                }
                1
            } else {
                push_must_exec(q, t);
                1
            }
        },
    }
}

/// Parses a query at time `now` (seconds since the Unix epoch).
pub fn parse_query(input: &str, now: u64) -> (q: Query)
    ensures
        q@ == query_of(input@, now),
{
    let chars = chars_of(input);
    let toks = tokenize_chars(&chars);
    let ghost tv = toks@.map_values(|v: Vec<char>| v@);
    let mut q = Query::default();
    let mut i: usize = 0;
    while i < toks.len()
        invariant
            i <= toks.len(),
            tv == toks@.map_values(|v: Vec<char>| v@),
            tv == tokens_of(input@),
            query_of(input@, now) == parse_from(q@, tv, i as int, now),
        decreases toks.len() - i,
    {
        let k = parse_step_exec(&mut q, &toks, i, now);
        i = i + k;
    }
    q
}

/// Whether a token is a filter operator (and so cannot follow `|` or `!`).
pub fn is_filter(t: &str) -> (r: bool)
    ensures
        r == (op_of(t@) is Some),
{
    op_of_exec(&chars_of(t)).is_some()
}


// ---------------------------------------------------------------------------
// Laws
// ---------------------------------------------------------------------------

proof fn lemma_tok_state_nonempty(s: Seq<char>)
    ensures
        forall|k: int| 0 <= k < tok_state(s).0.len() ==> (#[trigger] tok_state(s).0[k]).len() > 0,
    decreases s.len(),
{
    if s.len() > 0 {
        lemma_tok_state_nonempty(s.drop_last());
        let (out, cur, q) = tok_state(s.drop_last());
        assert forall|k: int| 0 <= k < tok_state(s).0.len() implies (#[trigger] tok_state(s).0[k]).len() > 0 by {
            if k < out.len() {
                assert(tok_state(s).0[k] == out[k]);
            }
        }
    }
}

/// Tokens are never empty.
pub proof fn law_tokens_nonempty(s: Seq<char>)
    ensures
        forall|k: int| 0 <= k < tokens_of(s).len() ==> (#[trigger] tokens_of(s)[k]).len() > 0,
{
    lemma_tok_state_nonempty(s);
    let (out, cur, q) = tok_state(s);
    assert forall|k: int| 0 <= k < tokens_of(s).len() implies (#[trigger] tokens_of(s)[k]).len() > 0 by {
        if k < out.len() {
            assert(tokens_of(s)[k] == out[k]);
        }
    }
}

/// A token that is a plain word: no operator or term kind, no `|`, and no
/// leading `!`.
pub open spec fn plain_word(t: Seq<char>) -> bool {
    op_of(t) is None && term_kind_of(t) is None && !t.contains('|') && !(t.len() > 0 && t[0] == '!')
}

proof fn lemma_parse_plain_words(q: QuerySpec, toks: Seq<Seq<char>>, i: int, now: u64)
    requires
        0 <= i <= toks.len(),
        forall|k: int| 0 <= k < toks.len() ==> plain_word(#[trigger] toks[k]),
    ensures
        parse_from(q, toks, i, now) == (QuerySpec {
            must: q.must + toks.skip(i).map_values(|t: Seq<char>| AtomSpec::Term(plain_pattern(t))),
            ..q
        }),
    decreases toks.len() - i,
{
    if i < toks.len() {
        let t = toks[i];
        assert(plain_word(t));
        assert(!is_bar(t)) by {
            if is_bar(t) {
                assert(t[0] == '|');
                assert(t.contains('|'));
            }
        }
        let q2 = QuerySpec { must: q.must.push(AtomSpec::Term(plain_pattern(t))), ..q };
        assert(parse_step(q, toks, i, now) == (q2, 1int));
        lemma_parse_plain_words(q2, toks, i + 1, now);
        assert(q.must + toks.skip(i).map_values(|t: Seq<char>| AtomSpec::Term(plain_pattern(t)))
            =~= q2.must + toks.skip(i + 1).map_values(|t: Seq<char>| AtomSpec::Term(plain_pattern(t))));
    } else {
        assert(toks.skip(i).map_values(|t: Seq<char>| AtomSpec::Term(plain_pattern(t))) =~= Seq::<AtomSpec>::empty());
        assert(q.must + Seq::<AtomSpec>::empty() =~= q.must);
    }
}

/// Space is AND: words with no operators become one plain term each, in
/// order, and nothing else is set.
pub proof fn law_space_is_and(input: Seq<char>, now: u64)
    requires
        forall|k: int| 0 <= k < tokens_of(input).len() ==> plain_word(#[trigger] tokens_of(input)[k]),
    ensures
        query_of(input, now) == (QuerySpec {
            must: tokens_of(input).map_values(|t: Seq<char>| AtomSpec::Term(plain_pattern(t))),
            ..empty_query()
        }),
{
    lemma_parse_plain_words(empty_query(), tokens_of(input), 0, now);
    assert(tokens_of(input).skip(0) =~= tokens_of(input));
    assert(Seq::<AtomSpec>::empty() + tokens_of(input).map_values(|t: Seq<char>| AtomSpec::Term(plain_pattern(t)))
        =~= tokens_of(input).map_values(|t: Seq<char>| AtomSpec::Term(plain_pattern(t))));
}

} // verus!
