//! Matching of one pattern text against one string: substrings (optionally
//! whole words), wildcards (`*`, `?`) and a small regular-expression subset
//! (`.`, `*`, `+`, `?`, `^`, `$`, `\` escapes).

use vstd::prelude::*;
use crate::text::{
    chars_eq,
    char_lower, char_to_lowercase, char_is_alphanumeric, contains_exec, contains_seq, find_exec,
    find_from, is_alnum, lemma_find_from, lower_ascii_char, lower_ascii_char_exec, match_at,
};

verus! {

/// What one pattern position accepts.
#[derive(Clone, Copy, Debug, PartialEq, Eq)]
pub enum Unit {
    Lit(char),
    /// Any character (wildcard `?`, `*`).
    Any,
    /// Any character but a newline (regular-expression `.`).
    AnyButNewline,
}

/// How often a unit repeats.
#[derive(Clone, Copy, Debug, PartialEq, Eq)]
pub enum Rep {
    One,
    Opt,
    Star,
}

#[derive(Clone, Copy, Debug, PartialEq, Eq)]
pub struct Item {
    pub unit: Unit,
    pub rep: Rep,
}

/// Characters equal when case is ignored: ASCII-insensitively or with equal
/// Unicode lowercase mappings.
pub open spec fn eq_ci(a: char, b: char) -> bool {
    lower_ascii_char(a) == lower_ascii_char(b) || char_lower(a) == char_lower(b)
}

pub open spec fn unit_accepts(u: Unit, c: char, case_sensitive: bool) -> bool {
    match u {
        Unit::Lit(p) => if case_sensitive {
            p == c
        } else {
            eq_ci(p, c)
        },
        Unit::Any => true,
        Unit::AnyButNewline => c != '\n',
    }
}

/// `items` match all of `t` (when `to_end`) or some prefix of `t`.
pub open spec fn items_match(items: Seq<Item>, t: Seq<char>, cs: bool, to_end: bool) -> bool
    decreases t.len(), items.len(),
{
    if items.len() == 0 {
        !to_end || t.len() == 0
    } else {
        let it = items[0];
        let rest = items.drop_first();
        let step = t.len() > 0 && unit_accepts(it.unit, t[0], cs);
        match it.rep {
            Rep::One => step && items_match(rest, t.drop_first(), cs, to_end),
            Rep::Opt => items_match(rest, t, cs, to_end) || (step && items_match(
                rest,
                t.drop_first(),
                cs,
                to_end,
            )),
            Rep::Star => items_match(rest, t, cs, to_end) || (step && items_match(
                items,
                t.drop_first(),
                cs,
                to_end,
            )),
        }
    }
}

// ---------------------------------------------------------------------------
// Wildcards
// ---------------------------------------------------------------------------

pub open spec fn glob_item(c: char) -> Item {
    if c == '*' {
        Item { unit: Unit::Any, rep: Rep::Star }
    } else if c == '?' {
        Item { unit: Unit::Any, rep: Rep::One }
    } else {
        Item { unit: Unit::Lit(c), rep: Rep::One }
    }
}

pub open spec fn glob_items(p: Seq<char>) -> Seq<Item> {
    p.map_values(|c: char| glob_item(c))
}

/// The whole of `t` matches the wildcard pattern `p`.
pub open spec fn glob_matches(p: Seq<char>, t: Seq<char>, cs: bool) -> bool {
    items_match(glob_items(p), t, cs, true)
}

// ---------------------------------------------------------------------------
// Regular-expression subset
// ---------------------------------------------------------------------------

/// A compiled expression: anchored at the start, items, anchored at the end.
pub struct Compiled {
    pub start: bool,
    pub items: Seq<Item>,
    pub end: bool,
}

pub open spec fn rx_start(p: Seq<char>) -> bool {
    p.len() > 0 && p[0] == '^'
}

pub open spec fn rx_after_start(p: Seq<char>) -> Seq<char> {
    if rx_start(p) {
        p.drop_first()
    } else {
        p
    }
}

pub open spec fn rx_end(b: Seq<char>) -> bool {
    b.len() > 0 && b.last() == '$' && (b.len() < 2 || b[b.len() - 2] != '\\')
}

pub open spec fn rx_core(p: Seq<char>) -> Seq<char> {
    let b = rx_after_start(p);
    if rx_end(b) {
        b.drop_last()
    } else {
        b
    }
}

pub open spec fn lit(c: char) -> Item {
    Item { unit: Unit::Lit(c), rep: Rep::One }
}

/// Reading the core left to right: items so far and whether a `\` is pending.
pub open spec fn rx_state(s: Seq<char>) -> (Seq<Item>, bool)
    decreases s.len(),
{
    if s.len() == 0 {
        (Seq::empty(), false)
    } else {
        let (items, esc) = rx_state(s.drop_last());
        let c = s.last();
        if esc {
            (items.push(lit(c)), false)
        } else if c == '\\' {
            (items, true)
        } else if (c == '*' || c == '?' || c == '+') && items.len() > 0 && items.last().rep
            == Rep::One {
            let last = items.last();
            if c == '*' {
                (items.update(items.len() - 1, Item { unit: last.unit, rep: Rep::Star }), false)
            } else if c == '?' {
                (items.update(items.len() - 1, Item { unit: last.unit, rep: Rep::Opt }), false)
            } else {
                (items.push(Item { unit: last.unit, rep: Rep::Star }), false)
            }
        } else if c == '.' {
            (items.push(Item { unit: Unit::AnyButNewline, rep: Rep::One }), false)
        } else {
            (items.push(lit(c)), false)
        }
    }
}

/// The items of an expression; a trailing lone `\` stands for itself.
pub open spec fn rx_items(p: Seq<char>) -> Seq<Item> {
    let (items, esc) = rx_state(rx_core(p));
    if esc {
        items.push(lit('\\'))
    } else {
        items
    }
}

/// Some substring of `t` (a prefix when anchored with `^`, a suffix when
/// anchored with `$`) matches the expression `p`.
pub open spec fn regex_matches(p: Seq<char>, t: Seq<char>, cs: bool) -> bool {
    let items = rx_items(p);
    let end = rx_end(rx_after_start(p));
    if rx_start(p) {
        items_match(items, t, cs, end)
    } else {
        exists|i: int| 0 <= i <= t.len() && items_match(items, t.skip(i), cs, end)
    }
}

// ---------------------------------------------------------------------------
// Substrings and whole words
// ---------------------------------------------------------------------------

/// The occurrence at `i` is bounded by non-alphanumeric characters or the
/// ends of the text.
pub open spec fn word_bounded(h: Seq<char>, n: Seq<char>, i: int) -> bool {
    (i == 0 || !is_alnum(h[i - 1])) && (i + n.len() == h.len() || !is_alnum(h[i + n.len()]))
}

pub open spec fn word_match(h: Seq<char>, n: Seq<char>) -> bool {
    exists|i: int| match_at(h, n, i) && word_bounded(h, n, i)
}

/// Substring test used by plain terms: an empty needle always matches.
pub open spec fn substring_match(h: Seq<char>, n: Seq<char>, whole_word: bool) -> bool {
    if n.len() == 0 {
        true
    } else if whole_word {
        word_match(h, n)
    } else {
        contains_seq(h, n)
    }
}

// ---------------------------------------------------------------------------
// Executable matchers
// ---------------------------------------------------------------------------

/// Lowercase mappings of each character, for case-insensitive comparison.
fn lowers(t: &Vec<char>) -> (r: Vec<Vec<char>>)
    ensures
        r.len() == t.len(),
        forall|k: int| 0 <= k < t.len() ==> #[trigger] r@[k]@ == char_lower(t@[k]),
{
    let mut r: Vec<Vec<char>> = Vec::new();
    let mut i: usize = 0;
    while i < t.len()
        invariant
            i <= t.len(),
            r.len() == i,
            forall|k: int| 0 <= k < i ==> #[trigger] r@[k]@ == char_lower(t@[k]),
        decreases t.len() - i,
    {
        r.push(char_to_lowercase(t[i]));
        i += 1;
    }
    r
}

fn unit_accepts_exec(
    u: Unit,
    u_lower: &Vec<char>,
    c: char,
    c_lower: &Vec<char>,
    cs: bool,
) -> (r: bool)
    requires
        u matches Unit::Lit(p) ==> u_lower@ == char_lower(p),
        c_lower@ == char_lower(c),
    ensures
        r == unit_accepts(u, c, cs),
{
    match u {
        Unit::Lit(p) => {
            if cs {
                p == c
            } else {
                lower_ascii_char_exec(p) == lower_ascii_char_exec(c) || chars_eq(u_lower, c_lower)
            }
        },
        Unit::Any => true,
        Unit::AnyButNewline => c != '\n',
    }
}

/// For every suffix `t[j..]`, whether `items` match it.
pub fn match_table(items: &Vec<Item>, t: &Vec<char>, cs: bool, to_end: bool) -> (r: Vec<bool>)
    ensures
        r.len() == t.len() + 1,
        forall|j: int|
            0 <= j <= t.len() ==> #[trigger] r@[j] == items_match(items@, t@.skip(j), cs, to_end),
{
    let n = items.len();
    let tl = t.len();
    let t_low = lowers(t);
    let mut next: Vec<bool> = Vec::new();
    let mut j: usize = 0;
    while j < tl
        invariant
            tl == t.len(),
            j <= tl,
            next.len() == j,
            forall|k: int| 0 <= k < j ==> #[trigger] next@[k] == (!to_end || k == tl),
        decreases tl - j,
    {
        next.push(!to_end);
        j += 1;
    }
    next.push(true);
    assert forall|k: int| 0 <= k <= tl implies #[trigger] next@[k] == items_match(
        items@.skip(n as int),
        t@.skip(k),
        cs,
        to_end,
    ) by {
        assert(items@.skip(n as int).len() == 0);
    }
    let mut i = n;
    while i > 0
        invariant
            n == items.len(),
            tl == t.len(),
            t_low.len() == tl,
            forall|k: int| 0 <= k < tl ==> #[trigger] t_low@[k]@ == char_lower(t@[k]),
            i <= n,
            next.len() == tl + 1,
            forall|k: int|
                0 <= k <= tl ==> #[trigger] next@[k] == items_match(
                    items@.skip(i as int),
                    t@.skip(k),
                    cs,
                    to_end,
                ),
        decreases i,
    {
        let it = items[i - 1];
        let u_low = match it.unit {
            Unit::Lit(p) => char_to_lowercase(p),
            _ => Vec::new(),
        };
        let mut cur: Vec<bool> = Vec::new();
        let mut z: usize = 0;
        while z < tl
            invariant
                tl == t.len(),
                z <= tl,
                cur.len() == z,
            decreases tl - z,
        {
            cur.push(false);
            z += 1;
        }
        cur.push(false);
        let ghost its = items@.skip(i - 1);
        assert(its[0] == it);
        assert(its.drop_first() =~= items@.skip(i as int));
        let mut j = tl + 1;
        while j > 0
            invariant
                i >= 1,
                i <= n,
                n == items.len(),
                tl == t.len(),
                t_low.len() == tl,
                forall|k: int| 0 <= k < tl ==> #[trigger] t_low@[k]@ == char_lower(t@[k]),
                it == items@[i - 1],
                its == items@.skip(i - 1),
                its.len() > 0,
                its[0] == it,
                its.drop_first() == items@.skip(i as int),
                it.unit matches Unit::Lit(p) ==> u_low@ == char_lower(p),
                next.len() == tl + 1,
                cur.len() == tl + 1,
                j <= tl + 1,
                forall|k: int|
                    0 <= k <= tl ==> #[trigger] next@[k] == items_match(
                        items@.skip(i as int),
                        t@.skip(k),
                        cs,
                        to_end,
                    ),
                forall|k: int|
                    j <= k <= tl ==> #[trigger] cur@[k] == items_match(
                        its,
                        t@.skip(k),
                        cs,
                        to_end,
                    ),
            decreases j,
        {
            let k = j - 1;
            let step = k < tl && unit_accepts_exec(it.unit, &u_low, t[k], &t_low[k], cs);
            let v = match it.rep {
                Rep::One => step && next[k + 1],
                Rep::Opt => next[k] || (step && next[k + 1]),
                Rep::Star => next[k] || (step && cur[k + 1]),
            };
            proof {
                let ts = t@.skip(k as int);
                if k < tl {
                    assert(ts[0] == t@[k as int]);
                    assert(ts.drop_first() =~= t@.skip(k + 1));
                }
                assert(v == items_match(its, ts, cs, to_end));
            }
            cur.set(k, v);
            j = k;
        }
        next = cur;
        i -= 1;
    }
    assert(items@.skip(0) =~= items@);
    next
}

pub fn glob_items_exec(p: &Vec<char>) -> (r: Vec<Item>)
    ensures
        r@ == glob_items(p@),
{
    let mut r: Vec<Item> = Vec::new();
    let mut i: usize = 0;
    while i < p.len()
        invariant
            i <= p.len(),
            r@ == glob_items(p@.take(i as int)),
        decreases p.len() - i,
    {
        let c = p[i];
        let it = if c == '*' {
            Item { unit: Unit::Any, rep: Rep::Star }
        } else if c == '?' {
            Item { unit: Unit::Any, rep: Rep::One }
        } else {
            Item { unit: Unit::Lit(c), rep: Rep::One }
        };
        assert(it == glob_item(c));
        r.push(it);
        i += 1;
        assert(p@.take(i as int) =~= p@.take((i - 1) as int).push(c));
        assert(r@ =~= glob_items(p@.take(i as int)));
    }
    assert(p@.take(p.len() as int) =~= p@);
    r
}

pub fn glob_matches_exec(p: &Vec<char>, t: &Vec<char>, cs: bool) -> (r: bool)
    ensures
        r == glob_matches(p@, t@, cs),
{
    let items = glob_items_exec(p);
    let table = match_table(&items, t, cs, true);
    assert(t@.skip(0) =~= t@);
    table[0]
}

pub fn rx_items_exec(p: &Vec<char>) -> (r: (Vec<Item>, bool, bool))
    ensures
        r.0@ == rx_items(p@),
        r.1 == rx_start(p@),
        r.2 == rx_end(rx_after_start(p@)),
{
    let start = p.len() > 0 && p[0] == '^';
    let b0: usize = if start {
        1
    } else {
        0
    };
    let bl = p.len() - b0;
    let end = bl > 0 && p[p.len() - 1] == '$' && (bl < 2 || p[p.len() - 2] != '\\');
    let stop: usize = if end {
        p.len() - 1
    } else {
        p.len()
    };
    proof {
        let b = rx_after_start(p@);
        assert(b =~= p@.skip(b0 as int));
        if bl > 0 {
            assert(b.last() == p@[p.len() - 1]);
        }
        if bl >= 2 {
            assert(b[b.len() - 2] == p@[p.len() - 2]);
        }
        assert(rx_core(p@) =~= p@.subrange(b0 as int, stop as int));
    }
    let ghost core = rx_core(p@);
    let mut items: Vec<Item> = Vec::new();
    let mut esc = false;
    let mut i = b0;
    while i < stop
        invariant
            b0 <= i <= stop <= p.len(),
            core == p@.subrange(b0 as int, stop as int),
            rx_state(core.take(i - b0)) == (items@, esc),
        decreases stop - i,
    {
        let c = p[i];
        assert(core.take(i + 1 - b0).drop_last() =~= core.take(i - b0));
        assert(core.take(i + 1 - b0).last() == c);
        if esc {
            items.push(Item { unit: Unit::Lit(c), rep: Rep::One });
            esc = false;
        } else if c == '\\' {
            esc = true;
        } else if (c == '*' || c == '?' || c == '+') && items.len() > 0 && matches!(
            items[items.len() - 1].rep,
            Rep::One
        ) {
            let last = items[items.len() - 1];
            let li = items.len() - 1;
            if c == '*' {
                items.set(li, Item { unit: last.unit, rep: Rep::Star });
            } else if c == '?' {
                items.set(li, Item { unit: last.unit, rep: Rep::Opt });
            } else {
                items.push(Item { unit: last.unit, rep: Rep::Star });
            }
        } else if c == '.' {
            items.push(Item { unit: Unit::AnyButNewline, rep: Rep::One });
        } else {
            items.push(Item { unit: Unit::Lit(c), rep: Rep::One });
        }
        i += 1;
    }
    assert(core.take(stop - b0) =~= core);
    if esc {
        items.push(Item { unit: Unit::Lit('\\'), rep: Rep::One });
    }
    (items, start, end)
}

pub fn regex_matches_exec(p: &Vec<char>, t: &Vec<char>, cs: bool) -> (r: bool)
    ensures
        r == regex_matches(p@, t@, cs),
{
    let (items, start, end) = rx_items_exec(p);
    let table = match_table(&items, t, cs, end);
    if start {
        assert(t@.skip(0) =~= t@);
        return table[0];
    }
    let mut j: usize = 0;
    while j < table.len()
        invariant
            j <= t.len() + 1,
            items@ == rx_items(p@),
            end == rx_end(rx_after_start(p@)),
            !rx_start(p@),
            table.len() == t.len() + 1,
            forall|k: int|
                0 <= k <= t.len() ==> #[trigger] table@[k] == items_match(
                    items@,
                    t@.skip(k),
                    cs,
                    end,
                ),
            forall|k: int| 0 <= k < j ==> !items_match(items@, t@.skip(k), cs, end),
        decreases t.len() + 1 - j,
    {
        if table[j] {
            assert(0 <= j <= t.len() && items_match(items@, t@.skip(j as int), cs, end));
            return true;
        }
        j += 1;
    }
    false
}

pub fn word_match_exec(h: &Vec<char>, n: &Vec<char>) -> (r: bool)
    ensures
        r == word_match(h@, n@),
{
    let mut from: usize = 0;
    loop
        invariant
            from <= h.len() + 1,
            forall|k: int| 0 <= k < from ==> !(match_at(h@, n@, k) && word_bounded(h@, n@, k)),
        decreases h.len() + 1 - from,
    {
        if from > h.len() {
            return false;
        }
        let f = find_exec(h, n, from);
        proof {
            lemma_find_from(h@, n@, from as int);
        }
        match f {
            None => {
                return false;
            },
            Some(k) => {
                let before_ok = k == 0 || !char_is_alphanumeric(h[k - 1]);
                let after_ok = k + n.len() == h.len() || !char_is_alphanumeric(h[k + n.len()]);
                if before_ok && after_ok {
                    return true;
                }
                if k >= h.len() {
                    return false;
                }
                from = k + 1;
            },
        }
    }
}

pub fn substring_match_exec(h: &Vec<char>, n: &Vec<char>, whole_word: bool) -> (r: bool)
    ensures
        r == substring_match(h@, n@, whole_word),
{
    if n.len() == 0 {
        true
    } else if whole_word {
        word_match_exec(h, n)
    } else {
        contains_exec(h, n)
    }
}

} // verus!
