//! Search terms: plain substrings, wildcards, regular expressions and the
//! anchored forms of the query language, and atoms (one term or an OR).

use vstd::prelude::*;
use crate::matcher::{
    glob_matches, glob_matches_exec, regex_matches, regex_matches_exec, substring_match,
    substring_match_exec,
};
use crate::path::{stem_of_name, stem_of_name_exec};
use crate::text::{
    chars_of, ends_with, ends_with_exec, starts_with, starts_with_exec, string_of,
    to_lowercase_vec, unicode_lower,
};

verus! {

/// One search term.
#[derive(Debug, Clone, PartialEq)]
pub struct Pattern {
    pub raw: String,
    /// Holds `*` or `?`: matched as a wildcard against the whole text.
    pub glob: bool,
    /// `regex:` / `r:`.
    pub regex: bool,
    /// `startwith:` / `start:`: the basename starts with `raw`.
    pub prefix: bool,
    /// `endwith:` / `end:`: the basename ends with `raw`.
    pub suffix: bool,
    /// `stem:`: `raw` occurs in the basename without its extension.
    pub stem_only: bool,
    /// `content:` / `body:`: `raw` occurs in the body only.
    pub content_only: bool,
}

#[verifier::ext_equal]
pub struct PatternSpec {
    pub raw: Seq<char>,
    pub glob: bool,
    pub regex: bool,
    pub prefix: bool,
    pub suffix: bool,
    pub stem_only: bool,
    pub content_only: bool,
}

impl View for Pattern {
    type V = PatternSpec;

    open spec fn view(&self) -> PatternSpec {
        PatternSpec {
            raw: self.raw@,
            glob: self.glob,
            regex: self.regex,
            prefix: self.prefix,
            suffix: self.suffix,
            stem_only: self.stem_only,
            content_only: self.content_only,
        }
    }
}

pub open spec fn plain_pattern(raw: Seq<char>) -> PatternSpec {
    PatternSpec {
        raw,
        glob: raw.contains('*') || raw.contains('?'),
        regex: false,
        prefix: false,
        suffix: false,
        stem_only: false,
        content_only: false,
    }
}

/// The kinds of term that a `kind:` prefix selects.
#[derive(Debug, Clone, Copy, PartialEq, Eq)]
pub enum TermKind {
    Regex,
    Prefix,
    Suffix,
    Stem,
    Content,
}

pub open spec fn special_pattern(kind: TermKind, raw: Seq<char>) -> PatternSpec {
    PatternSpec {
        raw,
        glob: false,
        regex: kind == TermKind::Regex,
        prefix: kind == TermKind::Prefix,
        suffix: kind == TermKind::Suffix,
        stem_only: kind == TermKind::Stem,
        content_only: kind == TermKind::Content,
    }
}

pub open spec fn fold_case(s: Seq<char>, case_sensitive: bool) -> Seq<char> {
    if case_sensitive {
        s
    } else {
        unicode_lower(s)
    }
}

/// What `Pattern::matches_with` decides for `text` (a name, a path or a
/// body).
pub open spec fn pattern_matches(p: PatternSpec, text: Seq<char>, cs: bool, ww: bool) -> bool {
    if p.regex {
        regex_matches(p.raw, text, cs)
    } else if p.glob {
        glob_matches(p.raw, text, cs)
    } else if p.prefix {
        starts_with(fold_case(text, cs), fold_case(p.raw, cs))
    } else if p.suffix {
        ends_with(fold_case(text, cs), fold_case(p.raw, cs))
    } else if p.stem_only {
        substring_match(fold_case(stem_of_name(text), cs), fold_case(p.raw, cs), ww)
    } else {
        substring_match(fold_case(text, cs), fold_case(p.raw, cs), ww)
    }
}

fn fold_case_exec(s: &Vec<char>, cs: bool) -> (r: Vec<char>)
    ensures
        r@ == fold_case(s@, cs),
{
    if cs {
        s.clone()
    } else {
        to_lowercase_vec(s)
    }
}

fn contains_char(s: &Vec<char>, c: char) -> (r: bool)
    ensures
        r == s@.contains(c),
{
    let mut i: usize = 0;
    while i < s.len()
        invariant
            i <= s.len(),
            forall|k: int| 0 <= k < i ==> s@[k] != c,
        decreases s.len() - i,
    {
        if s[i] == c {
            assert(s@[i as int] == c);
            return true;
        }
        i += 1;
    }
    false
}

impl Pattern {
    /// A plain term; `*` or `?` make it a wildcard.
    pub fn new(raw: &str) -> (p: Pattern)
        ensures
            p@ == plain_pattern(raw@),
    {
        let v = chars_of(raw);
        let glob = contains_char(&v, '*') || contains_char(&v, '?');
        Pattern {
            raw: raw.to_owned(),
            glob,
            regex: false,
            prefix: false,
            suffix: false,
            stem_only: false,
            content_only: false,
        }
    }

    /// A term of the given kind (no wildcards).
    pub fn of_kind(kind: TermKind, raw: &str) -> (p: Pattern)
        ensures
            p@ == special_pattern(kind, raw@),
    {
        Pattern {
            raw: raw.to_owned(),
            glob: false,
            regex: matches!(kind, TermKind::Regex),
            prefix: matches!(kind, TermKind::Prefix),
            suffix: matches!(kind, TermKind::Suffix),
            stem_only: matches!(kind, TermKind::Stem),
            content_only: matches!(kind, TermKind::Content),
        }
    }

    /// `startwith:` term.
    pub fn prefix(raw: &str) -> (p: Pattern)
        ensures
            p@ == special_pattern(TermKind::Prefix, raw@),
    {
        Pattern::of_kind(TermKind::Prefix, raw)
    }

    /// `endwith:` term.
    pub fn suffix(raw: &str) -> (p: Pattern)
        ensures
            p@ == special_pattern(TermKind::Suffix, raw@),
    {
        Pattern::of_kind(TermKind::Suffix, raw)
    }

    /// `regex:` term.
    pub fn regex(raw: &str) -> (p: Pattern)
        ensures
            p@ == special_pattern(TermKind::Regex, raw@),
    {
        Pattern::of_kind(TermKind::Regex, raw)
    }

    /// `stem:` term.
    pub fn stem(raw: &str) -> (p: Pattern)
        ensures
            p@ == special_pattern(TermKind::Stem, raw@),
    {
        Pattern::of_kind(TermKind::Stem, raw)
    }

    /// `content:` term.
    pub fn content(raw: &str) -> (p: Pattern)
        ensures
            p@ == special_pattern(TermKind::Content, raw@),
    {
        Pattern::of_kind(TermKind::Content, raw)
    }

    /// Case-insensitive, substring (not whole-word) matching.
    pub fn matches(&self, text: &str) -> (r: bool)
        ensures
            r == pattern_matches(self@, text@, false, false),
    {
        self.matches_with(text, false, false)
    }

    /// Matching under the `case:` and `ww:` switches.
    pub fn matches_with(&self, text: &str, case_sensitive: bool, whole_word: bool) -> (r: bool)
        ensures
            r == pattern_matches(self@, text@, case_sensitive, whole_word),
    {
        let t = chars_of(text);
        self.matches_chars(&t, case_sensitive, whole_word)
    }

    pub fn matches_chars(&self, t: &Vec<char>, cs: bool, ww: bool) -> (r: bool)
        ensures
            r == pattern_matches(self@, t@, cs, ww),
    {
        let raw = chars_of(self.raw.as_str());
        if self.regex {
            regex_matches_exec(&raw, t, cs)
        } else if self.glob {
            glob_matches_exec(&raw, t, cs)
        } else if self.prefix {
            starts_with_exec(&fold_case_exec(t, cs), &fold_case_exec(&raw, cs))
        } else if self.suffix {
            ends_with_exec(&fold_case_exec(t, cs), &fold_case_exec(&raw, cs))
        } else if self.stem_only {
            let stem = stem_of_name_exec(t);
            substring_match_exec(&fold_case_exec(&stem, cs), &fold_case_exec(&raw, cs), ww)
        } else {
            substring_match_exec(&fold_case_exec(t, cs), &fold_case_exec(&raw, cs), ww)
        }
    }
}

/// A conjunct of a query: one term or an OR of terms.
#[derive(Debug, Clone, PartialEq)]
pub enum Atom {
    Term(Pattern),
    Or(Vec<Pattern>),
}

#[verifier::ext_equal]
pub enum AtomSpec {
    Term(PatternSpec),
    Or(Seq<PatternSpec>),
}

pub open spec fn patterns_view(ps: Seq<Pattern>) -> Seq<PatternSpec> {
    ps.map_values(|p: Pattern| p@)
}

impl View for Atom {
    type V = AtomSpec;

    open spec fn view(&self) -> AtomSpec {
        match self {
            Atom::Term(p) => AtomSpec::Term(p@),
            Atom::Or(ps) => AtomSpec::Or(patterns_view(ps@)),
        }
    }
}

/// The patterns of an atom.
pub open spec fn atom_patterns(a: AtomSpec) -> Seq<PatternSpec> {
    match a {
        AtomSpec::Term(p) => seq![p],
        AtomSpec::Or(ps) => ps,
    }
}

pub open spec fn atom_matches(a: AtomSpec, text: Seq<char>, cs: bool, ww: bool) -> bool {
    exists|k: int|
        0 <= k < atom_patterns(a).len() && pattern_matches(
            #[trigger] atom_patterns(a)[k],
            text,
            cs,
            ww,
        )
}

/// An atom is content-only when all of its patterns are.
pub open spec fn atom_content_only(a: AtomSpec) -> bool {
    forall|k: int| 0 <= k < atom_patterns(a).len() ==> #[trigger] atom_patterns(a)[k].content_only
}

impl Atom {
    pub fn patterns(&self) -> (r: Vec<Pattern>)
        ensures
            patterns_view(r@) == atom_patterns(self@),
    {
        match self {
            Atom::Term(p) => {
                let mut v: Vec<Pattern> = Vec::new();
                v.push(p.clone_pattern());
                assert(patterns_view(v@) =~= seq![p@]);
                v
            },
            Atom::Or(ps) => clone_patterns(ps),
        }
    }

    /// Any pattern matches `text` (case-insensitively, as substrings).
    pub fn matches_text(&self, text: &str) -> (r: bool)
        ensures
            r == atom_matches(self@, text@, false, false),
    {
        let t = chars_of(text);
        self.matches_chars(&t, false, false)
    }

    pub fn matches_chars(&self, t: &Vec<char>, cs: bool, ww: bool) -> (r: bool)
        ensures
            r == atom_matches(self@, t@, cs, ww),
    {
        let ps = self.patterns();
        let mut k: usize = 0;
        while k < ps.len()
            invariant
                k <= ps.len(),
                patterns_view(ps@) == atom_patterns(self@),
                forall|j: int|
                    0 <= j < k ==> !pattern_matches(#[trigger] atom_patterns(self@)[j], t@, cs, ww),
            decreases ps.len() - k,
        {
            assert(atom_patterns(self@)[k as int] == ps@[k as int]@);
            if ps[k].matches_chars(t, cs, ww) {
                return true;
            }
            k += 1;
        }
        false
    }

    /// The raw texts of the atom's patterns.
    pub fn terms(&self) -> (r: Vec<String>)
        ensures
            r.len() == atom_patterns(self@).len(),
            forall|j: int| 0 <= j < r.len() ==> #[trigger] r@[j]@ == atom_patterns(self@)[j].raw,
    {
        let ps = self.patterns();
        let mut r: Vec<String> = Vec::new();
        let mut k: usize = 0;
        while k < ps.len()
            invariant
                k <= ps.len(),
                r.len() == k,
                patterns_view(ps@) == atom_patterns(self@),
                forall|j: int| 0 <= j < k ==> #[trigger] r@[j]@ == atom_patterns(self@)[j].raw,
            decreases ps.len() - k,
        {
            assert(atom_patterns(self@)[k as int] == ps@[k as int]@);
            r.push(ps[k].raw.clone());
            k += 1;
        }
        r
    }

    /// All patterns are `content:` terms.
    pub fn content_only(&self) -> (r: bool)
        ensures
            r == atom_content_only(self@),
    {
        let ps = self.patterns();
        let mut k: usize = 0;
        while k < ps.len()
            invariant
                k <= ps.len(),
                patterns_view(ps@) == atom_patterns(self@),
                forall|j: int| 0 <= j < k ==> #[trigger] atom_patterns(self@)[j].content_only,
            decreases ps.len() - k,
        {
            assert(atom_patterns(self@)[k as int] == ps@[k as int]@);
            if !ps[k].content_only {
                assert(!atom_patterns(self@)[k as int].content_only);
                return false;
            }
            k += 1;
        }
        true
    }
}

impl Pattern {
    pub fn clone_pattern(&self) -> (r: Pattern)
        ensures
            r@ == self@,
    {
        Pattern {
            raw: self.raw.clone(),
            glob: self.glob,
            regex: self.regex,
            prefix: self.prefix,
            suffix: self.suffix,
            stem_only: self.stem_only,
            content_only: self.content_only,
        }
    }
}

pub fn clone_patterns(ps: &Vec<Pattern>) -> (r: Vec<Pattern>)
    ensures
        patterns_view(r@) == patterns_view(ps@),
{
    let mut r: Vec<Pattern> = Vec::new();
    let mut k: usize = 0;
    while k < ps.len()
        invariant
            k <= ps.len(),
            r.len() == k,
            forall|j: int| 0 <= j < k ==> #[trigger] r@[j]@ == ps@[j]@,
        decreases ps.len() - k,
    {
        r.push(ps[k].clone_pattern());
        k += 1;
    }
    assert(patterns_view(r@) =~= patterns_view(ps@));
    r
}

} // verus!
