//! Command-line arguments of the search tool, and the filters it applies to
//! the hits.

use vstd::prelude::*;
use crate::engine::{join_with, EngineConfig};
use crate::query::strings_view;
use crate::text::{append_chars, chars_eq, chars_of, parse_u64, parse_u64_spec, string_of};
use crate::types::Hit;

verus! {

/// The usage text.
pub const HELP: &'static str = "flashseek-cli --name-root DIR --content-root DIR --query TEXT [--json] [--now-epoch-secs N] [--out PATH] [--max-results N] [--files-only] [--folders-only] [--config FILE] [--count] [--quiet]
  --max-results N  max hits after search (0 = unlimited)
  --files-only     keep files only
  --folders-only   keep folders only
  --config FILE    name_root=/ content_root=/ lines; flags override
  --count          print hit total after filters (wins over --json)
  --quiet          with --count, suppress non-JSON path lists
";

/// Parsed arguments.
#[derive(Debug)]
pub struct Cli {
    pub name_root: Option<String>,
    pub content_root: Option<String>,
    pub query: String,
    pub json: bool,
    /// Seconds since the epoch; `None` means the current time.
    pub now: Option<u64>,
    pub out_path: Option<String>,
    /// 0 means unlimited.
    pub max_results: usize,
    pub files_only: bool,
    pub folders_only: bool,
    pub help: bool,
    pub config_path: Option<String>,
    pub count: bool,
    pub quiet: bool,
}

#[verifier::ext_equal]
pub struct CliSpec {
    pub name_root: Option<Seq<char>>,
    pub content_root: Option<Seq<char>>,
    pub query: Seq<char>,
    pub json: bool,
    pub now: Option<u64>,
    pub out_path: Option<Seq<char>>,
    pub max_results: usize,
    pub files_only: bool,
    pub folders_only: bool,
    pub help: bool,
    pub config_path: Option<Seq<char>>,
    pub count: bool,
    pub quiet: bool,
}

pub open spec fn opt_view(o: Option<String>) -> Option<Seq<char>> {
    match o {
        Some(s) => Some(s@),
        None => None,
    }
}

impl View for Cli {
    type V = CliSpec;

    open spec fn view(&self) -> CliSpec {
        CliSpec {
            name_root: opt_view(self.name_root),
            content_root: opt_view(self.content_root),
            query: self.query@,
            json: self.json,
            now: self.now,
            out_path: opt_view(self.out_path),
            max_results: self.max_results,
            files_only: self.files_only,
            folders_only: self.folders_only,
            help: self.help,
            config_path: opt_view(self.config_path),
            count: self.count,
            quiet: self.quiet,
        }
    }
}

pub open spec fn default_cli() -> CliSpec {
    CliSpec {
        name_root: None,
        content_root: None,
        query: Seq::empty(),
        json: false,
        now: None,
        out_path: None,
        max_results: 0,
        files_only: false,
        folders_only: false,
        help: false,
        config_path: None,
        count: false,
        quiet: false,
    }
}

impl Default for Cli {
    fn default() -> (c: Cli)
        ensures
            c@ == default_cli(),
    {
        let c = Cli {
            name_root: None,
            content_root: None,
            query: String::new(),
            json: false,
            now: None,
            out_path: None,
            max_results: 0,
            files_only: false,
            folders_only: false,
            help: false,
            config_path: None,
            count: false,
            quiet: false,
        };
        assert(c@ =~= default_cli());
        c
    }
}

/// The argument after position `i`, if any.
pub open spec fn next_arg(args: Seq<Seq<char>>, i: int) -> Option<Seq<char>> {
    if i + 1 < args.len() {
        Some(args[i + 1])
    } else {
        None
    }
}

/// One argument at position `i`: the new state and how many arguments were
/// used, or the error.
pub open spec fn cli_step(c: CliSpec, args: Seq<Seq<char>>, i: int) -> Result<(CliSpec, int), Seq<char>> {
    let a = args[i];
    let n = next_arg(args, i);
    if a == "--name-root"@ {
        Ok((CliSpec { name_root: n, ..c }, 2))
    } else if a == "--content-root"@ {
        Ok((CliSpec { content_root: n, ..c }, 2))
    } else if a == "--query"@ {
        Ok((
            CliSpec {
                query: match n {
                    Some(q) => q,
                    None => Seq::empty(),
                },
                ..c
            },
            2,
        ))
    } else if a == "--out"@ {
        Ok((CliSpec { out_path: n, ..c }, 2))
    } else if a == "--json"@ {
        Ok((CliSpec { json: true, ..c }, 1))
    } else if a == "--now-epoch-secs"@ {
        Ok((
            match n {
                Some(s) => match parse_u64_spec(s) {
                    Some(v) => CliSpec { now: Some(v), ..c },
                    None => c,
                },
                None => c,
            },
            2,
        ))
    } else if a == "--max-results"@ {
        match n {
            None => Err("--max-results requires a number"@),
            Some(s) => match parse_u64_spec(s) {
                Some(v) => if v <= usize::MAX {
                    Ok((CliSpec { max_results: v as usize, ..c }, 2))
                } else {
                    Err("invalid --max-results: "@ + s)
                },
                None => Err("invalid --max-results: "@ + s),
            },
        }
    } else if a == "--files-only"@ {
        Ok((CliSpec { files_only: true, ..c }, 1))
    } else if a == "--folders-only"@ {
        Ok((CliSpec { folders_only: true, ..c }, 1))
    } else if a == "--count"@ {
        Ok((CliSpec { count: true, ..c }, 1))
    } else if a == "--quiet"@ {
        Ok((CliSpec { quiet: true, ..c }, 1))
    } else if a == "--config"@ {
        Ok((CliSpec { config_path: n, ..c }, 2))
    } else if a == "-h"@ || a == "--help"@ {
        Ok((CliSpec { help: true, ..c }, 0))
    } else {
        Err("unknown arg: "@ + a)
    }
}

/// Reading the arguments from position `i`; help stops the reading, and the
/// file and folder filters exclude each other.
pub open spec fn cli_from(c: CliSpec, args: Seq<Seq<char>>, i: int) -> Result<CliSpec, Seq<char>>
    decreases args.len() + 2 - i,
{
    if i < 0 || i >= args.len() {
        if c.files_only && c.folders_only {
            Err("cannot combine --files-only and --folders-only"@)
        } else {
            Ok(c)
        }
    } else {
        match cli_step(c, args, i) {
            Err(e) => Err(e),
            Ok((c2, k)) => if k <= 0 || k > 2 {
                Ok(c2)
            } else {
                cli_from(c2, args, i + k)
            },
        }
    }
}

pub open spec fn args_view(args: Seq<String>) -> Seq<Seq<char>> {
    args.map_values(|a: String| a@)
}

fn concat(a: &str, b: &Vec<char>) -> (r: String)
    ensures
        r@ == a@ + b@,
{
    let mut v = chars_of(a);
    let ghost start = v@;
    let mut i: usize = 0;
    while i < b.len()
        invariant
            i <= b.len(),
            v@ == start + b@.take(i as int),
        decreases b.len() - i,
    {
        v.push(b[i]);
        i += 1;
        assert(v@ =~= start + b@.take(i as int));
    }
    assert(b@.take(i as int) =~= b@);
    string_of(&v)
}

fn is(a: &Vec<char>, lit: &str) -> (r: bool)
    ensures
        r == (a@ == lit@),
{
    chars_eq(a, &chars_of(lit))
}

fn next_arg_exec(args: &[String], i: usize) -> (r: Option<String>)
    requires
        i < args@.len(),
    ensures
        opt_view(r) == next_arg(args_view(args@), i as int),
{
    assert(args.len() == args@.len());
    if i + 1 < args.len() {
        Some(args[i + 1].clone())
    } else {
        None
    }
}

#[verifier::spinoff_prover]
fn cli_step_exec(c: &mut Cli, args: &[String], i: usize) -> (r: Result<usize, String>)
    requires
        i < args@.len(),
    ensures
        match r {
            Ok(k) => cli_step(old(c)@, args_view(args@), i as int) == Ok::<(CliSpec, int), Seq<char>>((final(c)@, k as int)),
            Err(e) => cli_step(old(c)@, args_view(args@), i as int) == Err::<(CliSpec, int), Seq<char>>(e@),
        },
{
    let a = chars_of(args[i].as_str());
    assert(args_view(args@)[i as int] == a@);
    let n = next_arg_exec(args, i);
    if is(&a, "--name-root") {
        c.name_root = n;
        Ok(2)
    } else if is(&a, "--content-root") {
        c.content_root = n;
        Ok(2)
    } else if is(&a, "--query") {
        c.query = match n {
            Some(q) => q,
            None => String::new(),
        };
        Ok(2)
    } else if is(&a, "--out") {
        c.out_path = n;
        Ok(2)
    } else if is(&a, "--json") {
        c.json = true;
        Ok(1)
    } else if is(&a, "--now-epoch-secs") {
        match n {
            Some(s) => match parse_u64(&chars_of(s.as_str())) {
                Some(v) => c.now = Some(v),
                None => {},
            },
            None => {},
        }
        Ok(2)
    } else if is(&a, "--max-results") {
        match n {
            None => Err("--max-results requires a number".to_owned()),
            Some(s) => {
                let sv = chars_of(s.as_str());
                match parse_u64(&sv) {
                    Some(v) => if v <= usize::MAX as u64 {
                        c.max_results = v as usize;
                        Ok(2)
                    } else {
                        Err(concat("invalid --max-results: ", &sv))
                    },
                    None => Err(concat("invalid --max-results: ", &sv)),
                }
            },
        }
    } else if is(&a, "--files-only") {
        c.files_only = true;
        Ok(1)
    } else if is(&a, "--folders-only") {
        c.folders_only = true;
        Ok(1)
    } else if is(&a, "--count") {
        c.count = true;
        Ok(1)
    } else if is(&a, "--quiet") {
        c.quiet = true;
        Ok(1)
    } else if is(&a, "--config") {
        c.config_path = n;
        Ok(2)
    } else if is(&a, "-h") || is(&a, "--help") {
        c.help = true;
        Ok(0)
    } else {
        Err(concat("unknown arg: ", &a))
    }
}

/// Parses the arguments (without the program name).
pub fn parse_args(args: &[String]) -> (r: Result<Cli, String>)
    ensures
        match r {
            Ok(c) => cli_from(default_cli(), args_view(args@), 0) == Ok::<CliSpec, Seq<char>>(c@),
            Err(e) => cli_from(default_cli(), args_view(args@), 0) == Err::<CliSpec, Seq<char>>(e@),
        },
{
    let mut cli = Cli::default();
    let mut i: usize = 0;
    while i < args.len()
        invariant
            i <= args@.len(),
            args.len() == args@.len(),
            cli_from(default_cli(), args_view(args@), 0) == cli_from(cli@, args_view(args@), i as int),
        decreases args.len() - i,
    {
        let ghost before = cli@;
        let ghost av = args_view(args@);
        match cli_step_exec(&mut cli, args, i) {
            Err(e) => {
                return Err(e);
            },
            Ok(k) => {
                if k == 0 {
                    return Ok(cli);
                }
                assert(cli_from(before, av, i as int) == cli_from(cli@, av, i + k));
                let ni = if k > args.len() - i {
                    args.len()
                } else {
                    i + k
                };
                assert(cli_from(cli@, av, i + k) == cli_from(cli@, av, ni as int));
                i = ni;
            },
        }
    }
    if cli.files_only && cli.folders_only {
        return Err("cannot combine --files-only and --folders-only".to_owned());
    }
    Ok(cli)
}

/// Hits kept by the file or folder filter.
pub open spec fn kind_filter(hs: Seq<Hit>, files_only: bool, folders_only: bool) -> Seq<Hit>
    decreases hs.len(),
{
    if hs.len() == 0 {
        Seq::empty()
    } else {
        let keep = if files_only {
            !hs.last().record.is_dir
        } else if folders_only {
            hs.last().record.is_dir
        } else {
            true
        };
        let r = kind_filter(hs.drop_last(), files_only, folders_only);
        if keep {
            r.push(hs.last())
        } else {
            r
        }
    }
}

/// Keeps files only or folders only (files win when both are set), then at
/// most `max_results` hits when it is not 0.
pub fn apply_cli_filters(hits: Vec<Hit>, cli: &Cli) -> (r: Vec<Hit>)
    ensures
        ({
            let f = kind_filter(hits@, cli.files_only, cli.folders_only);
            r@ == if cli.max_results > 0 && cli.max_results < f.len() {
                f.take(cli.max_results as int)
            } else {
                f
            }
        }),
{
    let mut src = hits;
    let ghost orig = src@;
    let mut out: Vec<Hit> = Vec::new();
    let mut k: usize = 0;
    assert(orig.skip(0) =~= orig);
    assert(orig.len() == src.len());
    while src.len() > 0
        invariant
            k + src.len() == orig.len(),
            orig.len() <= usize::MAX,
            src@ == orig.skip(k as int),
            out@ == kind_filter(orig.take(k as int), cli.files_only, cli.folders_only),
        decreases src.len(),
    {
        let h = src.remove(0);
        assert(h == orig[k as int]);
        assert(orig.take(k + 1).drop_last() =~= orig.take(k as int));
        assert(orig.skip(k + 1) =~= orig.skip(k as int).drop_first());
        let keep = if cli.files_only {
            !h.record.is_dir
        } else if cli.folders_only {
            h.record.is_dir
        } else {
            true
        };
        if keep {
            out.push(h);
        }
        k += 1;
    }
    assert(orig.take(k as int) =~= orig);
    if cli.max_results > 0 && cli.max_results < out.len() {
        out.truncate(cli.max_results);
    }
    out
}


/// The folders to index: what the command line names wins, and the
/// configuration file supplies what it leaves out.
pub fn resolve_roots(cli: &Cli, cfg: Option<EngineConfig>) -> (r: (Option<String>, Vec<String>))
    ensures
        opt_view(r.0) == match cli.name_root {
            Some(n) => Some(n@),
            None => match cfg {
                Some(c) => Some(c.name_root@),
                None => None,
            },
        },
        strings_view(r.1@) == match cli.content_root {
            Some(c) => seq![c@],
            None => match cfg {
                Some(c) => strings_view(c.content_roots@),
                None => Seq::<Seq<char>>::empty(),
            },
        },
{
    let mut name_root = match &cli.name_root {
        Some(n) => Some(n.clone()),
        None => None,
    };
    let mut content_roots: Vec<String> = match &cli.content_root {
        Some(c) => {
            let v = vec![c.clone()];
            assert(strings_view(v@) =~= seq![c@]);
            v
        },
        None => {
            let v: Vec<String> = Vec::new();
            assert(strings_view(v@) =~= Seq::<Seq<char>>::empty());
            v
        },
    };
    match cfg {
        Some(c) => {
            if name_root.is_none() {
                name_root = Some(c.name_root);
            }
            if content_roots.len() == 0 {
                content_roots = c.content_roots;
            }
        },
        None => {},
    }
    (name_root, content_roots)
}

/// The decimal digit `d`.
pub open spec fn digit_char(d: nat) -> char {
    if d == 0 {
        '0'
    } else if d == 1 {
        '1'
    } else if d == 2 {
        '2'
    } else if d == 3 {
        '3'
    } else if d == 4 {
        '4'
    } else if d == 5 {
        '5'
    } else if d == 6 {
        '6'
    } else if d == 7 {
        '7'
    } else if d == 8 {
        '8'
    } else {
        '9'
    }
}

/// `n` written in decimal.
pub open spec fn decimal(n: nat) -> Seq<char>
    decreases n,
{
    if n < 10 {
        seq![digit_char(n)]
    } else {
        decimal(n / 10).push(digit_char(n % 10))
    }
}

fn digit_char_exec(d: u64) -> (c: char)
    requires
        d < 10,
    ensures
        c == digit_char(d as nat),
{
    if d == 0 {
        '0'
    } else if d == 1 {
        '1'
    } else if d == 2 {
        '2'
    } else if d == 3 {
        '3'
    } else if d == 4 {
        '4'
    } else if d == 5 {
        '5'
    } else if d == 6 {
        '6'
    } else if d == 7 {
        '7'
    } else if d == 8 {
        '8'
    } else {
        '9'
    }
}

pub fn decimal_exec(n: u64) -> (r: Vec<char>)
    ensures
        r@ == decimal(n as nat),
    decreases n,
{
    if n < 10 {
        vec![digit_char_exec(n)]
    } else {
        let mut v = decimal_exec(n / 10);
        v.push(digit_char_exec(n % 10));
        v
    }
}

/// The paths of the hits, in order.
pub open spec fn hit_paths(hits: Seq<Hit>) -> Seq<Seq<char>> {
    hits.map_values(|h: Hit| h.record.path@)
}

/// What the tool prints for the hits, unless JSON is asked for (`None`):
/// the number of hits for `--count` (which wins over `--json`), nothing
/// for `--quiet`, else the paths one per line.
pub fn output_text(cli: &Cli, hits: &Vec<Hit>) -> (r: Option<String>)
    ensures
        match r {
            Some(t) => !(!cli.count && cli.json) && t@ == if cli.count {
                decimal(hits.len() as nat)
            } else if cli.quiet {
                Seq::<char>::empty()
            } else {
                join_with(hit_paths(hits@), '\n')
            },
            None => !cli.count && cli.json,
        },
{
    if cli.count {
        return Some(string_of(&decimal_exec(hits.len() as u64)));
    }
    if cli.json {
        return None;
    }
    if cli.quiet {
        return Some(String::new());
    }
    let mut out: Vec<char> = Vec::new();
    let mut i: usize = 0;
    while i < hits.len()
        invariant
            i <= hits.len(),
            out@ == join_with(hit_paths(hits@).take(i as int), '\n'),
        decreases hits.len() - i,
    {
        let ghost pv = hit_paths(hits@);
        assert(pv.take(i + 1).drop_last() =~= pv.take(i as int));
        assert(pv[i as int] == hits@[i as int].record.path@);
        if i > 0 {
            out.push('\n');
        }
        let ghost before = out@;
        append_chars(&mut out, &chars_of(hits[i].record.path.as_str()));
        proof {
            if i == 0 {
                assert(pv.take(1) =~= seq![pv[0]]);
                assert(out@ =~= pv.take(1)[0]);
            }
        }
        i += 1;
    }
    assert(hit_paths(hits@).take(i as int) =~= hit_paths(hits@));
    Some(string_of(&out))
}

/// Whether the output goes to standard output when no `--out` file is
/// given: always for `--count` or `--json`, else unless `--quiet`.
pub fn prints_output(cli: &Cli) -> (r: bool)
    ensures
        r == (cli.count || cli.json || !cli.quiet),
{
    cli.count || cli.json || !cli.quiet
}

proof fn lemma_cli_no_conflict(c: CliSpec, args: Seq<Seq<char>>, i: int)
    requires
        cli_from(c, args, i) is Ok,
        !cli_from(c, args, i)->Ok_0.help,
    ensures
        !(cli_from(c, args, i)->Ok_0.files_only && cli_from(c, args, i)->Ok_0.folders_only),
    decreases args.len() + 2 - i,
{
    if 0 <= i < args.len() {
        match cli_step(c, args, i) {
            Err(_) => {},
            Ok((c2, k)) => {
                if k <= 0 || k > 2 {
                } else {
                    lemma_cli_no_conflict(c2, args, i + k);
                }
            },
        }
    }
}

/// Accepted arguments never ask for files only and folders only at once
/// (unless help was asked for, which stops the reading).
pub proof fn law_files_and_folders_exclusive(args: Seq<Seq<char>>)
    requires
        cli_from(default_cli(), args, 0) is Ok,
        !cli_from(default_cli(), args, 0)->Ok_0.help,
    ensures
        !(cli_from(default_cli(), args, 0)->Ok_0.files_only && cli_from(default_cli(), args, 0)->Ok_0.folders_only),
{
    lemma_cli_no_conflict(default_cli(), args, 0);
}

} // verus!
