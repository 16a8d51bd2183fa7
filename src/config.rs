//! The run configuration and the parsing of the command line that sets it.
use vstd::prelude::*;

use crate::text::{chars_of, find_char, first_index, lemma_first_index, parse_u64, parse_u64_at, string_of, text_is};

verus! {

/// Which stored records a search keeps.
#[derive(Debug, Clone, Copy, PartialEq, Eq, Structural)]
pub enum FilterMode {
    /// Every record.
    All,
    /// Records of the same executable.
    Exe,
    /// Records of the same executable with the same arguments.
    Exact,
}

/// The resolved parameters of one benchmark invocation.
#[derive(Debug)]
pub struct Config {
    pub executable: String,
    pub arguments: Vec<String>,
    pub note: String,
    pub database: String,
    pub output: String,
    pub filter: FilterMode,
    pub show: usize,
    pub runs: usize,
    pub runs_warmup: usize,
    pub ignore_failure: bool,
    pub dry_run: bool,
    pub verbose: bool,
}

/// A `Config` with its texts as character sequences.
pub struct ConfigView {
    pub executable: Seq<char>,
    pub arguments: Seq<Seq<char>>,
    pub note: Seq<char>,
    pub database: Seq<char>,
    pub output: Seq<char>,
    pub filter: FilterMode,
    pub show: usize,
    pub runs: usize,
    pub runs_warmup: usize,
    pub ignore_failure: bool,
    pub dry_run: bool,
    pub verbose: bool,
}

pub open spec fn texts(v: Seq<String>) -> Seq<Seq<char>> {
    v.map_values(|s: String| s@)
}

impl View for Config {
    type V = ConfigView;

    open spec fn view(&self) -> ConfigView {
        ConfigView {
            executable: self.executable@,
            arguments: texts(self.arguments@),
            note: self.note@,
            database: self.database@,
            output: self.output@,
            filter: self.filter,
            show: self.show,
            runs: self.runs,
            runs_warmup: self.runs_warmup,
            ignore_failure: self.ignore_failure,
            dry_run: self.dry_run,
            verbose: self.verbose,
        }
    }
}

/// Why a command line gives no configuration.
#[derive(Debug)]
pub enum ConfigError {
    /// `-h` or `--help` was given: the caller shows the usage and stops.
    RequestedHelp,
    /// A filter mode other than `all`, `exe` or `exact`; holds the whole option.
    UnknownMode(String),
    /// A count that is not an unsigned number; holds the whole option.
    BadNumber(String),
    /// An option that is not known; holds it.
    UnknownParameter(String),
    /// Nothing follows `--`, or `--` is missing.
    MissingTarget,
}

pub enum ConfigErrorView {
    RequestedHelp,
    UnknownMode(Seq<char>),
    BadNumber(Seq<char>),
    UnknownParameter(Seq<char>),
    MissingTarget,
}

impl View for ConfigError {
    type V = ConfigErrorView;

    open spec fn view(&self) -> ConfigErrorView {
        match self {
            ConfigError::RequestedHelp => ConfigErrorView::RequestedHelp,
            ConfigError::UnknownMode(a) => ConfigErrorView::UnknownMode(a@),
            ConfigError::BadNumber(a) => ConfigErrorView::BadNumber(a@),
            ConfigError::UnknownParameter(a) => ConfigErrorView::UnknownParameter(a@),
            ConfigError::MissingTarget => ConfigErrorView::MissingTarget,
        }
    }
}

/// The settings before any option is read.
pub open spec fn default_options() -> ConfigView {
    ConfigView {
        executable: Seq::empty(),
        arguments: Seq::empty(),
        note: Seq::empty(),
        database: ".mesa.data"@,
        output: "stdout"@,
        filter: FilterMode::Exe,
        show: 5,
        runs: 1,
        runs_warmup: 0,
        ignore_failure: false,
        dry_run: false,
        verbose: false,
    }
}

/// A count: an unsigned number that fits in a `usize`.
pub open spec fn parse_count(s: Seq<char>) -> Option<usize> {
    match parse_u64(s) {
        Some(n) => if n <= usize::MAX {
            Some(n as usize)
        } else {
            None
        },
        None => None,
    }
}

/// The effect of one option of the form `key=value`.
pub open spec fn apply_keyed(
    c: ConfigView,
    arg: Seq<char>,
    key: Seq<char>,
    value: Seq<char>,
) -> Result<ConfigView, ConfigErrorView> {
    if key == "-d"@ || key == "--database"@ {
        Ok(ConfigView { database: value, ..c })
    } else if key == "-o"@ || key == "--output"@ {
        Ok(ConfigView { output: value, ..c })
    } else if key == "--note"@ {
        Ok(ConfigView { note: value, ..c })
    } else if key == "-f"@ || key == "--filter"@ {
        if value == "all"@ {
            Ok(ConfigView { filter: FilterMode::All, ..c })
        } else if value == "exe"@ {
            Ok(ConfigView { filter: FilterMode::Exe, ..c })
        } else if value == "exact"@ {
            Ok(ConfigView { filter: FilterMode::Exact, ..c })
        } else {
            Err(ConfigErrorView::UnknownMode(arg))
        }
    } else if key == "-s"@ || key == "--show"@ {
        match parse_count(value) {
            Some(n) => Ok(ConfigView { show: n, ..c }),
            None => Err(ConfigErrorView::BadNumber(arg)),
        }
    } else if key == "-r"@ || key == "--runs"@ {
        match parse_count(value) {
            Some(n) => Ok(ConfigView { runs: n, ..c }),
            None => Err(ConfigErrorView::BadNumber(arg)),
        }
    } else if key == "-w"@ || key == "--warmup"@ {
        match parse_count(value) {
            Some(n) => Ok(ConfigView { runs_warmup: n, ..c }),
            None => Err(ConfigErrorView::BadNumber(arg)),
        }
    } else {
        Err(ConfigErrorView::UnknownParameter(arg))
    }
}

/// The effect of one option of the form `flag`.
pub open spec fn apply_flag(c: ConfigView, arg: Seq<char>) -> Result<ConfigView, ConfigErrorView> {
    if arg == "-h"@ || arg == "--help"@ {
        Err(ConfigErrorView::RequestedHelp)
    } else if arg == "-i"@ || arg == "--ignore"@ {
        Ok(ConfigView { ignore_failure: true, ..c })
    } else if arg == "--dry-run"@ {
        Ok(ConfigView { dry_run: true, ..c })
    } else if arg == "-v"@ || arg == "--verbose"@ {
        Ok(ConfigView { verbose: true, ..c })
    } else {
        Err(ConfigErrorView::UnknownParameter(arg))
    }
}

/// The effect of one option: its key runs up to the first `=`.
pub open spec fn apply_option(c: ConfigView, arg: Seq<char>) -> Result<ConfigView, ConfigErrorView> {
    let k = first_index(arg, '=');
    if k >= 0 {
        apply_keyed(c, arg, arg.take(k), arg.skip(k + 1))
    } else {
        apply_flag(c, arg)
    }
}

/// The options read in order; the first that fails decides.
pub open spec fn apply_options(args: Seq<Seq<char>>) -> Result<ConfigView, ConfigErrorView>
    decreases args.len(),
{
    if args.len() == 0 {
        Ok(default_options())
    } else {
        match apply_options(args.drop_last()) {
            Ok(c) => apply_option(c, args.last()),
            Err(e) => Err(e),
        }
    }
}

/// The configuration that a command line gives: the options stand before the
/// first `--`, the program and its arguments after it.
pub open spec fn parse_config(args: Seq<Seq<char>>) -> Result<ConfigView, ConfigErrorView> {
    let sep = first_index(args, "--"@);
    let mine = if sep >= 0 {
        args.take(sep)
    } else {
        args
    };
    let yours = if sep >= 0 {
        args.skip(sep + 1)
    } else {
        Seq::empty()
    };
    match apply_options(mine) {
        Err(e) => Err(e),
        Ok(c) => if yours.len() == 0 {
            Err(ConfigErrorView::MissingTarget)
        } else {
            Ok(ConfigView { executable: yours[0], arguments: yours.skip(1), ..c })
        },
    }
}

} // verus!

verus! {

fn count_option(arg: &String, a: &Vec<char>, k: usize) -> (r: Result<usize, ConfigError>)
    requires
        a@ == arg@,
        k < a@.len(),
    ensures
        match parse_count(a@.skip(k + 1)) {
            Some(n) => r == Ok::<usize, ConfigError>(n),
            None => r matches Err(ConfigError::BadNumber(s)) && s@ == arg@,
        },
{
    assert(a@.subrange(k + 1, a@.len() as int) == a@.skip(k + 1));
    let n = a.len();
    match parse_u64_at(a, k + 1, n) {
        Some(n) => {
            if n <= usize::MAX as u64 {
                Ok(n as usize)
            } else {
                Err(ConfigError::BadNumber(arg.clone()))
            }
        },
        None => Err(ConfigError::BadNumber(arg.clone())),
    }
}

/// Reads one option into `c`.
fn apply_option_to(c: &mut Config, arg: &String) -> (r: Result<(), ConfigError>)
    ensures
        match apply_option(old(c)@, arg@) {
            Ok(v) => r is Ok && final(c)@ == v,
            Err(e) => r matches Err(x) && x@ == e,
        },
{
    let a = chars_of(arg.as_str());
    let n = a.len();
    proof {
        lemma_first_index(a@, '=');
    }
    match find_char(&a, '=') {
        Some(k) => {
            assert(a@.subrange(0, k as int) == a@.take(k as int));
            assert(a@.subrange(k + 1, n as int) == a@.skip(k + 1));
            if text_is(&a, 0, k, "-d") || text_is(&a, 0, k, "--database") {
                c.database = string_of(&a, k + 1, n);
            } else if text_is(&a, 0, k, "-o") || text_is(&a, 0, k, "--output") {
                c.output = string_of(&a, k + 1, n);
            } else if text_is(&a, 0, k, "--note") {
                c.note = string_of(&a, k + 1, n);
            } else if text_is(&a, 0, k, "-f") || text_is(&a, 0, k, "--filter") {
                if text_is(&a, k + 1, n, "all") {
                    c.filter = FilterMode::All;
                } else if text_is(&a, k + 1, n, "exe") {
                    c.filter = FilterMode::Exe;
                } else if text_is(&a, k + 1, n, "exact") {
                    c.filter = FilterMode::Exact;
                } else {
                    return Err(ConfigError::UnknownMode(arg.clone()));
                }
            } else if text_is(&a, 0, k, "-s") || text_is(&a, 0, k, "--show") {
                c.show = count_option(arg, &a, k)?;
            } else if text_is(&a, 0, k, "-r") || text_is(&a, 0, k, "--runs") {
                c.runs = count_option(arg, &a, k)?;
            } else if text_is(&a, 0, k, "-w") || text_is(&a, 0, k, "--warmup") {
                c.runs_warmup = count_option(arg, &a, k)?;
            } else {
                return Err(ConfigError::UnknownParameter(arg.clone()));
            }
        },
        None => {
            assert(a@.subrange(0, n as int) == a@);
            if text_is(&a, 0, n, "-h") || text_is(&a, 0, n, "--help") {
                return Err(ConfigError::RequestedHelp);
            } else if text_is(&a, 0, n, "-i") || text_is(&a, 0, n, "--ignore") {
                c.ignore_failure = true;
            } else if text_is(&a, 0, n, "--dry-run") {
                c.dry_run = true;
            } else if text_is(&a, 0, n, "-v") || text_is(&a, 0, n, "--verbose") {
                c.verbose = true;
            } else {
                return Err(ConfigError::UnknownParameter(arg.clone()));
            }
        },
    }
    Ok(())
}

} // verus!

verus! {

fn find_separator(args: &Vec<String>) -> (r: Option<usize>)
    ensures
        match r {
            Some(i) => first_index(texts(args@), "--"@) == i,
            None => first_index(texts(args@), "--"@) == -1,
        },
{
    let ghost t = texts(args@);
    let mut i: usize = 0;
    while i < args.len()
        invariant
            i <= args@.len(),
            t == texts(args@),
            first_index(t.take(i as int), "--"@) == -1,
        decreases args@.len() - i,
    {
        let a = chars_of(args[i].as_str());
        assert(t.take(i + 1).drop_last() == t.take(i as int));
        assert(a@.subrange(0, a@.len() as int) == a@);
        if text_is(&a, 0, a.len(), "--") {
            proof {
                crate::text::lemma_first_index_prefix(t, "--"@, i + 1);
            }
            return Some(i);
        }
        i = i + 1;
    }
    assert(t.take(i as int) == t);
    None
}

impl Config {
    /// Builds the configuration from a command line without the program's own name.
    /// The options (`--database=`, `--output=`, `--note=`, `--filter=`, `--show=`,
    /// `--runs=`, `--warmup=`, `--ignore`, `--dry-run`, `--verbose`, `--help`, and
    /// their short forms) stand before `--`; the program and its arguments after it.
    pub fn new(args: Vec<String>) -> (r: Result<Config, ConfigError>)
        ensures
            match parse_config(texts(args@)) {
                Ok(v) => r matches Ok(c) && c@ == v,
                Err(e) => r matches Err(x) && x@ == e,
            },
    {
        let ghost t = texts(args@);
        let sep = find_separator(&args);
        proof {
            lemma_first_index(t, "--"@);
        }
        let mine_len = match sep {
            Some(p) => p,
            None => args.len(),
        };
        let ghost mine = if first_index(t, "--"@) >= 0 {
            t.take(first_index(t, "--"@))
        } else {
            t
        };
        let mut c = Config {
            executable: String::new(),
            arguments: Vec::new(),
            note: String::new(),
            database: String::from_str(".mesa.data"),
            output: String::from_str("stdout"),
            filter: FilterMode::Exe,
            show: 5,
            runs: 1,
            runs_warmup: 0,
            ignore_failure: false,
            dry_run: false,
            verbose: false,
        };
        assert(c@.arguments =~= Seq::<Seq<char>>::empty());
        assert(mine.take(0) =~= Seq::<Seq<char>>::empty());
        let mut i: usize = 0;
        while i < mine_len
            invariant
                mine_len <= args@.len(),
                mine.len() == mine_len,
                mine =~= t.take(mine_len as int),
                mine == (if first_index(t, "--"@) >= 0 {
                    t.take(first_index(t, "--"@))
                } else {
                    t
                }),
                t == texts(args@),
                i <= mine_len,
                apply_options(mine.take(i as int)) == Ok::<ConfigView, ConfigErrorView>(c@),
            decreases mine_len - i,
        {
            assert(mine.take(i + 1).drop_last() == mine.take(i as int));
            assert(mine.take(i + 1).last() == args@[i as int]@);
            match apply_option_to(&mut c, &args[i]) {
                Ok(()) => {},
                Err(e) => {
                    proof {
                        lemma_apply_options_fail(mine, i + 1);
                    }
                    assert(apply_options(mine) == Err::<ConfigView, ConfigErrorView>(e@));
                    return Err(e);
                },
            }
            i = i + 1;
        }
        assert(mine.take(i as int) == mine);
        if sep.is_none() || mine_len + 1 >= args.len() {
            return Err(ConfigError::MissingTarget);
        }
        let first = mine_len + 1;
        let ghost yours = t.skip(first as int);
        c.executable = args[first].clone();
        let mut arguments: Vec<String> = Vec::new();
        let mut j: usize = first + 1;
        while j < args.len()
            invariant
                first < j <= args@.len(),
                t == texts(args@),
                texts(arguments@) =~= t.subrange(first + 1, j as int),
            decreases args@.len() - j,
        {
            let a = args[j].clone();
            arguments.push(a);
            assert(t.subrange(first + 1, j + 1) =~= t.subrange(first + 1, j as int).push(args@[j as int]@));
            j = j + 1;
        }
        c.arguments = arguments;
        assert(c@.arguments =~= yours.skip(1));
        Ok(c)
    }

    /// Builds the configuration from the whole command line: the program's own
    /// name comes first and is passed over.
    pub fn build(args: Vec<String>) -> (r: Result<Config, ConfigError>)
        ensures
            args@.len() == 0 ==> r matches Err(ConfigError::MissingTarget),
            args@.len() > 0 ==> match parse_config(texts(args@).skip(1)) {
                Ok(v) => r matches Ok(c) && c@ == v,
                Err(e) => r matches Err(x) && x@ == e,
            },
    {
        if args.len() == 0 {
            return Err(ConfigError::MissingTarget);
        }
        let mut rest: Vec<String> = Vec::new();
        let mut j: usize = 1;
        while j < args.len()
            invariant
                1 <= j <= args@.len(),
                texts(rest@) =~= texts(args@).subrange(1, j as int),
            decreases args@.len() - j,
        {
            let a = args[j].clone();
            rest.push(a);
            assert(texts(args@).subrange(1, j + 1) =~= texts(args@).subrange(1, j as int).push(args@[j as int]@));
            j = j + 1;
        }
        assert(texts(rest@) =~= texts(args@).skip(1));
        Config::new(rest)
    }
}

proof fn lemma_apply_options_fail(args: Seq<Seq<char>>, i: int)
    requires
        0 < i <= args.len(),
        apply_options(args.take(i)) is Err,
    ensures
        apply_options(args) == apply_options(args.take(i)),
    decreases args.len() - i,
{
    if i < args.len() {
        assert(args.take(i + 1).drop_last() == args.take(i));
        lemma_apply_options_fail(args, i + 1);
    } else {
        assert(args.take(i) == args);
    }
}

} // verus!

verus! {

impl Config {
    /// The usage text for the program named `me`.
    pub fn help(me: &str) -> (r: String)
        ensures
            r@ == "Usage: "@ + me@ + USAGE_OPTIONS@,
    {
        let mut s = String::from_str("Usage: ");
        s.append(me);
        s.append(USAGE_OPTIONS);
        s
    }
}

/// The part of the usage text after the program's name.
pub const USAGE_OPTIONS: &'static str = " [mesa options] -- <program> [program arguments]\n\
     Where options are:\n   \
       --database=<filename>          name of time database\n   \
       --output=<filename>            output file (CSV/JSON/TXT/XML/...) or stdout\n   \
       --note=...                     description about this run\n   \
       --runs=<number>                number of times target is run\n   \
       --warmup=<number>              number of untimed runs before those\n   \
       --filter=<mode>                filter mode: all, exe, exact\n   \
       --show=<number>                max number of items to show\n   \
       --ignore                       ignore if application returns non-zero\n   \
       --dry-run                      do not save this run to the database\n   \
       --verbose                      show the program's output\n";

impl ConfigError {
    /// The error in words.
    pub fn message(&self) -> (r: String)
        ensures
            self matches ConfigError::UnknownMode(a) ==> r@ == "Unknown mode: "@ + a@,
            self matches ConfigError::BadNumber(a) ==> r@ == "Bad number: "@ + a@,
            self matches ConfigError::UnknownParameter(a) ==> r@ == "Unknown parameter: "@ + a@,
    {
        match self {
            ConfigError::RequestedHelp => String::from_str("Help requested"),
            ConfigError::UnknownMode(a) => {
                let mut s = String::from_str("Unknown mode: ");
                s.append(a.as_str());
                s
            },
            ConfigError::BadNumber(a) => {
                let mut s = String::from_str("Bad number: ");
                s.append(a.as_str());
                s
            },
            ConfigError::UnknownParameter(a) => {
                let mut s = String::from_str("Unknown parameter: ");
                s.append(a.as_str());
                s
            },
            ConfigError::MissingTarget => String::from_str(
                "The target program is missing. Use '--' to separate `mesa` options from the program to be executed.",
            ),
        }
    }
}

} // verus!
