//! The history store: records, their one-line text form, and the store file.
use vstd::prelude::*;

use crate::config::{parse_count, texts, Config, ConfigView, FilterMode};
use crate::text::{
    chars_of, decimal, free_of, lemma_decimal, lemma_decimal_free, lemma_free_concat, lemma_parse_decimal, lemma_parse_seconds,
    lemma_split_append_free, lemma_split_len, lemma_split_push_sep, lemma_split_single,
    parse_seconds, parse_seconds_in, parse_u64, parse_u64_at, push_char, push_decimal,
    push_seconds, seconds_text, split, split_chars, string_of, views_of,
};

verus! {

/// One stored benchmark outcome. Durations are in nanoseconds.
#[derive(Debug)]
pub struct Entry {
    pub timestamp: u64,
    pub executable: String,
    pub arguments: String,
    pub note: String,
    pub runs: usize,
    pub time_mean: u64,
    pub time_stddev: u64,
}

/// An `Entry` with its texts as character sequences.
pub struct EntryView {
    pub timestamp: u64,
    pub executable: Seq<char>,
    pub arguments: Seq<char>,
    pub note: Seq<char>,
    pub runs: usize,
    pub time_mean: u64,
    pub time_stddev: u64,
}

impl View for Entry {
    type V = EntryView;

    open spec fn view(&self) -> EntryView {
        EntryView {
            timestamp: self.timestamp,
            executable: self.executable@,
            arguments: self.arguments@,
            note: self.note@,
            runs: self.runs,
            time_mean: self.time_mean,
            time_stddev: self.time_stddev,
        }
    }
}

/// Why a line is not a record.
#[derive(Debug, Clone, Copy, PartialEq, Eq, Structural)]
pub enum EntryError {
    /// The line does not have exactly seven `|`-separated fields.
    FieldCount,
    Timestamp,
    Runs,
    Mean,
    StdDev,
}

/// The line of a record: timestamp, executable, arguments, runs, mean, standard
/// deviation and note, joined by `|`, with the durations in decimal seconds.
pub open spec fn entry_text(e: EntryView) -> Seq<char> {
    decimal(e.timestamp as nat) + seq!['|'] + e.executable + seq!['|'] + e.arguments + seq!['|']
        + decimal(e.runs as nat) + seq!['|'] + seconds_text(e.time_mean as nat) + seq!['|']
        + seconds_text(e.time_stddev as nat) + seq!['|'] + e.note
}

/// The record on a line, or the first field that is wrong.
pub open spec fn parse_entry(line: Seq<char>) -> Result<EntryView, EntryError> {
    let p = split(line, '|');
    if p.len() != 7 {
        Err(EntryError::FieldCount)
    } else if parse_u64(p[0]) is None {
        Err(EntryError::Timestamp)
    } else if parse_count(p[3]) is None {
        Err(EntryError::Runs)
    } else if parse_seconds(p[4]) is None {
        Err(EntryError::Mean)
    } else if parse_seconds(p[5]) is None {
        Err(EntryError::StdDev)
    } else {
        Ok(
            EntryView {
                timestamp: parse_u64(p[0])->Some_0,
                executable: p[1],
                arguments: p[2],
                note: p[6],
                runs: parse_count(p[3])->Some_0,
                time_mean: parse_seconds(p[4])->Some_0,
                time_stddev: parse_seconds(p[5])->Some_0,
            },
        )
    }
}

/// Whether the texts of a record hold no field separator.
pub open spec fn fields_free(e: EntryView) -> bool {
    free_of(e.executable, '|') && free_of(e.arguments, '|') && free_of(e.note, '|')
}

proof fn lemma_split_field(p: Seq<char>, y: Seq<char>)
    requires
        free_of(y, '|'),
    ensures
        split(p + seq!['|'] + y, '|') == split(p, '|').push(y),
{
    lemma_split_push_sep(p, '|');
    assert(p + seq!['|'] == p.push('|'));
    lemma_split_append_free(p.push('|'), y, '|');
    let q = split(p, '|').push(Seq::<char>::empty());
    assert(Seq::<char>::empty() + y == y);
    assert(q.update(q.len() - 1, q.last() + y) =~= split(p, '|').push(y));
}

proof fn lemma_seconds_free(ns: nat, c: char)
    requires
        !crate::text::is_digit(c),
        c != '.',
        ns <= u64::MAX,
    ensures
        free_of(seconds_text(ns), c),
{
    lemma_parse_seconds(ns as u64);
    assert forall|i: int| 0 <= i < seconds_text(ns).len() implies seconds_text(ns)[i] != c by {
        assert(crate::text::is_digit(seconds_text(ns)[i]) || seconds_text(ns)[i] == '.');
    }
}

/// A record whose texts hold no `|` reads back from its line unchanged.
pub proof fn lemma_entry_round_trip(e: EntryView)
    requires
        fields_free(e),
    ensures
        parse_entry(entry_text(e)) == Ok::<EntryView, EntryError>(e),
{
    let d0 = decimal(e.timestamp as nat);
    let d3 = decimal(e.runs as nat);
    let d4 = seconds_text(e.time_mean as nat);
    let d5 = seconds_text(e.time_stddev as nat);
    lemma_decimal_free(e.timestamp as nat, '|');
    lemma_decimal_free(e.runs as nat, '|');
    lemma_parse_seconds(e.time_mean);
    lemma_parse_seconds(e.time_stddev);
    lemma_seconds_free(e.time_mean as nat, '|');
    lemma_seconds_free(e.time_stddev as nat, '|');
    lemma_parse_decimal(e.timestamp);
    lemma_decimal(e.runs as nat);
    lemma_split_single(d0, '|');
    let s1 = d0 + seq!['|'] + e.executable;
    lemma_split_field(d0, e.executable);
    let s2 = s1 + seq!['|'] + e.arguments;
    lemma_split_field(s1, e.arguments);
    let s3 = s2 + seq!['|'] + d3;
    lemma_split_field(s2, d3);
    let s4 = s3 + seq!['|'] + d4;
    lemma_split_field(s3, d4);
    let s5 = s4 + seq!['|'] + d5;
    lemma_split_field(s4, d5);
    let s6 = s5 + seq!['|'] + e.note;
    lemma_split_field(s5, e.note);
    assert(s6 == entry_text(e));
    let p = split(s6, '|');
    assert(p =~= seq![d0, e.executable, e.arguments, d3, d4, d5, e.note]);
    assert(parse_count(d3) == Some(e.runs));
}

} // verus!

verus! {

/// Reads a record from the characters of a line.
pub fn entry_from_chars(line: &Vec<char>) -> (r: Result<Entry, EntryError>)
    ensures
        match parse_entry(line@) {
            Ok(v) => r matches Ok(e) && e@ == v,
            Err(k) => r == Err::<Entry, EntryError>(k),
        },
{
    let p = split_chars(line, '|');
    if p.len() != 7 {
        return Err(EntryError::FieldCount);
    }
    assert(forall|i: int| 0 <= i < 7 ==> p@[i]@ == #[trigger] views_of(p@)[i]);
    assert(p@[0]@.subrange(0, p@[0]@.len() as int) == p@[0]@);
    assert(p@[3]@.subrange(0, p@[3]@.len() as int) == p@[3]@);
    assert(p@[1]@.subrange(0, p@[1]@.len() as int) == p@[1]@);
    assert(p@[2]@.subrange(0, p@[2]@.len() as int) == p@[2]@);
    assert(p@[6]@.subrange(0, p@[6]@.len() as int) == p@[6]@);
    let timestamp = match parse_u64_at(&p[0], 0, p[0].len()) {
        Some(t) => t,
        None => return Err(EntryError::Timestamp),
    };
    let runs = match parse_u64_at(&p[3], 0, p[3].len()) {
        Some(n) => {
            if n <= usize::MAX as u64 {
                n as usize
            } else {
                return Err(EntryError::Runs);
            }
        },
        None => return Err(EntryError::Runs),
    };
    let time_mean = match parse_seconds_in(&p[4]) {
        Some(m) => m,
        None => return Err(EntryError::Mean),
    };
    let time_stddev = match parse_seconds_in(&p[5]) {
        Some(d) => d,
        None => return Err(EntryError::StdDev),
    };
    Ok(
        Entry {
            timestamp,
            executable: string_of(&p[1], 0, p[1].len()),
            arguments: string_of(&p[2], 0, p[2].len()),
            note: string_of(&p[6], 0, p[6].len()),
            runs,
            time_mean,
            time_stddev,
        },
    )
}

impl Entry {
    /// Reads a record from its line.
    pub fn from_str(s: &str) -> (r: Result<Entry, EntryError>)
        ensures
            match parse_entry(s@) {
                Ok(v) => r matches Ok(e) && e@ == v,
                Err(k) => r == Err::<Entry, EntryError>(k),
            },
    {
        let line = chars_of(s);
        entry_from_chars(&line)
    }

    /// The line of this record.
    pub fn to_string(&self) -> (r: String)
        ensures
            r@ == entry_text(self@),
    {
        let mut s = String::new();
        self.push_text(&mut s);
        assert(s@ =~= entry_text(self@));
        s
    }

    fn push_text(&self, s: &mut String)
        ensures
            final(s)@ =~= old(s)@ + entry_text(self@),
    {
        push_decimal(s, self.timestamp);
        push_char(s, '|');
        s.append(self.executable.as_str());
        push_char(s, '|');
        s.append(self.arguments.as_str());
        push_char(s, '|');
        push_decimal(s, self.runs as u64);
        push_char(s, '|');
        push_seconds(s, self.time_mean);
        push_char(s, '|');
        push_seconds(s, self.time_stddev);
        push_char(s, '|');
        s.append(self.note.as_str());
    }
}

} // verus!

verus! {

/// The first line of a store file: the format and its version.
pub const DB_HEADER: &'static str = "# mesa database|github.com/avahidi/mesa|version=1.2";

/// A line without the carriage return of a `\r\n` ending.
pub open spec fn strip_cr(l: Seq<char>) -> Seq<char> {
    if l.len() > 0 && l.last() == '\r' {
        l.drop_last()
    } else {
        l
    }
}

/// The lines of a text: cut at each `\n`, with no empty line after a final `\n`,
/// and each without a trailing `\r`.
pub open spec fn text_lines(text: Seq<char>) -> Seq<Seq<char>> {
    let parts = split(text, '\n');
    let kept = if parts.last().len() == 0 {
        parts.drop_last()
    } else {
        parts
    };
    kept.map_values(|l: Seq<char>| strip_cr(l))
}

/// The records of the rows, or the position of the first row that is not one.
pub open spec fn parse_rows(rows: Seq<Seq<char>>) -> Result<Seq<EntryView>, (int, EntryError)>
    decreases rows.len(),
{
    if rows.len() == 0 {
        Ok(Seq::empty())
    } else {
        match parse_rows(rows.drop_last()) {
            Err(e) => Err(e),
            Ok(v) => match parse_entry(rows.last()) {
                Ok(x) => Ok(v.push(x)),
                Err(k) => Err((rows.len() - 1, k)),
            },
        }
    }
}

/// Why a store file cannot be loaded.
#[derive(Debug)]
pub enum DbError {
    /// The file is empty.
    MissingHeader,
    /// The first line is not the header of this format and version; holds it.
    UnsupportedVersion(String),
    /// A row is not a record: its line number in the file, counting from one,
    /// and what is wrong with it.
    BadEntry(usize, EntryError),
}

pub enum DbErrorView {
    MissingHeader,
    UnsupportedVersion(Seq<char>),
    BadEntry(int, EntryError),
}

impl View for DbError {
    type V = DbErrorView;

    open spec fn view(&self) -> DbErrorView {
        match self {
            DbError::MissingHeader => DbErrorView::MissingHeader,
            DbError::UnsupportedVersion(h) => DbErrorView::UnsupportedVersion(h@),
            DbError::BadEntry(n, k) => DbErrorView::BadEntry(*n as int, *k),
        }
    }
}

/// The records of a store file, or why it holds none: the header line must be
/// exact, and every following line must be a record.
pub open spec fn parse_store(text: Seq<char>) -> Result<Seq<EntryView>, DbErrorView> {
    let ls = text_lines(text);
    if ls.len() == 0 {
        Err(DbErrorView::MissingHeader)
    } else if ls[0] != DB_HEADER@ {
        Err(DbErrorView::UnsupportedVersion(ls[0]))
    } else {
        match parse_rows(ls.skip(1)) {
            Ok(v) => Ok(v),
            Err(e) => Err(DbErrorView::BadEntry(e.0 + 2, e.1)),
        }
    }
}

/// The text of a store file: the header line, then one line per record, in order.
pub open spec fn store_text(entries: Seq<EntryView>) -> Seq<char>
    decreases entries.len(),
{
    if entries.len() == 0 {
        DB_HEADER@.push('\n')
    } else {
        store_text(entries.drop_last()) + entry_text(entries.last()).push('\n')
    }
}

/// The arguments of a run as they are stored: joined by single spaces.
pub open spec fn joined(args: Seq<Seq<char>>) -> Seq<char>
    decreases args.len(),
{
    if args.len() == 0 {
        Seq::empty()
    } else if args.len() == 1 {
        args[0]
    } else {
        joined(args.drop_last()) + seq![' '] + args.last()
    }
}

/// Whether a search in `mode`, for a run of `exe` with the joined arguments
/// `args`, keeps the record `e`.
pub open spec fn entry_matches(e: EntryView, mode: FilterMode, exe: Seq<char>, args: Seq<char>) -> bool {
    match mode {
        FilterMode::All => true,
        FilterMode::Exe => e.executable == exe,
        FilterMode::Exact => e.executable == exe && e.arguments == args,
    }
}

/// The records that a search keeps, newest first.
pub open spec fn newest_matching(
    entries: Seq<EntryView>,
    mode: FilterMode,
    exe: Seq<char>,
    args: Seq<char>,
) -> Seq<EntryView>
    decreases entries.len(),
{
    if entries.len() == 0 {
        Seq::empty()
    } else {
        let rest = newest_matching(entries.drop_last(), mode, exe, args);
        if entry_matches(entries.last(), mode, exe, args) {
            seq![entries.last()] + rest
        } else {
            rest
        }
    }
}

/// What a search returns: at most `show` of the kept records, newest first.
pub open spec fn search_result(
    entries: Seq<EntryView>,
    mode: FilterMode,
    exe: Seq<char>,
    args: Seq<char>,
    show: nat,
) -> Seq<EntryView> {
    let m = newest_matching(entries, mode, exe, args);
    if m.len() <= show {
        m
    } else {
        m.take(show as int)
    }
}

pub open spec fn search_for(entries: Seq<EntryView>, cfg: ConfigView) -> Seq<EntryView> {
    search_result(entries, cfg.filter, cfg.executable, joined(cfg.arguments), cfg.show as nat)
}

} // verus!

verus! {

/// Joins the arguments of a run with single spaces.
pub fn join_arguments(args: &Vec<String>) -> (r: String)
    ensures
        r@ == joined(texts(args@)),
{
    let ghost t = texts(args@);
    let mut r = String::new();
    let mut i: usize = 0;
    assert(t.take(0) =~= Seq::<Seq<char>>::empty());
    while i < args.len()
        invariant
            i <= args@.len(),
            t == texts(args@),
            r@ == joined(t.take(i as int)),
        decreases args@.len() - i,
    {
        assert(t.take(i + 1).drop_last() =~= t.take(i as int));
        assert(t.take(i + 1).last() == args@[i as int]@);
        if i > 0 {
            push_char(&mut r, ' ');
        } else {
            assert(t.take(1) =~= seq![args@[0]@]);
        }
        r.append(args[i].as_str());
        i = i + 1;
    }
    assert(t.take(i as int) == t);
    r
}

/// The history: records in the order they were inserted, oldest first, and the
/// name of the file that holds them.
pub struct Database {
    pub entries: Vec<Entry>,
    filename: String,
}

impl View for Database {
    type V = Seq<EntryView>;

    closed spec fn view(&self) -> Seq<EntryView> {
        self.entries@.map_values(|e: Entry| e@)
    }
}

proof fn lemma_parse_rows_fail(rows: Seq<Seq<char>>, j: int)
    requires
        0 < j <= rows.len(),
        parse_rows(rows.take(j)) is Err,
    ensures
        parse_rows(rows) == parse_rows(rows.take(j)),
    decreases rows.len() - j,
{
    if j < rows.len() {
        assert(rows.take(j + 1).drop_last() == rows.take(j));
        lemma_parse_rows_fail(rows, j + 1);
    } else {
        assert(rows.take(j) == rows);
    }
}

impl Database {
    /// An empty history kept in the file `filename`.
    pub fn new(filename: &str) -> (r: Database)
        ensures
            r@ == Seq::<EntryView>::empty(),
            r.file() == filename@,
    {
        let r = Database { entries: Vec::new(), filename: String::from_str(filename) };
        assert(r@ =~= Seq::<EntryView>::empty());
        r
    }

    pub closed spec fn file(&self) -> Seq<char> {
        self.filename@
    }

    /// The name of the file that holds the history.
    pub fn filename(&self) -> (r: &str)
        ensures
            r@ == self.file(),
    {
        self.filename.as_str()
    }

    /// Loads the history from the text of its file, or, where the file does not
    /// exist (`None`), keeps it as it is. A file that is not a whole store
    /// leaves the history unchanged.
    pub fn load(&mut self, content: Option<&str>) -> (r: Result<(), DbError>)
        ensures
            final(self).file() == old(self).file(),
            content is None ==> r is Ok && final(self)@ == old(self)@,
            content matches Some(t) ==> match parse_store(t@) {
                Ok(v) => r is Ok && final(self)@ == v,
                Err(e) => r matches Err(x) && x@ == e && final(self)@ == old(self)@,
            },
            content matches Some(t) && (text_lines(t@).len() == 0 || text_lines(t@)[0] != DB_HEADER@)
                ==> r is Err,
    {
        let text = match content {
            None => return Ok(()),
            Some(t) => t,
        };
        let chars = chars_of(text);
        let parts = split_chars(&chars, '\n');
        proof {
            lemma_split_len(chars@, '\n');
        }
        let ghost pv = views_of(parts@);
        let ghost kept = if pv.last().len() == 0 {
            pv.drop_last()
        } else {
            pv
        };
        let ghost ls = text_lines(text@);
        assert(parts@[parts.len() - 1]@ == pv.last());
        let mut n = parts.len();
        if parts[n - 1].len() == 0 {
            n = n - 1;
        }
        assert(kept.len() == n);
        assert(ls.len() == n);
        if n == 0 {
            return Err(DbError::MissingHeader);
        }
        assert(forall|i: int| 0 <= i < n ==> #[trigger] ls[i] == strip_cr(parts@[i]@));
        let line = stripped(&parts[0]);
        if !crate::text::text_is(&line, 0, line.len(), DB_HEADER) {
            assert(line@.subrange(0, line@.len() as int) == line@);
            return Err(DbError::UnsupportedVersion(string_of(&line, 0, line.len())));
        }
        assert(line@.subrange(0, line@.len() as int) == line@);
        assert(ls[0] == DB_HEADER@);
        let ghost rows = ls.skip(1);
        let mut entries: Vec<Entry> = Vec::new();
        let mut i: usize = 1;
        assert(rows.take(0) =~= Seq::<Seq<char>>::empty());
        assert(entries@.map_values(|e: Entry| e@) =~= Seq::<EntryView>::empty());
        while i < n
            invariant
                1 <= i <= n <= parts@.len(),
                rows == ls.skip(1),
                ls.len() == n,
                ls == text_lines(text@),
                ls[0] == DB_HEADER@,
                content == Some(text),
                *self == *old(self),
                forall|j: int| 0 <= j < n ==> #[trigger] ls[j] == strip_cr(parts@[j]@),
                parse_rows(rows.take(i - 1)) == Ok::<Seq<EntryView>, (int, EntryError)>(
                    entries@.map_values(|e: Entry| e@),
                ),
            decreases n - i,
        {
            let line = stripped(&parts[i]);
            assert(rows.take(i as int).drop_last() == rows.take(i - 1));
            assert(rows.take(i as int).last() == ls[i as int]);
            match entry_from_chars(&line) {
                Ok(e) => {
                    entries.push(e);
                    assert(entries@.map_values(|e: Entry| e@) =~= parse_rows(rows.take(i - 1))->Ok_0.push(e@));
                },
                Err(k) => {
                    proof {
                        lemma_parse_rows_fail(rows, i as int);
                    }
                    return Err(DbError::BadEntry(i + 1, k));
                },
            }
            i = i + 1;
        }
        assert(rows.take(i - 1) == rows);
        self.entries = entries;
        Ok(())
    }

    /// The text of the history's file: the header line, then one line per
    /// record, oldest first.
    pub fn save(&self) -> (r: String)
        ensures
            r@ == store_text(self@),
    {
        let mut s = String::from_str(DB_HEADER);
        push_char(&mut s, '\n');
        let mut i: usize = 0;
        assert(self@.take(0) =~= Seq::<EntryView>::empty());
        while i < self.entries.len()
            invariant
                i <= self.entries@.len(),
                s@ == store_text(self@.take(i as int)),
            decreases self.entries@.len() - i,
        {
            assert(self@.take(i + 1).drop_last() =~= self@.take(i as int));
            assert(self@.take(i + 1).last() == self.entries@[i as int]@);
            self.entries[i].push_text(&mut s);
            push_char(&mut s, '\n');
            i = i + 1;
        }
        assert(self@.take(i as int) =~= self@);
        s
    }

    /// Appends the record of a finished benchmark of `config`, taken at
    /// `timestamp` (seconds since the epoch), with its mean and standard
    /// deviation in nanoseconds.
    pub fn insert(&mut self, config: &Config, timestamp: u64, time_mean: u64, time_stddev: u64)
        ensures
            final(self).file() == old(self).file(),
            final(self)@ == old(self)@.push(
                EntryView {
                    timestamp,
                    executable: config@.executable,
                    arguments: joined(config@.arguments),
                    note: config@.note,
                    runs: config.runs,
                    time_mean,
                    time_stddev,
                },
            ),
    {
        let e = Entry {
            timestamp,
            executable: config.executable.clone(),
            arguments: join_arguments(&config.arguments),
            note: config.note.clone(),
            runs: config.runs,
            time_mean,
            time_stddev,
        };
        self.entries.push(e);
        assert(self@ =~= old(self)@.push(e@));
    }
}

/// A line without its trailing carriage return.
fn stripped(l: &Vec<char>) -> (r: Vec<char>)
    ensures
        r@ == strip_cr(l@),
{
    let n = l.len();
    if n > 0 && l[n - 1] == '\r' {
        crate::text::take_chars(l, n - 1)
    } else {
        crate::text::take_chars(l, n)
    }
}

} // verus!

verus! {

proof fn lemma_newest_prepend(x: EntryView, s: Seq<EntryView>, mode: FilterMode, exe: Seq<char>, args: Seq<char>)
    ensures
        newest_matching(seq![x] + s, mode, exe, args) == newest_matching(s, mode, exe, args) + (
        if entry_matches(x, mode, exe, args) {
            seq![x]
        } else {
            Seq::empty()
        }),
    decreases s.len(),
{
    let t = seq![x] + s;
    if s.len() == 0 {
        assert(t.drop_last() =~= Seq::<EntryView>::empty());
        assert(t.last() == x);
        assert(newest_matching(Seq::<EntryView>::empty(), mode, exe, args) == Seq::<EntryView>::empty());
        assert(s =~= Seq::<EntryView>::empty());
        assert(newest_matching(t, mode, exe, args) =~= newest_matching(s, mode, exe, args) + (
        if entry_matches(x, mode, exe, args) {
            seq![x]
        } else {
            Seq::empty()
        }));
    } else {
        assert(t.drop_last() =~= seq![x] + s.drop_last());
        assert(t.last() == s.last());
        lemma_newest_prepend(x, s.drop_last(), mode, exe, args);
        let head = if entry_matches(s.last(), mode, exe, args) {
            seq![s.last()]
        } else {
            Seq::<EntryView>::empty()
        };
        let tail = if entry_matches(x, mode, exe, args) {
            seq![x]
        } else {
            Seq::<EntryView>::empty()
        };
        assert(newest_matching(t, mode, exe, args) == head + newest_matching(seq![x] + s.drop_last(), mode, exe, args));
        assert(newest_matching(s, mode, exe, args) == head + newest_matching(s.drop_last(), mode, exe, args));
        assert(head + (newest_matching(s.drop_last(), mode, exe, args) + tail) =~= (head + newest_matching(s.drop_last(), mode, exe, args)) + tail);
        assert(newest_matching(t, mode, exe, args) =~= newest_matching(s, mode, exe, args) + (
        if entry_matches(x, mode, exe, args) {
            seq![x]
        } else {
            Seq::empty()
        }));
    }
}

impl Database {
    /// The stored records that `cfg`'s filter keeps for its executable and
    /// joined arguments, newest first, at most `cfg.show` of them.
    pub fn search(&self, cfg: &Config) -> (r: Vec<&Entry>)
        ensures
            r@.map_values(|e: &Entry| e@) == search_for(self@, cfg@),
            r@.len() <= cfg.show,
    {
        let arguments = join_arguments(&cfg.arguments);
        let ghost all = self@;
        let ghost exe = cfg@.executable;
        let ghost args = joined(cfg@.arguments);
        let show = cfg.show;
        let mut r: Vec<&Entry> = Vec::new();
        let mut i: usize = self.entries.len();
        assert(all.subrange(i as int, all.len() as int) =~= Seq::<EntryView>::empty());
        assert(r@.map_values(|e: &Entry| e@) =~= Seq::<EntryView>::empty());
        while i > 0
            invariant
                i <= self.entries@.len(),
                all == self@,
                all.len() == self.entries@.len(),
                forall|j: int| 0 <= j < all.len() ==> #[trigger] all[j] == self.entries@[j]@,
                arguments@ == args,
                exe == cfg@.executable,
                args == joined(cfg@.arguments),
                show == cfg.show,
                r@.len() <= show,
                r@.map_values(|e: &Entry| e@) == search_result(
                    all.subrange(i as int, all.len() as int),
                    cfg.filter,
                    exe,
                    args,
                    show as nat,
                ),
            decreases i,
        {
            i = i - 1;
            let e = &self.entries[i];
            let ghost before = all.subrange(i + 1, all.len() as int);
            let ghost after = all.subrange(i as int, all.len() as int);
            assert(after =~= seq![e@] + before);
            proof {
                lemma_newest_prepend(e@, before, cfg.filter, exe, args);
            }
            let same_exe = e.executable == cfg.executable;
            assert(same_exe == (e@.executable == exe));
            let same_args = e.arguments == arguments;
            assert(same_args == (e@.arguments == args));
            let keep = match cfg.filter {
                FilterMode::All => true,
                FilterMode::Exe => same_exe,
                FilterMode::Exact => same_exe && same_args,
            };
            assert(e@ == all[i as int]);
            assert(e@.executable == e.executable@);
            assert(keep == entry_matches(e@, cfg.filter, exe, args));
            let ghost nb = newest_matching(before, cfg.filter, exe, args);
            let ghost na = newest_matching(after, cfg.filter, exe, args);
            let ghost old_view = r@.map_values(|e: &Entry| e@);
            if keep && r.len() < show {
                assert(old_view == nb);
                r.push(e);
                assert(r@.map_values(|e: &Entry| e@) =~= old_view.push(e@));
                assert(na =~= nb.push(e@));
                assert(r@.map_values(|e: &Entry| e@) =~= na);
            } else {
                assert(na.take(nb.len() as int) =~= nb);
                assert(nb.len() >= show ==> na.take(show as int) =~= nb.take(show as int));
            }
        }
        assert(all.subrange(0, all.len() as int) =~= all);
        r
    }
}

/// A search for a run of `exe` with the joined arguments `args` returns no
/// more records as its filter narrows: `Exact` gives no more than `Exe`, which
/// gives no more than `All`, which gives no more than `show`.
pub proof fn lemma_filter_monotone(entries: Seq<EntryView>, exe: Seq<char>, args: Seq<char>, show: nat)
    ensures
        search_result(entries, FilterMode::Exact, exe, args, show).len() <= search_result(
            entries,
            FilterMode::Exe,
            exe,
            args,
            show,
        ).len(),
        search_result(entries, FilterMode::Exe, exe, args, show).len() <= search_result(
            entries,
            FilterMode::All,
            exe,
            args,
            show,
        ).len(),
        search_result(entries, FilterMode::All, exe, args, show).len() <= show,
{
    lemma_newest_len(entries, exe, args);
}

proof fn lemma_newest_len(entries: Seq<EntryView>, exe: Seq<char>, args: Seq<char>)
    ensures
        newest_matching(entries, FilterMode::Exact, exe, args).len() <= newest_matching(
            entries,
            FilterMode::Exe,
            exe,
            args,
        ).len(),
        newest_matching(entries, FilterMode::Exe, exe, args).len() <= newest_matching(
            entries,
            FilterMode::All,
            exe,
            args,
        ).len(),
    decreases entries.len(),
{
    if entries.len() > 0 {
        lemma_newest_len(entries.drop_last(), exe, args);
    }
}

} // verus!

verus! {

/// How long before `from` a record taken at `ts` was made: "just now", or
/// hours (at least four wide), minutes and seconds (two digits each) and "ago".
pub open spec fn age_text(from: u64, ts: u64) -> Seq<char> {
    let d: int = if from > ts {
        from - ts
    } else {
        0
    };
    if d == 0 {
        "just now"@
    } else {
        crate::text::pad_left(decimal((d / 3600) as nat), 4, ' ') + ":"@ + crate::text::pad_left(
            decimal(((d % 3600) / 60) as nat),
            2,
            '0',
        ) + ":"@ + crate::text::pad_left(decimal((d % 60) as nat), 2, '0') + " ago"@
    }
}

impl Entry {
    /// The age of this record at the time `from`, in seconds since the epoch.
    pub fn age(&self, from: u64) -> (r: String)
        ensures
            r@ == age_text(from, self.timestamp),
    {
        let diff = from.saturating_sub(self.timestamp);
        if diff == 0 {
            return String::from_str("just now");
        }
        let mut s = String::new();
        crate::text::push_padded(&mut s, diff / 3600, 4, ' ');
        s.append(":");
        crate::text::push_padded(&mut s, (diff % 3600) / 60, 2, '0');
        s.append(":");
        crate::text::push_padded(&mut s, diff % 60, 2, '0');
        s.append(" ago");
        assert(s@ =~= age_text(from, self.timestamp));
        s
    }
}

} // verus!

verus! {

proof fn lemma_bad_row(rows: Seq<Seq<char>>, j: int)
    requires
        0 <= j < rows.len(),
        parse_entry(rows[j]) is Err,
    ensures
        parse_rows(rows) is Err,
    decreases rows.len(),
{
    if j < rows.len() - 1 {
        assert(rows.drop_last()[j] == rows[j]);
        lemma_bad_row(rows.drop_last(), j);
    }
}

/// A store file with a row that does not have exactly seven fields does not
/// load at all, whatever the other rows hold.
pub proof fn lemma_malformed_row_fails(text: Seq<char>, i: int)
    requires
        1 <= i < text_lines(text).len(),
        split(text_lines(text)[i], '|').len() != 7,
    ensures
        parse_store(text) is Err,
{
    let ls = text_lines(text);
    if ls[0] == DB_HEADER@ {
        assert(ls.skip(1)[i - 1] == ls[i]);
        lemma_bad_row(ls.skip(1), i - 1);
    }
}

impl EntryError {
    /// What is wrong with the line, in words.
    pub fn message(&self) -> (r: &'static str) {
        match self {
            EntryError::FieldCount => "Invalid entry format",
            EntryError::Timestamp => "Invalid timestamp",
            EntryError::Runs => "Invalid run count",
            EntryError::Mean => "Invalid execution time",
            EntryError::StdDev => "Invalid std dev",
        }
    }
}

impl DbError {
    /// The error in words.
    pub fn message(&self) -> (r: String)
        ensures
            self matches DbError::UnsupportedVersion(h) ==> r@ == "Unsupported database version: "@
                + h@,
    {
        match self {
            DbError::MissingHeader => String::from_str("Error reading database header"),
            DbError::UnsupportedVersion(h) => {
                let mut s = String::from_str("Unsupported database version: ");
                s.append(h.as_str());
                s
            },
            DbError::BadEntry(line, k) => {
                let mut s = String::from_str("Failed to parse entry on line ");
                push_decimal(&mut s, *line as u64);
                s.append(": ");
                s.append(k.message());
                s
            },
        }
    }
}

} // verus!

verus! {

/// Whether a text holds no line break and no carriage return.
pub open spec fn line_free(s: Seq<char>) -> bool {
    free_of(s, '\n') && free_of(s, '\r')
}

/// Whether a record reads back from the store file as it was written: its
/// texts hold no `|`, no line break and no carriage return.
pub open spec fn storable(e: EntryView) -> bool {
    fields_free(e) && line_free(e.executable) && line_free(e.arguments) && line_free(e.note)
}

pub open spec fn entry_lines(es: Seq<EntryView>) -> Seq<Seq<char>> {
    es.map_values(|e: EntryView| entry_text(e))
}

proof fn lemma_entry_text_free(e: EntryView, c: char)
    requires
        !crate::text::is_digit(c),
        c != '.',
        c != '|',
        free_of(e.executable, c),
        free_of(e.arguments, c),
        free_of(e.note, c),
    ensures
        free_of(entry_text(e), c),
{
    let bar = seq!['|'];
    assert(free_of(bar, c));
    lemma_decimal_free(e.timestamp as nat, c);
    lemma_decimal_free(e.runs as nat, c);
    lemma_seconds_free(e.time_mean as nat, c);
    lemma_seconds_free(e.time_stddev as nat, c);
    let d0 = decimal(e.timestamp as nat);
    lemma_free_concat(d0, bar, c);
    lemma_free_concat(d0 + bar, e.executable, c);
    lemma_free_concat(d0 + bar + e.executable, bar, c);
    let s2 = d0 + bar + e.executable + bar;
    lemma_free_concat(s2, e.arguments, c);
    lemma_free_concat(s2 + e.arguments, bar, c);
    let s3 = s2 + e.arguments + bar;
    lemma_free_concat(s3, decimal(e.runs as nat), c);
    lemma_free_concat(s3 + decimal(e.runs as nat), bar, c);
    let s4 = s3 + decimal(e.runs as nat) + bar;
    lemma_free_concat(s4, seconds_text(e.time_mean as nat), c);
    lemma_free_concat(s4 + seconds_text(e.time_mean as nat), bar, c);
    let s5 = s4 + seconds_text(e.time_mean as nat) + bar;
    lemma_free_concat(s5, seconds_text(e.time_stddev as nat), c);
    lemma_free_concat(s5 + seconds_text(e.time_stddev as nat), bar, c);
    let s6 = s5 + seconds_text(e.time_stddev as nat) + bar;
    lemma_free_concat(s6, e.note, c);
    assert(s6 + e.note == entry_text(e));
}

proof fn lemma_store_split(es: Seq<EntryView>)
    requires
        forall|i: int| 0 <= i < es.len() ==> storable(#[trigger] es[i]),
    ensures
        split(store_text(es), '\n') == seq![DB_HEADER@] + entry_lines(es) + seq![Seq::<char>::empty()],
    decreases es.len(),
{
    if es.len() == 0 {
        reveal_strlit("# mesa database|github.com/avahidi/mesa|version=1.2");
        assert(free_of(DB_HEADER@, '\n'));
        lemma_split_single(DB_HEADER@, '\n');
        lemma_split_push_sep(DB_HEADER@, '\n');
        assert(entry_lines(es) =~= Seq::<Seq<char>>::empty());
        assert(split(store_text(es), '\n') =~= seq![DB_HEADER@] + entry_lines(es) + seq![
            Seq::<char>::empty(),
        ]);
    } else {
        let prev = es.drop_last();
        assert forall|i: int| 0 <= i < prev.len() implies storable(#[trigger] prev[i]) by {
            assert(prev[i] == es[i]);
        }
        lemma_store_split(prev);
        let s = store_text(prev);
        let y = entry_text(es.last());
        assert(storable(es[es.len() - 1]));
        lemma_entry_text_free(es.last(), '\n');
        lemma_split_append_free(s, y, '\n');
        lemma_split_push_sep(s + y, '\n');
        assert(s + y.push('\n') == (s + y).push('\n'));
        let q = split(s, '\n');
        assert(q.update(q.len() - 1, q.last() + y) =~= seq![DB_HEADER@] + entry_lines(prev) + seq![y]);
        assert(entry_lines(es) =~= entry_lines(prev).push(y));
        assert(split(store_text(es), '\n') =~= seq![DB_HEADER@] + entry_lines(es) + seq![
            Seq::<char>::empty(),
        ]);
    }
}

proof fn lemma_rows_round_trip(es: Seq<EntryView>)
    requires
        forall|i: int| 0 <= i < es.len() ==> storable(#[trigger] es[i]),
    ensures
        parse_rows(entry_lines(es)) == Ok::<Seq<EntryView>, (int, EntryError)>(es),
    decreases es.len(),
{
    if es.len() > 0 {
        let prev = es.drop_last();
        assert forall|i: int| 0 <= i < prev.len() implies storable(#[trigger] prev[i]) by {
            assert(prev[i] == es[i]);
        }
        lemma_rows_round_trip(prev);
        assert(entry_lines(es).drop_last() =~= entry_lines(prev));
        assert(storable(es[es.len() - 1]));
        lemma_entry_round_trip(es.last());
        assert(prev.push(es.last()) =~= es);
    } else {
        assert(entry_lines(es) =~= Seq::<Seq<char>>::empty());
        assert(es =~= Seq::<EntryView>::empty());
    }
}

/// The text that `save` writes loads back as the same records, when no record
/// holds a `|`, a line break or a carriage return in its texts.
pub proof fn lemma_store_round_trip(es: Seq<EntryView>)
    requires
        forall|i: int| 0 <= i < es.len() ==> storable(#[trigger] es[i]),
    ensures
        parse_store(store_text(es)) == Ok::<Seq<EntryView>, DbErrorView>(es),
{
    lemma_store_split(es);
    lemma_rows_round_trip(es);
    reveal_strlit("# mesa database|github.com/avahidi/mesa|version=1.2");
    let parts = split(store_text(es), '\n');
    let kept = seq![DB_HEADER@] + entry_lines(es);
    assert(parts.drop_last() =~= kept);
    let ls = text_lines(store_text(es));
    assert forall|i: int| 0 <= i < kept.len() implies strip_cr(#[trigger] kept[i]) == kept[i] by {
        if i > 0 {
            assert(kept[i] == entry_text(es[i - 1]));
            assert(storable(es[i - 1]));
            lemma_entry_text_free(es[i - 1], '\r');
            if kept[i].len() > 0 {
                assert(kept[i].last() != '\r');
            }
        } else {
            assert(DB_HEADER@.last() != '\r');
        }
    }
    assert(ls =~= kept);
    assert(ls.skip(1) =~= entry_lines(es));
}

} // verus!
