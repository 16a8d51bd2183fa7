//! Rendering of search results as a table, CSV, JSON or XML.
use vstd::prelude::*;

use crate::config::texts;
use crate::database::{Entry, EntryView};
use crate::text::{chars_of, decimal, push_char, push_decimal, push_seconds, seconds_text};

verus! {

/// The quoting rules of the text formats.
#[derive(Debug, Clone, Copy, PartialEq, Eq, Structural)]
pub enum Quoting {
    /// `"` doubled.
    Csv,
    /// `"` preceded by a backslash; nothing else escaped.
    Json,
    /// `&`, `<` and `>` as entities.
    Xml,
}

pub open spec fn quoted_char(q: Quoting, c: char) -> Seq<char> {
    match q {
        Quoting::Csv => if c == '"' {
            "\"\""@
        } else {
            seq![c]
        },
        Quoting::Json => if c == '"' {
            "\\\""@
        } else {
            seq![c]
        },
        Quoting::Xml => if c == '&' {
            "&amp;"@
        } else if c == '<' {
            "&lt;"@
        } else if c == '>' {
            "&gt;"@
        } else {
            seq![c]
        },
    }
}

/// `s` with each character quoted by the rules of `q`.
pub open spec fn quoted(q: Quoting, s: Seq<char>) -> Seq<char>
    decreases s.len(),
{
    if s.len() == 0 {
        Seq::empty()
    } else {
        quoted(q, s.drop_last()) + quoted_char(q, s.last())
    }
}

/// Appends `s` quoted by the rules of `q`.
pub fn push_quoted(out: &mut String, q: Quoting, s: &str)
    ensures
        final(out)@ == old(out)@ + quoted(q, s@),
{
    let v = chars_of(s);
    let mut i: usize = 0;
    assert(v@.take(0) =~= Seq::<char>::empty());
    assert(old(out)@ + Seq::<char>::empty() == old(out)@);
    while i < v.len()
        invariant
            i <= v@.len(),
            v@ == s@,
            out@ == old(out)@ + quoted(q, v@.take(i as int)),
        decreases v@.len() - i,
    {
        let c = v[i];
        assert(v@.take(i + 1).drop_last() == v@.take(i as int));
        let ghost before = out@;
        match q {
            Quoting::Csv => {
                if c == '"' {
                    out.append("\"\"");
                } else {
                    push_char(out, c);
                }
            },
            Quoting::Json => {
                if c == '"' {
                    out.append("\\\"");
                } else {
                    push_char(out, c);
                }
            },
            Quoting::Xml => {
                if c == '&' {
                    out.append("&amp;");
                } else if c == '<' {
                    out.append("&lt;");
                } else if c == '>' {
                    out.append("&gt;");
                } else {
                    push_char(out, c);
                }
            },
        }
        assert(out@ == before + quoted_char(q, c));
        i = i + 1;
        assert(out@ =~= old(out)@ + quoted(q, v@.take(i as int)));
    }
    assert(v@.take(i as int) == v@);
}

fn quote(q: Quoting, s: &String) -> (r: String)
    ensures
        r@ == quoted(q, s@),
{
    let mut r = String::new();
    push_quoted(&mut r, q, s.as_str());
    assert(r@ =~= quoted(q, s@));
    r
}

/// `s` with each `"` doubled, for a quoted CSV field.
pub fn escape_csv(s: &String) -> (r: String)
    ensures
        r@ == quoted(Quoting::Csv, s@),
{
    quote(Quoting::Csv, s)
}

/// `s` with each `"` escaped by a backslash, for a JSON string.
pub fn escape_json(s: &String) -> (r: String)
    ensures
        r@ == quoted(Quoting::Json, s@),
{
    quote(Quoting::Json, s)
}

/// `s` with `&`, `<` and `>` written as entities, for XML text.
pub fn escape_xml(s: &String) -> (r: String)
    ensures
        r@ == quoted(Quoting::Xml, s@),
{
    quote(Quoting::Xml, s)
}

} // verus!

verus! {

pub open spec fn entry_views(es: Seq<&Entry>) -> Seq<EntryView> {
    es.map_values(|e: &Entry| e@)
}

/// The lines that `line` gives for each record, in order.
pub open spec fn lines_of(es: Seq<EntryView>, line: spec_fn(EntryView) -> Seq<char>) -> Seq<char>
    decreases es.len(),
{
    if es.len() == 0 {
        Seq::empty()
    } else {
        lines_of(es.drop_last(), line) + line(es.last())
    }
}

pub open spec fn csv_line(e: EntryView) -> Seq<char> {
    decimal(e.timestamp as nat) + ",\""@ + quoted(Quoting::Csv, e.executable) + "\",\""@ + quoted(
        Quoting::Csv,
        e.arguments,
    ) + "\","@ + decimal(e.runs as nat) + ","@ + seconds_text(e.time_mean as nat) + ","@
        + seconds_text(e.time_stddev as nat) + ",\""@ + quoted(Quoting::Csv, e.note) + "\"\n"@
}

/// CSV: a header line, then one line per record with the texts in quotes.
pub open spec fn csv_text(es: Seq<EntryView>) -> Seq<char> {
    "Timestamp,Executable,Arguments,Runs,Mean,StdDev,Note\n"@ + lines_of(es, |e: EntryView| csv_line(e))
}

pub open spec fn json_object(e: EntryView) -> Seq<char> {
    " {\"timestamp\": "@ + decimal(e.timestamp as nat) + ", \"executable\": \""@ + quoted(
        Quoting::Json,
        e.executable,
    ) + "\", \"arguments\": \""@ + quoted(Quoting::Json, e.arguments) + "\", \"runs\": "@ + decimal(
        e.runs as nat,
    ) + ", \"mean\": "@ + crate::text::fixed_text(e.time_mean as nat, 3) + ", \"stddev\": "@
        + crate::text::fixed_text(e.time_stddev as nat, 3) + ", \"note\": \""@ + quoted(
        Quoting::Json,
        e.note,
    ) + "\"}"@
}

pub open spec fn json_objects(es: Seq<EntryView>) -> Seq<char>
    decreases es.len(),
{
    if es.len() == 0 {
        Seq::empty()
    } else if es.len() == 1 {
        json_object(es[0])
    } else {
        json_objects(es.drop_last()) + ",\n"@ + json_object(es.last())
    }
}

/// JSON: an array of one object per record, durations in seconds with three decimals.
pub open spec fn json_text(es: Seq<EntryView>) -> Seq<char> {
    "[\n"@ + json_objects(es) + "\n]\n"@
}

pub open spec fn xml_element(e: EntryView) -> Seq<char> {
    "  <Measurement>\n    <Timestamp>"@ + decimal(e.timestamp as nat)
        + "</Timestamp>\n    <Executable>"@ + quoted(Quoting::Xml, e.executable)
        + "</Executable>\n    <Arguments>"@ + quoted(Quoting::Xml, e.arguments)
        + "</Arguments>\n    <Note>"@ + quoted(Quoting::Xml, e.note) + "</Note>\n    <Runs>"@
        + decimal(e.runs as nat) + "</Runs>\n    <Mean>"@ + crate::text::fixed_text(
        e.time_mean as nat,
        3,
    ) + "</Mean>\n    <StdDev>"@ + crate::text::fixed_text(e.time_stddev as nat, 3)
        + "</StdDev>\n  </Measurement>\n"@
}

/// XML: one `<Measurement>` element per record inside `<Measurements>`.
pub open spec fn xml_text(es: Seq<EntryView>) -> Seq<char> {
    "<Measurements>\n"@ + lines_of(es, |e: EntryView| xml_element(e)) + "</Measurements>\n"@
}

/// The records as CSV.
pub fn output_csv(measurements: &Vec<&Entry>) -> (r: String)
    ensures
        r@ == csv_text(entry_views(measurements@)),
{
    let ghost es = entry_views(measurements@);
    let mut s = String::from_str("Timestamp,Executable,Arguments,Runs,Mean,StdDev,Note\n");
    let mut i: usize = 0;
    assert(es.take(0) =~= Seq::<EntryView>::empty());
    while i < measurements.len()
        invariant
            i <= measurements@.len(),
            es == entry_views(measurements@),
            s@ == "Timestamp,Executable,Arguments,Runs,Mean,StdDev,Note\n"@ + lines_of(
                es.take(i as int),
                |e: EntryView| csv_line(e),
            ),
        decreases measurements@.len() - i,
    {
        let m = measurements[i];
        assert(es.take(i + 1).drop_last() =~= es.take(i as int));
        assert(es.take(i + 1).last() == m@);
        push_csv_line(&mut s, m);
        i = i + 1;
    }
    assert(es.take(i as int) =~= es);
    s
}

fn push_csv_line(s: &mut String, m: &Entry)
    ensures
        final(s)@ == old(s)@ + csv_line(m@),
{
    let ghost before = s@;
    push_decimal(s, m.timestamp);
    s.append(",\"");
    push_quoted(s, Quoting::Csv, m.executable.as_str());
    s.append("\",\"");
    push_quoted(s, Quoting::Csv, m.arguments.as_str());
    s.append("\",");
    push_decimal(s, m.runs as u64);
    s.append(",");
    push_seconds(s, m.time_mean);
    s.append(",");
    push_seconds(s, m.time_stddev);
    s.append(",\"");
    push_quoted(s, Quoting::Csv, m.note.as_str());
    s.append("\"\n");
    assert(s@ =~= before + csv_line(m@));
}

/// The records as JSON.
pub fn output_json(measurements: &Vec<&Entry>) -> (r: String)
    ensures
        r@ == json_text(entry_views(measurements@)),
{
    let ghost es = entry_views(measurements@);
    let mut s = String::new();
    let mut i: usize = 0;
    assert(es.take(0) =~= Seq::<EntryView>::empty());
    while i < measurements.len()
        invariant
            i <= measurements@.len(),
            es == entry_views(measurements@),
            s@ == json_objects(es.take(i as int)),
        decreases measurements@.len() - i,
    {
        let m = measurements[i];
        assert(es.take(i + 1).drop_last() =~= es.take(i as int));
        assert(es.take(i + 1).last() == m@);
        let ghost before = s@;
        if i != 0 {
            s.append(",\n");
        } else {
            assert(es.take(1)[0] == m@);
        }
        push_json_object(&mut s, m);
        i = i + 1;
    }
    assert(es.take(i as int) =~= es);
    let mut r = String::from_str("[\n");
    r.append(s.as_str());
    r.append("\n]\n");
    r
}

fn push_json_object(s: &mut String, m: &Entry)
    ensures
        final(s)@ == old(s)@ + json_object(m@),
{
    let ghost mid = s@;
    s.append(" {\"timestamp\": ");
    push_decimal(s, m.timestamp);
    s.append(", \"executable\": \"");
    push_quoted(s, Quoting::Json, m.executable.as_str());
    s.append("\", \"arguments\": \"");
    push_quoted(s, Quoting::Json, m.arguments.as_str());
    s.append("\", \"runs\": ");
    push_decimal(s, m.runs as u64);
    s.append(", \"mean\": ");
    crate::text::push_fixed(s, m.time_mean, 3);
    s.append(", \"stddev\": ");
    crate::text::push_fixed(s, m.time_stddev, 3);
    s.append(", \"note\": \"");
    push_quoted(s, Quoting::Json, m.note.as_str());
    s.append("\"}");
    assert(s@ =~= mid + json_object(m@));
}

/// The records as XML.
pub fn output_xml(measurements: &Vec<&Entry>) -> (r: String)
    ensures
        r@ == xml_text(entry_views(measurements@)),
{
    let ghost es = entry_views(measurements@);
    let mut s = String::from_str("<Measurements>\n");
    let mut i: usize = 0;
    assert(es.take(0) =~= Seq::<EntryView>::empty());
    while i < measurements.len()
        invariant
            i <= measurements@.len(),
            es == entry_views(measurements@),
            s@ == "<Measurements>\n"@ + lines_of(es.take(i as int), |e: EntryView| xml_element(e)),
        decreases measurements@.len() - i,
    {
        let m = measurements[i];
        assert(es.take(i + 1).drop_last() =~= es.take(i as int));
        assert(es.take(i + 1).last() == m@);
        push_xml_element(&mut s, m);
        i = i + 1;
    }
    assert(es.take(i as int) =~= es);
    s.append("</Measurements>\n");
    s
}


fn push_xml_element(s: &mut String, m: &Entry)
    ensures
        final(s)@ == old(s)@ + xml_element(m@),
{
    let ghost before = s@;
    s.append("  <Measurement>\n    <Timestamp>");
    push_decimal(s, m.timestamp);
    s.append("</Timestamp>\n    <Executable>");
    push_quoted(s, Quoting::Xml, m.executable.as_str());
    s.append("</Executable>\n    <Arguments>");
    push_quoted(s, Quoting::Xml, m.arguments.as_str());
    s.append("</Arguments>\n    <Note>");
    push_quoted(s, Quoting::Xml, m.note.as_str());
    s.append("</Note>\n    <Runs>");
    push_decimal(s, m.runs as u64);
    s.append("</Runs>\n    <Mean>");
    crate::text::push_fixed(s, m.time_mean, 3);
    s.append("</Mean>\n    <StdDev>");
    crate::text::push_fixed(s, m.time_stddev, 3);
    s.append("</StdDev>\n  </Measurement>\n");
    assert(s@ =~= before + xml_element(m@));
}

} // verus!

verus! {

/// The mean that the changes are relative to: the first record's, or 10 µs
/// where that is zero.
pub open spec fn anchor_mean(es: Seq<EntryView>) -> int {
    if es.len() == 0 || es[0].time_mean == 0 {
        10_000
    } else {
        es[0].time_mean as int
    }
}

/// `(mean - anchor) / anchor` in percent with two decimals, rounded half away from zero.
pub open spec fn change_text(mean: int, anchor: int) -> Seq<char> {
    let num = mean - anchor;
    let abs = if num < 0 {
        -num
    } else {
        num
    };
    let mag = (abs * 20000 + anchor) / (2 * anchor);
    (if num < 0 {
        "-"@
    } else {
        Seq::empty()
    }) + decimal((mag / 100) as nat) + "."@ + crate::text::pad_left(decimal((mag % 100) as nat), 2, '0')
}

pub open spec fn header_cells() -> Seq<Seq<char>> {
    seq![
        "Age"@,
        "Executable"@,
        "Arguments"@,
        "Runs"@,
        "Mean (s)"@,
        "StdDev (s)"@,
        "Change (%)"@,
        "Note"@,
    ]
}

/// The cells of the record at position `i` of the result.
pub open spec fn record_cells(e: EntryView, i: int, anchor: int, now: u64) -> Seq<Seq<char>> {
    seq![
        crate::database::age_text(now, e.timestamp),
        e.executable,
        e.arguments,
        decimal(e.runs as nat),
        crate::text::fixed_text(e.time_mean as nat, 4),
        crate::text::fixed_text(e.time_stddev as nat, 4),
        if i == 0 {
            " "@
        } else {
            change_text(e.time_mean as int, anchor)
        },
        e.note,
    ]
}

/// The rows of the table: the header, then one per record.
pub open spec fn table_rows(es: Seq<EntryView>, now: u64) -> Seq<Seq<Seq<char>>> {
    seq![header_cells()] + Seq::new(
        es.len(),
        |i: int| record_cells(es[i], i, anchor_mean(es), now),
    )
}

/// The widest cell of column `j`.
pub open spec fn widest(rows: Seq<Seq<Seq<char>>>, j: int) -> nat
    decreases rows.len(),
{
    if rows.len() == 0 {
        0
    } else {
        let w = widest(rows.drop_last(), j);
        if rows.last()[j].len() > w {
            rows.last()[j].len()
        } else {
            w
        }
    }
}

/// `s` centred in `w` characters, the odd space going to the right.
pub open spec fn center(s: Seq<char>, w: nat) -> Seq<char> {
    if s.len() >= w {
        s
    } else {
        let pad = (w - s.len()) as nat;
        crate::text::repeat(' ', pad / 2) + s + crate::text::repeat(' ', (pad - pad / 2) as nat)
    }
}

/// The first `k` cells of a row, each centred in its column's width plus two, joined by `|`.
pub open spec fn cells_line(cells: Seq<Seq<char>>, widths: Seq<nat>, k: int) -> Seq<char>
    decreases k,
{
    if k <= 0 {
        Seq::empty()
    } else if k == 1 {
        center(cells[0], widths[0] + 2)
    } else {
        cells_line(cells, widths, k - 1) + "|"@ + center(cells[k - 1], widths[k - 1] + 2)
    }
}

/// The rule under the header: dashes as wide as the first `k` columns, joined by `+`.
pub open spec fn rule_line(widths: Seq<nat>, k: int) -> Seq<char>
    decreases k,
{
    if k <= 0 {
        Seq::empty()
    } else if k == 1 {
        crate::text::repeat('-', widths[0] + 2)
    } else {
        rule_line(widths, k - 1) + "+"@ + crate::text::repeat('-', widths[k - 1] + 2)
    }
}

/// The colour of row `r` of the table (0 is the header): the first record
/// bold, a record more than 1% faster red, more than 1% slower green.
pub open spec fn row_color(es: Seq<EntryView>, r: int, color: bool) -> Seq<char> {
    if !color || r == 0 {
        Seq::empty()
    } else if r == 1 {
        "\x1B[1m"@
    } else if es[r - 1].time_mean * 101 < anchor_mean(es) * 100 {
        "\x1B[31m"@
    } else if es[r - 1].time_mean * 100 > anchor_mean(es) * 101 {
        "\x1B[32m"@
    } else {
        Seq::empty()
    }
}

pub open spec fn reset_code(color: bool) -> Seq<char> {
    if color {
        "\x1B[0m"@
    } else {
        Seq::empty()
    }
}

/// The first `n` lines of the table, the rule after the header included.
pub open spec fn table_lines(
    es: Seq<EntryView>,
    rows: Seq<Seq<Seq<char>>>,
    widths: Seq<nat>,
    color: bool,
    n: int,
) -> Seq<char>
    decreases n,
{
    if n <= 0 {
        Seq::empty()
    } else {
        let r = n - 1;
        table_lines(es, rows, widths, color, r) + row_color(es, r, color) + cells_line(
            rows[r],
            widths,
            8,
        ) + reset_code(color) + "\n"@ + if r == 0 {
            rule_line(widths, 8) + "\n"@
        } else {
            Seq::empty()
        }
    }
}

/// The table of the records at the time `now`, coloured or not.
pub open spec fn table_text(es: Seq<EntryView>, now: u64, color: bool) -> Seq<char> {
    let rows = table_rows(es, now);
    let widths = Seq::new(8, |j: int| widest(rows, j));
    table_lines(es, rows, widths, color, rows.len() as int)
}

} // verus!

verus! {

pub open spec fn row_views(rows: Seq<Vec<String>>) -> Seq<Seq<Seq<char>>> {
    rows.map_values(|r: Vec<String>| texts(r@))
}

pub open spec fn nat_widths(w: Seq<usize>) -> Seq<nat> {
    w.map_values(|x: usize| x as nat)
}

fn push_change(s: &mut String, mean: u64, anchor: u64)
    requires
        anchor > 0,
    ensures
        final(s)@ == old(s)@ + change_text(mean as int, anchor as int),
{
    let negative = mean < anchor;
    let abs: u64 = if negative {
        anchor - mean
    } else {
        mean - anchor
    };
    assert((abs as u128) * 20000 + (anchor as u128) <= u128::MAX) by (nonlinear_arith)
        requires
            abs <= u64::MAX,
            anchor <= u64::MAX,
    ;
    let mag: u128 = ((abs as u128) * 20000 + (anchor as u128)) / (2 * (anchor as u128));
    assert(mag <= (abs as u128) * 20000 + (anchor as u128)) by (nonlinear_arith)
        requires
            mag == ((abs as u128) * 20000 + (anchor as u128)) / (2 * (anchor as u128)),
            anchor > 0,
    ;
    let ghost before = s@;
    if negative {
        s.append("-");
    }
    crate::text::push_decimal_wide(s, mag / 100);
    s.append(".");
    crate::text::push_padded(s, (mag % 100) as u64, 2, '0');
    assert(s@ =~= before + change_text(mean as int, anchor as int));
}

fn record_row(e: &Entry, i: usize, anchor: u64, now: u64) -> (r: Vec<String>)
    requires
        anchor > 0,
    ensures
        texts(r@) == record_cells(e@, i as int, anchor as int, now),
{
    let mut runs = String::new();
    push_decimal(&mut runs, e.runs as u64);
    let mut mean = String::new();
    crate::text::push_fixed(&mut mean, e.time_mean, 4);
    let mut stddev = String::new();
    crate::text::push_fixed(&mut stddev, e.time_stddev, 4);
    let mut change = String::new();
    if i == 0 {
        change.append(" ");
    } else {
        push_change(&mut change, e.time_mean, anchor);
    }
    let r = vec![
        e.age(now),
        e.executable.clone(),
        e.arguments.clone(),
        runs,
        mean,
        stddev,
        change,
        e.note.clone(),
    ];
    assert(texts(r@) =~= record_cells(e@, i as int, anchor as int, now));
    r
}

fn header_row() -> (r: Vec<String>)
    ensures
        texts(r@) == header_cells(),
{
    let r = vec![
        String::from_str("Age"),
        String::from_str("Executable"),
        String::from_str("Arguments"),
        String::from_str("Runs"),
        String::from_str("Mean (s)"),
        String::from_str("StdDev (s)"),
        String::from_str("Change (%)"),
        String::from_str("Note"),
    ];
    assert(texts(r@) =~= header_cells());
    r
}

/// Appends `cell` centred in `w + 2` characters.
fn push_centered(s: &mut String, cell: &String, w: usize)
    requires
        cell@.len() <= w,
    ensures
        final(s)@ == old(s)@ + center(cell@, (w + 2) as nat),
{
    let len = cell.as_str().unicode_len();
    let pad = w - len;
    push_char(s, ' ');
    crate::text::push_repeat(s, ' ', pad / 2);
    s.append(cell.as_str());
    crate::text::push_repeat(s, ' ', pad - pad / 2);
    push_char(s, ' ');
    let ghost p2 = (pad + 2) as nat;
    assert(p2 / 2 == pad / 2 + 1);
    assert(crate::text::repeat(' ', (pad / 2 + 1) as nat) =~= seq![' '] + crate::text::repeat(' ', (pad / 2) as nat));
    assert(crate::text::repeat(' ', (pad - pad / 2 + 1) as nat) =~= crate::text::repeat(' ', (pad - pad / 2) as nat).push(' '));
    assert(s@ =~= old(s)@ + center(cell@, (w + 2) as nat));
}

fn push_cells_line(s: &mut String, cells: &Vec<String>, widths: &Vec<usize>)
    requires
        cells@.len() == 8,
        widths@.len() == 8,
        forall|j: int| 0 <= j < 8 ==> cells@[j]@.len() <= #[trigger] widths@[j],
    ensures
        final(s)@ == old(s)@ + cells_line(texts(cells@), nat_widths(widths@), 8),
{
    let ghost cv = texts(cells@);
    let ghost wv = nat_widths(widths@);
    let mut j: usize = 0;
    while j < 8
        invariant
            j <= 8,
            cells@.len() == 8,
            widths@.len() == 8,
            cv == texts(cells@),
            wv == nat_widths(widths@),
            forall|k: int| 0 <= k < 8 ==> cells@[k]@.len() <= #[trigger] widths@[k],
            s@ == old(s)@ + cells_line(cv, wv, j as int),
        decreases 8 - j,
    {
        let ghost before = s@;
        if j > 0 {
            s.append("|");
        }
        push_centered(s, &cells[j], widths[j]);
        assert(cv[j as int] == cells@[j as int]@);
        assert(wv[j as int] == widths@[j as int]);
        j = j + 1;
        assert(s@ =~= old(s)@ + cells_line(cv, wv, j as int));
    }
}

fn push_rule_line(s: &mut String, widths: &Vec<usize>)
    requires
        widths@.len() == 8,
    ensures
        final(s)@ == old(s)@ + rule_line(nat_widths(widths@), 8),
{
    let ghost wv = nat_widths(widths@);
    let mut j: usize = 0;
    while j < 8
        invariant
            j <= 8,
            widths@.len() == 8,
            wv == nat_widths(widths@),
            s@ == old(s)@ + rule_line(wv, j as int),
        decreases 8 - j,
    {
        if j > 0 {
            s.append("+");
        }
        let ghost mid = s@;
        push_char(s, '-');
        crate::text::push_repeat(s, '-', widths[j]);
        push_char(s, '-');
        assert(s@ =~= mid + crate::text::repeat('-', (widths@[j as int] + 2) as nat));
        assert(wv[j as int] == widths@[j as int]);
        j = j + 1;
        assert(s@ =~= old(s)@ + rule_line(wv, j as int));
    }
}

} // verus!

verus! {

proof fn lemma_widest(rows: Seq<Seq<Seq<char>>>, j: int, r: int)
    requires
        0 <= r < rows.len(),
    ensures
        rows[r][j].len() <= widest(rows, j),
    decreases rows.len(),
{
    if r < rows.len() - 1 {
        lemma_widest(rows.drop_last(), j, r);
        assert(rows.drop_last()[r] == rows[r]);
    }
}

fn push_row_color(s: &mut String, measurements: &Vec<&Entry>, anchor: u64, r: usize, color: bool)
    requires
        r <= measurements@.len(),
        anchor == anchor_mean(entry_views(measurements@)),
    ensures
        final(s)@ == old(s)@ + row_color(entry_views(measurements@), r as int, color),
{
    let ghost es = entry_views(measurements@);
    if !color || r == 0 {
        assert(old(s)@ + Seq::<char>::empty() == old(s)@);
    } else if r == 1 {
        s.append("\x1B[1m");
    } else {
        let mean = measurements[r - 1].time_mean as u128;
        assert(es[r - 1].time_mean == mean);
        if mean * 101 < (anchor as u128) * 100 {
            s.append("\x1B[31m");
        } else if mean * 100 > (anchor as u128) * 101 {
            s.append("\x1B[32m");
        } else {
            assert(old(s)@ + Seq::<char>::empty() == old(s)@);
        }
    }
}

/// The records as an aligned table at the time `now` (seconds since the
/// epoch), with terminal colours or without.
pub fn output_table(measurements: &Vec<&Entry>, color: bool, now: u64) -> (r: String)
    ensures
        r@ == table_text(entry_views(measurements@), now, color),
{
    let ghost es = entry_views(measurements@);
    let n = measurements.len();
    let anchor: u64 = if n > 0 && measurements[0].time_mean != 0 {
        measurements[0].time_mean
    } else {
        10_000
    };
    let ghost all_rows = table_rows(es, now);
    let mut rows: Vec<Vec<String>> = Vec::new();
    rows.push(header_row());
    assert(row_views(rows@) =~= all_rows.take(1));
    let mut i: usize = 0;
    while i < n
        invariant
            n == measurements@.len(),
            es == entry_views(measurements@),
            all_rows == table_rows(es, now),
            anchor == anchor_mean(es),
            i <= n,
            row_views(rows@) == all_rows.take(i + 1),
        decreases n - i,
    {
        let row = record_row(measurements[i], i, anchor, now);
        assert(es[i as int] == measurements@[i as int]@);
        assert(all_rows[i + 1] == record_cells(es[i as int], i as int, anchor as int, now));
        let ghost old_rv = row_views(rows@);
        rows.push(row);
        assert(row_views(rows@) =~= old_rv.push(texts(rows@[i + 1]@)));
        assert(all_rows.take(i + 2) =~= all_rows.take(i + 1).push(all_rows[i + 1]));
        i = i + 1;
        assert(row_views(rows@) =~= all_rows.take(i + 1));
    }
    assert(all_rows.take(n + 1) =~= all_rows);
    let ghost rv = row_views(rows@);
    assert(rv == all_rows);
    assert forall|r: int| 0 <= r < rv.len() implies (#[trigger] rv[r]).len() == 8 by {
        if r > 0 {
            assert(rv[r] == record_cells(es[r - 1], r - 1, anchor as int, now));
        }
    }
    let mut widths: Vec<usize> = Vec::new();
    let mut j: usize = 0;
    while j < 8
        invariant
            j <= 8,
            rv == row_views(rows@),
            forall|q: int| 0 <= q < rv.len() ==> (#[trigger] rv[q]).len() == 8,
            widths@.len() == j,
            forall|k: int| 0 <= k < j ==> #[trigger] widths@[k] == widest(rv, k),
        decreases 8 - j,
    {
        let mut w: usize = 0;
        let mut r: usize = 0;
        assert(rv.take(0) =~= Seq::<Seq<Seq<char>>>::empty());
        while r < rows.len()
            invariant
                j < 8,
                r <= rows@.len(),
                rv == row_views(rows@),
                forall|q: int| 0 <= q < rv.len() ==> (#[trigger] rv[q]).len() == 8,
                w == widest(rv.take(r as int), j as int),
            decreases rows@.len() - r,
        {
            assert(rv[r as int] == texts(rows@[r as int]@));
            assert(rv[r as int].len() == 8);
            let len = rows[r][j].as_str().unicode_len();
            assert(rv.take(r + 1).drop_last() =~= rv.take(r as int));
            assert(rv.take(r + 1).last()[j as int] == rows@[r as int]@[j as int]@);
            if len > w {
                w = len;
            }
            r = r + 1;
        }
        assert(rv.take(r as int) =~= rv);
        widths.push(w);
        j = j + 1;
    }
    let ghost wv = Seq::new(8, |k: int| widest(rv, k));
    assert(nat_widths(widths@) =~= wv);
    let mut s = String::new();
    let mut r: usize = 0;
    let total = rows.len();
    assert(table_lines(es, rv, wv, color, 0) =~= Seq::<char>::empty());
    while r < total
        invariant
            total == rows@.len() == rv.len(),
            r <= total,
            n == measurements@.len(),
            total == n + 1,
            es == entry_views(measurements@),
            anchor == anchor_mean(es),
            rv == row_views(rows@),
            rv == table_rows(es, now),
            widths@.len() == 8,
            forall|k: int| 0 <= k < 8 ==> #[trigger] widths@[k] == widest(rv, k),
            nat_widths(widths@) == wv,
            forall|q: int| 0 <= q < rv.len() ==> (#[trigger] rv[q]).len() == 8,
            s@ == table_lines(es, rv, wv, color, r as int),
        decreases total - r,
    {
        let ghost before = s@;
        push_row_color(&mut s, measurements, anchor, r, color);
        assert(rv[r as int] == texts(rows@[r as int]@));
        assert forall|k: int| 0 <= k < 8 implies rows@[r as int]@[k]@.len() <= #[trigger] widths@[k] by {
            lemma_widest(rv, k, r as int);
            assert(rv[r as int][k] == rows@[r as int]@[k]@);
        }
        push_cells_line(&mut s, &rows[r], &widths);
        if color {
            s.append("\x1B[0m");
        }
        s.append("\n");
        if r == 0 {
            push_rule_line(&mut s, &widths);
            s.append("\n");
        }
        assert(s@ =~= table_lines(es, rv, wv, color, r + 1));
        r = r + 1;
    }
    s
}

} // verus!

verus! {

/// The text formats of a report.
#[derive(Debug, Clone, Copy, PartialEq, Eq, Structural)]
pub enum OutputFormat {
    Table,
    Csv,
    Json,
    Xml,
}

/// The format that a file extension selects: none, `txt` or `table` give the
/// table; `csv`, `json` and `xml` their formats; any other none.
pub open spec fn format_for(ext: Seq<char>) -> Option<OutputFormat> {
    if ext.len() == 0 || ext == "txt"@ || ext == "table"@ {
        Some(OutputFormat::Table)
    } else if ext == "csv"@ {
        Some(OutputFormat::Csv)
    } else if ext == "json"@ {
        Some(OutputFormat::Json)
    } else if ext == "xml"@ {
        Some(OutputFormat::Xml)
    } else {
        None
    }
}

/// The last component of a path: what follows its last `/`.
pub open spec fn file_name(p: Seq<char>) -> Seq<char>
    decreases p.len(),
{
    if p.len() == 0 {
        Seq::empty()
    } else if p.last() == '/' {
        Seq::empty()
    } else {
        file_name(p.drop_last()).push(p.last())
    }
}

/// What follows the last `c` in `s`, if `s` holds one.
pub open spec fn after_last(s: Seq<char>, c: char) -> Option<Seq<char>>
    decreases s.len(),
{
    if s.len() == 0 {
        None
    } else if s.last() == c {
        Some(Seq::empty())
    } else {
        match after_last(s.drop_last(), c) {
            Some(t) => Some(t.push(s.last())),
            None => None,
        }
    }
}

/// Whether the file name `n` has an extension: a `.` that is not its first character.
pub open spec fn has_extension(n: Seq<char>) -> bool {
    after_last(n, '.') matches Some(e) && e.len() + 1 < n.len()
}

/// The extension of a path's file name: what follows its last `.`, where
/// that `.` does not begin the name; empty otherwise.
pub open spec fn path_extension(p: Seq<char>) -> Seq<char> {
    let n = file_name(p);
    if has_extension(n) {
        after_last(n, '.')->Some_0
    } else {
        Seq::empty()
    }
}

/// A path's file name without its extension and the `.` before it.
pub open spec fn path_stem(p: Seq<char>) -> Seq<char> {
    let n = file_name(p);
    if has_extension(n) {
        n.take(n.len() - after_last(n, '.')->Some_0.len() - 1)
    } else {
        n
    }
}

/// Whether an output path means the terminal: its stem is empty or `stdout`.
pub open spec fn is_terminal(p: Seq<char>) -> bool {
    path_stem(p).len() == 0 || path_stem(p) == "stdout"@
}

proof fn lemma_after_last_len(s: Seq<char>, c: char)
    ensures
        after_last(s, c) matches Some(e) ==> e.len() < s.len() && s.skip(s.len() - e.len()) == e
            && s[s.len() - e.len() - 1] == c,
    decreases s.len(),
{
    if s.len() > 0 {
        lemma_after_last_len(s.drop_last(), c);
        if s.last() != c {
            if let Some(t) = after_last(s.drop_last(), c) {
                assert(s.skip(s.len() - t.len() - 1) =~= t.push(s.last()));
                assert(s[s.len() - t.len() - 2] == s.drop_last()[s.drop_last().len() - t.len() - 1]);
            }
        } else {
            assert(s.skip(s.len() as int) =~= Seq::<char>::empty());
        }
    }
}

/// The file name and the extension of `p`, as `path_stem` and
/// `path_extension` give them.
pub fn split_path(p: &str) -> (r: (Vec<char>, Vec<char>))
    ensures
        r.0@ == path_stem(p@),
        r.1@ == path_extension(p@),
{
    let v = chars_of(p);
    let mut name: Vec<char> = Vec::new();
    let mut i: usize = 0;
    assert(v@.take(0) =~= Seq::<char>::empty());
    while i < v.len()
        invariant
            i <= v@.len(),
            name@ == file_name(v@.take(i as int)),
        decreases v@.len() - i,
    {
        assert(v@.take(i + 1).drop_last() =~= v@.take(i as int));
        if v[i] == '/' {
            name = Vec::new();
        } else {
            name.push(v[i]);
        }
        i = i + 1;
    }
    assert(v@.take(i as int) =~= v@);
    let mut ext: Option<Vec<char>> = None;
    let mut k: usize = 0;
    assert(name@.take(0) =~= Seq::<char>::empty());
    while k < name.len()
        invariant
            k <= name@.len(),
            match ext {
                Some(e) => after_last(name@.take(k as int), '.') == Some(e@),
                None => after_last(name@.take(k as int), '.') is None,
            },
        decreases name@.len() - k,
    {
        assert(name@.take(k + 1).drop_last() =~= name@.take(k as int));
        let c = name[k];
        if c == '.' {
            ext = Some(Vec::new());
        } else {
            match ext {
                Some(mut e) => {
                    e.push(c);
                    ext = Some(e);
                },
                None => {},
            }
        }
        k = k + 1;
    }
    assert(name@.take(k as int) =~= name@);
    proof {
        lemma_after_last_len(name@, '.');
    }
    match ext {
        Some(e) => {
            if e.len() + 1 < name.len() {
                let stem = crate::text::take_chars(&name, name.len() - e.len() - 1);
                (stem, e)
            } else {
                (name, Vec::new())
            }
        },
        None => (name, Vec::new()),
    }
}

/// The format that an extension selects.
pub fn select_format(ext: &Vec<char>) -> (r: Option<OutputFormat>)
    ensures
        r == format_for(ext@),
{
    let n = ext.len();
    assert(ext@.subrange(0, n as int) == ext@);
    if n == 0 || crate::text::text_is(ext, 0, n, "txt") || crate::text::text_is(ext, 0, n, "table") {
        Some(OutputFormat::Table)
    } else if crate::text::text_is(ext, 0, n, "csv") {
        Some(OutputFormat::Csv)
    } else if crate::text::text_is(ext, 0, n, "json") {
        Some(OutputFormat::Json)
    } else if crate::text::text_is(ext, 0, n, "xml") {
        Some(OutputFormat::Xml)
    } else {
        None
    }
}

/// The text of the records in a format; the table is coloured for the terminal.
pub open spec fn rendered(f: OutputFormat, es: Seq<EntryView>, now: u64, terminal: bool) -> Seq<char> {
    match f {
        OutputFormat::Table => table_text(es, now, terminal),
        OutputFormat::Csv => csv_text(es),
        OutputFormat::Json => json_text(es),
        OutputFormat::Xml => xml_text(es),
    }
}

/// What to write for a report.
#[derive(Debug)]
pub enum Report {
    /// No record to show: nothing is written; the caller notes it on the
    /// diagnostic stream.
    Nothing,
    /// Text for the terminal.
    Terminal(String),
    /// Text for the file at the output path.
    File(String),
}

/// Why a report cannot be made.
#[derive(Debug)]
pub enum OutputError {
    /// The output path's extension selects no format; holds the path.
    UnknownFormat(String),
}

/// The report of `measurements` for the output path `output` at the time
/// `now`: nothing for no records; else the records in the format that the
/// path's extension selects, for the terminal where its stem is empty or
/// `stdout`, for the file otherwise.
pub fn write_output(output: &str, measurements: Vec<&Entry>, now: u64) -> (r: Result<Report, OutputError>)
    ensures
        measurements@.len() == 0 ==> r matches Ok(Report::Nothing),
        measurements@.len() > 0 ==> match format_for(path_extension(output@)) {
            None => r matches Err(OutputError::UnknownFormat(o)) && o@ == output@,
            Some(f) => if is_terminal(output@) {
                r matches Ok(Report::Terminal(t)) && t@ == rendered(
                    f,
                    entry_views(measurements@),
                    now,
                    true,
                )
            } else {
                r matches Ok(Report::File(t)) && t@ == rendered(
                    f,
                    entry_views(measurements@),
                    now,
                    false,
                )
            },
        },
{
    if measurements.len() == 0 {
        return Ok(Report::Nothing);
    }
    let (stem, ext) = split_path(output);
    let terminal = stem.len() == 0 || {
        let n = stem.len();
        assert(stem@.subrange(0, n as int) == stem@);
        crate::text::text_is(&stem, 0, n, "stdout")
    };
    let text = match select_format(&ext) {
        None => return Err(OutputError::UnknownFormat(String::from_str(output))),
        Some(OutputFormat::Table) => output_table(&measurements, terminal, now),
        Some(OutputFormat::Csv) => output_csv(&measurements),
        Some(OutputFormat::Json) => output_json(&measurements),
        Some(OutputFormat::Xml) => output_xml(&measurements),
    };
    if terminal {
        Ok(Report::Terminal(text))
    } else {
        Ok(Report::File(text))
    }
}

} // verus!
