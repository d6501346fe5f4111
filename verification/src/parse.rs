//! Splitting `.xer` text into tables.
//!
//! An `.xer` file is tab-delimited text made of stacked tables, one line per
//! `'\n'` (a `'\r'` ending a line belongs to the line break). A line that
//! starts, after any leading white space, with `%T` opens a new table whose
//! name is the rest of the line, trimmed; `%F` gives the column names of the
//! current table and `%R` adds one record to it. What follows `%F` or `%R`
//! (after the tab that separates it from the marker) is split on tabs as it
//! is, so empty fields keep their place. Every other line is ignored, and so
//! are `%F` and `%R` lines that come before the first `%T`.

use vstd::prelude::*;
use crate::text::{
    chars_of, crlf_text, lemma_split_append_piece, lemma_split_crlf, lemma_split_last_piece, lemma_split_len, split,
    split_range, string_from_range, trim, trim_range, trim_start, trim_start_range,
};

verus! {

/// One table of an `.xer` file.
pub struct Table {
    pub name: String,
    pub headers: Vec<String>,
    pub rows: Vec<Vec<String>>,
}

/// A table as plain character sequences.
pub struct TableView {
    pub name: Seq<char>,
    pub headers: Seq<Seq<char>>,
    pub rows: Seq<Seq<Seq<char>>>,
}

impl View for Table {
    type V = TableView;

    open spec fn view(&self) -> TableView {
        TableView { name: self.name@, headers: self.headers.deep_view(), rows: self.rows.deep_view() }
    }
}

/// The view of every table of a sequence.
pub open spec fn tables_view(ts: Seq<Table>) -> Seq<TableView> {
    ts.map_values(|t: Table| t@)
}

/// The view of an optional table.
pub open spec fn opt_table_view(t: Option<Table>) -> Option<TableView> {
    match t {
        Some(t) => Some(t@),
        None => None,
    }
}

/// The line starts with `%` followed by `m`.
pub open spec fn has_marker(line: Seq<char>, m: char) -> bool {
    line.len() >= 2 && line[0] == '%' && line[1] == m
}

/// A line without the `'\r'` that ends it, if any.
pub open spec fn line_body(line: Seq<char>) -> Seq<char> {
    if line.len() > 0 && line.last() == '\r' {
        line.drop_last()
    } else {
        line
    }
}

/// The part of a line that markers are looked for in: its body without
/// leading white space.
pub open spec fn marked_text(line: Seq<char>) -> Seq<char> {
    trim_start(line_body(line))
}

/// The name that follows a `%T` marker, trimmed.
pub open spec fn marker_name(t: Seq<char>) -> Seq<char> {
    trim(t.skip(2))
}

/// The fields that follow a `%F` or `%R` marker: what comes after the
/// marker and the tab that separates them, split on tabs.
pub open spec fn marker_fields(t: Seq<char>) -> Seq<Seq<char>> {
    let rest = t.skip(2);
    split(
        if rest.len() > 0 && rest[0] == '\t' {
            rest.skip(1)
        } else {
            rest
        },
        '\t',
    )
}

/// A record extended with empty fields up to `width` fields.
pub open spec fn pad_row(row: Seq<Seq<char>>, width: nat) -> Seq<Seq<char>> {
    if row.len() < width {
        row + Seq::new((width - row.len()) as nat, |i: int| Seq::<char>::empty())
    } else {
        row
    }
}

/// The tables closed so far and the table being filled, if any.
pub type ParseState = (Seq<TableView>, Option<TableView>);

/// The effect of one line on the parse state.
pub open spec fn step(st: ParseState, line: Seq<char>) -> ParseState {
    let t = marked_text(line);
    if has_marker(t, 'T') {
        let closed = match st.1 {
            Some(c) => st.0.push(c),
            None => st.0,
        };
        (closed, Some(TableView { name: marker_name(t), headers: seq![], rows: seq![] }))
    } else if has_marker(t, 'F') {
        match st.1 {
            Some(c) => (
                st.0,
                Some(TableView { name: c.name, headers: marker_fields(t), rows: c.rows }),
            ),
            None => st,
        }
    } else if has_marker(t, 'R') {
        match st.1 {
            Some(c) => (
                st.0,
                Some(
                    TableView {
                        name: c.name,
                        headers: c.headers,
                        rows: c.rows.push(pad_row(marker_fields(t), c.headers.len())),
                    },
                ),
            ),
            None => st,
        }
    } else {
        st
    }
}

/// The parse state after the given lines, in order.
pub open spec fn parse_lines(lines: Seq<Seq<char>>) -> ParseState
    decreases lines.len(),
{
    if lines.len() == 0 {
        (seq![], None)
    } else {
        step(parse_lines(lines.drop_last()), lines.last())
    }
}

/// The closed tables followed by the open one, if any.
pub open spec fn finish(st: ParseState) -> Seq<TableView> {
    match st.1 {
        Some(c) => st.0.push(c),
        None => st.0,
    }
}

/// The tables of an `.xer` text: its lines are the pieces between `'\n'`
/// characters.
pub open spec fn xer_tables(content: Seq<char>) -> Seq<TableView> {
    finish(parse_lines(split(content, '\n')))
}

/// The bounds of what follows the marker of `chars[a..b]` and the tab
/// after it, if there is one.
fn fields_start(chars: &Vec<char>, a: usize, b: usize) -> (s: usize)
    requires
        a + 2 <= b <= chars@.len(),
    ensures
        a + 2 <= s <= b,
        split(chars@.subrange(s as int, b as int), '\t') == marker_fields(
            chars@.subrange(a as int, b as int),
        ),
{
    let ghost rest = chars@.subrange(a as int, b as int).skip(2);
    assert(rest =~= chars@.subrange(a + 2, b as int));
    if a + 2 < b && chars[a + 2] == '\t' {
        assert(rest.skip(1) =~= chars@.subrange(a + 3, b as int));
        a + 3
    } else {
        a + 2
    }
}

/// `row` extended with empty fields up to `width` fields.
fn pad_fields(row: &mut Vec<String>, width: usize)
    ensures
        final(row).deep_view() == pad_row(old(row).deep_view(), width as nat),
{
    let ghost r0 = row.deep_view();
    assert(row.deep_view() =~= r0 + Seq::new(
        (row.len() - r0.len()) as nat,
        |i: int| Seq::<char>::empty(),
    ));
    while row.len() < width
        invariant
            r0.len() <= row.len(),
            r0.len() < width ==> row.len() <= width,
            r0.len() >= width ==> row.len() == r0.len(),
            row.deep_view() == r0 + Seq::new(
                (row.len() - r0.len()) as nat,
                |i: int| Seq::<char>::empty(),
            ),
        decreases width - row.len(),
    {
        let ghost prev = row.deep_view();
        row.push(String::new());
        assert(row.deep_view() =~= prev.push(Seq::<char>::empty()));
        assert(row.deep_view() =~= r0 + Seq::new(
            (row.len() - r0.len()) as nat,
            |i: int| Seq::<char>::empty(),
        ));
    }
    proof {
        if r0.len() >= width {
            assert(r0 + Seq::new(0, |i: int| Seq::<char>::empty()) =~= r0);
        }
    }
    assert(row.deep_view() =~= pad_row(r0, width as nat));
}

/// Applies one line `chars[lo..hi]` to the tables and the current table.
fn apply_line(
    chars: &Vec<char>,
    lo: usize,
    hi: usize,
    tables: &mut Vec<Table>,
    current: &mut Option<Table>,
)
    requires
        lo <= hi <= chars@.len(),
    ensures
        (tables_view(final(tables)@), opt_table_view(*final(current))) == step(
            (tables_view(old(tables)@), opt_table_view(*old(current))),
            chars@.subrange(lo as int, hi as int),
        ),
{
    let ghost line = chars@.subrange(lo as int, hi as int);
    let e = if hi > lo && chars[hi - 1] == '\r' {
        hi - 1
    } else {
        hi
    };
    assert(chars@.subrange(lo as int, e as int) =~= line_body(line));
    let a = trim_start_range(chars, lo, e);
    let ghost t = chars@.subrange(a as int, e as int);
    assert(t == marked_text(line));
    if e - a >= 2 && chars[a] == '%' {
        let m = chars[a + 1];
        if m == 'T' {
            assert(t.skip(2) =~= chars@.subrange(a + 2, e as int));
            let (ra, rb) = trim_range(chars, a + 2, e);
            let name = string_from_range(chars, ra, rb);
            let prev = current.take();
            match prev {
                Some(p) => {
                    tables.push(p);
                },
                None => {},
            }
            assert(tables_view(tables@) =~= match opt_table_view(prev) {
                Some(c) => tables_view(old(tables)@).push(c),
                None => tables_view(old(tables)@),
            });
            *current = Some(Table { name, headers: Vec::new(), rows: Vec::new() });
            assert(current.unwrap().headers.deep_view() =~= Seq::<Seq<char>>::empty());
            assert(current.unwrap().rows.deep_view() =~= Seq::<Seq<Seq<char>>>::empty());
        } else if m == 'F' {
            let s = fields_start(chars, a, e);
            let prev = current.take();
            match prev {
                Some(p) => {
                    let headers = split_range(chars, s, e, '\t');
                    *current = Some(Table { name: p.name, headers, rows: p.rows });
                },
                None => {},
            }
        } else if m == 'R' {
            let s = fields_start(chars, a, e);
            let prev = current.take();
            match prev {
                Some(p) => {
                    let mut row = split_range(chars, s, e, '\t');
                    let ghost r0 = row.deep_view();
                    pad_fields(&mut row, p.headers.len());
                    let mut rows = p.rows;
                    let ghost old_rows = rows.deep_view();
                    rows.push(row);
                    assert(rows.deep_view() =~= old_rows.push(pad_row(r0, p.headers@.len())));
                    *current = Some(Table { name: p.name, headers: p.headers, rows });
                },
                None => {},
            }
        }
    }
}

/// Splits `.xer` text into its tables, using the `%T`, `%F` and `%R`
/// markers. Records shorter than the header of their table are padded with
/// empty fields.
pub fn parse_tables(content: &str) -> (tables: Vec<Table>)
    ensures
        tables_view(tables@) == xer_tables(content@),
{
    let chars = chars_of(content);
    let n = chars.len();
    let mut tables: Vec<Table> = Vec::new();
    let mut current: Option<Table> = None;
    let mut start: usize = 0;
    let mut i: usize = 0;
    let ghost mut done: Seq<Seq<char>> = seq![];
    assert(chars@.take(0) =~= Seq::<char>::empty());
    assert(chars@.subrange(0, 0) =~= Seq::<char>::empty());
    assert(tables_view(tables@) =~= Seq::<TableView>::empty());
    while i < n
        invariant
            n == chars@.len(),
            0 <= start <= i <= n,
            split(chars@.take(i as int), '\n') == done.push(chars@.subrange(start as int, i as int)),
            (tables_view(tables@), opt_table_view(current)) == parse_lines(done),
        decreases n - i,
    {
        let ghost s1 = chars@.take(i + 1);
        assert(s1.drop_last() =~= chars@.take(i as int));
        if chars[i] == '\n' {
            apply_line(&chars, start, i, &mut tables, &mut current);
            proof {
                let d2 = done.push(chars@.subrange(start as int, i as int));
                assert(d2.drop_last() =~= done);
                done = d2;
            }
            start = i + 1;
            assert(chars@.subrange(start as int, i + 1) =~= Seq::<char>::empty());
        } else {
            proof {
                crate::text::lemma_split_len(chars@.take(i as int), '\n');
            }
            assert(chars@.subrange(start as int, i + 1) =~= chars@.subrange(
                start as int,
                i as int,
            ).push(chars[i as int]));
        }
        i += 1;
    }
    apply_line(&chars, start, n, &mut tables, &mut current);
    proof {
        let d2 = done.push(chars@.subrange(start as int, n as int));
        assert(d2.drop_last() =~= done);
        assert(chars@.take(n as int) =~= content@);
        done = d2;
    }
    match current {
        Some(t) => {
            tables.push(t);
        },
        None => {},
    }
    assert(tables_view(tables@) =~= xer_tables(content@));
    tables
}


/// The line, once its leading white space is skipped, starts with the
/// marker `%m`.
pub open spec fn is_marker_line(line: Seq<char>, m: char) -> bool {
    has_marker(marked_text(line), m)
}

/// How many of the lines are `%m` lines.
pub open spec fn count_marker_lines(lines: Seq<Seq<char>>, m: char) -> nat
    decreases lines.len(),
{
    if lines.len() == 0 {
        0
    } else {
        count_marker_lines(lines.drop_last(), m) + if is_marker_line(lines.last(), m) {
            1nat
        } else {
            0nat
        }
    }
}

/// How many `%R` lines come after the first `%T` line.
pub open spec fn count_records_in_tables(lines: Seq<Seq<char>>) -> nat
    decreases lines.len(),
{
    if lines.len() == 0 {
        0
    } else {
        count_records_in_tables(lines.drop_last()) + if is_marker_line(lines.last(), 'R')
            && count_marker_lines(lines.drop_last(), 'T') > 0 {
            1nat
        } else {
            0nat
        }
    }
}

/// The number of records of all the tables.
pub open spec fn total_rows(ts: Seq<TableView>) -> nat
    decreases ts.len(),
{
    if ts.len() == 0 {
        0
    } else {
        total_rows(ts.drop_last()) + ts.last().rows.len()
    }
}

proof fn lemma_parse_counts(lines: Seq<Seq<char>>)
    ensures
        ({
            let st = parse_lines(lines);
            &&& (st.1 is Some <==> count_marker_lines(lines, 'T') > 0)
            &&& st.0.len() + (if st.1 is Some {
                1nat
            } else {
                0nat
            }) == count_marker_lines(lines, 'T')
            &&& total_rows(st.0) + (match st.1 {
                Some(c) => c.rows.len(),
                None => 0,
            }) == count_records_in_tables(lines)
        }),
    decreases lines.len(),
{
    if lines.len() > 0 {
        lemma_parse_counts(lines.drop_last());
        let prev = parse_lines(lines.drop_last());
        if is_marker_line(lines.last(), 'T') {
            match prev.1 {
                Some(c) => {
                    assert(prev.0.push(c).drop_last() =~= prev.0);
                },
                None => {},
            }
        }
    }
}

/// One table per `%T` line, and every `%R` line that follows a `%T` line
/// gives one record: no record is dropped.
pub proof fn law_tables_and_records_counted(content: Seq<char>)
    ensures
        xer_tables(content).len() == count_marker_lines(split(content, '\n'), 'T'),
        total_rows(xer_tables(content)) == count_records_in_tables(split(content, '\n')),
{
    let lines = split(content, '\n');
    lemma_parse_counts(lines);
    let st = parse_lines(lines);
    match st.1 {
        Some(c) => {
            assert(st.0.push(c).drop_last() =~= st.0);
        },
        None => {},
    }
}

/// Padding keeps every field of a record in place and only appends empty
/// fields, up to the number of column names.
pub proof fn law_padding_keeps_fields(row: Seq<Seq<char>>, width: nat)
    ensures
        pad_row(row, width).len() == if row.len() < width {
            width
        } else {
            row.len()
        },
        pad_row(row, width).take(row.len() as int) == row,
        forall|i: int|
            row.len() <= i < pad_row(row, width).len() ==> (#[trigger] pad_row(row, width)[i]).len()
                == 0,
{
    assert(pad_row(row, width).take(row.len() as int) =~= row);
}

/// Lines without a `%T`, `%F` or `%R` marker (such as `ERMHDR` or `%E`)
/// leave the tables as they are.
pub proof fn law_other_lines_ignored(st: ParseState, line: Seq<char>)
    requires
        !is_marker_line(line, 'T'),
        !is_marker_line(line, 'F'),
        !is_marker_line(line, 'R'),
    ensures
        step(st, line) == st,
{
}


/// A `%R` line has come since the last `%T` line (and after some `%T`
/// line): the current table already holds a record.
pub open spec fn record_since_table(lines: Seq<Seq<char>>) -> bool
    decreases lines.len(),
{
    if lines.len() == 0 {
        false
    } else if is_marker_line(lines.last(), 'T') {
        false
    } else if is_marker_line(lines.last(), 'R') && count_marker_lines(lines.drop_last(), 'T') > 0 {
        true
    } else {
        record_since_table(lines.drop_last())
    }
}

/// Within each table, every `%F` line comes before the first `%R` line.
pub open spec fn headers_before_records(lines: Seq<Seq<char>>) -> bool
    decreases lines.len(),
{
    if lines.len() == 0 {
        true
    } else {
        headers_before_records(lines.drop_last()) && !(is_marker_line(lines.last(), 'F')
            && record_since_table(lines.drop_last()))
    }
}

/// Every record of the table has at least as many fields as there are
/// column names.
pub open spec fn rows_cover_headers(t: TableView) -> bool {
    forall|r: int| 0 <= r < t.rows.len() ==> (#[trigger] t.rows[r]).len() >= t.headers.len()
}

proof fn lemma_rows_cover_headers(lines: Seq<Seq<char>>)
    requires
        headers_before_records(lines),
    ensures
        ({
            let st = parse_lines(lines);
            &&& forall|i: int| 0 <= i < st.0.len() ==> rows_cover_headers(#[trigger] st.0[i])
            &&& st.1 matches Some(c) ==> rows_cover_headers(c)
            &&& st.1 matches Some(c) ==> (!record_since_table(lines) ==> c.rows.len() == 0)
        }),
    decreases lines.len(),
{
    if lines.len() > 0 {
        let prev_lines = lines.drop_last();
        lemma_rows_cover_headers(prev_lines);
        lemma_parse_counts(prev_lines);
        let prev = parse_lines(prev_lines);
        let st = parse_lines(lines);
        let line = lines.last();
        if is_marker_line(line, 'T') {
            match prev.1 {
                Some(c) => {
                    assert forall|i: int| 0 <= i < st.0.len() implies rows_cover_headers(
                        #[trigger] st.0[i],
                    ) by {
                        if i < prev.0.len() {
                            assert(st.0[i] == prev.0[i]);
                        } else {
                            assert(st.0[i] == c);
                        }
                    }
                },
                None => {},
            }
        } else if is_marker_line(line, 'R') {
            match prev.1 {
                Some(c) => {
                    let nc = st.1.unwrap();
                    assert forall|r: int| 0 <= r < nc.rows.len() implies (
                    #[trigger] nc.rows[r]).len() >= nc.headers.len() by {
                        if r < c.rows.len() {
                            assert(nc.rows[r] == c.rows[r]);
                        } else {
                            law_padding_keeps_fields(
                                marker_fields(marked_text(line)),
                                c.headers.len(),
                            );
                        }
                    }
                },
                None => {},
            }
        }
    }
}

/// When, within each table, the `%F` line comes before the records, every
/// record of every table has at least as many fields as the table has
/// column names: short records are padded.
pub proof fn law_rows_cover_headers(content: Seq<char>)
    requires
        headers_before_records(split(content, '\n')),
    ensures
        forall|i: int|
            0 <= i < xer_tables(content).len() ==> rows_cover_headers(
                #[trigger] xer_tables(content)[i],
            ),
{
    let lines = split(content, '\n');
    lemma_rows_cover_headers(lines);
    let st = parse_lines(lines);
    let ts = xer_tables(content);
    assert forall|i: int| 0 <= i < ts.len() implies rows_cover_headers(#[trigger] ts[i]) by {
        match st.1 {
            Some(c) => {
                if i < st.0.len() {
                    assert(ts[i] == st.0[i]);
                } else {
                    assert(ts[i] == c);
                }
            },
            None => {
                assert(ts[i] == st.0[i]);
            },
        }
    }
}

/// No `'\r'` stands directly before a `'\n'`: the text does not already
/// end its lines with `"\r\n"`.
pub open spec fn no_cr_before_lf(s: Seq<char>) -> bool {
    forall|k: int| 0 <= k && k + 1 < s.len() && #[trigger] s[k] == '\r' ==> s[k + 1] != '\n'
}

proof fn lemma_bodies_of_lines(s: Seq<char>)
    requires
        no_cr_before_lf(s),
    ensures
        forall|i: int|
            0 <= i < split(s, '\n').len() - 1 ==> line_body(#[trigger] split(s, '\n')[i]) == split(
                s,
                '\n',
            )[i],
    decreases s.len(),
{
    lemma_split_len(s, '\n');
    if s.len() > 0 {
        let s0 = s.drop_last();
        assert(no_cr_before_lf(s0)) by {
            assert forall|k: int| 0 <= k && k + 1 < s0.len() && #[trigger] s0[k] == '\r' implies s0[k
                + 1] != '\n' by {
                assert(s[k] == s0[k]);
            }
        }
        lemma_bodies_of_lines(s0);
        lemma_split_last_piece(s0, '\n');
        let p = split(s0, '\n');
        if s.last() == '\n' {
            if p.last().len() > 0 {
                let k = s.len() - 2;
                assert(s[k] == s0.last());
                assert(s[k + 1] == '\n');
            }
            assert forall|i: int| 0 <= i < split(s, '\n').len() - 1 implies line_body(
                #[trigger] split(s, '\n')[i],
            ) == split(s, '\n')[i] by {
                assert(split(s, '\n')[i] == p[i]);
            }
        } else {
            assert forall|i: int| 0 <= i < split(s, '\n').len() - 1 implies line_body(
                #[trigger] split(s, '\n')[i],
            ) == split(s, '\n')[i] by {
                assert(split(s, '\n')[i] == p[i]);
            }
        }
    }
}

proof fn lemma_same_bodies_same_parse(ls: Seq<Seq<char>>, ms: Seq<Seq<char>>)
    requires
        ls.len() == ms.len(),
        forall|i: int| 0 <= i < ls.len() ==> line_body(#[trigger] ms[i]) == line_body(ls[i]),
    ensures
        parse_lines(ms) == parse_lines(ls),
    decreases ls.len(),
{
    if ls.len() > 0 {
        assert forall|i: int| 0 <= i < ls.len() - 1 implies line_body(
            #[trigger] ms.drop_last()[i],
        ) == line_body(ls.drop_last()[i]) by {
            assert(ms.drop_last()[i] == ms[i]);
            assert(ls.drop_last()[i] == ls[i]);
        }
        lemma_same_bodies_same_parse(ls.drop_last(), ms.drop_last());
        assert(line_body(ms.last()) == line_body(ls.last()));
    }
}

/// Text whose lines end with `"\r\n"` gives the same tables as the same
/// text with `"\n"` line ends.
pub proof fn law_crlf_lines_parse_alike(content: Seq<char>)
    requires
        no_cr_before_lf(content),
    ensures
        xer_tables(crlf_text(content)) == xer_tables(content),
{
    let ls = split(content, '\n');
    let ms = split(crlf_text(content), '\n');
    lemma_split_crlf(content);
    lemma_bodies_of_lines(content);
    lemma_split_len(content, '\n');
    assert forall|i: int| 0 <= i < ls.len() implies line_body(#[trigger] ms[i]) == line_body(
        ls[i],
    ) by {
        if i < ls.len() - 1 {
            assert(ms[i] == ls[i].push('\r'));
            assert(ms[i].drop_last() =~= ls[i]);
        } else {
            assert(ms[i] == ls.last());
        }
    }
    lemma_same_bodies_same_parse(ls, ms);
}

/// Each `%R` line adds one record that keeps every field of the line in
/// place: appending the line `%R`, a tab and `rest` to a text that has a
/// table adds to its last table one record that starts with the fields of
/// `rest` split on tabs, followed only by the empty fields that bring it to
/// the width of the column names. Nothing else changes.
pub proof fn law_records_keep_their_fields(content: Seq<char>, rest: Seq<char>)
    requires
        xer_tables(content).len() > 0,
        forall|k: int| 0 <= k < rest.len() ==> rest[k] != '\n',
        rest.len() == 0 || rest.last() != '\r',
    ensures
        ({
            let before = xer_tables(content);
            let after = xer_tables(content + seq!['\n', '%', 'R', '\t'] + rest);
            let fields = split(rest, '\t');
            let width = before.last().headers.len();
            let record = after.last().rows.last();
            &&& after.len() == before.len()
            &&& after.drop_last() == before.drop_last()
            &&& after.last().name == before.last().name
            &&& after.last().headers == before.last().headers
            &&& after.last().rows.drop_last() == before.last().rows
            &&& after.last().rows.len() == before.last().rows.len() + 1
            &&& record.len() == if fields.len() < width {
                width
            } else {
                fields.len()
            }
            &&& record.take(fields.len() as int) == fields
            &&& forall|i: int| fields.len() <= i < record.len() ==> (#[trigger] record[i]).len() == 0
        }),
{
    let lines = split(content, '\n');
    let line = seq!['%', 'R', '\t'] + rest;
    assert forall|k: int| 0 <= k < line.len() implies line[k] != '\n' by {
        if k >= 3 {
            assert(line[k] == rest[k - 3]);
        }
    }
    lemma_split_append_piece(content, '\n', line);
    assert(content + seq!['\n', '%', 'R', '\t'] + rest =~= content + seq!['\n'] + line);
    let all = lines.push(line);
    assert(all.drop_last() =~= lines);
    lemma_parse_counts(lines);
    law_tables_and_records_counted(content);
    let st = parse_lines(lines);
    let c = st.1.unwrap();
    assert(line.last() != '\r') by {
        if rest.len() > 0 {
            assert(line.last() == rest.last());
        }
    }
    assert(line_body(line) == line);
    assert(trim_start(line) == line);
    assert(line.skip(2) =~= seq!['\t'] + rest);
    assert((seq!['\t'] + rest).skip(1) =~= rest);
    assert(marker_fields(line) == split(rest, '\t'));
    law_padding_keeps_fields(split(rest, '\t'), c.headers.len());
    assert(st.0.push(c).drop_last() =~= st.0);
    let nc = TableView {
        name: c.name,
        headers: c.headers,
        rows: c.rows.push(pad_row(split(rest, '\t'), c.headers.len())),
    };
    assert(st.0.push(nc).drop_last() =~= st.0);
    assert(nc.rows.drop_last() =~= c.rows);
}

} // verus!
