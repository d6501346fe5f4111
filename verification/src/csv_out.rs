//! The CSV text of a table: its column names as the first record, then one
//! record per row. Fields are written by the `csv` crate with its default
//! settings (comma delimiter, `"` quotes doubled inside quoted fields, `\n`
//! terminator), quoting a field only when it holds a comma, a quote, `\r`
//! or `\n`.

use vstd::prelude::*;
use vstd::utf8::{decode_utf8, encode_utf8, encode_utf8_decode_utf8};
use crate::parse::{Table, TableView};
use crate::paths::{csv_file_name, csv_name_of};

verus! {

/// A field needs quotes when it holds a delimiter, a quote or a line break.
pub open spec fn csv_needs_quotes(f: Seq<char>) -> bool {
    exists|i: int| 0 <= i < f.len() && (f[i] == ',' || f[i] == '"' || f[i] == '\r' || f[i] == '\n')
}

/// `f` with every `"` doubled.
pub open spec fn csv_double_quotes(f: Seq<char>) -> Seq<char>
    decreases f.len(),
{
    if f.len() == 0 {
        f
    } else {
        (if f[0] == '"' {
            seq!['"', '"']
        } else {
            seq![f[0]]
        }) + csv_double_quotes(f.drop_first())
    }
}

/// One field as written: quoted (with doubled quotes) when needed.
pub open spec fn csv_field(f: Seq<char>) -> Seq<char> {
    if csv_needs_quotes(f) {
        seq!['"'] + csv_double_quotes(f) + seq!['"']
    } else {
        f
    }
}

/// The fields as written, separated by commas.
pub open spec fn csv_join(fields: Seq<Seq<char>>) -> Seq<char>
    decreases fields.len(),
{
    if fields.len() == 0 {
        seq![]
    } else if fields.len() == 1 {
        csv_field(fields[0])
    } else {
        csv_field(fields[0]) + seq![','] + csv_join(fields.drop_first())
    }
}

/// One record as written, terminator included. A record that would be
/// empty (no field, or one empty field) is written as `""` so that it stays
/// distinguishable from a blank line.
pub open spec fn csv_record(fields: Seq<Seq<char>>) -> Seq<char> {
    (if fields.len() == 0 || (fields.len() == 1 && fields[0].len() == 0) {
        seq!['"', '"']
    } else {
        csv_join(fields)
    }) + seq!['\n']
}

/// The bytes of the records, one after the other, in UTF-8.
pub open spec fn csv_bytes(records: Seq<Seq<Seq<char>>>) -> Seq<u8>
    decreases records.len(),
{
    if records.len() == 0 {
        seq![]
    } else {
        csv_bytes(records.drop_last()) + encode_utf8(csv_record(records.last()))
    }
}

/// The CSV file of a table: the column names, then the rows.
pub open spec fn table_csv(t: TableView) -> Seq<u8> {
    csv_bytes(seq![t.headers] + t.rows)
}

/// One record written by a `csv::Writer` built with `flexible(true)` over an
/// empty `Vec<u8>` (`write_record`, then `into_inner`): the bytes of
/// [`csv_record`]. Writing to memory cannot fail, and a flexible writer
/// does not compare field counts, so a result is always returned.
#[verifier::external_body]
fn csv_record_bytes(fields: &Vec<String>) -> (r: Option<Vec<u8>>)
    ensures
        r is Some,
        r matches Some(b) ==> b@ == encode_utf8(csv_record(fields.deep_view())),
{
    let mut wtr = csv::WriterBuilder::new().flexible(true).from_writer(Vec::new());
    wtr.write_record(fields).ok()?;
    wtr.into_inner().ok()
}

/// The bytes of the CSV file of a table.
pub fn table_csv_bytes(table: &Table) -> (r: Vec<u8>)
    ensures
        r@ == table_csv(table@),
{
    let ghost records = seq![table.headers.deep_view()] + table.rows.deep_view();
    let mut out = csv_record_bytes(&table.headers).unwrap();
    assert(records.take(1).drop_last() =~= Seq::<Seq<Seq<char>>>::empty());
    assert(records.take(1).last() == table.headers.deep_view());
    assert(csv_bytes(records.take(1).drop_last()) =~= Seq::<u8>::empty());
    assert(out@ =~= csv_bytes(records.take(1)));
    let mut r: usize = 0;
    while r < table.rows.len()
        invariant
            records == seq![table.headers.deep_view()] + table.rows.deep_view(),
            r <= table.rows@.len(),
            out@ == csv_bytes(records.take(r + 1)),
        decreases table.rows.len() - r,
    {
        let mut b = csv_record_bytes(&table.rows[r]).unwrap();
        assert(records.take(r + 2).drop_last() =~= records.take(r + 1));
        assert(records.take(r + 2).last() == table.rows@[r as int].deep_view());
        out.append(&mut b);
        r += 1;
    }
    assert(records.take(table.rows@.len() + 1int) =~= records);
    out
}


/// A CSV file to write: its file name and its bytes.
pub struct CsvFile {
    pub name: String,
    pub bytes: Vec<u8>,
}

/// One CSV file per table, in the order of the tables: named after the
/// table (see [`csv_name_of`]) and holding [`table_csv`].
pub fn csv_files(tables: &Vec<Table>) -> (r: Vec<CsvFile>)
    ensures
        r@.len() == tables@.len(),
        forall|i: int|
            0 <= i < r@.len() ==> (#[trigger] r@[i]).name@ == csv_name_of(tables@[i].name@)
                && r@[i].bytes@ == table_csv(tables@[i]@),
{
    let mut out: Vec<CsvFile> = Vec::new();
    let mut i: usize = 0;
    while i < tables.len()
        invariant
            i <= tables@.len(),
            out@.len() == i,
            forall|k: int|
                0 <= k < i ==> (#[trigger] out@[k]).name@ == csv_name_of(tables@[k].name@)
                    && out@[k].bytes@ == table_csv(tables@[k]@),
        decreases tables.len() - i,
    {
        let t = &tables[i];
        let f = CsvFile { name: csv_file_name(t.name.as_str()), bytes: table_csv_bytes(t) };
        out.push(f);
        i += 1;
    }
    out
}


/// How a reader takes the body of a quoted field: up to the first `"` that
/// is not doubled, each `""` standing for one `"`. The second part is what
/// follows the closing quote.
pub open spec fn csv_read_quoted(s: Seq<char>) -> (Seq<char>, Seq<char>)
    decreases s.len(),
{
    if s.len() == 0 {
        (s, s)
    } else if s[0] == '"' && s.len() >= 2 && s[1] == '"' {
        let (c, r) = csv_read_quoted(s.skip(2));
        (seq!['"'] + c, r)
    } else if s[0] == '"' {
        (seq![], s.skip(1))
    } else {
        let (c, r) = csv_read_quoted(s.skip(1));
        (seq![s[0]] + c, r)
    }
}

/// How a reader takes an unquoted field: up to the first comma or line
/// break. The second part starts there (or is empty).
pub open spec fn csv_read_plain(s: Seq<char>) -> (Seq<char>, Seq<char>)
    decreases s.len(),
{
    if s.len() == 0 || s[0] == ',' || s[0] == '\n' {
        (seq![], s)
    } else {
        let (c, r) = csv_read_plain(s.skip(1));
        (seq![s[0]] + c, r)
    }
}

/// How a reader takes the first field of `s`, and what follows it.
pub open spec fn csv_read_one(s: Seq<char>) -> (Seq<char>, Seq<char>) {
    if s.len() > 0 && s[0] == '"' {
        csv_read_quoted(s.skip(1))
    } else {
        csv_read_plain(s)
    }
}

/// How a reader takes the fields of the first record of `s`: one field,
/// then, after each comma, the next one. The second part is what follows
/// the last field (the line break that ends the record, if any).
pub open spec fn csv_read_fields(s: Seq<char>) -> (Seq<Seq<char>>, Seq<char>)
    decreases s.len(),
{
    let (f, rest) = csv_read_one(s);
    if rest.len() > 0 && rest[0] == ',' && rest.len() <= s.len() {
        let (fs, r) = csv_read_fields(rest.skip(1));
        (seq![f] + fs, r)
    } else {
        (seq![f], rest)
    }
}

/// How a reader (flexible, with no header handling) splits a whole CSV text
/// into records: one record per line break that ends one.
pub open spec fn csv_read_file(s: Seq<char>) -> Seq<Seq<Seq<char>>>
    decreases s.len(),
{
    if s.len() == 0 {
        seq![]
    } else {
        let (fs, rest) = csv_read_fields(s);
        if rest.len() > 0 && rest[0] == '\n' && rest.len() <= s.len() {
            seq![fs] + csv_read_file(rest.skip(1))
        } else {
            seq![fs]
        }
    }
}

/// The text of the records, one after the other.
pub open spec fn csv_text(records: Seq<Seq<Seq<char>>>) -> Seq<char>
    decreases records.len(),
{
    if records.len() == 0 {
        seq![]
    } else {
        csv_text(records.drop_last()) + csv_record(records.last())
    }
}

proof fn lemma_read_quoted(f: Seq<char>, t: Seq<char>)
    requires
        t.len() == 0 || t[0] != '"',
    ensures
        csv_read_quoted(csv_double_quotes(f) + seq!['"'] + t) == (f, t),
    decreases f.len(),
{
    let s = csv_double_quotes(f) + seq!['"'] + t;
    if f.len() == 0 {
        assert(s =~= seq!['"'] + t);
        assert(s.skip(1) =~= t);
    } else {
        lemma_read_quoted(f.drop_first(), t);
        let rest = csv_double_quotes(f.drop_first()) + seq!['"'] + t;
        if f[0] == '"' {
            assert(s =~= seq!['"', '"'] + rest);
            assert(s.skip(2) =~= rest);
        } else {
            assert(s =~= seq![f[0]] + rest);
            assert(s.skip(1) =~= rest);
        }
        assert(f =~= seq![f[0]] + f.drop_first());
    }
}

proof fn lemma_read_plain(f: Seq<char>, t: Seq<char>)
    requires
        forall|i: int| 0 <= i < f.len() ==> f[i] != ',' && f[i] != '\n',
        t.len() == 0 || t[0] == ',' || t[0] == '\n',
    ensures
        csv_read_plain(f + t) == (f, t),
    decreases f.len(),
{
    let s = f + t;
    if f.len() == 0 {
        assert(s =~= t);
    } else {
        lemma_read_plain(f.drop_first(), t);
        assert(s.skip(1) =~= f.drop_first() + t);
        assert(f =~= seq![f[0]] + f.drop_first());
    }
}

/// A written field followed by a comma, a line break or nothing is read
/// back whole.
proof fn lemma_read_one(f: Seq<char>, t: Seq<char>)
    requires
        t.len() == 0 || t[0] == ',' || t[0] == '\n',
    ensures
        csv_read_one(csv_field(f) + t) == (f, t),
{
    if csv_needs_quotes(f) {
        let s = csv_field(f) + t;
        assert(s.skip(1) =~= csv_double_quotes(f) + seq!['"'] + t);
        lemma_read_quoted(f, t);
    } else {
        assert forall|i: int| 0 <= i < f.len() implies f[i] != ',' && f[i] != '\n' by {
            if f[i] == ',' || f[i] == '\n' {
                assert(csv_needs_quotes(f));
            }
        }
        if f.len() > 0 {
            assert(f[0] != '"') by {
                if f[0] == '"' {
                    assert(csv_needs_quotes(f));
                }
            }
            assert((f + t)[0] == f[0]);
        }
        lemma_read_plain(f, t);
    }
}

proof fn lemma_read_join(fields: Seq<Seq<char>>, t: Seq<char>)
    requires
        fields.len() >= 1,
        t.len() == 0 || t[0] == '\n',
    ensures
        csv_read_fields(csv_join(fields) + t) == (fields, t),
    decreases fields.len(),
{
    let s = csv_join(fields) + t;
    if fields.len() == 1 {
        assert(csv_field(fields[0]) + t =~= s);
        lemma_read_one(fields[0], t);
        assert(seq![fields[0]] =~= fields);
    } else {
        let tail = csv_join(fields.drop_first());
        let rest = seq![','] + tail + t;
        assert(s =~= csv_field(fields[0]) + rest);
        lemma_read_one(fields[0], rest);
        assert(rest.skip(1) =~= tail + t);
        lemma_read_join(fields.drop_first(), t);
        assert(seq![fields[0]] + fields.drop_first() =~= fields);
    }
}

proof fn lemma_read_record(fields: Seq<Seq<char>>, t: Seq<char>)
    requires
        fields.len() >= 1,
    ensures
        csv_read_fields(csv_record(fields) + t) == (fields, seq!['\n'] + t),
{
    let r = csv_record(fields);
    let s = r + t;
    let nt = seq!['\n'] + t;
    if fields.len() == 1 && fields[0].len() == 0 {
        assert(s =~= seq!['"', '"'] + nt);
        assert(s.skip(1) =~= seq!['"'] + nt);
        assert(csv_read_one(s) == csv_read_quoted(seq!['"'] + nt));
        assert((seq!['"'] + nt).skip(1) =~= nt);
        assert(csv_read_quoted(seq!['"'] + nt) == (Seq::<char>::empty(), nt));
        assert(fields[0] =~= Seq::<char>::empty());
        assert(seq![Seq::<char>::empty()] =~= fields);
    } else {
        assert(s =~= csv_join(fields) + nt);
        lemma_read_join(fields, nt);
    }
}

/// Quoting is undone exactly: every field, whatever commas, quotes or line
/// breaks it holds, is read back as it was written.
pub proof fn law_fields_read_back(f: Seq<char>)
    ensures
        csv_read_one(csv_field(f)) == (f, Seq::<char>::empty()),
{
    lemma_read_one(f, seq![]);
    assert(csv_field(f) + Seq::<char>::empty() =~= csv_field(f));
}

/// A written record is read back as the fields it was written from,
/// whatever commas, quotes or line breaks they hold (a record of no field
/// at all reads back as one empty field); the reader stops at the line
/// break that ends it.
pub proof fn law_records_read_back(fields: Seq<Seq<char>>)
    requires
        fields.len() >= 1,
    ensures
        csv_read_fields(csv_record(fields)) == (fields, seq!['\n']),
{
    lemma_read_record(fields, seq![]);
    assert(csv_record(fields) + Seq::<char>::empty() =~= csv_record(fields));
    assert(seq!['\n'] + Seq::<char>::empty() =~= seq!['\n']);
}

proof fn lemma_csv_text_front(r: Seq<Seq<char>>, records: Seq<Seq<Seq<char>>>)
    ensures
        csv_text(seq![r] + records) == csv_record(r) + csv_text(records),
    decreases records.len(),
{
    let all = seq![r] + records;
    if records.len() == 0 {
        assert(all.drop_last() =~= Seq::<Seq<Seq<char>>>::empty());
        assert(all.last() == r);
        assert(csv_text(all) == csv_text(all.drop_last()) + csv_record(r));
        assert(Seq::<char>::empty() + csv_record(r) =~= csv_record(r));
        assert(csv_record(r) + Seq::<char>::empty() =~= csv_record(r));
    } else {
        lemma_csv_text_front(r, records.drop_last());
        assert(all.drop_last() =~= seq![r] + records.drop_last());
        assert(all.last() == records.last());
        assert(csv_record(r) + csv_text(records.drop_last()) + csv_record(records.last())
            =~= csv_record(r) + csv_text(records));
    }
}

proof fn lemma_read_text(records: Seq<Seq<Seq<char>>>)
    requires
        forall|i: int| 0 <= i < records.len() ==> (#[trigger] records[i]).len() >= 1,
    ensures
        csv_read_file(csv_text(records)) == records,
    decreases records.len(),
{
    if records.len() > 0 {
        let r = records[0];
        let rest = records.drop_first();
        assert(seq![r] + rest =~= records);
        lemma_csv_text_front(r, rest);
        let tail = csv_text(rest);
        let s = csv_record(r) + tail;
        lemma_read_record(r, tail);
        assert((seq!['\n'] + tail).skip(1) =~= tail);
        assert(forall|i: int| 0 <= i < rest.len() ==> rest[i] == records[i + 1]);
        lemma_read_text(rest);
    }
}

proof fn lemma_encode_concat(a: Seq<char>, b: Seq<char>)
    ensures
        encode_utf8(a + b) == encode_utf8(a) + encode_utf8(b),
    decreases a.len(),
{
    if a.len() > 0 {
        lemma_encode_concat(a.drop_first(), b);
        assert((a + b).drop_first() =~= a.drop_first() + b);
        assert((a + b)[0] == a[0]);
    } else {
        assert(a + b =~= b);
    }
}

proof fn lemma_bytes_of_text(records: Seq<Seq<Seq<char>>>)
    ensures
        csv_bytes(records) == encode_utf8(csv_text(records)),
    decreases records.len(),
{
    if records.len() > 0 {
        lemma_bytes_of_text(records.drop_last());
        lemma_encode_concat(csv_text(records.drop_last()), csv_record(records.last()));
    }
}

/// The CSV file of a table is the UTF-8 encoding of its text, and a reader
/// (flexible, with no header handling) gets back from that text exactly the
/// column names followed by the rows, fields with commas, quotes or line
/// breaks included, when there is at least one column name and no row is
/// empty.
pub proof fn law_csv_file_reads_back(t: TableView)
    requires
        t.headers.len() >= 1,
        forall|r: int| 0 <= r < t.rows.len() ==> (#[trigger] t.rows[r]).len() >= 1,
    ensures
        table_csv(t) == encode_utf8(csv_text(seq![t.headers] + t.rows)),
        decode_utf8(table_csv(t)) == csv_text(seq![t.headers] + t.rows),
        csv_read_file(csv_text(seq![t.headers] + t.rows)) == seq![t.headers] + t.rows,
{
    let records = seq![t.headers] + t.rows;
    lemma_bytes_of_text(records);
    encode_utf8_decode_utf8(csv_text(records));
    assert forall|i: int| 0 <= i < records.len() implies (#[trigger] records[i]).len() >= 1 by {
        if i > 0 {
            assert(records[i] == t.rows[i - 1]);
        }
    }
    lemma_read_text(records);
}

} // verus!
