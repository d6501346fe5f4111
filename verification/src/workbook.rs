//! The master workbook of a file: one worksheet per table, named by
//! `unique_sheet_name`, with the column names in the first row and each
//! record in the row below the previous one. The worksheets are built with
//! `rust_xlsxwriter`; saving the workbook to disk is left to the caller.

use vstd::prelude::*;
use rust_xlsxwriter::{Workbook, Worksheet};
use crate::parse::{tables_view, Table, TableView};
use crate::sheet_name::{
    is_forbidden_sheet_char, lemma_distinct_push, lemma_unique_name_free, names_distinct,
    unique_sheet_name, unique_sheet_name_for, valid_sheet_name,
};
use crate::text::pow10;

verus! {

#[verifier::external_type_specification]
#[verifier::external_body]
pub struct ExWorkbook(rust_xlsxwriter::Workbook);

#[verifier::external_type_specification]
#[verifier::external_body]
pub struct ExWorksheet(rust_xlsxwriter::Worksheet);

/// The cells of a worksheet: text by (row, column).
pub type SheetCells = Map<(u32, u16), Seq<char>>;

/// A worksheet as its name and its cells.
pub type SheetModel = (Seq<char>, SheetCells);

/// The name of a worksheet.
pub uninterp spec fn worksheet_name(ws: Worksheet) -> Seq<char>;

/// The string cells of a worksheet.
pub uninterp spec fn worksheet_cells(ws: Worksheet) -> SheetCells;

/// The worksheets of a workbook, in order.
pub uninterp spec fn workbook_sheets(wb: Workbook) -> Seq<SheetModel>;

/// The length of a text in UTF-16 code units, the unit in which Excel
/// counts characters.
pub open spec fn utf16_len(s: Seq<char>) -> nat
    decreases s.len(),
{
    if s.len() == 0 {
        0
    } else {
        utf16_len(s.drop_last()) + if (s.last() as u32) >= 0x10000 {
            2nat
        } else {
            1nat
        }
    }
}

/// A name that `Worksheet::set_name` accepts: not blank, at most 31 UTF-16
/// units, none of `* ? : [ ] \ /`, and not starting or ending with `'`.
pub open spec fn sheet_name_accepted(s: Seq<char>) -> bool {
    &&& s.len() > 0
    &&& utf16_len(s) <= 31
    &&& forall|i: int| 0 <= i < s.len() ==> !is_forbidden_sheet_char(#[trigger] s[i])
    &&& s[0] != '\''
    &&& s.last() != '\''
}

/// Excel's grid: 1,048,576 rows and 16,384 columns.
pub open spec fn in_grid(row: u32, col: u16) -> bool {
    row < 1_048_576 && col < 16_384
}

/// One string written to a cell: (row, column, text).
pub type CellWrite = (u32, u16, Seq<char>);

/// The effect of `Worksheet::write_string` on the cells, `None` once a write
/// has failed: an empty string leaves the cells as they are; otherwise the
/// cell must be on the grid and the text at most 32,767 UTF-16 units long.
pub open spec fn write_cell(cells: Option<SheetCells>, w: CellWrite) -> Option<SheetCells> {
    match cells {
        None => None,
        Some(c) => if w.2.len() == 0 {
            Some(c)
        } else if in_grid(w.0, w.1) && utf16_len(w.2) <= 32767 {
            Some(c.insert((w.0, w.1), w.2))
        } else {
            None
        },
    }
}

/// The cells after the given writes, in order.
pub open spec fn apply_writes(start: Option<SheetCells>, ws: Seq<CellWrite>) -> Option<SheetCells>
    decreases ws.len(),
{
    if ws.len() == 0 {
        start
    } else {
        write_cell(apply_writes(start, ws.drop_last()), ws.last())
    }
}

/// The writes of one record into row `row`: field `j` into column `j`
/// (converted to the 16-bit column number).
pub open spec fn record_writes(row: u32, fields: Seq<Seq<char>>) -> Seq<CellWrite> {
    Seq::new(fields.len(), |j: int| (row, j as u16, fields[j]))
}

/// The writes of the rows of a table: row `r` of the table goes to sheet row
/// `r + 1` (converted to the 32-bit row number).
pub open spec fn rows_writes(rows: Seq<Seq<Seq<char>>>) -> Seq<CellWrite>
    decreases rows.len(),
{
    if rows.len() == 0 {
        seq![]
    } else {
        rows_writes(rows.drop_last()) + record_writes(rows.len() as u32, rows.last())
    }
}

/// The writes of a table: its column names in row 0, then its rows.
pub open spec fn table_writes(t: TableView) -> Seq<CellWrite> {
    record_writes(0, t.headers) + rows_writes(t.rows)
}

/// The names of some worksheets.
pub open spec fn sheet_names(sheets: Seq<SheetModel>) -> Seq<Seq<char>> {
    sheets.map_values(|s: SheetModel| s.0)
}

/// The worksheets built for the tables, or `None` when a sheet name is
/// refused or a cell cannot be written.
pub open spec fn workbook_plan(tables: Seq<TableView>) -> Option<Seq<SheetModel>>
    decreases tables.len(),
{
    if tables.len() == 0 {
        Some(seq![])
    } else {
        match workbook_plan(tables.drop_last()) {
            None => None,
            Some(sheets) => {
                let t = tables.last();
                let name = unique_sheet_name_for(t.name, sheet_names(sheets));
                if !sheet_name_accepted(name) {
                    None
                } else {
                    match apply_writes(Some(Map::empty()), table_writes(t)) {
                        None => None,
                        Some(c) => Some(sheets.push((name, c))),
                    }
                }
            },
        }
    }
}

/// The kind of an error of the conversion, as `std::io::ErrorKind` files
/// it: the errors that the workbook reports are of the kind `Other`.
#[derive(PartialEq, Eq, Structural, Clone, Copy, Debug)]
pub enum ConvertErrorKind {
    /// `std::io::ErrorKind::Other`
    Other,
}

/// An error of the conversion: its kind and the text to show to the user.
pub struct ConvertError {
    pub kind: ConvertErrorKind,
    pub message: String,
}

/// What went wrong while building a worksheet: the text of the error that
/// `rust_xlsxwriter` reported (`XlsxError`, as its `Display` writes it).
pub struct WorkbookError {
    pub text: String,
}

/// The call that `Worksheet::set_name` names in its errors.
pub open spec fn set_name_call(name: Seq<char>) -> Seq<char> {
    "worksheet.set_name(\""@ + name + "\")"@
}

/// The text of the error `Worksheet::set_name` gives when it refuses a
/// name, by the order of its checks (blank, too long, a forbidden
/// character, an apostrophe at either end), as `XlsxError`'s `Display`
/// writes it around the call.
pub open spec fn set_name_error_text(name: Seq<char>) -> Seq<char> {
    let m = "Worksheet name '"@ + set_name_call(name);
    if name.len() == 0 {
        m + "' cannot be blank."@
    } else if utf16_len(name) > 31 {
        m + "' exceeds Excel's limit of 31 characters."@
    } else if exists|i: int| 0 <= i < name.len() && is_forbidden_sheet_char(#[trigger] name[i]) {
        m + "' cannot contain invalid characters: '[ ] : * ? / \\'."@
    } else {
        m + "' cannot start or end with an apostrophe."@
    }
}

/// The text of the error `Worksheet::write_string` gives when it refuses a
/// write: off the grid, else a text that is too long.
pub open spec fn write_string_error_text(row: u32, col: u16) -> Seq<char> {
    if !in_grid(row, col) {
        "Row or column exceeds Excel's allowed limits (1,048,576 x 16,384)."@
    } else {
        "String exceeds Excel's limit of 32,767 characters."@
    }
}

/// `Worksheet::set_name`: succeeds exactly on the names of
/// [`sheet_name_accepted`], then the sheet has that name; a refused name
/// gives the text of [`set_name_error_text`] and leaves the worksheet
/// as it was. The cells are not touched.
#[verifier::external_body]
fn set_worksheet_name(ws: &mut Worksheet, name: &str) -> (r: Result<(), WorkbookError>)
    ensures
        r is Ok <==> sheet_name_accepted(name@),
        r is Ok ==> worksheet_name(*final(ws)) == name@,
        r matches Err(e) ==> e.text@ == set_name_error_text(name@),
        r is Err ==> worksheet_name(*final(ws)) == worksheet_name(*old(ws)),
        worksheet_cells(*final(ws)) == worksheet_cells(*old(ws)),
{
    match ws.set_name(name) {
        Ok(_) => Ok(()),
        Err(e) => Err(WorkbookError { text: e.to_string() }),
    }
}

/// `Worksheet::write_string`: an empty string is ignored; otherwise the
/// write succeeds exactly when the cell is on the grid and the text is at
/// most 32,767 UTF-16 units long, and then the cell holds the text; a
/// refused write gives the text of [`write_string_error_text`]. The
/// name is not touched, and a failed write leaves the cells as they were.
#[verifier::external_body]
fn write_cell_string(ws: &mut Worksheet, row: u32, col: u16, text: &str) -> (r: Result<
    (),
    WorkbookError,
>)
    ensures
        r matches Err(e) ==> e.text@ == write_string_error_text(row, col),
        r is Ok <==> write_cell(Some(worksheet_cells(*old(ws))), (row, col, text@)) is Some,
        r is Ok ==> Some(worksheet_cells(*final(ws))) == write_cell(
            Some(worksheet_cells(*old(ws))),
            (row, col, text@),
        ),
        r is Err ==> worksheet_cells(*final(ws)) == worksheet_cells(*old(ws)),
        worksheet_name(*final(ws)) == worksheet_name(*old(ws)),
{
    match ws.write_string(row, col, text) {
        Ok(_) => Ok(()),
        Err(e) => Err(WorkbookError { text: e.to_string() }),
    }
}

/// `Workbook::new`: a workbook without worksheets.
#[verifier::external_body]
fn new_workbook() -> (book: Workbook)
    ensures
        workbook_sheets(book) == Seq::<SheetModel>::empty(),
{
    Workbook::new()
}

/// `Workbook::add_worksheet`: appends a worksheet with no cells and hands
/// it out; the workbook's last worksheet is that worksheet as the caller
/// leaves it. (Its default name, `Sheet` and a number, is not stated.)
#[verifier::external_body]
fn add_worksheet(wb: &mut Workbook) -> (sheet: &mut Worksheet)
    ensures
        worksheet_cells(*sheet) == SheetCells::empty(),
        workbook_sheets(*final(wb)) == workbook_sheets(*old(wb)).push(
            (worksheet_name(*final(sheet)), worksheet_cells(*final(sheet))),
        ),
{
    wb.add_worksheet()
}

/// Turns a workbook error into a conversion error of the kind `Other`
/// carrying its text.
pub fn to_io(e: &WorkbookError) -> (r: ConvertError)
    ensures
        r.kind == ConvertErrorKind::Other,
        r.message@ == e.text@,
{
    ConvertError { kind: ConvertErrorKind::Other, message: e.text.clone() }
}

/// The text of the error of a refused write.
pub open spec fn write_error_text(w: CellWrite) -> Seq<char> {
    write_string_error_text(w.0, w.1)
}

/// The first of the writes that is refused, starting from the given cells,
/// if one is.
pub open spec fn refused_write(cells: SheetCells, ws: Seq<CellWrite>) -> Option<CellWrite>
    decreases ws.len(),
{
    if ws.len() == 0 {
        None
    } else {
        match refused_write(cells, ws.drop_last()) {
            Some(w) => Some(w),
            None => if write_cell(apply_writes(Some(cells), ws.drop_last()), ws.last()) is None {
                Some(ws.last())
            } else {
                None
            },
        }
    }
}

proof fn lemma_refused_iff_failed(cells: SheetCells, ws: Seq<CellWrite>)
    ensures
        refused_write(cells, ws) is None <==> apply_writes(Some(cells), ws) is Some,
    decreases ws.len(),
{
    if ws.len() > 0 {
        lemma_refused_iff_failed(cells, ws.drop_last());
    }
}

/// A write refused within a prefix of the writes is the first refused one
/// of them all.
proof fn lemma_refused_prefix(cells: SheetCells, ws: Seq<CellWrite>, p: int)
    requires
        0 <= p <= ws.len(),
        refused_write(cells, ws.take(p)) is Some,
    ensures
        refused_write(cells, ws) == refused_write(cells, ws.take(p)),
    decreases ws.len(),
{
    if p == ws.len() {
        assert(ws.take(p) =~= ws);
    } else {
        assert(ws.drop_last().take(p) =~= ws.take(p));
        lemma_refused_prefix(cells, ws.drop_last(), p);
    }
}

/// When the writes before position `p - 1` go through and that write is
/// refused, it is the first refused write, and the writes fail.
proof fn lemma_refused_at(cells: SheetCells, ws: Seq<CellWrite>, p: int)
    requires
        0 < p <= ws.len(),
        apply_writes(Some(cells), ws.take(p - 1)) is Some,
        write_cell(apply_writes(Some(cells), ws.take(p - 1)), ws[p - 1]) is None,
    ensures
        refused_write(cells, ws) == Some(ws[p - 1]),
        apply_writes(Some(cells), ws) is None,
{
    let pre = ws.take(p);
    assert(pre.drop_last() =~= ws.take(p - 1));
    assert(pre.last() == ws[p - 1]);
    lemma_refused_iff_failed(cells, ws.take(p - 1));
    lemma_refused_prefix(cells, ws, p);
    lemma_refused_iff_failed(cells, ws);
}

proof fn lemma_rows_writes_prefix(rows: Seq<Seq<Seq<char>>>, k: int)
    requires
        0 <= k <= rows.len(),
    ensures
        rows_writes(rows.take(k)).len() <= rows_writes(rows).len(),
        rows_writes(rows.take(k)) =~= rows_writes(rows).take(rows_writes(rows.take(k)).len() as int),
    decreases rows.len(),
{
    if k == rows.len() {
        assert(rows.take(k) =~= rows);
    } else {
        assert(rows.drop_last().take(k) =~= rows.take(k));
        lemma_rows_writes_prefix(rows.drop_last(), k);
    }
}

/// Writes a table into a fresh worksheet: column names in row 0, row `r`
/// of the table in sheet row `r + 1`.
fn write_table(ws: &mut Worksheet, table: &Table) -> (r: Result<(), WorkbookError>)
    ensures
        worksheet_name(*final(ws)) == worksheet_name(*old(ws)),
        r is Ok ==> apply_writes(Some(worksheet_cells(*old(ws))), table_writes(table@)) == Some(
            worksheet_cells(*final(ws)),
        ),
        r is Err ==> apply_writes(Some(worksheet_cells(*old(ws))), table_writes(table@)) is None,
        r matches Err(e) ==> (refused_write(worksheet_cells(*old(ws)), table_writes(table@))
            matches Some(w) && e.text@ == write_error_text(w)),
{
    let ghost start = Some(worksheet_cells(*old(ws)));
    let ghost hw = record_writes(0, table.headers.deep_view());
    let ghost all = table_writes(table@);
    let mut j: usize = 0;
    assert(hw.take(0) =~= Seq::<CellWrite>::empty());
    while j < table.headers.len()
        invariant
            hw == record_writes(0, table.headers.deep_view()),
            all == hw + rows_writes(table.rows.deep_view()),
            start == Some(worksheet_cells(*old(ws))),
            j <= table.headers@.len(),
            worksheet_name(*ws) == worksheet_name(*old(ws)),
            apply_writes(start, hw.take(j as int)) == Some(worksheet_cells(*ws)),
        decreases table.headers.len() - j,
    {
        let res = write_cell_string(ws, 0, #[verifier::truncate] (j as u16), table.headers[j].as_str());
        assert(hw.take(j + 1).drop_last() =~= hw.take(j as int));
        assert(hw.take(j + 1).last() == (0u32, j as u16, table.headers@[j as int]@));
        match res {
            Ok(()) => {},
            Err(e) => {
                proof {
                    assert(all.take(j + 1) =~= hw.take(j + 1));
                    assert(all.take(j as int) =~= hw.take(j as int));
                    lemma_refused_at(worksheet_cells(*old(ws)), all, j + 1);
                }
                return Err(e);
            },
        }
        j += 1;
    }
    assert(hw.take(hw.len() as int) =~= hw);
    let ghost rows = table.rows.deep_view();
    let mut r: usize = 0;
    assert(rows.take(0) =~= Seq::<Seq<Seq<char>>>::empty());
    assert(hw + rows_writes(rows.take(0)) =~= hw);
    while r < table.rows.len()
        invariant
            hw == record_writes(0, table.headers.deep_view()),
            rows == table.rows.deep_view(),
            all == hw + rows_writes(rows),
            start == Some(worksheet_cells(*old(ws))),
            r <= rows.len(),
            worksheet_name(*ws) == worksheet_name(*old(ws)),
            apply_writes(start, hw + rows_writes(rows.take(r as int))) == Some(worksheet_cells(*ws)),
        decreases table.rows.len() - r,
    {
        let row = &table.rows[r];
        let row_num = #[verifier::truncate] ((r + 1) as u32);
        let ghost done = hw + rows_writes(rows.take(r as int));
        let ghost rw = record_writes(row_num, row.deep_view());
        proof {
            assert(rows.take(r + 1).drop_last() =~= rows.take(r as int));
            assert(rows.take(r + 1).last() == row.deep_view());
            assert(rows_writes(rows.take(r + 1)) == rows_writes(rows.take(r as int)) + rw);
            lemma_rows_writes_prefix(rows, r + 1);
        }
        let mut j: usize = 0;
        assert(done + rw.take(0) =~= done);
        while j < row.len()
            invariant
                hw == record_writes(0, table.headers.deep_view()),
                rows == table.rows.deep_view(),
                all == hw + rows_writes(rows),
                start == Some(worksheet_cells(*old(ws))),
                r < rows.len(),
                rows[r as int] == row.deep_view(),
                rw == record_writes(row_num, row.deep_view()),
                done == hw + rows_writes(rows.take(r as int)),
                rows_writes(rows.take(r + 1)) == rows_writes(rows.take(r as int)) + rw,
                rows_writes(rows.take(r + 1)) =~= rows_writes(rows).take(
                    rows_writes(rows.take(r + 1)).len() as int,
                ),
                rows_writes(rows.take(r + 1)).len() <= rows_writes(rows).len(),
                j <= row@.len(),
                worksheet_name(*ws) == worksheet_name(*old(ws)),
                apply_writes(start, done + rw.take(j as int)) == Some(worksheet_cells(*ws)),
            decreases row.len() - j,
        {
            let res = write_cell_string(ws, row_num, #[verifier::truncate] (j as u16), row[j].as_str());
            assert((done + rw.take(j + 1)).drop_last() =~= done + rw.take(j as int));
            assert((done + rw.take(j + 1)).last() == (row_num, j as u16, row@[j as int]@));
            match res {
                Ok(()) => {},
                Err(e) => {
                    proof {
                        let p = done.len() + j + 1;
                        let pre = rows_writes(rows.take(r + 1));
                        let rs = rows_writes(rows);
                        assert(rs.take(pre.len() as int) =~= pre);
                        assert forall|x: int| 0 <= x < p implies #[trigger] all.take(p)[x] == (done
                            + rw.take(j + 1))[x] by {
                            if x >= hw.len() {
                                let y = x - hw.len();
                                assert(rs.take(pre.len() as int)[y] == rs[y]);
                            }
                        }
                        assert(all.take(p) =~= done + rw.take(j + 1));
                        assert(all.take(p - 1) =~= done + rw.take(j as int));
                        assert(all[p - 1] == all.take(p)[p - 1]);
                        lemma_refused_at(worksheet_cells(*old(ws)), all, p);
                    }
                    return Err(e);
                },
            }
            j += 1;
        }
        assert(rw.take(rw.len() as int) =~= rw);
        assert(done + rw =~= hw + rows_writes(rows.take(r + 1)));
        r += 1;
    }
    assert(rows.take(rows.len() as int) =~= rows);
    Ok(())
}

/// The text of the error that stops the building of the worksheets: that
/// of the first refused sheet name or cell, if one is refused.
pub open spec fn workbook_error(tables: Seq<TableView>) -> Option<Seq<char>>
    decreases tables.len(),
{
    if tables.len() == 0 {
        None
    } else {
        match workbook_error(tables.drop_last()) {
            Some(t) => Some(t),
            None => match workbook_plan(tables.drop_last()) {
                None => None,
                Some(sheets) => {
                    let t = tables.last();
                    let name = unique_sheet_name_for(t.name, sheet_names(sheets));
                    if !sheet_name_accepted(name) {
                        Some(set_name_error_text(name))
                    } else {
                        match refused_write(Map::empty(), table_writes(t)) {
                            Some(w) => Some(write_error_text(w)),
                            None => None,
                        }
                    }
                },
            },
        }
    }
}

proof fn lemma_error_iff_no_plan(tables: Seq<TableView>)
    ensures
        workbook_error(tables) is None <==> workbook_plan(tables) is Some,
    decreases tables.len(),
{
    if tables.len() > 0 {
        lemma_error_iff_no_plan(tables.drop_last());
        lemma_refused_iff_failed(Map::empty(), table_writes(tables.last()));
    }
}

/// An error met within the first `k` tables is the error of them all.
proof fn lemma_error_prefix(tables: Seq<TableView>, k: int)
    requires
        0 <= k <= tables.len(),
        workbook_error(tables.take(k)) is Some,
    ensures
        workbook_error(tables) == workbook_error(tables.take(k)),
        workbook_plan(tables) is None,
    decreases tables.len(),
{
    if k == tables.len() {
        assert(tables.take(k) =~= tables);
    } else {
        assert(tables.drop_last().take(k) =~= tables.take(k));
        lemma_error_prefix(tables.drop_last(), k);
    }
    lemma_error_iff_no_plan(tables);
}

/// Builds the master workbook of a file: for each table, in order, a
/// worksheet named by `unique_sheet_name` that holds the column names in row
/// 0 and record `r` in row `r + 1`. Fails when a sheet name or a cell is
/// refused.
pub fn build_workbook(tables: &Vec<Table>) -> (r: Result<Workbook, ConvertError>)
    ensures
        match r {
            Ok(wb) => workbook_plan(tables_view(tables@)) == Some(workbook_sheets(wb)),
            Err(e) => workbook_plan(tables_view(tables@)) is None && workbook_error(
                tables_view(tables@),
            ) == Some(e.message@),
        },
{
    let ghost tv = tables_view(tables@);
    let mut workbook = new_workbook();
    let mut used: Vec<String> = Vec::new();
    let mut i: usize = 0;
    assert(tv.take(0) =~= Seq::<TableView>::empty());
    assert(used.deep_view() =~= sheet_names(workbook_sheets(workbook)));
    while i < tables.len()
        invariant
            tv == tables_view(tables@),
            i <= tables@.len(),
            workbook_plan(tv.take(i as int)) == Some(workbook_sheets(workbook)),
            used.deep_view() == sheet_names(workbook_sheets(workbook)),
        decreases tables.len() - i,
    {
        let table = &tables[i];
        let ghost sheets = workbook_sheets(workbook);
        proof {
            assert(tv.take(i + 1).drop_last() =~= tv.take(i as int));
            assert(tv.take(i + 1).last() == table@);
        }
        let name = unique_sheet_name(table.name.as_str(), &mut used);
        let ws = add_worksheet(&mut workbook);
        match set_worksheet_name(ws, name.as_str()) {
            Ok(()) => {},
            Err(e) => {
                proof {
                    lemma_error_iff_no_plan(tv.take(i as int));
                    lemma_error_prefix(tv, i + 1);
                }
                return Err(to_io(&e));
            },
        }
        match write_table(ws, table) {
            Ok(()) => {},
            Err(e) => {
                proof {
                    lemma_error_iff_no_plan(tv.take(i as int));
                    lemma_error_prefix(tv, i + 1);
                }
                return Err(to_io(&e));
            },
        }
        assert(used.deep_view() =~= sheet_names(workbook_sheets(workbook)));
        i += 1;
    }
    assert(tv.take(tv.len() as int) =~= tv);
    Ok(workbook)
}


/// Every table gets its own worksheet, in order, named after the table by
/// `unique_sheet_name`; the names are valid sheet names and no two of them
/// are equal ignoring ASCII case.
pub proof fn law_one_sheet_per_table(tables: Seq<TableView>)
    requires
        tables.len() <= usize::MAX,
    ensures
        workbook_plan(tables) matches Some(sheets) ==> {
            &&& sheets.len() == tables.len()
            &&& names_distinct(sheet_names(sheets))
            &&& forall|i: int| 0 <= i < sheets.len() ==> valid_sheet_name(#[trigger] sheets[i].0)
            &&& forall|i: int|
                0 <= i < sheets.len() ==> #[trigger] sheets[i].0 == unique_sheet_name_for(
                    tables[i].name,
                    sheet_names(sheets.take(i)),
                )
            &&& forall|i: int|
                0 <= i < sheets.len() ==> Some(#[trigger] sheets[i].1) == apply_writes(
                    Some(Map::empty()),
                    table_writes(tables[i]),
                )
        },
    decreases tables.len(),
{
    if tables.len() > 0 {
        let front = tables.drop_last();
        law_one_sheet_per_table(front);
        if let Some(prev) = workbook_plan(front) {
            let t = tables.last();
            let used = sheet_names(prev);
            let name = unique_sheet_name_for(t.name, used);
            lemma_unique_name_free(t.name, used);
            assert(used.len() + 2 < pow10(20)) by {
                reveal_with_fuel(pow10, 21);
            }
            if let Some(sheets) = workbook_plan(tables) {
                let c = apply_writes(Some(Map::empty()), table_writes(t)).unwrap();
                assert(sheets == prev.push((name, c)));
                assert(sheet_names(sheets) =~= used.push(name));
                lemma_distinct_push(used, name);
                assert forall|i: int| 0 <= i < sheets.len() implies #[trigger] sheets[i].0
                    == unique_sheet_name_for(tables[i].name, sheet_names(sheets.take(i))) by {
                    if i < prev.len() {
                        assert(sheets.take(i) =~= prev.take(i));
                        assert(tables[i] == front[i]);
                    } else {
                        assert(sheets.take(i) =~= prev);
                    }
                }
                assert forall|i: int| 0 <= i < sheets.len() implies Some(#[trigger] sheets[i].1)
                    == apply_writes(Some(Map::empty()), table_writes(tables[i])) by {
                    if i < prev.len() {
                        assert(tables[i] == front[i]);
                    }
                }
            }
        }
    }
}

/// After writes that all go through, a cell that some write with a
/// non-empty text hits holds that text, when every write to that cell
/// carries the same text.
proof fn lemma_cell_holds_text(
    c0: SheetCells,
    ws: Seq<CellWrite>,
    key: (u32, u16),
    v: Seq<char>,
    k0: int,
)
    requires
        apply_writes(Some(c0), ws) is Some,
        0 <= k0 < ws.len(),
        (ws[k0].0, ws[k0].1) == key,
        ws[k0].2 == v,
        v.len() > 0,
        forall|k: int| 0 <= k < ws.len() && (#[trigger] ws[k].0, ws[k].1) == key ==> ws[k].2 == v,
    ensures
        apply_writes(Some(c0), ws).unwrap().contains_key(key),
        apply_writes(Some(c0), ws).unwrap()[key] == v,
    decreases ws.len(),
{
    let prev = apply_writes(Some(c0), ws.drop_last());
    let last = ws.last();
    if prev is None {
        assert(write_cell(prev, last) is None);
    }
    if (last.0, last.1) != key {
        assert forall|k: int|
            0 <= k < ws.drop_last().len() && (#[trigger] ws.drop_last()[k].0, ws.drop_last()[k].1)
                == key implies ws.drop_last()[k].2 == v by {
            assert(ws.drop_last()[k] == ws[k]);
        }
        assert(ws.drop_last()[k0] == ws[k0]);
        lemma_cell_holds_text(c0, ws.drop_last(), key, v, k0);
    }
}

/// Every cell written holds the text of some write that hits it (or was
/// there before).
proof fn lemma_cells_come_from_writes(c0: SheetCells, ws: Seq<CellWrite>)
    requires
        apply_writes(Some(c0), ws) is Some,
    ensures
        forall|key: (u32, u16)|
            #[trigger] apply_writes(Some(c0), ws).unwrap().contains_key(key) ==> c0.contains_key(key)
                || exists|k: int|
                0 <= k < ws.len() && (#[trigger] ws[k].0, ws[k].1) == key && ws[k].2.len() > 0,
    decreases ws.len(),
{
    if ws.len() > 0 {
        let prev = apply_writes(Some(c0), ws.drop_last());
        if prev is None {
            assert(write_cell(prev, ws.last()) is None);
        }
        lemma_cells_come_from_writes(c0, ws.drop_last());
        let c = apply_writes(Some(c0), ws).unwrap();
        assert forall|key: (u32, u16)| #[trigger] c.contains_key(key) implies c0.contains_key(key)
            || exists|k: int|
            0 <= k < ws.len() && (#[trigger] ws[k].0, ws[k].1) == key && ws[k].2.len() > 0 by {
            let last = ws.last();
            if (last.0, last.1) == key && last.2.len() > 0 {
                assert(ws[ws.len() - 1] == last);
            } else {
                assert(prev.unwrap().contains_key(key));
                if !c0.contains_key(key) {
                    let k = choose|k: int|
                        0 <= k < ws.drop_last().len() && (#[trigger] ws.drop_last()[k].0,
                        ws.drop_last()[k].1) == key && ws.drop_last()[k].2.len() > 0;
                    assert(ws[k] == ws.drop_last()[k]);
                }
            }
        }
    }
}

/// Each write of the rows goes to row `r + 1`, column `j`, with field `j`
/// of record `r`.
proof fn lemma_rows_writes_cells(rows: Seq<Seq<Seq<char>>>)
    requires
        rows.len() < 0xFFFF_FFFF,
        forall|r: int| 0 <= r < rows.len() ==> (#[trigger] rows[r]).len() <= 0x1_0000,
    ensures
        forall|k: int|
            0 <= k < rows_writes(rows).len() ==> {
                let w = #[trigger] rows_writes(rows)[k];
                &&& 1 <= w.0 <= rows.len()
                &&& (w.1 as int) < rows[w.0 - 1].len()
                &&& w.2 == rows[w.0 - 1][w.1 as int]
            },
    decreases rows.len(),
{
    if rows.len() > 0 {
        let front = rows.drop_last();
        assert forall|r: int| 0 <= r < front.len() implies (#[trigger] front[r]).len() <= 0x1_0000 by {
            assert(front[r] == rows[r]);
        }
        lemma_rows_writes_cells(front);
        let n = rows.len();
        let pre = rows_writes(front);
        let rec = record_writes(n as u32, rows.last());
        assert forall|k: int| 0 <= k < rows_writes(rows).len() implies {
            let w = #[trigger] rows_writes(rows)[k];
            &&& 1 <= w.0 <= rows.len()
            &&& (w.1 as int) < rows[w.0 - 1].len()
            &&& w.2 == rows[w.0 - 1][w.1 as int]
        } by {
            if k < pre.len() {
                let w = pre[k];
                assert(rows_writes(rows)[k] == w);
                assert(front[w.0 - 1] == rows[w.0 - 1]);
            } else {
                let j = k - pre.len();
                assert(rows_writes(rows)[k] == rec[j]);
                assert(rows[n - 1] == rows.last());
                assert((j as u16) as int == j);
            }
        }
    }
}

/// Field `j` of record `r` is written at a known place among the writes of
/// the rows.
proof fn lemma_row_write_at(rows: Seq<Seq<Seq<char>>>, r: int, j: int)
    requires
        0 <= r < rows.len(),
        0 <= j < rows[r].len(),
    ensures
        rows_writes(rows.take(r)).len() + j < rows_writes(rows).len(),
        rows_writes(rows)[rows_writes(rows.take(r)).len() + j] == ((r + 1) as u32, j as u16, rows[r][j]),
{
    lemma_rows_writes_prefix(rows, r + 1);
    let t = rows.take(r + 1);
    assert(t.drop_last() =~= rows.take(r));
    assert(t.last() == rows[r]);
    let pre = rows_writes(rows.take(r));
    let rec = record_writes((r + 1) as u32, rows[r]);
    assert(rows_writes(t) == pre + rec);
    assert(rows_writes(t)[pre.len() + j] == rec[j]);
    assert(rows_writes(rows).take(rows_writes(t).len() as int)[pre.len() + j] == rows_writes(
        rows,
    )[pre.len() + j]);
}

/// The cells of a worksheet whose writes all went through: the column names
/// are in row 0 (name `j` in column `j`), field `j` of record `r` is in row
/// `r + 1`, column `j`, each as long as it is not empty (an empty text writes
/// nothing), and no other cell holds anything. This holds when every record
/// and the column names fit the 16-bit column numbers and the rows fit the
/// 32-bit row numbers, so that no two fields share a cell.
pub proof fn law_table_cells(t: TableView, cells: SheetCells)
    requires
        apply_writes(Some(SheetCells::empty()), table_writes(t)) == Some(cells),
        t.headers.len() <= 0x1_0000,
        t.rows.len() < 0xFFFF_FFFF,
        forall|r: int| 0 <= r < t.rows.len() ==> (#[trigger] t.rows[r]).len() <= 0x1_0000,
    ensures
        forall|j: int|
            0 <= j < t.headers.len() && (#[trigger] t.headers[j]).len() > 0 ==> cells.contains_key(
                (0u32, j as u16),
            ) && cells[(0u32, j as u16)] == t.headers[j],
        forall|r: int, j: int|
            0 <= r < t.rows.len() && 0 <= j < t.rows[r].len() && (#[trigger] t.rows[r][j]).len() > 0
                ==> cells.contains_key(((r + 1) as u32, j as u16)) && cells[((r + 1) as u32, j as u16)]
                == t.rows[r][j],
        forall|key: (u32, u16)|
            #[trigger] cells.contains_key(key) ==> (key.0 == 0 && (key.1 as int) < t.headers.len()
                && cells[key] == t.headers[key.1 as int]) || (1 <= key.0 <= t.rows.len() && (
            key.1 as int) < t.rows[key.0 - 1].len() && cells[key] == t.rows[key.0 - 1][key.1 as int]),
{
    let hw = record_writes(0, t.headers);
    let rw = rows_writes(t.rows);
    let ws = table_writes(t);
    let c0 = SheetCells::empty();
    lemma_rows_writes_cells(t.rows);
    // What every write puts where: the text is fixed by the cell.
    assert forall|k: int| 0 <= k < ws.len() implies {
        let w = #[trigger] ws[k];
        ||| (w.0 == 0 && (w.1 as int) < t.headers.len() && w.2 == t.headers[w.1 as int])
        ||| (1 <= w.0 <= t.rows.len() && (w.1 as int) < t.rows[w.0 - 1].len() && w.2 == t.rows[w.0
            - 1][w.1 as int])
    } by {
        if k < hw.len() {
            assert(ws[k] == hw[k]);
            assert((k as u16) as int == k);
        } else {
            assert(ws[k] == rw[k - hw.len()]);
        }
    }
    assert forall|j: int|
        0 <= j < t.headers.len() && (#[trigger] t.headers[j]).len() > 0 implies cells.contains_key(
        (0u32, j as u16),
    ) && cells[(0u32, j as u16)] == t.headers[j] by {
        assert(ws[j] == hw[j]);
        assert((j as u16) as int == j);
        lemma_cell_holds_text(c0, ws, (0u32, j as u16), t.headers[j], j);
    }
    assert forall|r: int, j: int|
        0 <= r < t.rows.len() && 0 <= j < t.rows[r].len() && (#[trigger] t.rows[r][j]).len()
            > 0 implies cells.contains_key(((r + 1) as u32, j as u16)) && cells[((r + 1) as u32,
        j as u16)] == t.rows[r][j] by {
        lemma_row_write_at(t.rows, r, j);
        let k = hw.len() + rows_writes(t.rows.take(r)).len() + j;
        assert(ws[k] == rw[k - hw.len()]);
        assert(((r + 1) as u32) as int == r + 1);
        assert((j as u16) as int == j);
        lemma_cell_holds_text(c0, ws, ((r + 1) as u32, j as u16), t.rows[r][j], k);
    }
    lemma_cells_come_from_writes(c0, ws);
    assert forall|key: (u32, u16)| #[trigger] cells.contains_key(key) implies (key.0 == 0 && (
    key.1 as int) < t.headers.len() && cells[key] == t.headers[key.1 as int]) || (1 <= key.0
        <= t.rows.len() && (key.1 as int) < t.rows[key.0 - 1].len() && cells[key] == t.rows[key.0
        - 1][key.1 as int]) by {
        assert(apply_writes(Some(c0), ws).unwrap() == cells);
        assert(apply_writes(Some(c0), ws).unwrap().contains_key(key));
        assert(!c0.contains_key(key));
        assert(exists|k: int|
            0 <= k < ws.len() && (#[trigger] ws[k].0, ws[k].1) == key && ws[k].2.len() > 0);
        let k = choose|k: int|
            0 <= k < ws.len() && (#[trigger] ws[k].0, ws[k].1) == key && ws[k].2.len() > 0;
        let w = ws[k];
        lemma_cell_holds_text(c0, ws, key, w.2, k);
    }
}

} // verus!
