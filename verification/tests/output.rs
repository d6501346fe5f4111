use xer_to_csv::csv_out::{csv_files, table_csv_bytes};
use xer_to_csv::parse::{parse_tables, Table};
use xer_to_csv::workbook::{build_workbook, to_io, ConvertErrorKind, WorkbookError};

fn table(name: &str, headers: &[&str], rows: &[&[&str]]) -> Table {
    Table {
        name: name.to_string(),
        headers: headers.iter().map(|s| s.to_string()).collect(),
        rows: rows.iter().map(|r| r.iter().map(|s| s.to_string()).collect()).collect(),
    }
}

#[test]
fn csv_has_header_then_rows() {
    let t = table("T", &["id", "name"], &[&["1", "Dig"], &["2", "Pour"]]);
    assert_eq!(table_csv_bytes(&t), b"id,name\n1,Dig\n2,Pour\n".to_vec());
}

#[test]
fn csv_quotes_only_what_needs_it() {
    let t = table("T", &["a"], &[&["x,y", "say \"hi\"", "two\nlines", "cr\r", "plain"]]);
    let out = String::from_utf8(table_csv_bytes(&t)).unwrap();
    assert_eq!(out, "a\n\"x,y\",\"say \"\"hi\"\"\",\"two\nlines\",\"cr\r\",plain\n");
}

#[test]
fn csv_empty_records_are_written_as_two_quotes() {
    let t = table("T", &[], &[&[""], &["", ""]]);
    assert_eq!(table_csv_bytes(&t), b"\"\"\n\"\"\n,\n".to_vec());
}

#[test]
fn csv_keeps_non_ascii_text() {
    let t = table("T", &["sym"], &[&["\u{00A3}"]]);
    assert_eq!(table_csv_bytes(&t), "sym\n\u{00A3}\n".as_bytes().to_vec());
}

#[test]
fn one_csv_file_per_table() {
    let tables = parse_tables("%T\tTASK\n%F\tid\n%R\t1\n%T\tmy table\n%F\tx\n");
    let files = csv_files(&tables);
    assert_eq!(files.len(), 2);
    assert_eq!(files[0].name, "TASK.csv");
    assert_eq!(files[0].bytes, b"id\n1\n".to_vec());
    assert_eq!(files[1].name, "my_table.csv");
    assert_eq!(files[1].bytes, b"x\n".to_vec());
}

#[test]
fn workbook_has_one_sheet_per_table_with_unique_names() {
    let tables = vec![
        table("TASK", &["id"], &[&["1"]]),
        table("task", &["id"], &[&["2"]]),
        table("A/B", &[], &[]),
    ];
    let mut wb = build_workbook(&tables).ok().unwrap();
    assert_eq!(wb.worksheet_from_index(0).unwrap().name(), "TASK");
    assert_eq!(wb.worksheet_from_index(1).unwrap().name(), "task_2");
    assert_eq!(wb.worksheet_from_index(2).unwrap().name(), "A_B");
    assert!(wb.worksheet_from_index(3).is_err());
    assert!(wb.save_to_buffer().is_ok());
}

#[test]
fn workbook_refuses_names_with_apostrophes_at_the_ends() {
    let tables = vec![table("'quoted'", &["a"], &[])];
    let err = build_workbook(&tables).err().unwrap();
    assert_eq!(err.kind, ConvertErrorKind::Other);
    assert_eq!(
        err.message,
        "Worksheet name 'worksheet.set_name(\"'quoted'\")' cannot start or end with an apostrophe."
    );
}

#[test]
fn workbook_refuses_names_longer_than_31_utf16_units() {
    let name = "\u{1F600}".repeat(20);
    let tables = vec![table(&name, &["a"], &[])];
    let err = build_workbook(&tables).err().unwrap();
    assert_eq!(
        err.message,
        format!("Worksheet name 'worksheet.set_name(\"{}\")' exceeds Excel's limit of 31 characters.", name)
    );
}

#[test]
fn workbook_refuses_strings_longer_than_excel_allows() {
    let long = "x".repeat(32_768);
    let tables = vec![table("T", &["a"], &[&[long.as_str()]])];
    let err = build_workbook(&tables).err().unwrap();
    assert_eq!(err.message, "String exceeds Excel's limit of 32,767 characters.");
    let ok = "x".repeat(32_767);
    let tables = vec![table("T", &["a"], &[&[ok.as_str()]])];
    assert!(build_workbook(&tables).is_ok());
}

#[test]
fn workbook_of_no_tables_is_empty() {
    let mut wb = build_workbook(&Vec::new()).ok().unwrap();
    assert!(wb.worksheet_from_index(0).is_err());
}

#[test]
fn workbook_errors_carry_their_text() {
    let e = WorkbookError { text: "disk".to_string() };
    assert_eq!(to_io(&e).message, "disk");
    assert_eq!(to_io(&e).kind, ConvertErrorKind::Other);
    let e = WorkbookError { text: String::new() };
    assert_eq!(to_io(&e).message, "");
}

#[test]
fn workbook_refuses_cells_past_the_last_column() {
    let fields: Vec<String> = (0..16_385).map(|i| if i == 16_384 { "z".to_string() } else { String::new() }).collect();
    let refs: Vec<&str> = fields.iter().map(|s| s.as_str()).collect();
    let tables = vec![table("T", &[], &[&refs])];
    let err = build_workbook(&tables).err().unwrap();
    assert_eq!(err.message, "Row or column exceeds Excel's allowed limits (1,048,576 x 16,384).");
}

#[test]
fn csv_file_reads_back_as_headers_then_rows() {
    let t = table(
        "T",
        &["id", "note"],
        &[&["1", "a,b"], &["2", "say \"hi\""], &["3", "two\nlines"], &["", "x"], &["4"]],
    );
    let bytes = table_csv_bytes(&t);
    let mut rdr = csv::ReaderBuilder::new().has_headers(false).flexible(true).from_reader(bytes.as_slice());
    let mut got: Vec<Vec<String>> = Vec::new();
    for rec in rdr.records() {
        got.push(rec.unwrap().iter().map(|f| f.to_string()).collect());
    }
    let mut want = vec![t.headers.clone()];
    want.extend(t.rows.iter().cloned());
    assert_eq!(got, want);
}
