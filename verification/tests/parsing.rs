use xer_to_csv::decode::{decode_xer, parse_xer_bytes, strip_bom_char};
use xer_to_csv::parse::parse_tables;

#[test]
fn records_before_the_first_table_are_ignored() {
    let tables = parse_tables("%F\tx\n%R\t1\n%T\tA\n%R\t2\n");
    assert_eq!(tables.len(), 1);
    assert_eq!(tables[0].name, "A");
    assert_eq!(tables[0].headers.len(), 0);
    assert_eq!(tables[0].rows, vec![vec!["2"]]);
}

#[test]
fn text_without_table_markers_has_no_tables() {
    assert_eq!(parse_tables("").len(), 0);
    assert_eq!(parse_tables("ERMHDR\t7.0\n%E\n").len(), 0);
}

#[test]
fn crlf_line_ends_and_leading_spaces_are_skipped() {
    let tables = parse_tables("  %T\tTASK \r\n%F\tid\tname\r\n%R\t7\tDig\r\n");
    assert_eq!(tables.len(), 1);
    assert_eq!(tables[0].name, "TASK");
    assert_eq!(tables[0].headers, vec!["id", "name"]);
    assert_eq!(tables[0].rows, vec![vec!["7", "Dig"]]);
}

#[test]
fn crlf_text_gives_the_same_tables_as_lf_text() {
    let lf = "ERMHDR\t7.0\n%T\tTASK\n%F\tid\tname\n%R\t1\t\n%R\t\tx\n%E\n";
    let crlf = lf.replace('\n', "\r\n");
    let a = parse_tables(lf);
    let b = parse_tables(&crlf);
    assert_eq!(a.len(), b.len());
    assert_eq!(a[0].name, b[0].name);
    assert_eq!(a[0].headers, b[0].headers);
    assert_eq!(a[0].rows, b[0].rows);
    assert_eq!(b[0].rows, vec![vec!["1", ""], vec!["", "x"]]);
}

#[test]
fn empty_fields_at_the_ends_keep_their_place() {
    let tables = parse_tables("%T\tT\n%F\ta\tb\n%R\t\tx\n");
    assert_eq!(tables[0].rows[0], vec!["", "x"]);
    let tables = parse_tables("%T\tT\n%F\ta\tb\tc\n%R\t1\t\t\n%R\t\t\t\n%R\t\t\t\t\n");
    assert_eq!(tables[0].rows[0], vec!["1", "", ""]);
    assert_eq!(tables[0].rows[1], vec!["", "", ""]);
    assert_eq!(tables[0].rows[2], vec!["", "", "", ""]);
}

#[test]
fn spaces_inside_fields_are_kept() {
    let tables = parse_tables("%T\tT\n%F\t a \tb\n%R\t 1\t2 \n");
    assert_eq!(tables[0].headers, vec![" a ", "b"]);
    assert_eq!(tables[0].rows[0], vec![" 1", "2 "]);
}

#[test]
fn records_are_as_wide_as_the_headers_when_headers_come_first() {
    let tables = parse_tables("%T\tA\n%F\ta\tb\tc\n%R\t1\n%R\n%T\tB\n%F\tx\n%R\t1\t2\n");
    for t in &tables {
        for r in &t.rows {
            assert!(r.len() >= t.headers.len());
        }
    }
    assert_eq!(tables[0].rows[1], vec!["", "", ""]);
}

#[test]
fn empty_fields_inside_a_record_are_kept() {
    let tables = parse_tables("%T\tT\n%F\ta\tb\tc\n%R\tx\t\tz\n");
    assert_eq!(tables[0].rows[0], vec!["x", "", "z"]);
}

#[test]
fn longer_records_are_not_cut() {
    let tables = parse_tables("%T\tT\n%F\ta\n%R\t1\t2\t3\n");
    assert_eq!(tables[0].rows[0], vec!["1", "2", "3"]);
}

#[test]
fn a_later_header_line_replaces_the_columns() {
    let tables = parse_tables("%T\tT\n%F\ta\n%R\t1\n%F\tb\tc\n%R\t2\n");
    assert_eq!(tables[0].headers, vec!["b", "c"]);
    assert_eq!(tables[0].rows, vec![vec!["1"], vec!["2", ""]]);
}

#[test]
fn every_table_line_starts_a_table_and_every_record_is_kept() {
    // Two %T lines give two tables, and the three %R lines after the first
    // %T line give three records in all.
    let tables = parse_tables("%R\tlost\n%T\tA\n%R\t1\n%R\t2\n%T\tB\n%R\t3\n");
    assert_eq!(tables.len(), 2);
    let total: usize = tables.iter().map(|t| t.rows.len()).sum();
    assert_eq!(total, 3);
}

#[test]
fn marker_must_start_the_line() {
    let tables = parse_tables("%T\tA\nx%R\t1\n%r\t2\n");
    assert_eq!(tables[0].rows.len(), 0);
}

#[test]
fn empty_table_name_and_empty_record() {
    let tables = parse_tables("%T\n%R\n");
    assert_eq!(tables[0].name, "");
    assert_eq!(tables[0].rows, vec![vec![""]]);
}

#[test]
fn unicode_white_space_is_trimmed() {
    let tables = parse_tables("\u{3000}%T\u{00A0}Name\u{2003}\n");
    assert_eq!(tables[0].name, "Name");
}

#[test]
fn windows_1252_special_range() {
    // 0x80 is the euro sign, 0x81 is unmapped in the table and keeps its value.
    let text = decode_xer(b"\x80\x81\x9F\xFF\xC3");
    assert_eq!(text, "\u{20AC}\u{0081}\u{0178}\u{00FF}\u{00C3}");
}

#[test]
fn utf16_byte_order_marks_pick_the_encoding() {
    let le = decode_xer(b"\xFF\xFE%\x00T\x00");
    assert_eq!(le, "%T");
    let be = decode_xer(b"\xFE\xFF\x00%\x00T");
    assert_eq!(be, "%T");
}

#[test]
fn utf8_byte_order_mark_is_dropped_and_bad_bytes_replaced() {
    let text = decode_xer(b"\xEF\xBB\xBFa\xFFb");
    assert_eq!(text, "a\u{FFFD}b");
}

#[test]
fn valid_utf8_is_not_read_as_windows_1252() {
    let text = decode_xer("£".as_bytes());
    assert_eq!(text, "£");
}

#[test]
fn bom_character_is_stripped_once() {
    assert_eq!(strip_bom_char("\u{feff}\u{feff}x"), "\u{feff}x");
    assert_eq!(strip_bom_char("x\u{feff}"), "x\u{feff}");
    assert_eq!(strip_bom_char(""), "");
}

#[test]
fn bytes_are_decoded_stripped_and_parsed() {
    let tables = parse_xer_bytes(b"\xEF\xBB\xBF\xEF\xBB\xBF%T\tT\xE9\n%F\ta\n%R\t1\n");
    assert_eq!(tables.len(), 1);
    assert_eq!(tables[0].name, "T\u{FFFD}");
    let tables = parse_xer_bytes(b"%T\tCUR\n%F\tsym\n%R\t\xA3\n");
    assert_eq!(tables[0].rows[0], vec!["\u{00A3}"]);
}

#[test]
fn valid_utf8_after_a_utf8_mark_decodes_to_itself() {
    let text = decode_xer("\u{feff}%T\tcaf\u{e9}\n".as_bytes());
    assert_eq!(text, "%T\tcaf\u{e9}\n");
}
