use xer_to_csv::decode::decode_xer;
use xer_to_csv::parse::parse_tables;
use xer_to_csv::sheet_name::unique_sheet_name;

#[test]
fn parses_multiple_tables_with_headers_and_rows() {
    let xer = "ERMHDR\t7.0\n%T\tTASK\n%F\tid\tname\n%R\t1\tDig\n%R\t2\tPour\n%T\tPROJECT\n%F\tpid\n%R\t100\n%E";
    let tables = parse_tables(xer);
    assert_eq!(tables.len(), 2);
    assert_eq!(tables[0].name, "TASK");
    assert_eq!(tables[0].headers, vec!["id", "name"]);
    assert_eq!(tables[0].rows.len(), 2);
    assert_eq!(tables[1].name, "PROJECT");
    assert_eq!(tables[1].rows[0], vec!["100"]);
}

#[test]
fn pads_rows_that_are_shorter_than_the_header() {
    let xer = "%T\tT\n%F\ta\tb\tc\n%R\t1\n%E";
    let tables = parse_tables(xer);
    assert_eq!(tables[0].rows[0], vec!["1", "", ""]);
}

#[test]
fn decodes_windows_1252_without_corruption() {
    // 0xA3 is the Pound Sterling sign in Windows-1252 and is invalid UTF-8.
    let bytes = b"%T\tCUR\n%F\tsym\n%R\t\xA3\n";
    let text = decode_xer(bytes);
    assert!(text.contains('\u{00A3}'), "pound sign should be preserved");
    assert!(!text.contains('\u{FFFD}'), "no replacement characters");
}

#[test]
fn decodes_valid_utf8_as_utf8() {
    let bytes = "%R\tcafé\n".as_bytes();
    assert!(decode_xer(bytes).contains("café"));
}

#[test]
fn strips_a_leading_utf8_bom() {
    let bytes = b"\xEF\xBB\xBF%T\tTASK\n%F\tid\n%R\t1\n";
    let text = decode_xer(bytes);
    let text = text.strip_prefix('\u{feff}').unwrap_or(&text);
    let tables = parse_tables(text);
    assert_eq!(tables.len(), 1);
    assert_eq!(tables[0].name, "TASK");
}

#[test]
fn sheet_names_are_sanitized_truncated_and_unique() {
    let mut used = Vec::new();
    assert_eq!(unique_sheet_name("TASK", &mut used), "TASK");
    // Forbidden characters are replaced.
    assert_eq!(unique_sheet_name("A/B:C", &mut used), "A_B_C");
    // Duplicates get a numeric suffix.
    assert_eq!(unique_sheet_name("TASK", &mut used), "TASK_2");
    // Over-long names are clamped to 31 characters.
    let long = unique_sheet_name(&"X".repeat(50), &mut used);
    assert_eq!(long.chars().count(), 31);
}
