use xer_to_csv::paths::{csv_file_name, file_stem, has_xer_extension, output_base_name, workbook_file_name};
use xer_to_csv::sheet_name::unique_sheet_name;

#[test]
fn xer_extension_ignores_ascii_case() {
    assert!(has_xer_extension("a.xer"));
    assert!(has_xer_extension("Project.XeR"));
    assert!(has_xer_extension("x.tar.xer"));
    assert!(!has_xer_extension(".xer"));
    assert!(!has_xer_extension("a.xer2"));
    assert!(!has_xer_extension("axer"));
    assert!(!has_xer_extension("a.xe"));
    assert!(!has_xer_extension(".."));
    assert!(!has_xer_extension("a.x\u{0130}r"));
}

#[test]
fn file_stems_follow_the_last_dot() {
    assert_eq!(file_stem("ProjectA.xer"), "ProjectA");
    assert_eq!(file_stem("a.b.xer"), "a.b");
    assert_eq!(file_stem(".hidden"), ".hidden");
    assert_eq!(file_stem("noext"), "noext");
    assert_eq!(file_stem(".."), "..");
    assert_eq!(output_base_name(Some("B.xer")), "B");
    assert_eq!(output_base_name(None), "output");
}

#[test]
fn output_file_names() {
    assert_eq!(csv_file_name("TASK"), "TASK.csv");
    assert_eq!(csv_file_name("my table a"), "my_table_a.csv");
    assert_eq!(csv_file_name(""), ".csv");
    assert_eq!(workbook_file_name("ProjectA"), "ProjectA.xlsx");
}

#[test]
fn blank_names_become_sheet() {
    let mut used = Vec::new();
    assert_eq!(unique_sheet_name("", &mut used), "Sheet");
    assert_eq!(unique_sheet_name("  \t", &mut used), "Sheet_2");
    assert_eq!(used, vec!["Sheet".to_string(), "Sheet_2".to_string()]);
}

#[test]
fn uniqueness_ignores_ascii_case() {
    let mut used = vec!["task".to_string()];
    assert_eq!(unique_sheet_name("TASK", &mut used), "TASK_2");
    assert_eq!(unique_sheet_name("Task", &mut used), "Task_3");
}

#[test]
fn suffix_shortens_long_names() {
    let mut used = Vec::new();
    let a = "A".repeat(40);
    assert_eq!(unique_sheet_name(&a, &mut used), "A".repeat(31));
    assert_eq!(unique_sheet_name(&a, &mut used), format!("{}_2", "A".repeat(29)));
    for _ in 3..10 {
        unique_sheet_name(&a, &mut used);
    }
    assert_eq!(unique_sheet_name(&a, &mut used), format!("{}_10", "A".repeat(28)));
}

#[test]
fn all_forbidden_characters_are_replaced() {
    let mut used = Vec::new();
    assert_eq!(unique_sheet_name("\\/?*[]:", &mut used), "_______");
}

#[test]
fn name_equal_to_a_later_candidate() {
    // A 31-character name ending in "_2" equals its own second candidate.
    let mut used = Vec::new();
    let n = format!("{}_2", "X".repeat(29));
    assert_eq!(unique_sheet_name(&n, &mut used), n);
    assert_eq!(unique_sheet_name(&n, &mut used), format!("{}_3", "X".repeat(29)));
}
