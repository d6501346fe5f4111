use xer_to_csv::app_state::{ConversionRequest, InputSource, StatusTone, XerApp};
use xer_to_csv::summary::ConversionSummary;

fn summary(files: &[&str], tables: usize, workbooks: usize) -> ConversionSummary {
    ConversionSummary {
        files_processed: files.iter().map(|s| s.to_string()).collect(),
        tables_written: tables,
        workbooks_written: workbooks,
    }
}

#[test]
fn nothing_runs_without_input_and_output() {
    let mut app = XerApp::new();
    assert!(!app.ready());
    assert_eq!(app.conversion_request(), ConversionRequest::Nothing);
    app.run_conversion(Ok(summary(&["a.xer"], 1, 1)));
    assert_eq!(app.status, "");
    assert!(!app.last_run_ok);
    app.output = Some("out".to_string());
    assert!(!app.ready());
    app.run_conversion(Err("boom".to_string()));
    assert_eq!(app.status, "");
}

#[test]
fn success_message() {
    let mut app = XerApp::new();
    app.input = Some(InputSource::Folder("in".to_string()));
    app.output = Some("C:/out".to_string());
    assert!(app.ready());
    assert_eq!(app.conversion_request(), ConversionRequest::Folder);
    app.run_conversion(Ok(summary(&["a.xer", "b.xer"], 12, 2)));
    assert!(app.last_run_ok);
    assert_eq!(
        app.status,
        "\u{2705} Success! Converted 2 file(s) into 12 CSV table(s), plus 2 master Excel workbook(s).\nSaved in: C:/out"
    );
}

#[test]
fn no_files_found_and_failure_messages() {
    let mut app = XerApp::new();
    app.input = Some(InputSource::Files(vec!["x.xer".to_string()]));
    app.output = Some("o".to_string());
    assert_eq!(app.conversion_request(), ConversionRequest::Files);
    app.run_conversion(Ok(summary(&[], 0, 0)));
    assert!(!app.last_run_ok);
    assert_eq!(app.status, "No .xer files were found in the chosen location.");
    app.run_conversion(Err("disk full".to_string()));
    assert!(!app.last_run_ok);
    assert_eq!(app.status, "\u{274c} Something went wrong: disk full");
}

#[test]
fn labels() {
    let mut app = XerApp::new();
    assert_eq!(app.input_label(), "Nothing selected yet.");
    assert_eq!(app.output_label(), "No output folder chosen yet.");
    app.input = Some(InputSource::Folder("/data".to_string()));
    assert_eq!(app.input_label(), "Selected folder: /data");
    app.input = Some(InputSource::Files(vec!["a".to_string(), "b".to_string(), "c".to_string()]));
    assert_eq!(app.input_label(), "Selected 3 file(s)");
    app.output = Some("/o".to_string());
    assert_eq!(app.output_label(), "Saving to: /o");
}

#[test]
fn summary_counts_files_tables_and_workbooks() {
    let mut s = ConversionSummary::new();
    s.record_file("a.xer".to_string(), 3);
    s.record_file("b.xer".to_string(), 0);
    s.record_file("c.xer".to_string(), 2);
    assert_eq!(s.files_processed, vec!["a.xer", "b.xer", "c.xer"]);
    assert_eq!(s.tables_written, 5);
    assert_eq!(s.workbooks_written, 2);
    assert_eq!(
        s.done_message(),
        "Done. Processed 3 file(s), wrote 5 CSV table(s) and 2 master Excel workbook(s)."
    );
    let d = ConversionSummary::default();
    assert_eq!(d.done_message(), "Done. Processed 0 file(s), wrote 0 CSV table(s) and 0 master Excel workbook(s).");
}

#[test]
fn dialog_picks_set_the_selection_and_cancels_change_nothing() {
    let mut app = XerApp::new();
    assert!(!app.select_folder(None));
    assert!(app.input.is_none());
    assert!(app.select_folder(Some("in".to_string())));
    assert!(matches!(&app.input, Some(InputSource::Folder(p)) if p == "in"));
    assert!(!app.select_files(Some(Vec::new())));
    assert!(!app.select_files(None));
    assert!(matches!(&app.input, Some(InputSource::Folder(p)) if p == "in"));
    assert!(app.select_files(Some(vec!["a.xer".to_string(), "b.xer".to_string()])));
    assert!(matches!(&app.input, Some(InputSource::Files(f)) if f.len() == 2));
    assert!(!app.select_output(None));
    assert!(app.output.is_none());
    assert!(app.select_output(Some("out".to_string())));
    assert_eq!(app.output.as_deref(), Some("out"));
    assert!(app.ready());
}

#[test]
fn status_tone_follows_the_last_run() {
    let mut app = XerApp::new();
    assert_eq!(app.status_tone(), None);
    app.input = Some(InputSource::Folder("in".to_string()));
    app.output = Some("out".to_string());
    app.run_conversion(Ok(summary(&["a.xer"], 2, 1)));
    assert_eq!(app.status_tone(), Some(StatusTone::Success));
    app.run_conversion(Err("boom".to_string()));
    assert_eq!(app.status_tone(), Some(StatusTone::Failure));
    app.run_conversion(Ok(summary(&[], 0, 0)));
    assert_eq!(app.status_tone(), Some(StatusTone::Failure));
}

#[test]
fn run_totals_are_sums_over_the_files() {
    let counts = [4usize, 0, 1, 0, 7];
    let mut s = ConversionSummary::new();
    for (i, n) in counts.iter().enumerate() {
        s.record_file(format!("f{}.xer", i), *n);
    }
    assert_eq!(s.files_processed.len(), 5);
    assert_eq!(s.files_processed[4], "f4.xer");
    assert_eq!(s.tables_written, 12);
    assert_eq!(s.workbooks_written, 3);
    assert!(s.workbooks_written <= s.files_processed.len());
    assert!(s.workbooks_written <= s.tables_written);
}
