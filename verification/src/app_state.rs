//! The state of the desktop window and the decisions it makes: what is
//! selected, whether a conversion can start, which conversion to run, and
//! what the status line says once it has run. The window itself, the file
//! dialogs and the conversion's file work are done by the caller, which
//! hands back what the conversion returned.

use vstd::prelude::*;
use crate::summary::ConversionSummary;
use crate::text::{decimal, decimal_string};

verus! {

/// Where the input is coming from (paths as displayed to the user).
pub enum InputSource {
    /// A folder that will be scanned recursively for `.xer` files.
    Folder(String),
    /// A specific set of `.xer` files the user picked.
    Files(Vec<String>),
}

/// The conversion that the window asks for.
#[derive(PartialEq, Eq, Structural, Clone, Copy, Debug)]
pub enum ConversionRequest {
    /// Nothing to run: the input or the output is missing.
    Nothing,
    /// Convert every `.xer` file under the selected folder.
    Folder,
    /// Convert the selected files.
    Files,
}

/// How the status line is shown.
#[derive(PartialEq, Eq, Structural, Clone, Copy, Debug)]
pub enum StatusTone {
    /// The last run converted files (shown in green).
    Success,
    /// The last run failed or found nothing (shown in red).
    Failure,
}

/// The window's state.
pub struct XerApp {
    pub input: Option<InputSource>,
    pub output: Option<String>,
    pub status: String,
    pub last_run_ok: bool,
}

/// The status text after a run that processed files.
pub open spec fn success_status(summary_files: nat, tables: nat, workbooks: nat, output: Seq<char>) -> Seq<char> {
    "\u{2705} Success! Converted "@ + decimal(summary_files) + " file(s) into "@ + decimal(tables)
        + " CSV table(s), plus "@ + decimal(workbooks) + " master Excel workbook(s).\nSaved in: "@
        + output
}

/// The status text after a run that failed with the message `e`.
pub open spec fn failure_status(e: Seq<char>) -> Seq<char> {
    "\u{274c} Something went wrong: "@ + e
}

/// The status text after a run that found no `.xer` file.
pub open spec fn nothing_found_status() -> Seq<char> {
    "No .xer files were found in the chosen location."@
}

impl XerApp {
    /// A window with nothing selected and no status.
    pub fn new() -> (r: Self)
        ensures
            r.input is None,
            r.output is None,
            r.status@.len() == 0,
            !r.last_run_ok,
    {
        XerApp { input: None, output: None, status: String::new(), last_run_ok: false }
    }

    /// Convert can be pressed: both an input and an output are chosen.
    pub fn ready(&self) -> (r: bool)
        ensures
            r == (self.input is Some && self.output is Some),
    {
        self.input.is_some() && self.output.is_some()
    }

    /// The conversion to run when Convert is pressed.
    pub fn conversion_request(&self) -> (r: ConversionRequest)
        ensures
            r == (match (self.input, self.output) {
                (Some(InputSource::Folder(_)), Some(_)) => ConversionRequest::Folder,
                (Some(InputSource::Files(_)), Some(_)) => ConversionRequest::Files,
                _ => ConversionRequest::Nothing,
            }),
    {
        if self.output.is_none() {
            return ConversionRequest::Nothing;
        }
        match &self.input {
            Some(InputSource::Folder(_)) => ConversionRequest::Folder,
            Some(InputSource::Files(_)) => ConversionRequest::Files,
            None => ConversionRequest::Nothing,
        }
    }

    /// Takes in what the conversion returned (its summary, or the text of
    /// its error) and updates the status line. Without an input and an
    /// output nothing was run and nothing changes.
    pub fn run_conversion(&mut self, outcome: Result<ConversionSummary, String>)
        ensures
            final(self).input == old(self).input,
            final(self).output == old(self).output,
            (old(self).input is None || old(self).output is None) ==> (final(self).status
                == old(self).status && final(self).last_run_ok == old(self).last_run_ok),
            (old(self).input is Some && old(self).output is Some) ==> match outcome {
                Ok(s) => if s.files_processed@.len() == 0 {
                    !final(self).last_run_ok && final(self).status@ == nothing_found_status()
                } else {
                    final(self).last_run_ok && final(self).status@ == success_status(
                        s.files_processed@.len(),
                        s.tables_written as nat,
                        s.workbooks_written as nat,
                        old(self).output.unwrap()@,
                    )
                },
                Err(e) => !final(self).last_run_ok && final(self).status@ == failure_status(e@),
            },
    {
        if self.input.is_none() {
            return;
        }
        let output = match &self.output {
            Some(o) => o.clone(),
            None => {
                return;
            },
        };
        match outcome {
            Ok(summary) => {
                if summary.files_processed.len() == 0 {
                    self.last_run_ok = false;
                    self.status = String::new();
                    self.status.append("No .xer files were found in the chosen location.");
                } else {
                    self.last_run_ok = true;
                    let mut s = String::new();
                    s.append("\u{2705} Success! Converted ");
                    s.append(decimal_string(summary.files_processed.len()).as_str());
                    s.append(" file(s) into ");
                    s.append(decimal_string(summary.tables_written).as_str());
                    s.append(" CSV table(s), plus ");
                    s.append(decimal_string(summary.workbooks_written).as_str());
                    s.append(" master Excel workbook(s).\nSaved in: ");
                    s.append(output.as_str());
                    self.status = s;
                }
            },
            Err(e) => {
                self.last_run_ok = false;
                let mut s = String::new();
                s.append("\u{274c} Something went wrong: ");
                s.append(e.as_str());
                self.status = s;
            },
        }
    }

    /// Takes in the folder picked in the folder dialog, if one was picked
    /// (a cancelled dialog changes nothing). Says whether the input changed.
    pub fn select_folder(&mut self, picked: Option<String>) -> (changed: bool)
        ensures
            changed == picked is Some,
            final(self).input == match picked {
                Some(p) => Some(InputSource::Folder(p)),
                None => old(self).input,
            },
            final(self).output == old(self).output,
            final(self).status == old(self).status,
            final(self).last_run_ok == old(self).last_run_ok,
    {
        match picked {
            Some(p) => {
                self.input = Some(InputSource::Folder(p));
                true
            },
            None => false,
        }
    }

    /// Takes in the files picked in the file dialog, if any were picked (a
    /// cancelled dialog, or an empty pick, changes nothing). Says whether
    /// the input changed.
    pub fn select_files(&mut self, picked: Option<Vec<String>>) -> (changed: bool)
        ensures
            changed == (picked matches Some(f) && f@.len() > 0),
            final(self).input == if changed {
                Some(InputSource::Files(picked.unwrap()))
            } else {
                old(self).input
            },
            final(self).output == old(self).output,
            final(self).status == old(self).status,
            final(self).last_run_ok == old(self).last_run_ok,
    {
        match picked {
            Some(f) => {
                if f.len() > 0 {
                    self.input = Some(InputSource::Files(f));
                    true
                } else {
                    false
                }
            },
            None => false,
        }
    }

    /// Takes in the output folder picked in the folder dialog, if one was
    /// picked (a cancelled dialog changes nothing). Says whether the output
    /// changed.
    pub fn select_output(&mut self, picked: Option<String>) -> (changed: bool)
        ensures
            changed == picked is Some,
            final(self).output == match picked {
                Some(p) => Some(p),
                None => old(self).output,
            },
            final(self).input == old(self).input,
            final(self).status == old(self).status,
            final(self).last_run_ok == old(self).last_run_ok,
    {
        match picked {
            Some(p) => {
                self.output = Some(p);
                true
            },
            None => false,
        }
    }

    /// How the status line is shown: not at all while it is empty, else in
    /// the tone of the last run.
    pub fn status_tone(&self) -> (r: Option<StatusTone>)
        ensures
            r == if self.status@.len() == 0 {
                None
            } else if self.last_run_ok {
                Some(StatusTone::Success)
            } else {
                Some(StatusTone::Failure)
            },
    {
        if self.status.as_str().is_empty() {
            None
        } else if self.last_run_ok {
            Some(StatusTone::Success)
        } else {
            Some(StatusTone::Failure)
        }
    }

    /// The line under the input buttons.
    pub fn input_label(&self) -> (r: String)
        ensures
            r@ == match self.input {
                Some(InputSource::Folder(p)) => "Selected folder: "@ + p@,
                Some(InputSource::Files(f)) => "Selected "@ + decimal(f@.len()) + " file(s)"@,
                None => "Nothing selected yet."@,
            },
    {
        let mut s = String::new();
        match &self.input {
            Some(InputSource::Folder(p)) => {
                s.append("Selected folder: ");
                s.append(p.as_str());
            },
            Some(InputSource::Files(f)) => {
                s.append("Selected ");
                s.append(decimal_string(f.len()).as_str());
                s.append(" file(s)");
            },
            None => {
                s.append("Nothing selected yet.");
            },
        }
        s
    }

    /// The line under the output button.
    pub fn output_label(&self) -> (r: String)
        ensures
            r@ == match self.output {
                Some(p) => "Saving to: "@ + p@,
                None => "No output folder chosen yet."@,
            },
    {
        let mut s = String::new();
        match &self.output {
            Some(p) => {
                s.append("Saving to: ");
                s.append(p.as_str());
            },
            None => {
                s.append("No output folder chosen yet.");
            },
        }
        s
    }
}

} // verus!
