//! What a conversion run did, and how it is reported.

use vstd::prelude::*;
use crate::text::{decimal, decimal_string};

verus! {

/// What happened during a conversion run, so the user can be told.
pub struct ConversionSummary {
    /// Names of the `.xer` files that were processed.
    pub files_processed: Vec<String>,
    /// Total number of CSV tables written across all files.
    pub tables_written: usize,
    /// Number of master Excel workbooks written (one per file with tables).
    pub workbooks_written: usize,
}

/// A summary as plain values: the names of the files, the number of tables
/// and the number of workbooks.
pub struct SummaryView {
    pub files: Seq<Seq<char>>,
    pub tables: nat,
    pub workbooks: nat,
}

impl View for ConversionSummary {
    type V = SummaryView;

    open spec fn view(&self) -> SummaryView {
        SummaryView {
            files: self.files_processed.deep_view(),
            tables: self.tables_written as nat,
            workbooks: self.workbooks_written as nat,
        }
    }
}

/// The summary after recording one more file, which gave `n` tables (and
/// one workbook when `n > 0`).
pub open spec fn record_step(v: SummaryView, name: Seq<char>, n: nat) -> SummaryView {
    SummaryView {
        files: v.files.push(name),
        tables: v.tables + n,
        workbooks: v.workbooks + if n > 0 {
            1nat
        } else {
            0nat
        },
    }
}

/// The summary of a run that recorded the files `names`, in order, with
/// the table counts `counts`, starting from an empty summary.
pub open spec fn run_summary(names: Seq<Seq<char>>, counts: Seq<nat>) -> SummaryView
    decreases names.len(),
{
    if names.len() == 0 || counts.len() == 0 {
        SummaryView { files: seq![], tables: 0, workbooks: 0 }
    } else {
        record_step(
            run_summary(names.drop_last(), counts.drop_last()),
            names.last(),
            counts.last(),
        )
    }
}

/// The sum of the counts.
pub open spec fn sum_counts(counts: Seq<nat>) -> nat
    decreases counts.len(),
{
    if counts.len() == 0 {
        0
    } else {
        sum_counts(counts.drop_last()) + counts.last()
    }
}

/// How many of the counts are not zero.
pub open spec fn nonzero_counts(counts: Seq<nat>) -> nat
    decreases counts.len(),
{
    if counts.len() == 0 {
        0
    } else {
        nonzero_counts(counts.drop_last()) + if counts.last() > 0 {
            1nat
        } else {
            0nat
        }
    }
}

/// After a run that recorded files with table counts `n_i`, the summary
/// lists the files in order, `tables_written` is the sum of the `n_i`, and
/// `workbooks_written` is the number of files with `n_i > 0`; so there are
/// no more workbooks than files, nor than tables.
pub proof fn law_run_totals(names: Seq<Seq<char>>, counts: Seq<nat>)
    requires
        names.len() == counts.len(),
    ensures
        run_summary(names, counts).files == names,
        run_summary(names, counts).tables == sum_counts(counts),
        run_summary(names, counts).workbooks == nonzero_counts(counts),
        nonzero_counts(counts) <= names.len(),
        nonzero_counts(counts) <= sum_counts(counts),
    decreases names.len(),
{
    if names.len() > 0 {
        law_run_totals(names.drop_last(), counts.drop_last());
        assert(names.drop_last().push(names.last()) =~= names);
    } else {
        assert(names =~= Seq::<Seq<char>>::empty());
    }
}

/// Recording one more file after a run is the run that ends with that
/// file: starting from [`ConversionSummary::new`] and calling
/// [`ConversionSummary::record_file`] once per file gives [`run_summary`].
pub proof fn law_recording_extends_run(
    names: Seq<Seq<char>>,
    counts: Seq<nat>,
    name: Seq<char>,
    n: nat,
)
    requires
        names.len() == counts.len(),
    ensures
        record_step(run_summary(names, counts), name, n) == run_summary(
            names.push(name),
            counts.push(n),
        ),
{
    assert(names.push(name).drop_last() =~= names);
    assert(counts.push(n).drop_last() =~= counts);
}

impl Default for ConversionSummary {
    fn default() -> (r: Self)
        ensures
            r.files_processed@.len() == 0,
            r.tables_written == 0,
            r.workbooks_written == 0,
    {
        ConversionSummary { files_processed: Vec::new(), tables_written: 0, workbooks_written: 0 }
    }
}

impl ConversionSummary {
    /// An empty summary: nothing processed yet.
    pub fn new() -> (r: Self)
        ensures
            r@ == run_summary(seq![], seq![]),
            r.files_processed@.len() == 0,
            r.tables_written == 0,
            r.workbooks_written == 0,
    {
        let r = ConversionSummary {
            files_processed: Vec::new(),
            tables_written: 0,
            workbooks_written: 0,
        };
        assert(r.files_processed.deep_view() =~= Seq::<Seq<char>>::empty());
        r
    }

    /// Records one processed file that produced `tables` tables: a file
    /// with at least one table also produced one workbook.
    pub fn record_file(&mut self, file_name: String, tables: usize)
        requires
            old(self).tables_written + tables <= usize::MAX,
            tables > 0 ==> old(self).workbooks_written < usize::MAX,
        ensures
            final(self)@ == record_step(old(self)@, file_name@, tables as nat),
            final(self).files_processed@ == old(self).files_processed@.push(file_name),
            final(self).tables_written == old(self).tables_written + tables,
            final(self).workbooks_written == old(self).workbooks_written + (if tables > 0 {
                1int
            } else {
                0int
            }),
            old(self).workbooks_written <= old(self).files_processed@.len()
                ==> final(self).workbooks_written <= final(self).files_processed@.len(),
            old(self).workbooks_written <= old(self).tables_written
                ==> final(self).workbooks_written <= final(self).tables_written,
    {
        if tables > 0 {
            self.workbooks_written += 1;
        }
        self.tables_written += tables;
        let ghost before = self.files_processed.deep_view();
        self.files_processed.push(file_name);
        assert(self.files_processed.deep_view() =~= before.push(file_name@));
    }

    /// The line printed at the end of a command-line run.
    pub fn done_message(&self) -> (r: String)
        ensures
            r@ == "Done. Processed "@ + decimal(self.files_processed@.len()) + " file(s), wrote "@
                + decimal(self.tables_written as nat) + " CSV table(s) and "@ + decimal(
                self.workbooks_written as nat,
            ) + " master Excel workbook(s)."@,
    {
        let mut r = String::new();
        r.append("Done. Processed ");
        r.append(decimal_string(self.files_processed.len()).as_str());
        r.append(" file(s), wrote ");
        r.append(decimal_string(self.tables_written).as_str());
        r.append(" CSV table(s) and ");
        r.append(decimal_string(self.workbooks_written).as_str());
        r.append(" master Excel workbook(s).");
        assert(r@ =~= "Done. Processed "@ + decimal(self.files_processed@.len()) + " file(s), wrote "@
            + decimal(self.tables_written as nat) + " CSV table(s) and "@ + decimal(
            self.workbooks_written as nat,
        ) + " master Excel workbook(s)."@);
        r
    }
}

} // verus!
