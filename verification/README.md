# xer_to_csv

Converts Primavera P6 `.xer` schedule exports into one CSV file per table
and a master Excel workbook per input file, with the conversion rules
written as Verus contracts and proved.

Layout:

- `src/` — the verified library:
  - `parse.rs`: splitting `.xer` text into tables (`%T`, `%F`, `%R` lines),
    with record padding;
  - `decode.rs`: byte-order marks, UTF-8 / Windows-1252 decoding (through
    `encoding_rs`);
  - `sheet_name.rs`: valid, unique worksheet names;
  - `csv_out.rs`: the CSV text of a table (through the `csv` crate);
  - `workbook.rs`: the master workbook (through `rust_xlsxwriter`);
  - `paths.rs`: `.xer` detection, output folder and file names;
  - `summary.rs`, `app_state.rs`: run summaries and the window's decisions;
  - `text.rs`: trimming, splitting and decimal rendering on characters.
- `tests/` — tests run against the compiled library.
- `app/` — the program: command line, desktop window (`eframe`, `rfd`),
  directory walking (`walkdir`) and all file reading and writing.

Run from the command line with `<input_directory> <output_directory>`, or
without arguments to open the window.
