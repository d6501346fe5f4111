//! Conversion of Primavera P6 `.xer` schedule exports into per-table CSV
//! files and a master workbook, with the parsing, naming and encoding rules
//! stated and proved with Verus.

pub mod app_state;
pub mod csv_out;
pub mod decode;
pub mod parse;
pub mod paths;
pub mod sheet_name;
pub mod summary;
pub mod text;
pub mod workbook;
