//! Codec for tabular data held in spreadsheet containers.
//!
//! Three input formats (delimited text, zip+XML office-open worksheets and
//! zip+XML open-document content) are normalized into one canonical
//! rectangular table of strings: a header row (`columns`) plus data rows,
//! every row padded to the same width.  The canonical table can be written
//! back out as either zip-based format.

pub mod api;
pub mod cellref;
pub mod container;
pub mod csvdec;
pub mod encode;
pub mod error;
pub mod grid;
pub mod odsdec;
pub mod serial;
pub mod sniff;
pub mod text;
pub mod users;
pub mod webtext;
pub mod xlsxdec;
pub mod xmltok;
