//! Cell-level comparison of spreadsheet workbooks.

pub mod align;
pub mod cell;
pub mod compare;
pub mod delta;
pub mod fingerprint;
pub mod grid;
pub mod lcs;
pub mod parallel;
pub mod plan;
pub mod reference;
pub mod rename;
pub mod report;
pub mod settings;
pub mod sheet_xml;
pub mod style;
pub mod styles_xml;
pub mod targets;
pub mod text;
pub mod xml;
