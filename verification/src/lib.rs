//! Selection of rows and columns of a text stream by 1-based index ranges.
//!
//! A [`filter::Filter`] is one inclusive range of positions, written as `N`,
//! `N:M`, `N:`, `:M` or `:`. A [`filter::FilterSet`] is the union of several.
//! [`rows::RowSlicer`] keeps the selected lines of a text, and
//! [`columns::ColSlicer`] the selected whitespace-separated fields of each line.

pub mod chars;
pub mod scan;
pub mod span;
pub mod error;
pub mod expr;
pub mod filter;
pub mod selection;
pub mod text;
pub mod rows;
pub mod columns;
pub mod source;
