//! Linting of plain-text sudoku boards: parsing rows, finding repeated
//! digits in rows, columns and boxes, checking that a board can be
//! completed, and reporting findings by source line.

pub mod dups;
pub mod finding;
pub mod lint;
pub mod messages;
pub mod row;
pub mod shift;
pub mod solver;
pub mod text;

pub use dups::{find_box_duplicates, find_column_duplicates, find_duplicates};
pub use finding::{findings_to_json, Finding, Severity};
pub use lint::lint;
pub use row::{is_ignorable_line, parse_row, Row};
pub use solver::is_solvable;
