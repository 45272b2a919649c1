//! Flattening and reconciliation of citizen-science classifications.
//!
//! A classification is one volunteer's answers for one subject, exported as
//! a record with a nested tree of annotations. The records of a workflow are
//! flattened into a table with one row for each classification and one
//! column for each field that the trees hold (`flatten`, `flat`). The table
//! is then reconciled: its rows are grouped by subject, and each column gets
//! one value for each subject, by the rule of the column's shape, with a
//! flag that says how the value came about (`reconcile`, `reconcile_fields`,
//! `reconciled`).
//!
//! The same records can be read into a table that is built cell by cell
//! (`classifications`, `unreconciled`).
//!
//! Coordinates are whole pixels. Numbers are read from their decimal text at
//! a resolution of one millionth (`number`), and the far edges of a box are
//! sums of two numbers as they are written, rounded once (`sum`); lengths are
//! held in thousandths
//! of a pixel and the factor of a ruler in billionths of its unit per pixel
//! (`scale`), so that every value is an integer.

pub mod classifications;
pub mod fields;
pub mod flat;
pub mod flatten;
pub mod fuzzy;
pub mod json;
pub mod number;
pub mod order;
pub mod output;
pub mod reconcile;
pub mod reconcile_fields;
pub mod reconciled;
pub mod scale;
pub mod sum;
pub mod text;
pub mod unreconciled;
