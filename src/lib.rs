//! Verified core of a toolkit for ELAN annotation files.
//!
//! - `text`: sanitising strings for file names and display.
//! - `paths`: file names, stems and extensions of paths held as strings.
//! - `ledger`, `ledger_file`, `ledger_read`: the clip ledger, its lookup by
//!   file name, and writing and reading its JSON file format.
//! - `boundary`: annotation boundaries to cut and the file names of clips.
//! - `run`: planning a tier's cuts and the all-or-nothing steps between them.
//! - `select`: what a line typed at a prompt selects.
//! - `clock`, `numfmt`, `codec`: time-of-day text, decimal text, JSON values.
//! - `tree`, `order`: the tree of tiers and their referring tiers, and the
//!   order in which their ids are printed.
pub mod boundary;
pub mod clock;
pub mod codec;
pub mod ledger;
pub mod ledger_file;
pub mod ledger_read;
pub mod numfmt;
pub mod order;
pub mod paths;
pub mod run;
pub mod select;
pub mod text;
pub mod tree;
