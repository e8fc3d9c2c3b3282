//! Terminal-output styling and list navigation for a manual-page picker:
//! parsing of style escape sequences into attributed runs, stripping of
//! terminal control sequences, substring highlighting of candidates, and a
//! scrolling viewport that keeps the selection visible.
pub mod strip_ansi;
pub mod styled;
pub mod highlight;
pub mod viewport;
pub mod catalog;
pub mod fetch;
