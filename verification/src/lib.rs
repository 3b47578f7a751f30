//! Builds a reverse-dependency map for a tree of RPM source packages:
//! package archive filenames are parsed into their name/version/release/
//! architecture components, the package's declared requirements are read
//! from the text that an external query over the archive produced, and the
//! results are merged into one map from dependency name to the packages
//! that declare it.

pub mod graph;
pub mod rpm;
pub mod text;
