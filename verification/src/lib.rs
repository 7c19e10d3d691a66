#![verifier::loop_isolation(false)]
//! Core of an open-directory scanner: a bounded-depth traversal over listing
//! pages, a per-node statistics report with a commutative merge, a
//! human-readable size parser and an extension-based file-type taxonomy.
pub mod extract;
pub mod filetype;
pub mod report;
pub mod scanner;
pub mod size;

pub use filetype::get_file_type;
pub use filetype::FileType;
pub use report::DirectoryReport;
pub use report::FileInfo;
pub use size::parse_size;
