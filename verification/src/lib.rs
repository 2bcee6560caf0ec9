//! Renders a scanned project as one text document: a diagram of its directory
//! tree, followed by the contents of every file that the scan kept.
//!
//! The scan itself (walking directories, reading ignore files and file
//! contents) is the caller's business. This library holds what is decided and
//! computed around it: which visited entries are kept, the order of the kept
//! paths, the tree they fold into, the diagram of that tree, and the document.

pub mod leaves;
pub mod order;
pub mod path;
pub mod scan;
pub mod snapshot;
pub mod tree;

pub use scan::{collect_paths, visit, CandidateEntry, EntryKind, FilteredPathList, WalkSettings};
pub use snapshot::{generate_snapshot_content, snapshot, FileContent, FileRecord, Snapshot};
pub use tree::{build_tree, generate_project_tree, insert_path, render_tree, TreeNode};
