//! Digests, scans and indexes of directory trees.

pub mod confirm;
pub mod digester;
pub mod format;
pub mod hasher;
pub mod merge;
pub mod report;
pub mod roundtrip;
pub mod treeindex;
pub mod treeitem;
pub mod treelist;

pub use self::confirm::{Confirm, ConfirmEvent, ConfirmPhase, ConfirmStep, ConfirmView, StepView};
pub use self::digester::{digest_content, DigestStep, DigestView, Digester, CHUNK};
pub use self::report::{format_size, unique_dirs};
pub use self::treeindex::{SourceView, TreeIndex, TreeIndexBuilder};
pub use self::treeitem::{GroupView, ItemView, TreeItem, TreeItemBuilder, TreeItemDupes};
pub use self::treelist::{DirEntry, EntryKind, EntryView, ScanView, TreeList, TreeListBuilder, TreeScan, TreeWork, WorkView};
