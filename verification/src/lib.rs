//! Core logic of a branchless workflow for Git: the event log that records
//! what the user did to commits and references, its replay into commit
//! visibility, rebase plans, undo, and the text the tool prints.

pub mod oid;
pub mod text;
pub mod undo;
pub mod visibility;
pub mod describe;
pub mod eventlog;
pub mod formatting;
pub mod gc;
pub mod helpers;
pub mod hiding;
pub mod hooks;
pub mod init;
pub mod metadata;
pub mod navigation;
pub mod node_descriptors;
pub mod repo;
pub mod rewrite;
pub mod smartlog;
pub mod rebase;
pub mod plan;
pub mod execute;
pub mod tree;
pub mod reword;
pub mod amend;
pub mod moving;
pub mod post_rewrite;
pub mod restack;
pub mod upstream;
