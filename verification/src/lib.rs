//! Ordering and persistence core for an editor-integration backend.
//!
//! The crate provides a fractional-indexing rank algebra (`Rank`, `Bucket`,
//! `LexoRank`) that keeps sibling entries totally ordered while allowing a new
//! entry to be placed between any two existing ones, and a hierarchical store
//! (`ProjectsData`) of workspaces, projects and project links whose mutation
//! operations preserve referential and ordering invariants. A closed command
//! set (`Change` / `ChangeSet`) drives the store. Reading and writing the
//! persisted file, and parsing external project descriptions, are left to the
//! surrounding application; the store itself works on plain values only.

mod bucket;
mod changes;
mod compilers;
mod errors;
mod lexorank;
mod paths;
mod project;
mod project_data;
mod rank;
mod text;
mod workspace;

pub use bucket::Bucket;
pub use changes::apply_change;
pub use changes::Change;
pub use changes::ChangeSet;
pub use changes::ProjectUpdateData;
pub use changes::WorkspaceUpdateData;
pub use compilers::compiler_exists;
pub use compilers::CompilerRegistry;
pub use errors::StoreError;
pub use lexorank::LexoRank;
pub use lexorank::ParseError;
pub use paths::file_extension;
pub use paths::file_name;
pub use paths::file_stem;
pub use paths::parent_dir;
pub use project::classify_project_path;
pub use project::Project;
pub use project::ProjectKind;
pub use project::ProjectLink;
pub use project_data::GroupMember;
pub use project_data::GroupProject;
pub use project_data::ProjectsData;
pub use rank::Rank;
pub use workspace::Workspace;
