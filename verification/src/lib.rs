//! Export resolution and module linking for a JavaScript bundler.
//!
//! A module graph is a list of modules addressed by [`ModuleId`]. Modules
//! refer to each other only by id, so `export * from` cycles and circular
//! re-exports are ordinary data. On such a graph the crate computes
//!
//! * the names a module exports ([`NormalModule::get_exported_names`]),
//! * the binding an exported name denotes ([`NormalModule::resolve_export`]),
//!   merging bindings that a chain of re-exports proves equal in a
//!   [`Symbols`] registry,
//! * the modules reachable through `export *`
//!   ([`NormalModule::resolve_star_exports`]),
//!
//! and it schedules the namespace object of a module that somebody observes
//! ([`NormalModule::initialize_namespace`], [`NormalModule::finalize`]).
//!
//! Every function is verified against a contract over mathematical models of
//! the tables: [`resolution`] and [`exports`] say what the answers are, and
//! the functions are proved to compute them. What linking asks of a graph
//! and of a registry can be tested with [`ModuleVec::is_linkable`] and
//! [`Symbols::registers`]. The containers of `index_vec` and `rustc_hash`
//! are used as they are; what is assumed of them is collected in [`tables`].
pub mod exports;
pub mod graph;
pub mod ids;
pub mod namespace;
pub mod records;
pub mod resolution;
pub mod resolve;
pub mod star;
pub mod symbols;
pub mod tables;
pub mod validate;

pub use graph::{ExternalModule, Module, NormalModule};
pub use ids::{ImportRecordId, ModuleId, ReferenceId, StmtInfoId, SymbolId, SymbolRef};
pub use records::{
    ImportRecord, LocalExport, LocalOrReExport, NamedImport, ReExport, Resolution, SourceMutation,
    StmtInfo,
};
pub use symbols::Symbols;
pub use tables::{
    ExternalSymbols, ImportRecords, ModuleIdSet, ModuleVec, NameSet, NamedExports, NamedImports,
    StmtInfos,
};
