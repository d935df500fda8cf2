//! The records that upstream analysis leaves for each module, and the
//! outcomes that linking produces.
use crate::ids::{ImportRecordId, ModuleId, SymbolId, SymbolRef};
use vstd::prelude::*;

verus! {

/// One `import`/`export ... from` source clause, with the module that its
/// specifier was resolved to.
#[derive(Clone, Debug)]
pub struct ImportRecord {
    pub module_request: String,
    pub resolved_module: ModuleId,
}

/// What a locally imported symbol stands for: the binding `imported` of the
/// module behind `record_id`, or that module's namespace object.
#[derive(Clone, Debug)]
pub struct NamedImport {
    pub imported: String,
    pub is_imported_star: bool,
    pub imported_as: SymbolRef,
    pub record_id: ImportRecordId,
}

/// An export that names a binding of the exporting module itself. The binding
/// may in turn be an imported one.
#[derive(Clone, Debug)]
pub struct LocalExport {
    pub referenced: SymbolRef,
}

/// An export that forwards the binding `imported` of the module behind
/// `record_id`, or that module's namespace object.
#[derive(Clone, Debug)]
pub struct ReExport {
    pub imported: String,
    pub is_imported_star: bool,
    pub record_id: ImportRecordId,
}

/// An entry of a module's table of named exports.
#[derive(Clone, Debug)]
pub enum LocalOrReExport {
    Local(LocalExport),
    Re(ReExport),
}

/// The symbols that one top-level statement declares.
#[derive(Clone, Debug)]
pub struct StmtInfo {
    pub stmt_idx: usize,
    pub declared_symbols: Vec<SymbolId>,
}

/// An instruction for code generation.
#[derive(Clone, Debug)]
pub enum SourceMutation {
    /// Replace the identifier between the two byte offsets by `name`.
    RenameSymbol { start: u32, end: u32, name: String },
    /// Build the module's namespace object.
    AddNamespaceExport,
}

/// Outcome of resolving an exported name.
#[derive(Clone, Copy, Debug, PartialEq, Eq, Structural)]
pub enum Resolution {
    /// No binding is exported under the name.
    NotFound,
    /// Different `export *` paths lead to different bindings.
    Ambiguous,
    /// The binding that the name denotes.
    Found(SymbolRef),
}

} // verus!
