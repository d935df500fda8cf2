//! The module graph: modules of two kinds, addressed by id, and what it
//! means for a graph to be ready for linking.
use crate::ids::{ImportRecordId, ModuleId, ReferenceId, SymbolId, SymbolRef};
use crate::records::{
    ImportRecord, LocalExport, LocalOrReExport, NamedImport, Resolution, SourceMutation,
};
use crate::symbols::Symbols;
use crate::tables::{
    external_symbol_of, external_symbols_of, named_exports_of, named_imports_of, ExternalSymbols,
    ImportRecords, NamedExports, NamedImports, StmtInfos,
};
use rustc_hash::FxHashMap;
use vstd::pervasive::unreached;
use vstd::prelude::*;

verus! {

/// A module that has source: it takes part in every step of linking.
#[derive(Debug)]
pub struct NormalModule {
    pub exec_order: u32,
    pub id: ModuleId,
    pub resource_id: String,
    /// The instructions for code generation, in the order in which they
    /// were recorded.
    pub source_mutations: Vec<SourceMutation>,
    /// What each locally imported symbol stands for.
    pub named_imports: NamedImports,
    /// What the module exports under each name.
    pub named_exports: NamedExports,
    /// The symbols that each statement declares.
    pub stmt_infos: StmtInfos,
    /// The source clauses of the module's imports and re-exports.
    pub import_records: ImportRecords,
    /// The records of the module's `export * from` declarations, in source order.
    pub star_exports: Vec<ImportRecordId>,
    /// What each exported name resolves to, once the module is linked.
    pub resolved_exports: FxHashMap<String, Resolution>,
    /// The modules reached through `export *`, once the module is linked.
    pub resolved_star_exports: Vec<ModuleId>,
    pub default_export_symbol: Option<SymbolId>,
    /// The symbol of the namespace object, and the reference to it.
    pub namespace_symbol: (SymbolRef, ReferenceId),
    /// Whether some module refers to the namespace object.
    pub is_symbol_for_namespace_referenced: bool,
}

/// A module that is not bundled. It is a leaf of the graph: all that is known
/// of it is which of its bindings other modules import.
#[derive(Debug)]
pub struct ExternalModule {
    pub exec_order: u32,
    pub id: ModuleId,
    pub resource_id: String,
    /// The usage table: the symbol of each binding that some module imports.
    pub symbols_imported_by_others: ExternalSymbols,
    pub namespace_symbol: SymbolRef,
    pub is_symbol_for_namespace_referenced: bool,
}

/// A module of the graph.
#[derive(Debug)]
pub enum Module {
    Normal(NormalModule),
    External(ExternalModule),
}

/// The name that `export *` never forwards.
pub open spec fn default_name() -> Seq<char> {
    "default"@
}

impl ExternalModule {
    /// The bindings that other modules import, by name.
    pub open spec fn symbols(&self) -> Map<Seq<char>, SymbolRef> {
        external_symbols_of(self.symbols_imported_by_others)
    }

    /// Whether the module can answer for `exported`: its namespace object is
    /// always there, a named binding only once somebody imports it.
    pub open spec fn offers(&self, exported: Seq<char>, is_star: bool) -> bool {
        is_star || self.symbols().contains_key(exported)
    }

    /// The binding that `exported` denotes: the namespace object for a
    /// namespace import, else the entry of the usage table.
    pub open spec fn binding(&self, exported: Seq<char>, is_star: bool) -> SymbolRef {
        if is_star {
            self.namespace_symbol
        } else {
            self.symbols()[exported]
        }
    }

    /// Whether the module can answer for `exported`.
    pub fn has_export(&self, exported: &String, is_star: bool) -> (b: bool)
        ensures
            b == self.offers(exported@, is_star),
    {
        if is_star {
            true
        } else {
            external_symbol_of(&self.symbols_imported_by_others, exported).is_some()
        }
    }

    /// The binding behind an import of `exported` from this module.
    pub fn resolve_export(&self, exported: &String, is_star: bool) -> (symbol: SymbolRef)
        requires
            self.offers(exported@, is_star),
        ensures
            symbol == self.binding(exported@, is_star),
    {
        if is_star {
            self.namespace_symbol
        } else {
            match external_symbol_of(&self.symbols_imported_by_others, exported) {
                Some(symbol) => symbol,
                None => unreached(),
            }
        }
    }
}

impl NormalModule {
    /// The named imports, by local symbol.
    pub open spec fn imports(&self) -> Map<SymbolId, NamedImport> {
        named_imports_of(self.named_imports)
    }

    /// The named exports, by exported name.
    pub open spec fn exports(&self) -> Map<Seq<char>, LocalOrReExport> {
        named_exports_of(self.named_exports)
    }

    /// The import records, in the order of their ids.
    pub open spec fn records(&self) -> Seq<ImportRecord> {
        self.import_records@
    }

    /// The module that the record `record` points at.
    pub open spec fn target(&self, record: ImportRecordId) -> ModuleId {
        self.records()[record.0 as int].resolved_module
    }

    /// The modules behind the `export *` declarations, in source order.
    pub open spec fn star_targets(&self) -> Seq<ModuleId> {
        Seq::new(self.star_exports@.len(), |i: int| self.target(self.star_exports@[i]))
    }

    /// The names that the module's tables mention as names of other modules'
    /// bindings.
    pub open spec fn mentioned_names(&self) -> Set<Seq<char>> {
        self.imports().dom().map(|symbol: SymbolId| self.imports()[symbol].imported@).union(
            self.exports().dom().map(
                |name: Seq<char>|
                    match self.exports()[name] {
                        LocalOrReExport::Re(re) => re.imported@,
                        LocalOrReExport::Local(_) => name,
                    },
            ),
        )
    }
}

/// Whether `graph` answers for the binding `imported` of its module `target`:
/// a normal module always does, an external one where it has a usage record.
pub open spec fn answers(graph: Seq<Module>, target: ModuleId, imported: Seq<char>, is_star: bool) -> bool {
    match graph[target.0 as int] {
        Module::Normal(_) => true,
        Module::External(external) => external.offers(imported, is_star),
    }
}

/// Whether the tables of `module` are consistent with each other and with a
/// graph `graph` that holds it: every import record points at a module of the
/// graph, every table entry names a record of the module, and what is
/// imported from an external module has a usage record there. The tables
/// have finitely many entries, as those of every hash table have.
pub open spec fn consistent(module: NormalModule, graph: Seq<Module>) -> bool {
    &&& module.imports().dom().finite()
    &&& module.exports().dom().finite()
    &&& forall|r: int|
        0 <= r < module.records().len() ==> (#[trigger] module.records()[r]).resolved_module.0
            < graph.len()
    &&& forall|i: int|
        0 <= i < module.star_exports@.len() ==> (#[trigger] module.star_exports@[i]).0
            < module.records().len()
    &&& forall|symbol: SymbolId| #[trigger]
        module.imports().contains_key(symbol) ==> {
            let import = module.imports()[symbol];
            &&& import.record_id.0 < module.records().len()
            &&& answers(graph, module.target(import.record_id), import.imported@, import.is_imported_star)
        }
    &&& forall|name: Seq<char>| #[trigger]
        module.exports().contains_key(name) ==> (module.exports()[name] matches LocalOrReExport::Re(
            re,
        ) ==> {
            &&& re.record_id.0 < module.records().len()
            &&& answers(graph, module.target(re.record_id), re.imported@, re.is_imported_star)
        })
}

/// Whether `graph` is ready for linking: every normal module sits at the
/// position that its id names, and its tables are consistent.
pub open spec fn linkable(graph: Seq<Module>) -> bool {
    forall|i: int|
        0 <= i < graph.len() ==> (#[trigger] graph[i] matches Module::Normal(module) ==> {
            &&& module.id.0 == i
            &&& consistent(module, graph)
        })
}

/// Whether `module` is the module of `graph` that its id names.
pub open spec fn member(graph: Seq<Module>, module: NormalModule) -> bool {
    &&& module.id.0 < graph.len()
    &&& graph[module.id.0 as int] == Module::Normal(module)
}

/// Whether `symbol` is a binding that `module` declares towards others: its
/// namespace object, a symbol that a local export names, or a symbol of an
/// external module's usage table.
pub open spec fn declares(module: Module, symbol: SymbolRef) -> bool {
    match module {
        Module::Normal(own) => symbol == own.namespace_symbol.0 || exists|name: Seq<char>|
            #![trigger own.exports()[name]]
            own.exports().contains_key(name) && own.exports()[name] == LocalOrReExport::Local(
                LocalExport { referenced: symbol },
            ),
        Module::External(external) => symbol == external.namespace_symbol || exists|name: Seq<char>|
            #![trigger external.symbols()[name]]
            external.symbols().contains_key(name) && external.symbols()[name] == symbol,
    }
}

/// Whether some module of `graph` declares `symbol`.
pub open spec fn known(graph: Seq<Module>, symbol: SymbolRef) -> bool {
    exists|i: int| 0 <= i < graph.len() && declares(#[trigger] graph[i], symbol)
}

/// Whether the registry holds every binding that a module of `graph` declares.
pub open spec fn registered(graph: Seq<Module>, symbols: Symbols) -> bool {
    forall|symbol: SymbolRef| #[trigger] known(graph, symbol) ==> symbols.contains(symbol)
}

} // verus!
