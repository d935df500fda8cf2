use module_link::{
    ExternalModule, ImportRecord, ImportRecordId, ImportRecords, LocalExport, LocalOrReExport,
    Module, ModuleId, ModuleVec, NamedImport, NormalModule, ReExport, ReferenceId, StmtInfos,
    SymbolId, SymbolRef, Symbols,
};
use rustc_hash::FxHashMap;

fn symbol(module: usize, symbol: usize) -> SymbolRef {
    SymbolRef { owner: ModuleId(module), symbol: SymbolId(symbol) }
}

fn empty(id: usize, records: Vec<usize>) -> NormalModule {
    NormalModule {
        exec_order: 0,
        id: ModuleId(id),
        resource_id: String::new(),
        source_mutations: Vec::new(),
        named_imports: FxHashMap::default(),
        named_exports: FxHashMap::default(),
        stmt_infos: StmtInfos::from_vec(Vec::new()),
        import_records: ImportRecords::from_vec(
            records
                .into_iter()
                .map(|target| ImportRecord {
                    module_request: String::new(),
                    resolved_module: ModuleId(target),
                })
                .collect(),
        ),
        star_exports: Vec::new(),
        resolved_exports: FxHashMap::default(),
        resolved_star_exports: Vec::new(),
        default_export_symbol: None,
        namespace_symbol: (symbol(id, 0), ReferenceId(0)),
        is_symbol_for_namespace_referenced: false,
    }
}

fn external(id: usize, names: &[&str]) -> Module {
    let mut symbols = FxHashMap::default();
    for (i, name) in names.iter().enumerate() {
        symbols.insert(name.to_string(), symbol(id, i + 1));
    }
    Module::External(ExternalModule {
        exec_order: 0,
        id: ModuleId(id),
        resource_id: String::new(),
        symbols_imported_by_others: symbols,
        namespace_symbol: symbol(id, 0),
        is_symbol_for_namespace_referenced: false,
    })
}

fn re_export(imported: &str, is_imported_star: bool, record: usize) -> LocalOrReExport {
    LocalOrReExport::Re(ReExport {
        imported: imported.to_string(),
        is_imported_star,
        record_id: ImportRecordId(record),
    })
}

fn import(imported: &str, is_imported_star: bool, record: usize) -> NamedImport {
    NamedImport {
        imported: imported.to_string(),
        is_imported_star,
        imported_as: symbol(0, 1),
        record_id: ImportRecordId(record),
    }
}

fn linkable(modules: Vec<Module>) -> bool {
    ModuleVec::from_vec(modules).is_linkable()
}

#[test]
fn empty_graph_is_linkable() {
    assert!(linkable(Vec::new()));
}

#[test]
fn module_must_sit_at_its_id() {
    assert!(linkable(vec![Module::Normal(empty(0, vec![])), Module::Normal(empty(1, vec![]))]));
    assert!(!linkable(vec![Module::Normal(empty(1, vec![])), Module::Normal(empty(0, vec![]))]));
    assert!(!linkable(vec![Module::Normal(empty(1, vec![]))]));
}

#[test]
fn import_record_must_point_into_the_graph() {
    assert!(linkable(vec![Module::Normal(empty(0, vec![0, 0]))]));
    assert!(!linkable(vec![Module::Normal(empty(0, vec![0, 1]))]));
    assert!(linkable(vec![Module::Normal(empty(0, vec![0, 1])), external(1, &[])]));
}

#[test]
fn star_export_must_name_a_record() {
    let mut module = empty(0, vec![0]);
    module.star_exports.push(ImportRecordId(0));
    assert!(module.is_consistent(&ModuleVec::from_vec(vec![Module::Normal(empty(0, vec![]))])));
    assert!(linkable(vec![Module::Normal(module)]));
    let mut module = empty(0, vec![0]);
    module.star_exports.push(ImportRecordId(0));
    module.star_exports.push(ImportRecordId(1));
    assert!(!linkable(vec![Module::Normal(module)]));
}

#[test]
fn re_export_must_name_a_record() {
    let mut module = empty(0, vec![0]);
    module.named_exports.insert("x".to_string(), re_export("y", false, 0));
    assert!(linkable(vec![Module::Normal(module)]));
    let mut module = empty(0, vec![0]);
    module.named_exports.insert("x".to_string(), re_export("y", false, 1));
    assert!(!linkable(vec![Module::Normal(module)]));
}

#[test]
fn named_import_must_name_a_record() {
    let mut module = empty(0, vec![0]);
    module.named_imports.insert(SymbolId(1), import("y", false, 0));
    assert!(linkable(vec![Module::Normal(module)]));
    let mut module = empty(0, vec![0]);
    module.named_imports.insert(SymbolId(1), import("y", false, 3));
    assert!(!linkable(vec![Module::Normal(module)]));
}

#[test]
fn external_module_must_answer_for_what_is_imported() {
    let mut module = empty(0, vec![1]);
    module.named_exports.insert("x".to_string(), re_export("known", false, 0));
    module.named_imports.insert(SymbolId(1), import("known", false, 0));
    assert!(linkable(vec![Module::Normal(module), external(1, &["known"])]));

    let mut module = empty(0, vec![1]);
    module.named_exports.insert("x".to_string(), re_export("unknown", false, 0));
    assert!(!linkable(vec![Module::Normal(module), external(1, &["known"])]));

    let mut module = empty(0, vec![1]);
    module.named_imports.insert(SymbolId(1), import("unknown", false, 0));
    assert!(!linkable(vec![Module::Normal(module), external(1, &["known"])]));

    // the namespace of an external module is always there
    let mut module = empty(0, vec![1]);
    module.named_exports.insert("x".to_string(), re_export("*", true, 0));
    module.named_imports.insert(SymbolId(1), import("*", true, 0));
    assert!(linkable(vec![Module::Normal(module), external(1, &[])]));
}

#[test]
fn registry_must_hold_what_the_graph_declares() {
    let mut module = empty(0, vec![]);
    module.named_exports.insert(
        "x".to_string(),
        LocalOrReExport::Local(LocalExport { referenced: symbol(0, 4) }),
    );
    let modules = ModuleVec::from_vec(vec![Module::Normal(module), external(1, &["a", "b"])]);
    assert!(Symbols::new(&vec![5, 3]).registers(&modules));
    // the local export's symbol is missing
    assert!(!Symbols::new(&vec![4, 3]).registers(&modules));
    // a symbol of the external module's table is missing
    assert!(!Symbols::new(&vec![5, 2]).registers(&modules));
    // the external module's namespace symbol is missing
    assert!(!Symbols::new(&vec![5]).registers(&modules));
    // the normal module's namespace symbol is missing
    assert!(!Symbols::new(&vec![0, 3]).registers(&modules));
    assert!(Symbols::new(&vec![]).registers(&ModuleVec::from_vec(Vec::new())));
}

#[test]
fn module_vec_is_addressed_by_id() {
    let modules = ModuleVec::from_vec(vec![Module::Normal(empty(0, vec![])), external(1, &[])]);
    assert_eq!(modules.len(), 2);
    assert!(matches!(modules.get(ModuleId(0)), Module::Normal(module) if module.id == ModuleId(0)));
    assert!(matches!(modules.get(ModuleId(1)), Module::External(module) if module.id == ModuleId(1)));
    let records = ImportRecords::from_vec(vec![
        ImportRecord { module_request: "./a".to_string(), resolved_module: ModuleId(4) },
        ImportRecord { module_request: "./b".to_string(), resolved_module: ModuleId(2) },
    ]);
    assert_eq!(records.len(), 2);
    assert_eq!(records.get(ImportRecordId(0)).resolved_module, ModuleId(4));
    assert_eq!(records.get(ImportRecordId(1)).module_request, "./b");
}
