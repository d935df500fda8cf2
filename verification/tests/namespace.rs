use module_link::{
    ImportRecords, ModuleId, NormalModule, ReferenceId, SourceMutation, StmtInfo, StmtInfoId,
    StmtInfos, SymbolId, SymbolRef,
};
use rustc_hash::FxHashMap;

fn module(statements: Vec<StmtInfo>) -> NormalModule {
    NormalModule {
        exec_order: 3,
        id: ModuleId(7),
        resource_id: "n.js".to_string(),
        source_mutations: Vec::new(),
        named_imports: FxHashMap::default(),
        named_exports: FxHashMap::default(),
        stmt_infos: StmtInfos::from_vec(statements),
        import_records: ImportRecords::from_vec(Vec::new()),
        star_exports: Vec::new(),
        resolved_exports: FxHashMap::default(),
        resolved_star_exports: Vec::new(),
        default_export_symbol: None,
        namespace_symbol: (SymbolRef { owner: ModuleId(7), symbol: SymbolId(42) }, ReferenceId(5)),
        is_symbol_for_namespace_referenced: false,
    }
}

fn namespace_requests(mutations: &[SourceMutation]) -> usize {
    mutations.iter().filter(|m| matches!(m, SourceMutation::AddNamespaceExport)).count()
}

fn rename(start: u32, end: u32, name: &str) -> SourceMutation {
    SourceMutation::RenameSymbol { start, end, name: name.to_string() }
}

#[test]
fn initialize_namespace_declares_the_symbol_after_the_body() {
    let mut n = module(vec![
        StmtInfo { stmt_idx: 0, declared_symbols: vec![SymbolId(1)] },
        StmtInfo { stmt_idx: 1, declared_symbols: vec![SymbolId(2), SymbolId(3)] },
    ]);
    n.initialize_namespace(2);
    assert_eq!(n.stmt_infos.len(), 3);
    let first = n.stmt_infos.get(StmtInfoId(0));
    assert_eq!((first.stmt_idx, first.declared_symbols.clone()), (0, vec![SymbolId(1)]));
    let second = n.stmt_infos.get(StmtInfoId(1));
    assert_eq!(
        (second.stmt_idx, second.declared_symbols.clone()),
        (1, vec![SymbolId(2), SymbolId(3)])
    );
    let added = n.stmt_infos.get(StmtInfoId(2));
    assert_eq!((added.stmt_idx, added.declared_symbols.clone()), (2, vec![SymbolId(42)]));
    assert_eq!(n.id, ModuleId(7));
    assert!(n.source_mutations.is_empty());
}

#[test]
fn finalize_without_reference_asks_for_no_namespace() {
    let mut n = module(Vec::new());
    n.finalize(vec![rename(4, 5, "x$1")]);
    assert_eq!(n.source_mutations.len(), 1);
    assert_eq!(namespace_requests(&n.source_mutations), 0);
    assert!(matches!(
        &n.source_mutations[0],
        SourceMutation::RenameSymbol { start: 4, end: 5, name } if name == "x$1"
    ));
}

#[test]
fn finalize_with_reference_asks_for_the_namespace_once() {
    // m: import * as ns from './n'; use(ns);
    let mut n = module(Vec::new());
    n.is_symbol_for_namespace_referenced = true;
    n.finalize(vec![rename(4, 5, "x$1"), rename(9, 12, "foo")]);
    assert_eq!(n.source_mutations.len(), 3);
    assert_eq!(namespace_requests(&n.source_mutations), 1);
    assert!(matches!(&n.source_mutations[2], SourceMutation::AddNamespaceExport));
    assert!(matches!(
        &n.source_mutations[1],
        SourceMutation::RenameSymbol { start: 9, end: 12, name } if name == "foo"
    ));
}

#[test]
fn finalize_keeps_earlier_mutations() {
    let mut n = module(Vec::new());
    n.source_mutations.push(rename(0, 1, "a"));
    n.is_symbol_for_namespace_referenced = true;
    n.finalize(Vec::new());
    assert_eq!(n.source_mutations.len(), 2);
    assert!(matches!(
        &n.source_mutations[0],
        SourceMutation::RenameSymbol { start: 0, end: 1, name } if name == "a"
    ));
    assert!(matches!(&n.source_mutations[1], SourceMutation::AddNamespaceExport));
    assert_eq!(n.exec_order, 3);
}
