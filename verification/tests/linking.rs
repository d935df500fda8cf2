use module_link::{
    ExternalModule, ImportRecord, ImportRecordId, ImportRecords, LocalExport, LocalOrReExport,
    Module, ModuleId, ModuleVec, NamedImport, NormalModule, ReExport, ReferenceId, Resolution,
    StmtInfos, SymbolId, SymbolRef, Symbols,
};
use rustc_hash::FxHashMap;

/// The namespace symbol of every module built here.
const NAMESPACE: usize = 0;

fn symbol(module: usize, symbol: usize) -> SymbolRef {
    SymbolRef { owner: ModuleId(module), symbol: SymbolId(symbol) }
}

/// A module under construction: `export const` gives symbols from 1 upwards.
struct Draft {
    id: usize,
    records: Vec<ImportRecord>,
    module: NormalModule,
    next_symbol: usize,
}

impl Draft {
    fn new(id: usize) -> Draft {
        Draft {
            id,
            records: Vec::new(),
            next_symbol: NAMESPACE + 1,
            module: NormalModule {
                exec_order: 0,
                id: ModuleId(id),
                resource_id: format!("module{}.js", id),
                source_mutations: Vec::new(),
                named_imports: FxHashMap::default(),
                named_exports: FxHashMap::default(),
                stmt_infos: StmtInfos::from_vec(Vec::new()),
                import_records: ImportRecords::from_vec(Vec::new()),
                star_exports: Vec::new(),
                resolved_exports: FxHashMap::default(),
                resolved_star_exports: Vec::new(),
                default_export_symbol: None,
                namespace_symbol: (symbol(id, NAMESPACE), ReferenceId(0)),
                is_symbol_for_namespace_referenced: false,
            },
        }
    }

    fn record(&mut self, target: usize) -> ImportRecordId {
        self.records.push(ImportRecord {
            module_request: format!("./module{}", target),
            resolved_module: ModuleId(target),
        });
        ImportRecordId(self.records.len() - 1)
    }

    fn fresh(&mut self) -> SymbolRef {
        let made = symbol(self.id, self.next_symbol);
        self.next_symbol += 1;
        made
    }

    /// `export const name = ...;`
    fn export_const(mut self, name: &str) -> Draft {
        let declared = self.fresh();
        self.module.named_exports.insert(
            name.to_string(),
            LocalOrReExport::Local(LocalExport { referenced: declared }),
        );
        self
    }

    /// `export { imported as name } from target;`
    fn re_export(mut self, name: &str, imported: &str, target: usize) -> Draft {
        let record_id = self.record(target);
        self.module.named_exports.insert(
            name.to_string(),
            LocalOrReExport::Re(ReExport {
                imported: imported.to_string(),
                is_imported_star: false,
                record_id,
            }),
        );
        self
    }

    /// `export * as name from target;`
    fn re_export_namespace(mut self, name: &str, target: usize) -> Draft {
        let record_id = self.record(target);
        self.module.named_exports.insert(
            name.to_string(),
            LocalOrReExport::Re(ReExport {
                imported: "*".to_string(),
                is_imported_star: true,
                record_id,
            }),
        );
        self
    }

    /// `import { imported as local } from target; export { local as name };`
    fn export_import(mut self, name: &str, imported: &str, target: usize) -> Draft {
        let record_id = self.record(target);
        let local = self.fresh();
        self.module.named_imports.insert(
            local.symbol,
            NamedImport {
                imported: imported.to_string(),
                is_imported_star: false,
                imported_as: local,
                record_id,
            },
        );
        self.module.named_exports.insert(
            name.to_string(),
            LocalOrReExport::Local(LocalExport { referenced: local }),
        );
        self
    }

    /// `import * as local from target; export { local as name };`
    fn export_namespace_import(mut self, name: &str, target: usize) -> Draft {
        let record_id = self.record(target);
        let local = self.fresh();
        self.module.named_imports.insert(
            local.symbol,
            NamedImport {
                imported: "*".to_string(),
                is_imported_star: true,
                imported_as: local,
                record_id,
            },
        );
        self.module.named_exports.insert(
            name.to_string(),
            LocalOrReExport::Local(LocalExport { referenced: local }),
        );
        self
    }

    /// `export * from target;`
    fn export_star(mut self, target: usize) -> Draft {
        let record_id = self.record(target);
        self.module.star_exports.push(record_id);
        self
    }

    fn build(mut self) -> Module {
        self.module.import_records = ImportRecords::from_vec(self.records);
        Module::Normal(self.module)
    }
}

/// An external module whose bindings `names` are imported by others; they
/// get the symbols from 1 upwards.
fn external(id: usize, names: &[&str]) -> Module {
    let mut symbols = FxHashMap::default();
    for (i, name) in names.iter().enumerate() {
        symbols.insert(name.to_string(), symbol(id, i + 1));
    }
    Module::External(ExternalModule {
        exec_order: 0,
        id: ModuleId(id),
        resource_id: format!("external{}", id),
        symbols_imported_by_others: symbols,
        namespace_symbol: symbol(id, NAMESPACE),
        is_symbol_for_namespace_referenced: false,
    })
}

/// A graph that is ready for linking.
fn graph(modules: Vec<Module>) -> ModuleVec {
    let modules = ModuleVec::from_vec(modules);
    assert!(modules.is_linkable());
    modules
}

/// A registry with room for ten symbols in each module of a graph of `n`.
fn registry(n: usize) -> Symbols {
    Symbols::new(&vec![10; n])
}

fn normal(modules: &ModuleVec, id: usize) -> &NormalModule {
    match modules.get(ModuleId(id)) {
        Module::Normal(module) => module,
        Module::External(_) => panic!("module {} is external", id),
    }
}

fn resolve(modules: &ModuleVec, symbols: &mut Symbols, id: usize, name: &str) -> Resolution {
    assert!(symbols.registers(modules));
    let mut trail = Vec::new();
    let found = normal(modules, id).resolve_export(&name.to_string(), &mut trail, modules, symbols);
    assert!(trail.is_empty());
    found
}

fn exported(modules: &ModuleVec, id: usize) -> Vec<String> {
    let mut stack = Vec::new();
    let names = normal(modules, id).get_exported_names(&mut stack, modules);
    assert!(stack.is_empty());
    let mut sorted: Vec<String> = names.into_iter().collect();
    sorted.sort();
    sorted
}

fn reached(modules: &ModuleVec, id: usize) -> Vec<usize> {
    let mut ids: Vec<usize> =
        normal(modules, id).resolve_star_exports(modules).into_iter().map(|m| m.0).collect();
    ids.sort();
    ids
}

#[test]
fn re_export_resolves_to_the_declaration() {
    // a: export const x = 1;   b: export { x } from './a';
    let modules = graph(vec![
        Draft::new(0).export_const("x").build(),
        Draft::new(1).re_export("x", "x", 0).build(),
    ]);
    let mut symbols = registry(2);
    assert_eq!(resolve(&modules, &mut symbols, 1, "x"), Resolution::Found(symbol(0, 1)));
}

#[test]
fn star_cycle_exports_nothing() {
    // a: export * from './b';   b: export * from './a';
    let modules =
        graph(vec![Draft::new(0).export_star(1).build(), Draft::new(1).export_star(0).build()]);
    assert_eq!(exported(&modules, 0), Vec::<String>::new());
    assert_eq!(exported(&modules, 1), Vec::<String>::new());
}

#[test]
fn star_self_cycle_terminates() {
    // a: export * from './a'; export const x = 1;
    let modules = graph(vec![Draft::new(0).export_star(0).export_const("x").build()]);
    assert_eq!(exported(&modules, 0), vec!["x".to_string()]);
    assert_eq!(reached(&modules, 0), vec![0]);
    let mut symbols = registry(1);
    assert_eq!(resolve(&modules, &mut symbols, 0, "x"), Resolution::Found(symbol(0, 1)));
    assert_eq!(resolve(&modules, &mut symbols, 0, "y"), Resolution::NotFound);
}

#[test]
fn conflicting_stars_are_ambiguous() {
    // a: export const x = 1;  b: export const x = 2;
    // c: export * from './a'; export * from './b';
    let modules = graph(vec![
        Draft::new(0).export_const("x").build(),
        Draft::new(1).export_const("x").build(),
        Draft::new(2).export_star(0).export_star(1).build(),
    ]);
    let mut symbols = registry(3);
    assert_eq!(resolve(&modules, &mut symbols, 2, "x"), Resolution::Ambiguous);
}

#[test]
fn agreeing_stars_are_found() {
    // a: export * from './b';  b: export const x = 1;
    // c: export * from './a'; export * from './b';
    let modules = graph(vec![
        Draft::new(0).export_star(1).build(),
        Draft::new(1).export_const("x").build(),
        Draft::new(2).export_star(0).export_star(1).build(),
    ]);
    let mut symbols = registry(3);
    assert_eq!(resolve(&modules, &mut symbols, 2, "x"), Resolution::Found(symbol(1, 1)));
}

#[test]
fn ambiguity_propagates_through_a_star() {
    let modules = graph(vec![
        Draft::new(0).export_const("x").build(),
        Draft::new(1).export_const("x").build(),
        Draft::new(2).export_star(0).export_star(1).build(),
        Draft::new(3).export_star(2).build(),
    ]);
    let mut symbols = registry(4);
    assert_eq!(resolve(&modules, &mut symbols, 3, "x"), Resolution::Ambiguous);
}

#[test]
fn own_export_shadows_the_stars() {
    let modules = graph(vec![
        Draft::new(0).export_const("x").build(),
        Draft::new(1).export_const("x").build(),
        Draft::new(2).export_const("x").export_star(0).export_star(1).build(),
    ]);
    let mut symbols = registry(3);
    assert_eq!(resolve(&modules, &mut symbols, 2, "x"), Resolution::Found(symbol(2, 1)));
}

#[test]
fn missing_name_is_not_found() {
    let modules = graph(vec![
        Draft::new(0).export_const("x").build(),
        Draft::new(1).export_star(0).build(),
    ]);
    let mut symbols = registry(2);
    assert_eq!(resolve(&modules, &mut symbols, 0, "y"), Resolution::NotFound);
    assert_eq!(resolve(&modules, &mut symbols, 1, "y"), Resolution::NotFound);
}

#[test]
fn default_is_not_forwarded_by_a_star() {
    // a: export default 1; export const x = 1;   b: export * from './a';
    let modules = graph(vec![
        Draft::new(0).export_const("default").export_const("x").build(),
        Draft::new(1).export_star(0).build(),
    ]);
    assert_eq!(exported(&modules, 0), vec!["default".to_string(), "x".to_string()]);
    assert_eq!(exported(&modules, 1), vec!["x".to_string()]);
    let mut symbols = registry(2);
    assert_eq!(resolve(&modules, &mut symbols, 0, "default"), Resolution::Found(symbol(0, 1)));
    assert_eq!(resolve(&modules, &mut symbols, 1, "default"), Resolution::NotFound);
    assert_eq!(resolve(&modules, &mut symbols, 1, "x"), Resolution::Found(symbol(0, 2)));
}

#[test]
fn external_default_is_not_forwarded_by_a_star() {
    let modules = graph(vec![
        Draft::new(0).export_star(1).export_const("own").build(),
        external(1, &["default", "ext"]),
    ]);
    assert_eq!(exported(&modules, 0), vec!["ext".to_string(), "own".to_string()]);
}

#[test]
fn exported_names_are_a_set() {
    // two star paths to the same module contribute its names once
    let modules = graph(vec![
        Draft::new(0).export_star(1).export_star(2).build(),
        Draft::new(1).export_star(2).build(),
        Draft::new(2).export_const("x").export_const("y").build(),
    ]);
    assert_eq!(exported(&modules, 0), vec!["x".to_string(), "y".to_string()]);
}

#[test]
fn exported_names_with_a_visited_module_on_the_stack() {
    let modules = graph(vec![
        Draft::new(0).export_const("a").export_star(1).build(),
        Draft::new(1).export_const("b").build(),
    ]);
    let mut stack = vec![ModuleId(1)];
    let names = normal(&modules, 0).get_exported_names(&mut stack, &modules);
    assert_eq!(stack, vec![ModuleId(1)]);
    let mut sorted: Vec<String> = names.into_iter().collect();
    sorted.sort();
    assert_eq!(sorted, vec!["a".to_string()]);

    let mut stack = vec![ModuleId(0)];
    let names = normal(&modules, 0).get_exported_names(&mut stack, &modules);
    assert_eq!(stack, vec![ModuleId(0)]);
    assert!(names.is_empty());
}

#[test]
fn circular_re_export_is_not_found() {
    // a: export { x } from './b';   b: export { x } from './a';
    let modules = graph(vec![
        Draft::new(0).re_export("x", "x", 1).build(),
        Draft::new(1).re_export("x", "x", 0).build(),
    ]);
    let mut symbols = registry(2);
    assert_eq!(resolve(&modules, &mut symbols, 0, "x"), Resolution::NotFound);
    assert_eq!(resolve(&modules, &mut symbols, 1, "x"), Resolution::NotFound);
}

#[test]
fn step_on_the_trail_is_not_found() {
    let modules = graph(vec![Draft::new(0).export_const("x").build()]);
    let mut symbols = registry(1);
    assert!(symbols.registers(&modules));
    let mut trail = vec![(ModuleId(0), "x".to_string())];
    let found =
        normal(&modules, 0).resolve_export(&"x".to_string(), &mut trail, &modules, &mut symbols);
    assert_eq!(found, Resolution::NotFound);
    assert_eq!(trail, vec![(ModuleId(0), "x".to_string())]);

    // the same module may be asked for another name
    let modules = graph(vec![Draft::new(0).export_const("x").export_const("y").build()]);
    let found =
        normal(&modules, 0).resolve_export(&"y".to_string(), &mut trail, &modules, &mut symbols);
    assert_eq!(found, Resolution::Found(symbol(0, 2)));
    assert_eq!(trail, vec![(ModuleId(0), "x".to_string())]);
}

#[test]
fn renaming_re_export_chain() {
    // a: export const x;  b: export { x as y } from './a';  c: export { y as z } from './b';
    let modules = graph(vec![
        Draft::new(0).export_const("x").build(),
        Draft::new(1).re_export("y", "x", 0).build(),
        Draft::new(2).re_export("z", "y", 1).build(),
    ]);
    let mut symbols = registry(3);
    assert_eq!(resolve(&modules, &mut symbols, 2, "z"), Resolution::Found(symbol(0, 1)));
    assert_eq!(resolve(&modules, &mut symbols, 2, "y"), Resolution::NotFound);
    // a re-export has no local binding: nothing is merged
    assert_ne!(symbols.find(symbol(0, 1)), symbols.find(symbol(1, 1)));
}

#[test]
fn forwarded_import_is_merged_with_the_declaration() {
    // a: export const x;
    // b: import { x } from './a'; export { x };
    // c: import { x as y } from './b'; export { y };
    let modules = graph(vec![
        Draft::new(0).export_const("x").build(),
        Draft::new(1).export_import("x", "x", 0).build(),
        Draft::new(2).export_import("y", "x", 1).build(),
    ]);
    let mut symbols = registry(3);
    let declaration = symbol(0, 1);
    let in_b = symbol(1, 1);
    let in_c = symbol(2, 1);
    assert_ne!(symbols.find(in_b), symbols.find(declaration));
    assert_eq!(resolve(&modules, &mut symbols, 2, "y"), Resolution::Found(declaration));
    assert_eq!(symbols.find(in_b), symbols.find(declaration));
    assert_eq!(symbols.find(in_c), symbols.find(declaration));
    // the namespace symbols stay apart
    assert_ne!(symbols.find(symbol(0, NAMESPACE)), symbols.find(declaration));
    assert_ne!(symbols.find(symbol(1, NAMESPACE)), symbols.find(symbol(2, NAMESPACE)));
}

#[test]
fn resolving_twice_gives_the_same_answer() {
    let modules = graph(vec![
        Draft::new(0).export_const("x").build(),
        Draft::new(1).export_import("x", "x", 0).build(),
        Draft::new(2).export_star(1).export_star(0).build(),
    ]);
    let mut symbols = registry(3);
    let first = resolve(&modules, &mut symbols, 2, "x");
    let classes: Vec<SymbolRef> =
        (0..3).flat_map(|m| (0..10).map(move |s| symbol(m, s))).collect();
    let before: Vec<SymbolRef> = classes.iter().map(|s| symbols.find(*s)).collect();
    let second = resolve(&modules, &mut symbols, 2, "x");
    let after: Vec<SymbolRef> = classes.iter().map(|s| symbols.find(*s)).collect();
    assert_eq!(first, Resolution::Found(symbol(0, 1)));
    assert_eq!(first, second);
    assert_eq!(before, after);
}

#[test]
fn namespace_import_resolves_to_the_namespace_symbol() {
    // a: export const x;  b: import * as ns from './a'; export { ns };
    let modules = graph(vec![
        Draft::new(0).export_const("x").build(),
        Draft::new(1).export_namespace_import("ns", 0).build(),
    ]);
    let mut symbols = registry(2);
    assert_eq!(resolve(&modules, &mut symbols, 1, "ns"), Resolution::Found(symbol(0, NAMESPACE)));
    assert_eq!(symbols.find(symbol(1, 1)), symbols.find(symbol(0, NAMESPACE)));
}

#[test]
fn namespace_re_export_resolves_to_the_namespace_symbol() {
    // a: export const x;  b: export * as ns from './a';
    let modules = graph(vec![
        Draft::new(0).export_const("x").build(),
        Draft::new(1).re_export_namespace("ns", 0).build(),
    ]);
    let mut symbols = registry(2);
    assert_eq!(resolve(&modules, &mut symbols, 1, "ns"), Resolution::Found(symbol(0, NAMESPACE)));
}

#[test]
fn external_module_answers_for_what_is_imported() {
    let modules = graph(vec![
        Draft::new(0)
            .re_export("a", "alpha", 1)
            .export_import("b", "beta", 1)
            .re_export_namespace("all", 1)
            .build(),
        external(1, &["alpha", "beta"]),
    ]);
    let mut symbols = registry(2);
    assert_eq!(resolve(&modules, &mut symbols, 0, "a"), Resolution::Found(symbol(1, 1)));
    assert_eq!(resolve(&modules, &mut symbols, 0, "b"), Resolution::Found(symbol(1, 2)));
    assert_eq!(resolve(&modules, &mut symbols, 0, "all"), Resolution::Found(symbol(1, NAMESPACE)));
    // the local binding of the forwarded import is the external binding
    assert_eq!(symbols.find(symbol(0, 1)), symbols.find(symbol(1, 2)));
    match modules.get(ModuleId(1)) {
        Module::External(module) => {
            assert!(module.has_export(&"alpha".to_string(), false));
            assert!(!module.has_export(&"gamma".to_string(), false));
            assert!(module.has_export(&"gamma".to_string(), true));
            assert_eq!(module.resolve_export(&"beta".to_string(), false), symbol(1, 2));
            assert_eq!(module.resolve_export(&"beta".to_string(), true), symbol(1, NAMESPACE));
        },
        Module::Normal(_) => panic!("module 1 is external"),
    }
}

#[test]
fn external_star_target_is_passed_over() {
    // a: export * from 'ext';  ext offers x
    let modules = graph(vec![Draft::new(0).export_star(1).build(), external(1, &["x"])]);
    let mut symbols = registry(2);
    assert_eq!(exported(&modules, 0), vec!["x".to_string()]);
    assert_eq!(resolve(&modules, &mut symbols, 0, "x"), Resolution::NotFound);
}

#[test]
fn star_exports_are_reached_once() {
    // a -> b, c;  b -> d;  c -> d, ext;  d -> a
    let modules = graph(vec![
        Draft::new(0).export_star(1).export_star(2).build(),
        Draft::new(1).export_star(3).build(),
        Draft::new(2).export_star(3).export_star(4).build(),
        Draft::new(3).export_star(0).build(),
        external(4, &[]),
        Draft::new(5).export_star(0).build(),
    ]);
    let resolved = normal(&modules, 0).resolve_star_exports(&modules);
    assert_eq!(resolved.len(), 5);
    assert_eq!(reached(&modules, 0), vec![0, 1, 2, 3, 4]);
    assert_eq!(reached(&modules, 1), vec![0, 1, 2, 3, 4]);
    assert_eq!(reached(&modules, 5), vec![0, 1, 2, 3, 4]);
}

#[test]
fn star_exports_of_a_module_without_any() {
    let modules = graph(vec![
        Draft::new(0).export_const("x").re_export("y", "y", 1).build(),
        Draft::new(1).export_const("y").build(),
    ]);
    assert_eq!(reached(&modules, 0), Vec::<usize>::new());
}

#[test]
fn star_exports_follow_the_last_declaration_first() {
    // a -> b, c: the walk takes declarations from the back
    let modules = graph(vec![
        Draft::new(0).export_star(1).export_star(2).build(),
        Draft::new(1).build(),
        Draft::new(2).build(),
    ]);
    let resolved = normal(&modules, 0).resolve_star_exports(&modules);
    assert_eq!(resolved, vec![ModuleId(2), ModuleId(1)]);
}

#[test]
fn exported_names_are_those_of_the_reached_modules() {
    // a -> b -> c -> a, a -> ext; every module has a default export
    let modules = graph(vec![
        Draft::new(0).export_const("default").export_const("a").export_star(1).export_star(3).build(),
        Draft::new(1).export_const("default").export_const("b").export_star(2).build(),
        Draft::new(2).export_const("default").export_const("c").export_star(0).build(),
        external(3, &["default", "e"]),
        Draft::new(4).export_const("unreached").build(),
    ]);
    assert_eq!(reached(&modules, 0), vec![0, 1, 2, 3]);
    assert_eq!(
        exported(&modules, 0),
        vec!["a".to_string(), "b".to_string(), "c".to_string(), "default".to_string(), "e".to_string()]
    );
    assert_eq!(reached(&modules, 1), vec![0, 1, 2, 3]);
    assert_eq!(
        exported(&modules, 1),
        vec!["a".to_string(), "b".to_string(), "c".to_string(), "default".to_string(), "e".to_string()]
    );
    assert_eq!(reached(&modules, 4), Vec::<usize>::new());
    assert_eq!(exported(&modules, 4), vec!["unreached".to_string()]);
}
