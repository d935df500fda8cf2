//! Tests of what linking asks of its input: that a graph is ready for
//! linking, and that a registry holds the bindings of a graph.
use crate::graph::{
    answers, consistent, declares, known, linkable, registered, ExternalModule, Module,
    NormalModule,
};
use crate::ids::{ImportRecordId, ModuleId, SymbolId, SymbolRef};
use crate::records::{LocalExport, LocalOrReExport};
use crate::symbols::Symbols;
use crate::tables::{
    external_symbol_names, external_symbol_of, named_export_names, named_export_of,
    named_import_of, named_import_symbols, texts, ModuleVec,
};
use vstd::prelude::*;
use vstd::seq_lib::seq_to_set_is_finite;

verus! {

/// Whether the graph answers for the binding `imported` of its module `target`.
fn can_answer(modules: &ModuleVec, target: ModuleId, imported: &String, is_star: bool) -> (b: bool)
    requires
        target.0 < modules@.len(),
    ensures
        b == answers(modules@, target, imported@, is_star),
{
    match modules.get(target) {
        Module::Normal(_) => true,
        Module::External(external) => external.has_export(imported, is_star),
    }
}

/// Whether the record `record` of `module` exists and what is imported
/// through it is answered for.
fn reference_holds(
    module: &NormalModule,
    modules: &ModuleVec,
    record: ImportRecordId,
    imported: &String,
    is_star: bool,
) -> (b: bool)
    requires
        forall|r: int|
            0 <= r < module.records().len() ==> (#[trigger] module.records()[r]).resolved_module.0
                < modules@.len(),
    ensures
        b == (record.0 < module.records().len() && answers(
            modules@,
            module.target(record),
            imported@,
            is_star,
        )),
{
    if record.0 < module.import_records.len() {
        let target = module.import_records.get(record).resolved_module;
        assert(target == module.records()[record.0 as int].resolved_module);
        can_answer(modules, target, imported, is_star)
    } else {
        false
    }
}

impl NormalModule {
    /// Whether the module's tables are consistent with each other and with
    /// the graph `modules`.
    pub fn is_consistent(&self, modules: &ModuleVec) -> (b: bool)
        ensures
            b == consistent(*self, modules@),
    {
        let symbols = named_import_symbols(&self.named_imports);
        let names = named_export_names(&self.named_exports);
        proof {
            seq_to_set_is_finite(symbols@);
            seq_to_set_is_finite(texts(names@));
        }
        let count = modules.len();
        let mut r: usize = 0;
        while r < self.import_records.len()
            invariant
                r <= self.records().len(),
                count == modules@.len(),
                forall|k: int|
                    0 <= k < r ==> (#[trigger] self.records()[k]).resolved_module.0 < count,
            decreases self.records().len() - r,
        {
            if self.import_records.get(ImportRecordId(r)).resolved_module.0 >= count {
                return false;
            }
            r = r + 1;
        }
        let mut i: usize = 0;
        while i < self.star_exports.len()
            invariant
                i <= self.star_exports@.len(),
                forall|k: int|
                    0 <= k < i ==> (#[trigger] self.star_exports@[k]).0 < self.records().len(),
            decreases self.star_exports@.len() - i,
        {
            if self.star_exports[i].0 >= self.import_records.len() {
                return false;
            }
            i = i + 1;
        }
        let mut s: usize = 0;
        while s < symbols.len()
            invariant
                s <= symbols@.len(),
                symbols@.to_set() == self.imports().dom(),
                forall|k: int|
                    0 <= k < self.records().len() ==> (#[trigger] self.records()[k]).resolved_module.0
                        < modules@.len(),
                forall|k: int|
                    0 <= k < s ==> {
                        let import = self.imports()[#[trigger] symbols@[k]];
                        &&& import.record_id.0 < self.records().len()
                        &&& answers(
                            modules@,
                            self.target(import.record_id),
                            import.imported@,
                            import.is_imported_star,
                        )
                    },
            decreases symbols@.len() - s,
        {
            assert(symbols@.to_set().contains(symbols@[s as int]));
            match named_import_of(&self.named_imports, symbols[s]) {
                Some(import) => {
                    if !reference_holds(
                        self,
                        modules,
                        import.record_id,
                        &import.imported,
                        import.is_imported_star,
                    ) {
                        assert(self.imports().contains_key(symbols@[s as int]));
                        return false;
                    }
                },
                None => {},
            }
            s = s + 1;
        }
        let mut n: usize = 0;
        while n < names.len()
            invariant
                n <= names@.len(),
                texts(names@).to_set() == self.exports().dom(),
                forall|k: int|
                    0 <= k < self.records().len() ==> (#[trigger] self.records()[k]).resolved_module.0
                        < modules@.len(),
                forall|k: int|
                    0 <= k < n ==> (self.exports()[#[trigger] texts(names@)[k]] matches LocalOrReExport::Re(
                        re,
                    ) ==> {
                        &&& re.record_id.0 < self.records().len()
                        &&& answers(
                            modules@,
                            self.target(re.record_id),
                            re.imported@,
                            re.is_imported_star,
                        )
                    }),
            decreases names@.len() - n,
        {
            assert(texts(names@)[n as int] == names@[n as int]@);
            assert(texts(names@).to_set().contains(texts(names@)[n as int]));
            match named_export_of(&self.named_exports, &names[n]) {
                Some(LocalOrReExport::Re(re)) => {
                    if !reference_holds(
                        self,
                        modules,
                        re.record_id,
                        &re.imported,
                        re.is_imported_star,
                    ) {
                        assert(self.exports().contains_key(names@[n as int]@));
                        return false;
                    }
                },
                _ => {},
            }
            n = n + 1;
        }
        proof {
            assert forall|symbol: SymbolId| #[trigger]
                self.imports().contains_key(symbol) implies {
                let import = self.imports()[symbol];
                &&& import.record_id.0 < self.records().len()
                &&& answers(
                    modules@,
                    self.target(import.record_id),
                    import.imported@,
                    import.is_imported_star,
                )
            } by {
                assert(symbols@.to_set().contains(symbol));
                let k = choose|k: int| 0 <= k < symbols@.len() && symbols@[k] == symbol;
                assert(symbols@[k] == symbol);
            }
            assert forall|name: Seq<char>| #[trigger]
                self.exports().contains_key(name) implies (self.exports()[name] matches LocalOrReExport::Re(
                re,
            ) ==> {
                &&& re.record_id.0 < self.records().len()
                &&& answers(
                    modules@,
                    self.target(re.record_id),
                    re.imported@,
                    re.is_imported_star,
                )
            }) by {
                assert(texts(names@).to_set().contains(name));
                let k = choose|k: int| 0 <= k < texts(names@).len() && texts(names@)[k] == name;
                assert(texts(names@)[k] == name);
            }
        }
        true
    }

    /// Whether the registry holds the bindings that the module declares
    /// towards others.
    fn is_held_by(&self, symbols: &Symbols) -> (b: bool)
        ensures
            b == forall|symbol: SymbolRef|
                declares(Module::Normal(*self), symbol) ==> symbols.contains(symbol),
    {
        if !symbols.is_registered(self.namespace_symbol.0) {
            assert(declares(Module::Normal(*self), self.namespace_symbol.0));
            return false;
        }
        let names = named_export_names(&self.named_exports);
        let mut n: usize = 0;
        while n < names.len()
            invariant
                n <= names@.len(),
                texts(names@).to_set() == self.exports().dom(),
                forall|k: int|
                    0 <= k < n ==> (self.exports()[#[trigger] texts(names@)[k]] matches LocalOrReExport::Local(
                        local,
                    ) ==> symbols.contains(local.referenced)),
            decreases names@.len() - n,
        {
            assert(texts(names@)[n as int] == names@[n as int]@);
            assert(texts(names@).to_set().contains(texts(names@)[n as int]));
            match named_export_of(&self.named_exports, &names[n]) {
                Some(LocalOrReExport::Local(local)) => {
                    if !symbols.is_registered(local.referenced) {
                        assert(self.exports().contains_key(names@[n as int]@));
                        assert(self.exports()[names@[n as int]@] == LocalOrReExport::Local(
                            LocalExport { referenced: local.referenced },
                        ));
                        assert(declares(Module::Normal(*self), local.referenced));
                        return false;
                    }
                },
                _ => {},
            }
            n = n + 1;
        }
        proof {
            assert forall|symbol: SymbolRef|
                declares(Module::Normal(*self), symbol) implies symbols.contains(symbol) by {
                if symbol != self.namespace_symbol.0 {
                    let name = choose|name: Seq<char>|
                        #![trigger self.exports()[name]]
                        self.exports().contains_key(name) && self.exports()[name]
                            == LocalOrReExport::Local(
                            LocalExport { referenced: symbol },
                        );
                    assert(texts(names@).to_set().contains(name));
                    let k = choose|k: int| 0 <= k < texts(names@).len() && texts(names@)[k] == name;
                    assert(texts(names@)[k] == name);
                }
            }
        }
        true
    }
}

impl ExternalModule {
    /// Whether the registry holds the bindings that the module declares
    /// towards others.
    fn is_held_by(&self, symbols: &Symbols) -> (b: bool)
        ensures
            b == forall|symbol: SymbolRef|
                declares(Module::External(*self), symbol) ==> symbols.contains(symbol),
    {
        if !symbols.is_registered(self.namespace_symbol) {
            assert(declares(Module::External(*self), self.namespace_symbol));
            return false;
        }
        let names = external_symbol_names(&self.symbols_imported_by_others);
        let mut n: usize = 0;
        while n < names.len()
            invariant
                n <= names@.len(),
                texts(names@).to_set() == self.symbols().dom(),
                forall|k: int|
                    0 <= k < n ==> symbols.contains(self.symbols()[#[trigger] texts(names@)[k]]),
            decreases names@.len() - n,
        {
            assert(texts(names@)[n as int] == names@[n as int]@);
            assert(texts(names@).to_set().contains(texts(names@)[n as int]));
            match external_symbol_of(&self.symbols_imported_by_others, &names[n]) {
                Some(symbol) => {
                    if !symbols.is_registered(symbol) {
                        assert(self.symbols().contains_key(names@[n as int]@));
                        assert(declares(Module::External(*self), symbol));
                        return false;
                    }
                },
                None => {},
            }
            n = n + 1;
        }
        proof {
            assert forall|symbol: SymbolRef|
                declares(Module::External(*self), symbol) implies symbols.contains(symbol) by {
                if symbol != self.namespace_symbol {
                    let name = choose|name: Seq<char>|
                        #![trigger self.symbols()[name]]
                        self.symbols().contains_key(name) && self.symbols()[name] == symbol;
                    assert(texts(names@).to_set().contains(name));
                    let k = choose|k: int| 0 <= k < texts(names@).len() && texts(names@)[k] == name;
                    assert(texts(names@)[k] == name);
                }
            }
        }
        true
    }
}

impl ModuleVec {
    /// Whether the graph is ready for linking.
    pub fn is_linkable(&self) -> (b: bool)
        ensures
            b == linkable(self@),
    {
        let mut i: usize = 0;
        while i < self.len()
            invariant
                i <= self@.len(),
                forall|k: int|
                    0 <= k < i ==> (#[trigger] self@[k] matches Module::Normal(module) ==> {
                        &&& module.id.0 == k
                        &&& consistent(module, self@)
                    }),
            decreases self@.len() - i,
        {
            match self.get(ModuleId(i)) {
                Module::Normal(module) => {
                    if module.id.0 != i || !module.is_consistent(self) {
                        return false;
                    }
                },
                Module::External(_) => {},
            }
            i = i + 1;
        }
        true
    }
}

impl Symbols {
    /// Whether the registry holds every binding that a module of `modules`
    /// declares towards others.
    pub fn registers(&self, modules: &ModuleVec) -> (b: bool)
        ensures
            b == registered(modules@, *self),
    {
        let mut i: usize = 0;
        while i < modules.len()
            invariant
                i <= modules@.len(),
                forall|k: int, symbol: SymbolRef|
                    0 <= k < i && declares(#[trigger] modules@[k], symbol) ==> #[trigger] self.contains(
                        symbol,
                    ),
            decreases modules@.len() - i,
        {
            let held = match modules.get(ModuleId(i)) {
                Module::Normal(module) => module.is_held_by(self),
                Module::External(module) => module.is_held_by(self),
            };
            if !held {
                proof {
                    let symbol = choose|symbol: SymbolRef|
                        declares(modules@[i as int], symbol) && !self.contains(symbol);
                    assert(known(modules@, symbol));
                }
                return false;
            }
            i = i + 1;
        }
        true
    }
}

} // verus!
