//! The containers that hold a module's tables, and what is assumed of them.
//!
//! Lists addressed by a typed id are `index_vec::IndexVec`; hash tables are
//! `rustc_hash::FxHashMap` and `FxHashSet`, which are the hash tables of the
//! standard library with the `Fx` hasher. None of their code is verified
//! here. The contents of each container get a name, and each operation that
//! the linker performs on one is a small function with the call as its body
//! and a contract that says, over these names, what the call does. These
//! contracts are assumed, not proved.
//!
//! A hash table keyed by names is modelled by the texts of its keys: two
//! `String`s with the same text are one key.
use crate::graph::Module;
use crate::ids::{ImportRecordId, ModuleId, StmtInfoId, SymbolId, SymbolRef};
use crate::records::{ImportRecord, LocalOrReExport, NamedImport, StmtInfo};
use core::hash::BuildHasherDefault;
use index_vec::IndexVec;
use rustc_hash::{FxHashMap, FxHashSet, FxHasher};
use vstd::prelude::*;

verus! {

/// `rustc_hash::FxHasher`, the hasher of the hash tables. Nothing is said of it.
#[verifier::external_type_specification]
#[verifier::external_body]
pub struct ExFxHasher(FxHasher);

/// `core::hash::BuildHasherDefault`, which makes the hasher of a hash table
/// by `Default`. Nothing is said of it.
#[verifier::external_type_specification]
#[verifier::external_body]
#[verifier::reject_recursive_types(H)]
pub struct ExBuildHasherDefault<H>(BuildHasherDefault<H>);

/// The import records of one module, addressed by [`ImportRecordId`]: an
/// `IndexVec`, of which the verifier sees no more than [`import_records_of`].
#[verifier::external_body]
#[derive(Debug)]
pub struct ImportRecords {
    inner: IndexVec<ImportRecordId, ImportRecord>,
}

/// The records of `v`, in the order of their ids.
pub uninterp spec fn import_records_of(v: ImportRecords) -> Seq<ImportRecord>;

/// `IndexVec::from_vec`: the list holds the elements of `records` in their
/// order. (It asks the id type whether the length fits; an id here holds a
/// `usize`, so it does.)
#[verifier::external_body]
fn import_records_from_vec(records: Vec<ImportRecord>) -> (v: ImportRecords)
    ensures
        import_records_of(v) == records@,
{
    ImportRecords { inner: IndexVec::from_vec(records) }
}

/// Indexing an `IndexVec` by an id: the element at the id's position. The
/// position has to exist.
#[verifier::external_body]
fn import_record_at(v: &ImportRecords, id: ImportRecordId) -> (r: &ImportRecord)
    requires
        id.0 < import_records_of(*v).len(),
    ensures
        *r == import_records_of(*v)[id.0 as int],
{
    &v.inner[id]
}

/// `IndexVec::len` (through its slice): the number of elements.
#[verifier::external_body]
fn import_records_len(v: &ImportRecords) -> (n: usize)
    ensures
        n == import_records_of(*v).len(),
{
    v.inner.len()
}

impl View for ImportRecords {
    type V = Seq<ImportRecord>;

    open spec fn view(&self) -> Seq<ImportRecord> {
        import_records_of(*self)
    }
}

impl ImportRecords {
    /// The list of `records`, in their order.
    pub fn from_vec(records: Vec<ImportRecord>) -> (v: ImportRecords)
        ensures
            v@ == records@,
    {
        import_records_from_vec(records)
    }

    /// The number of records.
    pub fn len(&self) -> (n: usize)
        ensures
            n == self@.len(),
    {
        import_records_len(self)
    }

    /// The record with the id `id`.
    pub fn get(&self, id: ImportRecordId) -> (r: &ImportRecord)
        requires
            id.0 < self@.len(),
        ensures
            *r == self@[id.0 as int],
    {
        import_record_at(self, id)
    }
}

/// The named imports of one module, keyed by the local symbol.
pub type NamedImports = FxHashMap<SymbolId, NamedImport>;

/// The entries of `t`.
pub uninterp spec fn named_imports_of(t: NamedImports) -> Map<SymbolId, NamedImport>;

/// `HashMap::get`: the entry under `symbol` if there is one, else `None`.
#[verifier::external_body]
pub(crate) fn named_import_of<'a>(t: &'a NamedImports, symbol: SymbolId) -> (r: Option<&'a NamedImport>)
    ensures
        match r {
            Some(entry) => named_imports_of(*t).contains_key(symbol) && *entry == named_imports_of(
                *t,
            )[symbol],
            None => !named_imports_of(*t).contains_key(symbol),
        },
{
    t.get(&symbol)
}

/// `HashMap::keys`, collected into a list: the keys, each once, in no
/// particular order.
#[verifier::external_body]
pub(crate) fn named_import_symbols(t: &NamedImports) -> (symbols: Vec<SymbolId>)
    ensures
        symbols@.to_set() == named_imports_of(*t).dom(),
        symbols@.no_duplicates(),
{
    t.keys().copied().collect()
}

/// A set of module ids.
pub type ModuleIdSet = FxHashSet<ModuleId>;

/// The members of `s`.
pub uninterp spec fn module_ids_of(s: ModuleIdSet) -> Set<ModuleId>;

/// `HashSet::default`: the empty set.
#[verifier::external_body]
pub(crate) fn module_id_set_new() -> (s: ModuleIdSet)
    ensures
        module_ids_of(s) == Set::<ModuleId>::empty(),
{
    FxHashSet::default()
}

/// `HashSet::contains`: whether `id` is a member.
#[verifier::external_body]
pub(crate) fn module_id_set_contains(s: &ModuleIdSet, id: ModuleId) -> (b: bool)
    ensures
        b == module_ids_of(*s).contains(id),
{
    s.contains(&id)
}

/// `HashSet::insert`: `id` becomes a member, and the result tells whether it
/// was none before.
#[verifier::external_body]
pub(crate) fn module_id_set_insert(s: &mut ModuleIdSet, id: ModuleId) -> (fresh: bool)
    ensures
        module_ids_of(*final(s)) == module_ids_of(*old(s)).insert(id),
        fresh == !module_ids_of(*old(s)).contains(id),
{
    s.insert(id)
}

/// The statement records of one module, addressed by [`StmtInfoId`]: an
/// `IndexVec`, of which the verifier sees no more than [`stmt_infos_of`].
#[verifier::external_body]
#[derive(Debug)]
pub struct StmtInfos {
    inner: IndexVec<StmtInfoId, StmtInfo>,
}

/// The records of `v`, in the order of their ids.
pub uninterp spec fn stmt_infos_of(v: StmtInfos) -> Seq<StmtInfo>;

/// `IndexVec::from_vec`: the list holds the elements of `infos` in their order.
#[verifier::external_body]
fn stmt_infos_from_vec(infos: Vec<StmtInfo>) -> (v: StmtInfos)
    ensures
        stmt_infos_of(v) == infos@,
{
    StmtInfos { inner: IndexVec::from_vec(infos) }
}

/// Indexing an `IndexVec` by an id: the element at the id's position. The
/// position has to exist.
#[verifier::external_body]
fn stmt_info_at(v: &StmtInfos, id: StmtInfoId) -> (r: &StmtInfo)
    requires
        id.0 < stmt_infos_of(*v).len(),
    ensures
        *r == stmt_infos_of(*v)[id.0 as int],
{
    &v.inner[id]
}

/// `IndexVec::len` (through its slice): the number of elements.
#[verifier::external_body]
fn stmt_infos_len(v: &StmtInfos) -> (n: usize)
    ensures
        n == stmt_infos_of(*v).len(),
{
    v.inner.len()
}

/// `IndexVec::push`: `info` is appended, and the result is its id.
#[verifier::external_body]
fn stmt_infos_push(v: &mut StmtInfos, info: StmtInfo) -> (id: StmtInfoId)
    ensures
        stmt_infos_of(*final(v)) == stmt_infos_of(*old(v)).push(info),
        id.0 == stmt_infos_of(*old(v)).len(),
{
    v.inner.push(info)
}

impl View for StmtInfos {
    type V = Seq<StmtInfo>;

    open spec fn view(&self) -> Seq<StmtInfo> {
        stmt_infos_of(*self)
    }
}

impl StmtInfos {
    /// The list of `infos`, in their order.
    pub fn from_vec(infos: Vec<StmtInfo>) -> (v: StmtInfos)
        ensures
            v@ == infos@,
    {
        stmt_infos_from_vec(infos)
    }

    /// The number of records.
    pub fn len(&self) -> (n: usize)
        ensures
            n == self@.len(),
    {
        stmt_infos_len(self)
    }

    /// The record with the id `id`.
    pub fn get(&self, id: StmtInfoId) -> (r: &StmtInfo)
        requires
            id.0 < self@.len(),
        ensures
            *r == self@[id.0 as int],
    {
        stmt_info_at(self, id)
    }

    /// Appends `info` and gives its id.
    pub fn push(&mut self, info: StmtInfo) -> (id: StmtInfoId)
        ensures
            final(self)@ == old(self)@.push(info),
            id.0 == old(self)@.len(),
    {
        stmt_infos_push(self, info)
    }
}

/// The modules of a graph, addressed by [`ModuleId`]: an `IndexVec`, of
/// which the verifier sees no more than [`modules_of`].
#[verifier::external_body]
#[derive(Debug)]
pub struct ModuleVec {
    inner: IndexVec<ModuleId, Module>,
}

/// The modules of `v`, in the order of their ids.
pub uninterp spec fn modules_of(v: ModuleVec) -> Seq<Module>;

/// `IndexVec::from_vec`: the list holds the elements of `modules` in their order.
#[verifier::external_body]
fn modules_from_vec(modules: Vec<Module>) -> (v: ModuleVec)
    ensures
        modules_of(v) == modules@,
{
    ModuleVec { inner: IndexVec::from_vec(modules) }
}

/// Indexing an `IndexVec` by an id: the element at the id's position. The
/// position has to exist.
#[verifier::external_body]
fn module_at(v: &ModuleVec, id: ModuleId) -> (r: &Module)
    requires
        id.0 < modules_of(*v).len(),
    ensures
        *r == modules_of(*v)[id.0 as int],
{
    &v.inner[id]
}

/// `IndexVec::len` (through its slice): the number of elements.
#[verifier::external_body]
fn modules_len(v: &ModuleVec) -> (n: usize)
    ensures
        n == modules_of(*v).len(),
{
    v.inner.len()
}

impl View for ModuleVec {
    type V = Seq<Module>;

    open spec fn view(&self) -> Seq<Module> {
        modules_of(*self)
    }
}

impl ModuleVec {
    /// The graph of `modules`, in their order.
    pub fn from_vec(modules: Vec<Module>) -> (v: ModuleVec)
        ensures
            v@ == modules@,
    {
        modules_from_vec(modules)
    }

    /// The number of modules.
    pub fn len(&self) -> (n: usize)
        ensures
            n == self@.len(),
    {
        modules_len(self)
    }

    /// The module with the id `id`.
    pub fn get(&self, id: ModuleId) -> (r: &Module)
        requires
            id.0 < self@.len(),
        ensures
            *r == self@[id.0 as int],
    {
        module_at(self, id)
    }
}

/// The texts of a list of names.
pub open spec fn texts(names: Seq<String>) -> Seq<Seq<char>> {
    names.map_values(|name: String| name@)
}

/// The named exports of one module, keyed by the exported name.
pub type NamedExports = FxHashMap<String, LocalOrReExport>;

/// The entries of `t`, keyed by the text of the name.
pub uninterp spec fn named_exports_of(t: NamedExports) -> Map<Seq<char>, LocalOrReExport>;

/// `HashMap::get`: the entry under `name` if there is one, else `None`.
#[verifier::external_body]
pub(crate) fn named_export_of<'a>(t: &'a NamedExports, name: &String) -> (r: Option<
    &'a LocalOrReExport,
>)
    ensures
        match r {
            Some(entry) => named_exports_of(*t).contains_key(name@) && *entry == named_exports_of(
                *t,
            )[name@],
            None => !named_exports_of(*t).contains_key(name@),
        },
{
    t.get(name)
}

/// `HashMap::keys`, collected into a list: the keys, each once, in no
/// particular order.
#[verifier::external_body]
pub(crate) fn named_export_names(t: &NamedExports) -> (names: Vec<String>)
    ensures
        texts(names@).to_set() == named_exports_of(*t).dom(),
        texts(names@).no_duplicates(),
{
    t.keys().cloned().collect()
}

/// The symbols that other modules import from an external module, keyed by
/// the imported name.
pub type ExternalSymbols = FxHashMap<String, SymbolRef>;

/// The entries of `t`, keyed by the text of the name.
pub uninterp spec fn external_symbols_of(t: ExternalSymbols) -> Map<Seq<char>, SymbolRef>;

/// `HashMap::get`: the entry under `name` if there is one, else `None`.
#[verifier::external_body]
pub(crate) fn external_symbol_of(t: &ExternalSymbols, name: &String) -> (r: Option<SymbolRef>)
    ensures
        match r {
            Some(symbol) => external_symbols_of(*t).contains_key(name@) && symbol
                == external_symbols_of(*t)[name@],
            None => !external_symbols_of(*t).contains_key(name@),
        },
{
    t.get(name).copied()
}

/// `HashMap::keys`, collected into a list: the keys, each once, in no
/// particular order.
#[verifier::external_body]
pub(crate) fn external_symbol_names(t: &ExternalSymbols) -> (names: Vec<String>)
    ensures
        texts(names@).to_set() == external_symbols_of(*t).dom(),
        texts(names@).no_duplicates(),
{
    t.keys().cloned().collect()
}

/// A set of names.
pub type NameSet = FxHashSet<String>;

/// The texts of the members of `s`.
pub uninterp spec fn names_of(s: NameSet) -> Set<Seq<char>>;

/// `HashSet::default`: the empty set.
#[verifier::external_body]
pub(crate) fn name_set_new() -> (s: NameSet)
    ensures
        names_of(s) == Set::<Seq<char>>::empty(),
{
    FxHashSet::default()
}

/// `HashSet::insert`: `name` becomes a member.
#[verifier::external_body]
pub(crate) fn name_set_insert(s: &mut NameSet, name: String)
    ensures
        names_of(*final(s)) == names_of(*old(s)).insert(name@),
{
    s.insert(name);
}

/// `HashSet::iter`, cloned into a list: the members, each once, in no
/// particular order.
#[verifier::external_body]
pub(crate) fn name_set_items(s: &NameSet) -> (names: Vec<String>)
    ensures
        texts(names@).to_set() == names_of(*s),
        texts(names@).no_duplicates(),
{
    s.iter().cloned().collect()
}

} // verus!
