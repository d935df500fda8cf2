//! Identities of modules, symbols, import records and statements.
use vstd::prelude::*;

verus! {

/// Identity of a module: its position in the module graph.
#[derive(Clone, Copy, Debug, PartialEq, Eq, PartialOrd, Ord, Hash, Structural)]
pub struct ModuleId(pub usize);

/// Identity of an import record: its position among the records of its module.
#[derive(Clone, Copy, Debug, PartialEq, Eq, PartialOrd, Ord, Hash, Structural)]
pub struct ImportRecordId(pub usize);

/// Identity of a statement record: its position among those of its module.
#[derive(Clone, Copy, Debug, PartialEq, Eq, PartialOrd, Ord, Hash, Structural)]
pub struct StmtInfoId(pub usize);

/// Identity of a symbol inside the module that declares it.
#[derive(Clone, Copy, Debug, PartialEq, Eq, PartialOrd, Ord, Hash, Structural)]
pub struct SymbolId(pub usize);

/// Identity of one use of a symbol inside a module.
#[derive(Clone, Copy, Debug, PartialEq, Eq, PartialOrd, Ord, Hash, Structural)]
pub struct ReferenceId(pub usize);

/// Identity of one binding: a symbol together with the module that owns it.
#[derive(Clone, Copy, Debug, PartialEq, Eq, PartialOrd, Ord, Hash, Structural)]
pub struct SymbolRef {
    pub owner: ModuleId,
    pub symbol: SymbolId,
}

/// A module id addresses an `IndexVec` by the position that it holds.
impl index_vec::Idx for ModuleId {
    fn from_usize(idx: usize) -> (id: Self)
        ensures
            id.0 == idx,
    {
        ModuleId(idx)
    }

    fn index(self) -> (idx: usize)
        ensures
            idx == self.0,
    {
        self.0
    }
}

/// An import record id addresses an `IndexVec` by the position that it holds.
impl index_vec::Idx for ImportRecordId {
    fn from_usize(idx: usize) -> (id: Self)
        ensures
            id.0 == idx,
    {
        ImportRecordId(idx)
    }

    fn index(self) -> (idx: usize)
        ensures
            idx == self.0,
    {
        self.0
    }
}

/// A statement id addresses an `IndexVec` by the position that it holds.
impl index_vec::Idx for StmtInfoId {
    fn from_usize(idx: usize) -> (id: Self)
        ensures
            id.0 == idx,
    {
        StmtInfoId(idx)
    }

    fn index(self) -> (idx: usize)
        ensures
            idx == self.0,
    {
        self.0
    }
}

impl SymbolRef {
    /// The binding `symbol` of module `owner`.
    pub fn new(owner: ModuleId, symbol: SymbolId) -> (r: SymbolRef)
        ensures
            r.owner == owner,
            r.symbol == symbol,
    {
        SymbolRef { owner, symbol }
    }
}

} // verus!
