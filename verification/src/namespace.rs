//! The namespace object of a module: the synthetic binding that stands for
//! all its exports at once. Its symbol always exists; the object itself is
//! built only for a module whose namespace somebody refers to.
use crate::graph::NormalModule;
use crate::records::{SourceMutation, StmtInfo};
use vstd::prelude::*;

verus! {

/// How many of `mutations` ask for a namespace object.
pub open spec fn namespace_requests(mutations: Seq<SourceMutation>) -> nat
    decreases mutations.len(),
{
    if mutations.len() == 0 {
        0
    } else {
        namespace_requests(mutations.drop_last()) + if mutations.last() is AddNamespaceExport {
            1nat
        } else {
            0nat
        }
    }
}

/// What finalizing adds to a module's mutations: the renamings, and after
/// them the request for the namespace object if the namespace is referenced.
pub open spec fn finalized(renames: Seq<SourceMutation>, namespace_referenced: bool) -> Seq<
    SourceMutation,
> {
    if namespace_referenced {
        renames.push(SourceMutation::AddNamespaceExport)
    } else {
        renames
    }
}

/// The requests among two lists of mutations, one after the other, are
/// those of the two.
pub proof fn lemma_namespace_requests_add(first: Seq<SourceMutation>, second: Seq<SourceMutation>)
    ensures
        namespace_requests(first + second) == namespace_requests(first) + namespace_requests(second),
    decreases second.len(),
{
    if second.len() == 0 {
        assert(first + second =~= first);
    } else {
        lemma_namespace_requests_add(first, second.drop_last());
        assert((first + second).drop_last() =~= first + second.drop_last());
    }
}

/// Finalizing asks for the namespace object exactly once if the namespace
/// is referenced, and not at all if it is not: beyond the requests that the
/// module's mutations and the renamings already held, there is one or none.
pub proof fn lemma_finalize_requests(
    before: Seq<SourceMutation>,
    renames: Seq<SourceMutation>,
    namespace_referenced: bool,
)
    ensures
        namespace_requests(before + finalized(renames, namespace_referenced)) == namespace_requests(
            before,
        ) + namespace_requests(renames) + if namespace_referenced {
            1nat
        } else {
            0nat
        },
{
    lemma_namespace_requests_add(before, finalized(renames, namespace_referenced));
    if namespace_referenced {
        assert(finalized(renames, namespace_referenced).drop_last() =~= renames);
    }
}

impl NormalModule {
    /// Declares the namespace symbol in a statement record of its own, placed
    /// after the `body_len` statements of the module's body.
    pub fn initialize_namespace(&mut self, body_len: usize)
        ensures
            final(self).stmt_infos@.len() == old(self).stmt_infos@.len() + 1,
            final(self).stmt_infos@.drop_last() == old(self).stmt_infos@,
            final(self).stmt_infos@.last().stmt_idx == body_len,
            final(self).stmt_infos@.last().declared_symbols@ == seq![
                old(self).namespace_symbol.0.symbol,
            ],
            *final(self) == (NormalModule { stmt_infos: final(self).stmt_infos, ..*old(self) }),
    {
        let mut declared_symbols = Vec::new();
        declared_symbols.push(self.namespace_symbol.0.symbol);
        let info = StmtInfo { stmt_idx: body_len, declared_symbols };
        self.stmt_infos.push(info);
        assert(self.stmt_infos@.drop_last() =~= old(self).stmt_infos@);
    }

    /// Records the mutations `renames`, by which the canonical names were
    /// applied to the module's source, and after them, if the module's
    /// namespace is referenced, the request to build the namespace object.
    pub fn finalize(&mut self, renames: Vec<SourceMutation>)
        ensures
            final(self).source_mutations@ == old(self).source_mutations@ + finalized(
                renames@,
                old(self).is_symbol_for_namespace_referenced,
            ),
            *final(self) == (NormalModule {
                source_mutations: final(self).source_mutations,
                ..*old(self)
            }),
    {
        let ghost added = renames@;
        let mut renames = renames;
        self.source_mutations.append(&mut renames);
        if self.is_symbol_for_namespace_referenced {
            self.source_mutations.push(SourceMutation::AddNamespaceExport);
        }
        assert(self.source_mutations@ =~= old(self).source_mutations@ + finalized(
            added,
            old(self).is_symbol_for_namespace_referenced,
        ));
    }
}

} // verus!
