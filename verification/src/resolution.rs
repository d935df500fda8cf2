//! What it means to resolve an exported name.
//!
//! Resolution follows the tables of the graph: a local export of a declared
//! symbol ends it, a forwarded import or a re-export moves to another module
//! and name, and a name that a module's own table lacks is looked for behind
//! each of its `export *` declarations. The pairs of module and name that are
//! being resolved form a trail; a pair that comes up again while it is on the
//! trail is a circular re-export and resolves to nothing.
use crate::graph::{consistent, default_name, linkable, Module, NormalModule};
use crate::ids::{ModuleId, SymbolId, SymbolRef};
use crate::records::{LocalOrReExport, Resolution};
use crate::symbols::Symbols;
use vstd::prelude::*;
use vstd::set_lib::{lemma_len_subset, lemma_set_subset_finite};

verus! {

/// A step of an active resolution: the module asked, and the name asked for.
pub type Step = (ModuleId, Seq<char>);

/// Two bindings that a resolution proved to be one.
pub type Merge = (SymbolRef, SymbolRef);

/// What a resolution yields: the outcome for the name, and the merges that
/// it makes in the registry on its way, in the order in which it makes them.
pub struct Outcome {
    pub resolution: Resolution,
    pub merges: Seq<Merge>,
}

/// The outcome `resolution` of a resolution that merges nothing.
pub open spec fn plain(resolution: Resolution) -> Outcome {
    Outcome { resolution, merges: Seq::empty() }
}

/// The names that the first `k` modules of `graph` mention as names of other
/// modules' bindings.
pub open spec fn names_upto(graph: Seq<Module>, k: nat) -> Set<Seq<char>>
    decreases k,
{
    if k == 0 {
        Set::empty()
    } else {
        let rest = names_upto(graph, (k - 1) as nat);
        match graph[k - 1] {
            Module::Normal(module) => rest.union(module.mentioned_names()),
            Module::External(_) => rest,
        }
    }
}

/// The names that the modules of `graph` mention as names of other modules'
/// bindings.
pub open spec fn graph_names(graph: Seq<Module>) -> Set<Seq<char>> {
    names_upto(graph, graph.len())
}

/// The steps with one of the first `n` module ids and a name of `names`.
pub open spec fn steps_upto(n: nat, names: Set<Seq<char>>) -> Set<Step>
    decreases n,
{
    if n == 0 {
        Set::empty()
    } else {
        steps_upto((n - 1) as nat, names).union(
            names.map(|name: Seq<char>| (ModuleId((n - 1) as usize), name)),
        )
    }
}

/// The steps that a resolution of `name` in `graph` can still take when those
/// of `trail` are active: a module of the graph, with `name` or a name that
/// the graph mentions.
pub open spec fn pending(graph: Seq<Module>, name: Seq<char>, trail: Seq<Step>) -> Set<Step> {
    Set::new(
        |step: Step|
            step.0.0 < graph.len() && (step.1 == name || graph_names(graph).contains(step.1))
                && !trail.contains(step),
    )
}

/// The modules of a graph mention finitely many names.
proof fn lemma_names_upto(graph: Seq<Module>, k: nat)
    requires
        linkable(graph),
        k <= graph.len(),
    ensures
        names_upto(graph, k).finite(),
    decreases k,
{
    if k > 0 {
        lemma_names_upto(graph, (k - 1) as nat);
        match graph[k - 1] {
            Module::Normal(module) => {
                assert(consistent(module, graph));
                let from_imports = |symbol| module.imports()[symbol].imported@;
                let from_exports = |name: Seq<char>|
                    match module.exports()[name] {
                        LocalOrReExport::Re(re) => re.imported@,
                        LocalOrReExport::Local(_) => name,
                    };
                module.imports().dom().lemma_map_finite(from_imports);
                module.exports().dom().lemma_map_finite(from_exports);
                assert(module.mentioned_names() == module.imports().dom().map(from_imports).union(
                    module.exports().dom().map(from_exports),
                ));
            },
            Module::External(_) => {},
        }
    }
}

/// There are finitely many steps with a module id below `n` and one of
/// finitely many names, and [`steps_upto`] holds them all.
proof fn lemma_steps_upto(n: nat, names: Set<Seq<char>>)
    requires
        names.finite(),
    ensures
        steps_upto(n, names).finite(),
        forall|step: Step|
            step.0.0 < n && names.contains(step.1) ==> #[trigger] steps_upto(n, names).contains(
                step,
            ),
    decreases n,
{
    if n > 0 {
        lemma_steps_upto((n - 1) as nat, names);
        let with_last = |name: Seq<char>| (ModuleId((n - 1) as usize), name);
        names.lemma_map_finite(with_last);
        assert forall|step: Step| step.0.0 < n && names.contains(step.1) implies #[trigger] steps_upto(
            n,
            names,
        ).contains(step) by {
            if step.0.0 == n - 1 {
                assert(with_last(step.1) == step);
                assert(names.map(with_last).contains(step));
            } else {
                assert(steps_upto((n - 1) as nat, names).contains(step));
            }
        }
    }
}

/// Only finitely many steps are pending.
pub proof fn lemma_pending_finite(graph: Seq<Module>, name: Seq<char>, trail: Seq<Step>)
    requires
        linkable(graph),
    ensures
        pending(graph, name, trail).finite(),
{
    lemma_names_upto(graph, graph.len());
    let names = graph_names(graph).insert(name);
    lemma_steps_upto(graph.len(), names);
    assert forall|step: Step| pending(graph, name, trail).contains(step) implies steps_upto(
        graph.len(),
        names,
    ).contains(step) by {
        assert(names.contains(step.1));
    }
    lemma_set_subset_finite(steps_upto(graph.len(), names), pending(graph, name, trail));
}

/// Taking a step that was not on the trail, to go on with the same name or
/// with one that the graph mentions, leaves fewer steps pending.
pub proof fn lemma_pending_push(
    graph: Seq<Module>,
    name: Seq<char>,
    next: Seq<char>,
    trail: Seq<Step>,
    module: ModuleId,
)
    requires
        linkable(graph),
        module.0 < graph.len(),
        !trail.contains((module, name)),
        next == name || graph_names(graph).contains(next),
    ensures
        pending(graph, next, trail.push((module, name))).len() < pending(graph, name, trail).len(),
{
    let step = (module, name);
    let before = pending(graph, name, trail);
    let after = pending(graph, next, trail.push(step));
    lemma_pending_finite(graph, name, trail);
    assert(trail.push(step)[trail.len() as int] == step);
    assert forall|other: Step| after.contains(other) implies before.remove(step).contains(other) by {
        if trail.contains(other) {
            let i = choose|i: int| 0 <= i < trail.len() && trail[i] == other;
            assert(trail.push(step)[i] == other);
        }
    }
    assert(before.contains(step));
    lemma_len_subset(after, before.remove(step));
}

/// What one of the first `k` modules mentions is among the names of those.
proof fn lemma_names_member(graph: Seq<Module>, k: nat, module: ModuleId, name: Seq<char>)
    requires
        module.0 < k <= graph.len(),
        graph[module.0 as int] matches Module::Normal(own) && own.mentioned_names().contains(name),
    ensures
        names_upto(graph, k).contains(name),
    decreases k,
{
    if module.0 < k - 1 {
        lemma_names_member(graph, (k - 1) as nat, module, name);
    }
}

/// A name that a table of a module of the graph mentions is a name that the
/// graph mentions.
pub proof fn lemma_mentioned(graph: Seq<Module>, module: ModuleId, name: Seq<char>)
    requires
        module.0 < graph.len(),
        graph[module.0 as int] matches Module::Normal(own) && own.mentioned_names().contains(name),
    ensures
        graph_names(graph).contains(name),
{
    lemma_names_member(graph, graph.len(), module, name);
}

/// An import of a name is a name that the importing module mentions.
pub proof fn lemma_import_mentioned(own: NormalModule, symbol: SymbolId)
    requires
        own.imports().contains_key(symbol),
    ensures
        own.mentioned_names().contains(own.imports()[symbol].imported@),
{
    let from_imports = |symbol| own.imports()[symbol].imported@;
    assert(own.imports().dom().contains(symbol));
    assert(own.imports().dom().map(from_imports).contains(from_imports(symbol)));
}

/// The name behind a re-export is a name that the re-exporting module mentions.
pub proof fn lemma_reexport_mentioned(own: NormalModule, name: Seq<char>)
    requires
        own.exports().contains_key(name),
        own.exports()[name] is Re,
    ensures
        own.mentioned_names().contains(own.exports()[name]->Re_0.imported@),
{
    let from_exports = |name: Seq<char>|
        match own.exports()[name] {
            LocalOrReExport::Re(re) => re.imported@,
            LocalOrReExport::Local(_) => name,
        };
    assert(own.exports().dom().contains(name));
    assert(own.exports().dom().map(from_exports).contains(from_exports(name)));
}

/// `outcome`, with the merge of `local` and the binding found, if one was.
pub open spec fn aliased(local: SymbolRef, outcome: Outcome) -> Outcome {
    match outcome.resolution {
        Resolution::Found(found) => Outcome {
            resolution: outcome.resolution,
            merges: outcome.merges.push((local, found)),
        },
        _ => outcome,
    }
}

/// `outcome`, after the merges `merges` were made.
pub open spec fn after(merges: Seq<Merge>, outcome: Outcome) -> Outcome {
    Outcome { resolution: outcome.resolution, merges: merges + outcome.merges }
}

/// Where a reference to the binding `imported` of the module `target` leads,
/// or one to its namespace object if `is_star`: to the namespace symbol, to
/// what the name resolves to in a normal module, to what an external module
/// answers.
pub open spec fn follow(
    graph: Seq<Module>,
    target: ModuleId,
    imported: Seq<char>,
    is_star: bool,
    trail: Seq<Step>,
) -> Outcome
    decreases pending(graph, imported, trail).len(), 1nat,
{
    match graph[target.0 as int] {
        Module::Normal(importee) => if is_star {
            plain(Resolution::Found(importee.namespace_symbol.0))
        } else {
            resolve(graph, target, imported, trail)
        },
        Module::External(importee) => plain(Resolution::Found(importee.binding(imported, is_star))),
    }
}

/// What the name `name` exported by the normal module `module` resolves to,
/// when the steps of `trail` are active.
///
/// * A step that is on the trail already is a circular re-export: nothing.
/// * A local export of a declared symbol: that symbol.
/// * A local export of an imported symbol: where the import leads; the
///   local symbol is merged with the binding found.
/// * A re-export: where it leads.
/// * No entry: nothing for `default`; else what the `export *` declarations
///   agree on.
pub open spec fn resolve(graph: Seq<Module>, module: ModuleId, name: Seq<char>, trail: Seq<Step>) -> Outcome
    decreases pending(graph, name, trail).len(), 0nat,
    when linkable(graph) && module.0 < graph.len() && graph[module.0 as int] is Normal
    via resolve_decreases
{
    let own = graph[module.0 as int]->Normal_0;
    let deeper = trail.push((module, name));
    if trail.contains((module, name)) {
        plain(Resolution::NotFound)
    } else if own.exports().contains_key(name) {
        match own.exports()[name] {
            LocalOrReExport::Local(local) => if own.imports().contains_key(local.referenced.symbol) {
                let import = own.imports()[local.referenced.symbol];
                aliased(
                    local.referenced,
                    follow(
                        graph,
                        own.target(import.record_id),
                        import.imported@,
                        import.is_imported_star,
                        deeper,
                    ),
                )
            } else {
                plain(Resolution::Found(local.referenced))
            },
            LocalOrReExport::Re(re) => follow(
                graph,
                own.target(re.record_id),
                re.imported@,
                re.is_imported_star,
                deeper,
            ),
        }
    } else if name == default_name() {
        plain(Resolution::NotFound)
    } else {
        resolve_stars(graph, own.star_targets(), 0, name, deeper, None)
    }
}

/// Each recursion of [`resolve`] takes a step that was pending.
#[via_fn]
proof fn resolve_decreases(graph: Seq<Module>, module: ModuleId, name: Seq<char>, trail: Seq<Step>) {
    let own = graph[module.0 as int]->Normal_0;
    if !trail.contains((module, name)) {
        lemma_pending_push(graph, name, name, trail, module);
        if own.exports().contains_key(name) {
            match own.exports()[name] {
                LocalOrReExport::Local(local) => {
                    if own.imports().contains_key(local.referenced.symbol) {
                        let import = own.imports()[local.referenced.symbol];
                        lemma_import_mentioned(own, local.referenced.symbol);
                        lemma_mentioned(graph, module, import.imported@);
                        lemma_pending_push(graph, name, import.imported@, trail, module);
                    }
                },
                LocalOrReExport::Re(re) => {
                    lemma_reexport_mentioned(own, name);
                    lemma_mentioned(graph, module, re.imported@);
                    lemma_pending_push(graph, name, re.imported@, trail, module);
                },
            }
        }
    }
}

/// What the `export *` declarations with the targets `targets`, from the one
/// at `from` on, make of `name`, when `candidate` is what the ones before
/// found. External targets are passed over. A target for which the name is
/// ambiguous makes it ambiguous, and so does one that finds another binding
/// than the candidate.
pub open spec fn resolve_stars(
    graph: Seq<Module>,
    targets: Seq<ModuleId>,
    from: nat,
    name: Seq<char>,
    trail: Seq<Step>,
    candidate: Option<SymbolRef>,
) -> Outcome
    decreases pending(graph, name, trail).len(), 2 + targets.len() - from,
{
    if from >= targets.len() {
        plain(
            match candidate {
                Some(symbol) => Resolution::Found(symbol),
                None => Resolution::NotFound,
            },
        )
    } else {
        match graph[targets[from as int].0 as int] {
            Module::Normal(_) => {
                let first = resolve(graph, targets[from as int], name, trail);
                match first.resolution {
                    Resolution::NotFound => after(
                        first.merges,
                        resolve_stars(graph, targets, from + 1, name, trail, candidate),
                    ),
                    Resolution::Ambiguous => first,
                    Resolution::Found(symbol) => if candidate is Some && candidate != Some(symbol) {
                        Outcome { resolution: Resolution::Ambiguous, merges: first.merges }
                    } else {
                        after(
                            first.merges,
                            resolve_stars(graph, targets, from + 1, name, trail, Some(symbol)),
                        )
                    },
                }
            },
            Module::External(_) => resolve_stars(graph, targets, from + 1, name, trail, candidate),
        }
    }
}

/// Whether `x` and `y` denote one binding once the merges `merges` are made,
/// in their order, in the registry `base`.
pub open spec fn joined(base: Symbols, merges: Seq<Merge>, x: SymbolRef, y: SymbolRef) -> bool
    decreases merges.len(),
{
    if merges.len() == 0 {
        base.same(x, y)
    } else {
        let earlier = merges.drop_last();
        let (a, b) = merges.last();
        joined(base, earlier, x, y) || (joined(base, earlier, x, a) && joined(base, earlier, y, b))
            || (joined(base, earlier, x, b) && joined(base, earlier, y, a))
    }
}

/// Merges made in a registry that other merges led to are merges made after
/// those.
pub proof fn lemma_joined_append(base: Symbols, between: Symbols, first: Seq<Merge>, second: Seq<Merge>)
    requires
        forall|x: SymbolRef, y: SymbolRef| #[trigger] between.same(x, y) == joined(base, first, x, y),
    ensures
        forall|x: SymbolRef, y: SymbolRef|
            #[trigger] joined(between, second, x, y) == joined(base, first + second, x, y),
    decreases second.len(),
{
    if second.len() == 0 {
        assert(first + second =~= first);
    } else {
        let earlier = second.drop_last();
        let (a, b) = second.last();
        lemma_joined_append(base, between, first, earlier);
        assert((first + second).drop_last() =~= first + earlier);
        assert((first + second).last() == second.last());
        assert forall|x: SymbolRef, y: SymbolRef|
            #[trigger] joined(between, second, x, y) == joined(base, first + second, x, y) by {
            assert(joined(between, earlier, x, y) == joined(base, first + earlier, x, y));
            assert(joined(between, earlier, x, a) == joined(base, first + earlier, x, a));
            assert(joined(between, earlier, y, b) == joined(base, first + earlier, y, b));
            assert(joined(between, earlier, x, b) == joined(base, first + earlier, x, b));
            assert(joined(between, earlier, y, a) == joined(base, first + earlier, y, a));
        }
    }
}

/// Whether the registry `base` with the merges `merges` made relates the
/// symbols as an equivalence does.
pub open spec fn equivalence(base: Symbols, merges: Seq<Merge>) -> bool {
    &&& forall|x: SymbolRef| #[trigger] joined(base, merges, x, x)
    &&& forall|x: SymbolRef, y: SymbolRef|
        #[trigger] joined(base, merges, x, y) ==> joined(base, merges, y, x)
    &&& forall|x: SymbolRef, y: SymbolRef, z: SymbolRef|
        #[trigger] joined(base, merges, x, y) && #[trigger] joined(base, merges, y, z) ==> joined(
            base,
            merges,
            x,
            z,
        )
}

/// Merges keep the classes of a registry classes: to denote one binding
/// stays reflexive, symmetric and transitive.
pub proof fn lemma_joined_equivalence(base: Symbols, merges: Seq<Merge>)
    ensures
        equivalence(base, merges),
    decreases merges.len(),
{
    if merges.len() > 0 {
        let earlier = merges.drop_last();
        let (a, b) = merges.last();
        lemma_joined_equivalence(base, earlier);
        assert forall|x: SymbolRef| #[trigger] joined(base, merges, x, x) by {
            assert(joined(base, earlier, x, x));
        }
        assert forall|x: SymbolRef, y: SymbolRef| #[trigger]
            joined(base, merges, x, y) implies joined(base, merges, y, x) by {
            if joined(base, earlier, x, y) {
                assert(joined(base, earlier, y, x));
            }
        }
        assert forall|x: SymbolRef, y: SymbolRef, z: SymbolRef|
            #[trigger] joined(base, merges, x, y) && #[trigger] joined(
                base,
                merges,
                y,
                z,
            ) implies joined(base, merges, x, z) by {
            assert(earlier.push((a, b)) =~= merges);
            lemma_joined_step(base, earlier, a, b, x, y, z);
        }
    } else {
        assert forall|x: SymbolRef| #[trigger] joined(base, merges, x, x) by {
            assert(base.same(x, x));
        }
    }
}

/// One merge keeps the relation of the merges before it transitive.
proof fn lemma_joined_step(
    base: Symbols,
    earlier: Seq<Merge>,
    a: SymbolRef,
    b: SymbolRef,
    x: SymbolRef,
    y: SymbolRef,
    z: SymbolRef,
)
    requires
        equivalence(base, earlier),
        joined(base, earlier.push((a, b)), x, y),
        joined(base, earlier.push((a, b)), y, z),
    ensures
        joined(base, earlier.push((a, b)), x, z),
{
    let merges = earlier.push((a, b));
    assert(merges.drop_last() =~= earlier);
    assert(merges.last() == (a, b));
    let r = |p: SymbolRef, q: SymbolRef| joined(base, earlier, p, q);
    assert(r(a, a) && r(b, b));
    if r(x, y) {
        if r(y, z) {
            assert(r(x, z));
        } else if r(y, a) && r(z, b) {
            assert(r(x, a));
        } else {
            assert(r(y, b) && r(z, a));
            assert(r(x, b));
        }
    } else if r(x, a) && r(y, b) {
        if r(y, z) {
            assert(r(z, y));
            assert(r(z, b));
        } else if r(y, a) && r(z, b) {
        } else {
            assert(r(y, b) && r(z, a));
            assert(r(a, z));
            assert(r(x, z));
        }
    } else {
        assert(r(x, b) && r(y, a));
        if r(y, z) {
            assert(r(z, y));
            assert(r(z, a));
        } else if r(y, a) && r(z, b) {
            assert(r(b, z));
            assert(r(x, z));
        } else {
        }
    }
}

/// Merges only ever join classes, and each merge joins its two symbols.
pub proof fn lemma_joined_grows(base: Symbols, merges: Seq<Merge>)
    ensures
        forall|x: SymbolRef, y: SymbolRef| base.same(x, y) ==> #[trigger] joined(base, merges, x, y),
        forall|k: int|
            0 <= k < merges.len() ==> joined(base, merges, (#[trigger] merges[k]).0, merges[k].1),
    decreases merges.len(),
{
    if merges.len() == 0 {
        assert forall|x: SymbolRef, y: SymbolRef| base.same(x, y) implies #[trigger] joined(
            base,
            merges,
            x,
            y,
        ) by {}
    } else {
        let earlier = merges.drop_last();
        lemma_joined_grows(base, earlier);
        lemma_joined_equivalence(base, earlier);
        assert forall|x: SymbolRef, y: SymbolRef| base.same(x, y) implies #[trigger] joined(
            base,
            merges,
            x,
            y,
        ) by {
            assert(joined(base, earlier, x, y));
        }
        assert forall|k: int| 0 <= k < merges.len() implies joined(
            base,
            merges,
            (#[trigger] merges[k]).0,
            merges[k].1,
        ) by {
            if k < earlier.len() {
                assert(earlier[k] == merges[k]);
            } else {
                assert(joined(base, earlier, merges[k].0, merges[k].0));
                assert(joined(base, earlier, merges[k].1, merges[k].1));
            }
        }
    }
}

/// Merges that were made already change nothing when they are made again.
pub proof fn lemma_joined_again(base: Symbols, merges: Seq<Merge>, again: Seq<Merge>)
    requires
        forall|k: int| 0 <= k < again.len() ==> joined(base, merges, (#[trigger] again[k]).0, again[k].1),
    ensures
        forall|x: SymbolRef, y: SymbolRef|
            #[trigger] joined(base, merges + again, x, y) == joined(base, merges, x, y),
    decreases again.len(),
{
    if again.len() == 0 {
        assert(merges + again =~= merges);
    } else {
        let earlier = again.drop_last();
        let (a, b) = again.last();
        assert forall|k: int| 0 <= k < earlier.len() implies joined(
            base,
            merges,
            (#[trigger] earlier[k]).0,
            earlier[k].1,
        ) by {
            assert(earlier[k] == again[k]);
        }
        lemma_joined_again(base, merges, earlier);
        lemma_joined_equivalence(base, merges);
        assert((merges + again).drop_last() =~= merges + earlier);
        assert((merges + again).last() == again.last());
        assert(joined(base, merges, a, b)) by {
            assert(again[again.len() - 1] == (a, b));
        }
        assert forall|x: SymbolRef, y: SymbolRef|
            #[trigger] joined(base, merges + again, x, y) == joined(base, merges, x, y) by {
            assert(joined(base, merges + earlier, x, y) == joined(base, merges, x, y));
            assert(joined(base, merges + earlier, x, a) == joined(base, merges, x, a));
            assert(joined(base, merges + earlier, y, b) == joined(base, merges, y, b));
            assert(joined(base, merges + earlier, x, b) == joined(base, merges, x, b));
            assert(joined(base, merges + earlier, y, a) == joined(base, merges, y, a));
            if joined(base, merges, x, a) && joined(base, merges, y, b) {
                assert(joined(base, merges, b, y));
                assert(joined(base, merges, x, b));
                assert(joined(base, merges, x, y));
            }
            if joined(base, merges, x, b) && joined(base, merges, y, a) {
                assert(joined(base, merges, b, a));
                assert(joined(base, merges, a, y));
                assert(joined(base, merges, x, a));
                assert(joined(base, merges, x, y));
            }
        }
    }
}

/// Resolving a name twice gives the same resolution, and the second time no
/// class of the registry changes: what a resolution says does not depend on
/// the registry, and what it merges, the first resolution has merged.
pub proof fn lemma_resolve_again(
    graph: Seq<Module>,
    module: ModuleId,
    name: Seq<char>,
    trail: Seq<Step>,
    base: Symbols,
)
    ensures
        forall|x: SymbolRef, y: SymbolRef|
            #[trigger] joined(
                base,
                resolve(graph, module, name, trail).merges + resolve(
                    graph,
                    module,
                    name,
                    trail,
                ).merges,
                x,
                y,
            ) == joined(base, resolve(graph, module, name, trail).merges, x, y),
{
    let merges = resolve(graph, module, name, trail).merges;
    lemma_joined_grows(base, merges);
    lemma_joined_again(base, merges, merges);
}

/// A local export of an imported symbol that resolves to a binding makes the
/// local symbol and that binding one.
pub proof fn lemma_forwarded_import_merged(
    graph: Seq<Module>,
    module: ModuleId,
    name: Seq<char>,
    trail: Seq<Step>,
    base: Symbols,
)
    requires
        linkable(graph),
        module.0 < graph.len(),
        !trail.contains((module, name)),
        graph[module.0 as int] matches Module::Normal(own) && own.exports().contains_key(name) && (
        own.exports()[name] matches LocalOrReExport::Local(local) && own.imports().contains_key(
            local.referenced.symbol,
        )),
        resolve(graph, module, name, trail).resolution is Found,
    ensures
        joined(
            base,
            resolve(graph, module, name, trail).merges,
            graph[module.0 as int]->Normal_0.exports()[name]->Local_0.referenced,
            resolve(graph, module, name, trail).resolution->Found_0,
        ),
{
    let outcome = resolve(graph, module, name, trail);
    lemma_joined_grows(base, outcome.merges);
    assert(outcome.merges[outcome.merges.len() - 1] == (
        graph[module.0 as int]->Normal_0.exports()[name]->Local_0.referenced,
        outcome.resolution->Found_0,
    ));
}

/// What the `export *` declaration at `i` answers for `name`: what the name
/// resolves to in a normal target; nothing for an external one.
pub open spec fn star_answer(
    graph: Seq<Module>,
    targets: Seq<ModuleId>,
    i: int,
    name: Seq<char>,
    trail: Seq<Step>,
) -> Resolution {
    match graph[targets[i].0 as int] {
        Module::Normal(_) => resolve(graph, targets[i], name, trail).resolution,
        Module::External(_) => Resolution::NotFound,
    }
}

/// Whether the declarations from `from` on answer nothing.
pub open spec fn stars_silent(
    graph: Seq<Module>,
    targets: Seq<ModuleId>,
    from: nat,
    name: Seq<char>,
    trail: Seq<Step>,
) -> bool {
    forall|i: int|
        from <= i < targets.len() ==> #[trigger] star_answer(graph, targets, i, name, trail)
            == Resolution::NotFound
}

/// Whether the declarations from `from` on answer nothing or `symbol`.
pub open spec fn stars_agree(
    graph: Seq<Module>,
    targets: Seq<ModuleId>,
    from: nat,
    name: Seq<char>,
    trail: Seq<Step>,
    symbol: SymbolRef,
) -> bool {
    forall|i: int|
        from <= i < targets.len() ==> {
            let answer = #[trigger] star_answer(graph, targets, i, name, trail);
            answer == Resolution::NotFound || answer == Resolution::Found(symbol)
        }
}

/// What `export *` declarations make of a name does not depend on their
/// order. With a candidate, the name resolves to the candidate if every
/// declaration answers nothing or the candidate, and is ambiguous otherwise.
/// Without one, it resolves to nothing if every declaration answers nothing,
/// to a binding if every declaration answers nothing or that binding and one
/// of them the binding, and is ambiguous otherwise: paths that agree on a
/// binding find it, paths that lead to different bindings are ambiguous.
pub proof fn lemma_resolve_stars(
    graph: Seq<Module>,
    targets: Seq<ModuleId>,
    from: nat,
    name: Seq<char>,
    trail: Seq<Step>,
    candidate: Option<SymbolRef>,
)
    requires
        linkable(graph),
        forall|i: int| 0 <= i < targets.len() ==> (#[trigger] targets[i]).0 < graph.len(),
    ensures
        ({
            let resolution = resolve_stars(graph, targets, from, name, trail, candidate).resolution;
            match candidate {
                Some(symbol) => {
                    &&& resolution == Resolution::Found(symbol) <==> stars_agree(
                        graph,
                        targets,
                        from,
                        name,
                        trail,
                        symbol,
                    )
                    &&& resolution != Resolution::Found(symbol) ==> resolution
                        == Resolution::Ambiguous
                },
                None => {
                    &&& resolution == Resolution::NotFound <==> stars_silent(
                        graph,
                        targets,
                        from,
                        name,
                        trail,
                    )
                    &&& forall|symbol: SymbolRef|
                        resolution == Resolution::Found(symbol) <==> #[trigger] stars_agree(
                            graph,
                            targets,
                            from,
                            name,
                            trail,
                            symbol,
                        ) && !stars_silent(graph, targets, from, name, trail)
                },
            }
        }),
    decreases targets.len() - from,
{
    if from < targets.len() {
        let answer = star_answer(graph, targets, from as int, name, trail);
        let next = match answer {
            Resolution::Found(symbol) => Some(symbol),
            _ => candidate,
        };
        lemma_resolve_stars(graph, targets, from + 1, name, trail, next);
        let resolution = resolve_stars(graph, targets, from, name, trail, candidate).resolution;
        let rest = resolve_stars(graph, targets, from + 1, name, trail, next).resolution;
        assert forall|symbol: SymbolRef|
            stars_agree(graph, targets, from, name, trail, symbol) <==> (answer
                == Resolution::NotFound || answer == Resolution::Found(symbol)) && stars_agree(
                graph,
                targets,
                from + 1,
                name,
                trail,
                symbol,
            ) by {
            if stars_agree(graph, targets, from, name, trail, symbol) {
                assert(star_answer(graph, targets, from as int, name, trail) == answer);
            }
        }
        assert(stars_silent(graph, targets, from, name, trail) <==> answer == Resolution::NotFound
            && stars_silent(graph, targets, from + 1, name, trail)) by {
            if stars_silent(graph, targets, from, name, trail) {
                assert(star_answer(graph, targets, from as int, name, trail) == answer);
            }
        }
        match answer {
            Resolution::NotFound => {
                assert(resolution == rest);
            },
            Resolution::Ambiguous => {
                assert(resolution == Resolution::Ambiguous);
            },
            Resolution::Found(found) => {
                if candidate is Some && candidate != Some(found) {
                    assert(resolution == Resolution::Ambiguous);
                } else {
                    assert(resolution == rest);
                }
            },
        }
    }
}

/// Declarations that answer with different bindings make the name ambiguous.
pub proof fn lemma_distinct_answers_are_ambiguous(
    graph: Seq<Module>,
    targets: Seq<ModuleId>,
    name: Seq<char>,
    trail: Seq<Step>,
    i: int,
    j: int,
)
    requires
        linkable(graph),
        forall|k: int| 0 <= k < targets.len() ==> (#[trigger] targets[k]).0 < graph.len(),
        0 <= i < targets.len(),
        0 <= j < targets.len(),
        star_answer(graph, targets, i, name, trail) is Found,
        star_answer(graph, targets, j, name, trail) is Found,
        star_answer(graph, targets, i, name, trail) != star_answer(graph, targets, j, name, trail),
    ensures
        resolve_stars(graph, targets, 0, name, trail, None).resolution == Resolution::Ambiguous,
{
    lemma_resolve_stars(graph, targets, 0, name, trail, None);
    let resolution = resolve_stars(graph, targets, 0, name, trail, None).resolution;
    if resolution is Found {
        assert(stars_agree(graph, targets, 0, name, trail, resolution->Found_0));
    }
}

/// Declarations of which one answers with a binding and the others with the
/// same binding or nothing resolve the name to that binding.
pub proof fn lemma_agreeing_answers_are_found(
    graph: Seq<Module>,
    targets: Seq<ModuleId>,
    name: Seq<char>,
    trail: Seq<Step>,
    symbol: SymbolRef,
    i: int,
)
    requires
        linkable(graph),
        forall|k: int| 0 <= k < targets.len() ==> (#[trigger] targets[k]).0 < graph.len(),
        0 <= i < targets.len(),
        star_answer(graph, targets, i, name, trail) == Resolution::Found(symbol),
        stars_agree(graph, targets, 0, name, trail, symbol),
    ensures
        resolve_stars(graph, targets, 0, name, trail, None).resolution == Resolution::Found(symbol),
{
    lemma_resolve_stars(graph, targets, 0, name, trail, None);
}

} // verus!
