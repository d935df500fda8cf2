//! Resolving an exported name to the binding that it denotes.
use crate::graph::{
    answers, consistent, declares, known, linkable, member, registered, Module, NormalModule,
};
use crate::ids::{ModuleId, SymbolRef};
use crate::records::{LocalOrReExport, Resolution};
use crate::resolution::{
    after, follow, joined, lemma_import_mentioned, lemma_joined_append, lemma_mentioned,
    lemma_pending_push, lemma_reexport_mentioned, lemma_resolve_again, pending, resolve,
    resolve_stars, Merge, Outcome, Step,
};
use crate::symbols::Symbols;
use crate::tables::{named_export_of, named_import_of, ModuleVec};
use vstd::prelude::*;

verus! {

/// The steps that a trail holds.
pub open spec fn steps_of(trail: Seq<(ModuleId, String)>) -> Seq<Step> {
    trail.map_values(|step: (ModuleId, String)| (step.0, step.1@))
}

/// Whether a resolution with the outcome `outcome` led from the registry
/// `before` to the registry `now` and to the result `resolution`: the result
/// is the outcome's, the registry holds the symbols it held, two symbols are
/// one binding in it exactly if the outcome's merges made them one, and a
/// binding that was found is one that the graph declares.
pub open spec fn performed(
    graph: Seq<Module>,
    before: Symbols,
    now: Symbols,
    outcome: Outcome,
    resolution: Resolution,
) -> bool {
    &&& resolution == outcome.resolution
    &&& now.wf()
    &&& forall|x: SymbolRef| #[trigger] now.contains(x) == before.contains(x)
    &&& forall|x: SymbolRef, y: SymbolRef|
        #[trigger] now.same(x, y) == joined(before, outcome.merges, x, y)
    &&& resolution matches Resolution::Found(symbol) ==> known(graph, symbol)
}

/// Resolving a name twice in a row gives the same resolution both times, and
/// the second time the registry keeps its classes.
pub proof fn lemma_resolved_twice(
    graph: Seq<Module>,
    module: ModuleId,
    name: Seq<char>,
    trail: Seq<Step>,
    before: Symbols,
    between: Symbols,
    now: Symbols,
    first: Resolution,
    second: Resolution,
)
    requires
        performed(graph, before, between, resolve(graph, module, name, trail), first),
        performed(graph, between, now, resolve(graph, module, name, trail), second),
    ensures
        first == second,
        forall|x: SymbolRef, y: SymbolRef| #[trigger] now.same(x, y) == between.same(x, y),
{
    let merges = resolve(graph, module, name, trail).merges;
    lemma_joined_append(before, between, merges, merges);
    lemma_resolve_again(graph, module, name, trail, before);
    assert forall|x: SymbolRef, y: SymbolRef| #[trigger] now.same(x, y) == between.same(x, y) by {
        assert(joined(between, merges, x, y) == joined(before, merges + merges, x, y));
        assert(joined(before, merges + merges, x, y) == joined(before, merges, x, y));
    }
}

/// Whether the step of `module` and `name` is on `trail`.
fn on_trail(trail: &Vec<(ModuleId, String)>, module: ModuleId, name: &String) -> (b: bool)
    ensures
        b == steps_of(trail@).contains((module, name@)),
{
    let mut i: usize = 0;
    while i < trail.len()
        invariant
            i <= trail@.len(),
            forall|j: int| 0 <= j < i ==> steps_of(trail@)[j] != (module, name@),
        decreases trail@.len() - i,
    {
        if trail[i].0 == module && trail[i].1 == *name {
            assert(steps_of(trail@)[i as int] == (module, name@));
            return true;
        }
        i = i + 1;
    }
    false
}

/// Where a reference to the binding `imported` of the module `target` leads.
fn follow_import(
    modules: &ModuleVec,
    target: ModuleId,
    imported: &String,
    is_star: bool,
    trail: &mut Vec<(ModuleId, String)>,
    symbols: &mut Symbols,
) -> (resolution: Resolution)
    requires
        linkable(modules@),
        target.0 < modules@.len(),
        answers(modules@, target, imported@, is_star),
        old(symbols).wf(),
        registered(modules@, *old(symbols)),
    ensures
        performed(
            modules@,
            *old(symbols),
            *final(symbols),
            follow(modules@, target, imported@, is_star, steps_of(old(trail)@)),
            resolution,
        ),
        final(trail)@ == old(trail)@,
    decreases pending(modules@, imported@, steps_of(old(trail)@)).len(), 1nat,
{
    match modules.get(target) {
        Module::Normal(importee) => {
            if is_star {
                assert(declares(modules@[target.0 as int], importee.namespace_symbol.0));
                Resolution::Found(importee.namespace_symbol.0)
            } else {
                importee.resolve_export(imported, trail, modules, symbols)
            }
        },
        Module::External(importee) => {
            let symbol = importee.resolve_export(imported, is_star);
            assert(declares(modules@[target.0 as int], symbol));
            Resolution::Found(symbol)
        },
    }
}

impl NormalModule {
    /// What the name `export_name` that this module exports resolves to.
    ///
    /// `resolve_set` holds the steps of the resolution that asks; it is left
    /// as it was found. Bindings that the resolution proves to be one are
    /// merged in `symbols`. The resolution ends on every graph: each step is
    /// taken at most once, so a circular re-export resolves to nothing.
    pub fn resolve_export(
        &self,
        export_name: &String,
        resolve_set: &mut Vec<(ModuleId, String)>,
        modules: &ModuleVec,
        symbols: &mut Symbols,
    ) -> (resolution: Resolution)
        requires
            linkable(modules@),
            member(modules@, *self),
            old(symbols).wf(),
            registered(modules@, *old(symbols)),
        ensures
            performed(
                modules@,
                *old(symbols),
                *final(symbols),
                resolve(modules@, self.id, export_name@, steps_of(old(resolve_set)@)),
                resolution,
            ),
            final(resolve_set)@ == old(resolve_set)@,
        decreases pending(modules@, export_name@, steps_of(old(resolve_set)@)).len(), 0nat,
    {
        if on_trail(resolve_set, self.id, export_name) {
            return Resolution::NotFound;
        }
        let ghost graph = modules@;
        let ghost trail = steps_of(old(resolve_set)@);
        let ghost deeper = trail.push((self.id, export_name@));
        resolve_set.push((self.id, export_name.clone()));
        assert(steps_of(resolve_set@) =~= deeper);
        assert(consistent(*self, graph));
        let resolution = match named_export_of(&self.named_exports, export_name) {
            Some(LocalOrReExport::Local(local)) => {
                assert(known(graph, local.referenced)) by {
                    assert(declares(graph[self.id.0 as int], local.referenced));
                }
                match named_import_of(&self.named_imports, local.referenced.symbol) {
                    Some(import) => {
                        proof {
                            lemma_import_mentioned(*self, local.referenced.symbol);
                            lemma_mentioned(graph, self.id, import.imported@);
                            lemma_pending_push(
                                graph,
                                export_name@,
                                import.imported@,
                                trail,
                                self.id,
                            );
                        }
                        let target = self.import_records.get(import.record_id).resolved_module;
                        let resolved = follow_import(
                            modules,
                            target,
                            &import.imported,
                            import.is_imported_star,
                            resolve_set,
                            symbols,
                        );
                        let ghost inner = follow(
                            graph,
                            target,
                            import.imported@,
                            import.is_imported_star,
                            deeper,
                        );
                        if let Resolution::Found(exist) = resolved {
                            let ghost between = *symbols;
                            assert(between.contains(local.referenced) == old(symbols).contains(
                                local.referenced,
                            ));
                            assert(between.contains(exist) == old(symbols).contains(exist));
                            symbols.union(local.referenced, exist);
                            proof {
                                let merges = inner.merges.push((local.referenced, exist));
                                assert(merges.drop_last() =~= inner.merges);
                                assert forall|x: SymbolRef|
                                    #[trigger] symbols.contains(x) == old(symbols).contains(x) by {
                                    assert(between.contains(x) == old(symbols).contains(x));
                                }
                                assert forall|x: SymbolRef, y: SymbolRef|
                                    #[trigger] symbols.same(x, y) == joined(
                                        *old(symbols),
                                        merges,
                                        x,
                                        y,
                                    ) by {
                                    assert(between.same(x, y) == joined(
                                        *old(symbols),
                                        inner.merges,
                                        x,
                                        y,
                                    ));
                                    assert(between.same(x, local.referenced) == joined(
                                        *old(symbols),
                                        inner.merges,
                                        x,
                                        local.referenced,
                                    ));
                                    assert(between.same(y, exist) == joined(
                                        *old(symbols),
                                        inner.merges,
                                        y,
                                        exist,
                                    ));
                                    assert(between.same(x, exist) == joined(
                                        *old(symbols),
                                        inner.merges,
                                        x,
                                        exist,
                                    ));
                                    assert(between.same(y, local.referenced) == joined(
                                        *old(symbols),
                                        inner.merges,
                                        y,
                                        local.referenced,
                                    ));
                                }
                            }
                        }
                        resolved
                    },
                    None => Resolution::Found(local.referenced),
                }
            },
            Some(LocalOrReExport::Re(re)) => {
                proof {
                    lemma_reexport_mentioned(*self, export_name@);
                    lemma_mentioned(graph, self.id, re.imported@);
                    lemma_pending_push(graph, export_name@, re.imported@, trail, self.id);
                }
                let target = self.import_records.get(re.record_id).resolved_module;
                follow_import(
                    modules,
                    target,
                    &re.imported,
                    re.is_imported_star,
                    resolve_set,
                    symbols,
                )
            },
            None => {
                let reserved = "default".to_owned();
                if *export_name == reserved {
                    Resolution::NotFound
                } else {
                    proof {
                        lemma_pending_push(graph, export_name@, export_name@, trail, self.id);
                    }
                    self.resolve_star_export(export_name, resolve_set, modules, symbols)
                }
            },
        };
        resolve_set.pop();
        assert(resolve_set@ =~= old(resolve_set)@);
        resolution
    }

    /// What the `export *` declarations of this module make of `export_name`,
    /// a name that its own table lacks.
    fn resolve_star_export(
        &self,
        export_name: &String,
        resolve_set: &mut Vec<(ModuleId, String)>,
        modules: &ModuleVec,
        symbols: &mut Symbols,
    ) -> (resolution: Resolution)
        requires
            linkable(modules@),
            member(modules@, *self),
            old(symbols).wf(),
            registered(modules@, *old(symbols)),
        ensures
            performed(
                modules@,
                *old(symbols),
                *final(symbols),
                resolve_stars(
                    modules@,
                    self.star_targets(),
                    0,
                    export_name@,
                    steps_of(old(resolve_set)@),
                    None,
                ),
                resolution,
            ),
            final(resolve_set)@ == old(resolve_set)@,
        decreases pending(modules@, export_name@, steps_of(old(resolve_set)@)).len(), 1nat,
    {
        let ghost graph = modules@;
        let ghost trail = steps_of(old(resolve_set)@);
        let ghost targets = self.star_targets();
        let ghost total = resolve_stars(graph, targets, 0, export_name@, trail, None);
        let ghost mut done: Seq<Merge> = Seq::empty();
        let mut star_resolution: Option<SymbolRef> = None;
        let mut i: usize = 0;
        assert(total == after(done, total)) by {
            assert(done + total.merges =~= total.merges);
        }
        while i < self.star_exports.len()
            invariant
                i <= self.star_exports@.len(),
                linkable(graph),
                graph == modules@,
                member(graph, *self),
                targets == self.star_targets(),
                trail == steps_of(old(resolve_set)@),
                resolve_set@ == old(resolve_set)@,
                registered(graph, *old(symbols)),
                symbols.wf(),
                forall|x: SymbolRef| #[trigger] symbols.contains(x) == old(symbols).contains(x),
                forall|x: SymbolRef, y: SymbolRef|
                    #[trigger] symbols.same(x, y) == joined(*old(symbols), done, x, y),
                star_resolution matches Some(symbol) ==> known(graph, symbol),
                total == resolve_stars(graph, targets, 0, export_name@, trail, None),
                total == after(
                    done,
                    resolve_stars(graph, targets, i as nat, export_name@, trail, star_resolution),
                ),
            decreases self.star_exports@.len() - i,
        {
            assert(consistent(*self, graph));
            let target = self.import_records.get(self.star_exports[i]).resolved_module;
            assert(target == targets[i as int]);
            match modules.get(target) {
                Module::Normal(importee) => {
                    let ghost between = *symbols;
                    let ghost first = resolve(graph, target, export_name@, trail);
                    assert(registered(graph, between)) by {
                        assert forall|symbol: SymbolRef| #[trigger]
                            known(graph, symbol) implies between.contains(symbol) by {
                            assert(between.contains(symbol) == old(symbols).contains(symbol));
                        }
                    }
                    let found = importee.resolve_export(export_name, resolve_set, modules, symbols);
                    proof {
                        lemma_joined_append(*old(symbols), between, done, first.merges);
                        assert forall|x: SymbolRef|
                            #[trigger] symbols.contains(x) == old(symbols).contains(x) by {
                            assert(between.contains(x) == old(symbols).contains(x));
                        }
                        assert forall|x: SymbolRef, y: SymbolRef|
                            #[trigger] symbols.same(x, y) == joined(
                                *old(symbols),
                                done + first.merges,
                                x,
                                y,
                            ) by {
                            assert(joined(between, first.merges, x, y) == joined(
                                *old(symbols),
                                done + first.merges,
                                x,
                                y,
                            ));
                        }
                        let rest = resolve_stars(
                            graph,
                            targets,
                            (i + 1) as nat,
                            export_name@,
                            trail,
                            match found {
                                Resolution::Found(symbol) => Some(symbol),
                                _ => star_resolution,
                            },
                        );
                        assert(done + (first.merges + rest.merges) =~= (done + first.merges)
                            + rest.merges);
                        done = done + first.merges;
                    }
                    let ghost here = resolve_stars(
                        graph,
                        targets,
                        i as nat,
                        export_name@,
                        trail,
                        star_resolution,
                    );
                    match found {
                        Resolution::NotFound => {},
                        Resolution::Ambiguous => {
                            assert(here == first);
                            return Resolution::Ambiguous;
                        },
                        Resolution::Found(exist) => {
                            if let Some(earlier) = star_resolution {
                                if earlier != exist {
                                    assert(here == Outcome {
                                        resolution: Resolution::Ambiguous,
                                        merges: first.merges,
                                    });
                                    return Resolution::Ambiguous;
                                }
                            }
                            star_resolution = Some(exist);
                        },
                    }
                },
                Module::External(_) => {},
            }
            i = i + 1;
        }
        match star_resolution {
            Some(symbol) => Resolution::Found(symbol),
            None => Resolution::NotFound,
        }
    }
}

} // verus!
