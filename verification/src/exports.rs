//! The names that a module exports.
//!
//! A module exports the names of its own table and, through each
//! `export * from`, the names that the target exports, but never `default`.
//! Modules that are being visited are kept on a stack; a module that is
//! reached again while it is on the stack contributes nothing, which is what
//! makes the walk end on a cycle of `export *`.
use crate::graph::{consistent, default_name, linkable, member, Module, NormalModule};
use crate::ids::ModuleId;
use crate::tables::{
    external_symbol_names, name_set_insert, name_set_items, name_set_new, named_export_names,
    names_of, texts, ModuleVec, NameSet,
};
use vstd::prelude::*;
use vstd::set_lib::{lemma_int_range, lemma_set_subset_finite, set_int_range};

verus! {

/// The modules of a graph of `n` modules that are not on `stack`.
pub open spec fn unvisited(n: nat, stack: Seq<ModuleId>) -> Set<ModuleId> {
    Set::new(|id: ModuleId| id.0 < n && !stack.contains(id))
}

/// Only finitely many modules are not on the stack.
pub proof fn lemma_unvisited_finite(n: nat, stack: Seq<ModuleId>)
    ensures
        unvisited(n, stack).finite(),
{
    let range = set_int_range(0, n as int);
    let to_id = |i: int| ModuleId(i as usize);
    lemma_int_range(0, n as int);
    range.lemma_map_finite(to_id);
    assert forall|id: ModuleId| unvisited(n, stack).contains(id) implies range.map(to_id).contains(
        id,
    ) by {
        assert(range.contains(id.0 as int) && to_id(id.0 as int) == id);
    }
    lemma_set_subset_finite(range.map(to_id), unvisited(n, stack));
}

/// Visiting a module that was not on the stack leaves fewer to visit.
pub proof fn lemma_unvisited_push(n: nat, stack: Seq<ModuleId>, m: ModuleId)
    requires
        m.0 < n,
        !stack.contains(m),
    ensures
        unvisited(n, stack.push(m)).len() < unvisited(n, stack).len(),
{
    lemma_unvisited_finite(n, stack);
    assert forall|id: ModuleId| stack.push(m).contains(id) <==> (stack.contains(id) || id == m) by {
        if stack.contains(id) {
            let i = choose|i: int| 0 <= i < stack.len() && stack[i] == id;
            assert(stack.push(m)[i] == id);
        }
        assert(stack.push(m)[stack.len() as int] == m);
    }
    assert(unvisited(n, stack.push(m)) =~= unvisited(n, stack).remove(m));
}

/// The names that `module` exports when the modules on `stack` are being
/// visited: none if `module` is on the stack itself; else the names of its
/// own table and those that its `export *` declarations forward.
pub open spec fn exported_names(graph: Seq<Module>, module: ModuleId, stack: Seq<ModuleId>) -> Set<
    Seq<char>,
>
    decreases unvisited(graph.len(), stack).len(), 0nat,
    when linkable(graph) && module.0 < graph.len() && graph[module.0 as int] is Normal
    via exported_names_decreases
{
    if stack.contains(module) {
        Set::empty()
    } else {
        let own = graph[module.0 as int]->Normal_0;
        own.exports().dom().union(forwarded_names(graph, own.star_targets(), stack.push(module)))
    }
}

/// Each recursion of [`exported_names`] visits one more module.
#[via_fn]
proof fn exported_names_decreases(graph: Seq<Module>, module: ModuleId, stack: Seq<ModuleId>) {
    if !stack.contains(module) {
        lemma_unvisited_push(graph.len(), stack, module);
    }
}

/// The names that `export *` declarations with the targets `targets` forward:
/// what each target offers, but `default`.
pub open spec fn forwarded_names(graph: Seq<Module>, targets: Seq<ModuleId>, stack: Seq<ModuleId>) -> Set<
    Seq<char>,
>
    decreases unvisited(graph.len(), stack).len(), 2 + targets.len(),
{
    if targets.len() == 0 {
        Set::empty()
    } else {
        forwarded_names(graph, targets.drop_last(), stack).union(
            offered_names(graph, targets.last(), stack).remove(default_name()),
        )
    }
}

/// The names that the target of an `export *` offers: the exported names of
/// a normal module, the names in the usage table of an external one.
pub open spec fn offered_names(graph: Seq<Module>, target: ModuleId, stack: Seq<ModuleId>) -> Set<
    Seq<char>,
>
    decreases unvisited(graph.len(), stack).len(), 1nat,
{
    match graph[target.0 as int] {
        Module::Normal(_) => exported_names(graph, target, stack),
        Module::External(external) => external.symbols().dom(),
    }
}

/// What `export *` declarations forward does not depend on their order: a
/// name is forwarded if it is not `default` and some target offers it.
pub proof fn lemma_forwarded_names(
    graph: Seq<Module>,
    targets: Seq<ModuleId>,
    stack: Seq<ModuleId>,
    name: Seq<char>,
)
    requires
        linkable(graph),
        forall|i: int| 0 <= i < targets.len() ==> (#[trigger] targets[i]).0 < graph.len(),
    ensures
        forwarded_names(graph, targets, stack).contains(name) <==> name != default_name()
            && exists|i: int|
            0 <= i < targets.len() && #[trigger] offered_names(graph, targets[i], stack).contains(
                name,
            ),
    decreases targets.len(),
{
    if targets.len() > 0 {
        let earlier = targets.drop_last();
        lemma_forwarded_names(graph, earlier, stack, name);
        if forwarded_names(graph, earlier, stack).contains(name) {
            let i = choose|i: int|
                0 <= i < earlier.len() && #[trigger] offered_names(graph, earlier[i], stack).contains(
                    name,
                );
            assert(offered_names(graph, targets[i], stack).contains(name));
        } else if forwarded_names(graph, targets, stack).contains(name) {
            assert(offered_names(graph, targets[targets.len() - 1], stack).contains(name));
        }
        if name != default_name() && exists|i: int|
            0 <= i < targets.len() && #[trigger] offered_names(graph, targets[i], stack).contains(
                name,
            ) {
            let i = choose|i: int|
                0 <= i < targets.len() && #[trigger] offered_names(graph, targets[i], stack).contains(
                    name,
                );
            if i < earlier.len() {
                assert(offered_names(graph, earlier[i], stack).contains(name));
            } else {
                assert(targets[i] == targets.last());
            }
        }
    }
}

/// `default` is exported only by a module whose own table holds it: no
/// `export *` forwards it, whatever its target exports.
pub proof fn lemma_default_is_own(graph: Seq<Module>, module: ModuleId, stack: Seq<ModuleId>)
    requires
        linkable(graph),
        module.0 < graph.len(),
        graph[module.0 as int] is Normal,
    ensures
        exported_names(graph, module, stack).contains(default_name()) <==> !stack.contains(module)
            && graph[module.0 as int]->Normal_0.exports().contains_key(default_name()),
{
    let own = graph[module.0 as int]->Normal_0;
    assert(consistent(own, graph));
    lemma_forwarded_names(graph, own.star_targets(), stack.push(module), default_name());
}

/// Whether `id` is on `stack`.
fn on_stack(stack: &Vec<ModuleId>, id: ModuleId) -> (b: bool)
    ensures
        b == stack@.contains(id),
{
    let mut i: usize = 0;
    while i < stack.len()
        invariant
            i <= stack@.len(),
            forall|j: int| 0 <= j < i ==> stack@[j] != id,
        decreases stack@.len() - i,
    {
        if stack[i] == id {
            return true;
        }
        i = i + 1;
    }
    false
}

/// Adds the names `items` to `set`; with `skip_default`, all but `default`.
fn add_names(set: &mut NameSet, items: &Vec<String>, skip_default: bool)
    ensures
        forall|name: Seq<char>|
            #[trigger] names_of(*final(set)).contains(name) <==> (names_of(*old(set)).contains(name)
                || (texts(items@).contains(name) && !(skip_default && name == default_name()))),
{
    let reserved = "default".to_owned();
    let mut k: usize = 0;
    while k < items.len()
        invariant
            k <= items@.len(),
            reserved@ == default_name(),
            forall|name: Seq<char>|
                #[trigger] names_of(*set).contains(name) <==> (names_of(*old(set)).contains(name) || (
                exists|j: int| 0 <= j < k && #[trigger] texts(items@)[j] == name) && !(skip_default
                    && name == default_name())),
        decreases items@.len() - k,
    {
        let ghost before = names_of(*set);
        let item = &items[k];
        assert(texts(items@)[k as int] == item@);
        if !(skip_default && *item == reserved) {
            name_set_insert(set, item.clone());
        }
        proof {
            assert forall|name: Seq<char>|
                #[trigger] names_of(*set).contains(name) <==> (names_of(*old(set)).contains(name) || (
                exists|j: int| 0 <= j < k + 1 && #[trigger] texts(items@)[j] == name) && !(
                skip_default && name == default_name())) by {
                assert(before.contains(name) <==> (names_of(*old(set)).contains(name) || (
                exists|j: int| 0 <= j < k && #[trigger] texts(items@)[j] == name) && !(skip_default
                    && name == default_name())));
                if exists|j: int| 0 <= j < k + 1 && #[trigger] texts(items@)[j] == name {
                    let j = choose|j: int| 0 <= j < k + 1 && #[trigger] texts(items@)[j] == name;
                    if j < k {
                        assert(texts(items@)[j] == name);
                    }
                }
            }
        }
        k = k + 1;
    }
}

impl NormalModule {
    /// The names that this module exports, for a walk in which the modules
    /// on `stack` are being visited. The stack is left as it was found. The
    /// walk ends on every graph: a cycle of `export *` is cut where it
    /// closes.
    pub fn get_exported_names(&self, stack: &mut Vec<ModuleId>, modules: &ModuleVec) -> (names:
        NameSet)
        requires
            linkable(modules@),
            member(modules@, *self),
        ensures
            names_of(names) == exported_names(modules@, self.id, old(stack)@),
            final(stack)@ == old(stack)@,
        decreases unvisited(modules@.len(), old(stack)@).len(),
    {
        if on_stack(stack, self.id) {
            return name_set_new();
        }
        proof {
            lemma_unvisited_push(modules@.len(), stack@, self.id);
        }
        stack.push(self.id);
        let ghost visiting = stack@;
        let ghost targets = self.star_targets();
        let mut ret = name_set_new();
        let mut i: usize = 0;
        while i < self.star_exports.len()
            invariant
                i <= self.star_exports@.len(),
                linkable(modules@),
                member(modules@, *self),
                stack@ == visiting,
                visiting == old(stack)@.push(self.id),
                targets == self.star_targets(),
                unvisited(modules@.len(), visiting).len() < unvisited(
                    modules@.len(),
                    old(stack)@,
                ).len(),
                names_of(ret) == forwarded_names(modules@, targets.take(i as int), visiting),
            decreases self.star_exports@.len() - i,
        {
            let record = self.import_records.get(self.star_exports[i]);
            let importee = modules.get(record.resolved_module);
            assert(record.resolved_module == targets[i as int]);
            let items = match importee {
                Module::Normal(importee) => {
                    let offered = importee.get_exported_names(stack, modules);
                    name_set_items(&offered)
                },
                Module::External(importee) => external_symbol_names(
                    &importee.symbols_imported_by_others,
                ),
            };
            assert(texts(items@).to_set() == offered_names(modules@, targets[i as int], visiting));
            add_names(&mut ret, &items, true);
            proof {
                let upto = targets.take(i + 1);
                assert(upto.drop_last() =~= targets.take(i as int));
                assert(upto.last() == targets[i as int]);
                assert forall|name: Seq<char>|
                    names_of(ret).contains(name) <==> forwarded_names(
                        modules@,
                        upto,
                        visiting,
                    ).contains(name) by {
                    assert(texts(items@).contains(name) <==> texts(items@).to_set().contains(name));
                }
                assert(names_of(ret) =~= forwarded_names(modules@, upto, visiting));
            }
            i = i + 1;
        }
        let own = named_export_names(&self.named_exports);
        let ghost forwarded = names_of(ret);
        add_names(&mut ret, &own, false);
        stack.pop();
        proof {
            assert(stack@ =~= old(stack)@);
            assert forall|name: Seq<char>|
                names_of(ret).contains(name) <==> exported_names(
                    modules@,
                    self.id,
                    old(stack)@,
                ).contains(name) by {
                assert(texts(own@).contains(name) <==> texts(own@).to_set().contains(name));
                assert(targets.take(i as int) =~= targets);
            }
            assert(names_of(ret) =~= exported_names(modules@, self.id, old(stack)@));
        }
        ret
    }
}

} // verus!
