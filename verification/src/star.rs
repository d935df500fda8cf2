//! The modules that a module reaches through `export *`.
use crate::exports::{
    exported_names, lemma_forwarded_names, lemma_unvisited_push, offered_names, unvisited,
};
use crate::graph::{consistent, default_name, linkable, member, Module, NormalModule};
use crate::ids::ModuleId;
use crate::tables::{
    module_id_set_contains, module_id_set_insert, module_id_set_new, module_ids_of, ModuleVec,
};
use vstd::prelude::*;

verus! {

/// Whether the normal module `from` has an `export *` declaration with the
/// target `to`.
pub open spec fn star_edge(graph: Seq<Module>, from: ModuleId, to: ModuleId) -> bool {
    &&& from.0 < graph.len()
    &&& graph[from.0 as int] matches Module::Normal(module)
    &&& module.star_targets().contains(to)
}

/// Whether each module of `path` has an `export *` declaration with the next
/// as its target.
pub open spec fn star_path(graph: Seq<Module>, path: Seq<ModuleId>) -> bool {
    forall|i: int| 0 <= i < path.len() - 1 ==> star_edge(graph, #[trigger] path[i], path[i + 1])
}

/// Whether `to` is reached from `from` through one or more `export *`
/// declarations.
pub open spec fn star_reachable(graph: Seq<Module>, from: ModuleId, to: ModuleId) -> bool {
    exists|path: Seq<ModuleId>|
        path.len() >= 2 && path.first() == from && path.last() == to && #[trigger] star_path(
            graph,
            path,
        )
}

/// The target of an `export *` declaration is reached.
pub proof fn lemma_reach_edge(graph: Seq<Module>, from: ModuleId, to: ModuleId)
    requires
        star_edge(graph, from, to),
    ensures
        star_reachable(graph, from, to),
{
    let path = seq![from, to];
    assert(star_path(graph, path));
}

/// What a reached module's `export *` declaration targets is reached.
pub proof fn lemma_reach_step(graph: Seq<Module>, from: ModuleId, via: ModuleId, to: ModuleId)
    requires
        star_reachable(graph, from, via),
        star_edge(graph, via, to),
    ensures
        star_reachable(graph, from, to),
{
    let path = choose|path: Seq<ModuleId>|
        path.len() >= 2 && path.first() == from && path.last() == via && #[trigger] star_path(
            graph,
            path,
        );
    let longer = path.push(to);
    assert forall|i: int| 0 <= i < longer.len() - 1 implies star_edge(
        graph,
        #[trigger] longer[i],
        longer[i + 1],
    ) by {
        if i < path.len() - 1 {
            assert(star_edge(graph, path[i], path[i + 1]));
        }
    }
    assert(star_path(graph, longer));
}

/// A set that holds the targets of `from` and, with a module, the targets of
/// that module holds whatever a path from `from` passes.
proof fn lemma_closed(graph: Seq<Module>, from: ModuleId, closed: Seq<ModuleId>, path: Seq<ModuleId>, k: int)
    requires
        star_path(graph, path),
        path.len() >= 2,
        path.first() == from,
        1 <= k < path.len(),
        forall|v: ModuleId, w: ModuleId|
            (v == from || closed.contains(v)) && #[trigger] star_edge(graph, v, w)
                ==> closed.contains(w),
    ensures
        closed.contains(path[k]),
    decreases k,
{
    if k > 1 {
        lemma_closed(graph, from, closed, path, k - 1);
    }
    assert(star_edge(graph, path[k - 1], path[k - 1 + 1]));
}

/// What an `export *` declaration that reaches a module prepends to a path
/// from that module.
pub proof fn lemma_reach_from_target(graph: Seq<Module>, from: ModuleId, via: ModuleId, to: ModuleId)
    requires
        star_edge(graph, from, via),
        star_reachable(graph, via, to),
    ensures
        star_reachable(graph, from, to),
{
    let path = choose|path: Seq<ModuleId>|
        path.len() >= 2 && path.first() == via && path.last() == to && #[trigger] star_path(
            graph,
            path,
        );
    let longer = seq![from] + path;
    assert forall|i: int| 0 <= i < longer.len() - 1 implies star_edge(
        graph,
        #[trigger] longer[i],
        longer[i + 1],
    ) by {
        if i > 0 {
            assert(star_edge(graph, path[i - 1], path[i - 1 + 1]));
        }
    }
    assert(star_path(graph, longer));
}

/// A path between two different modules can be cut down to one that passes
/// no module twice.
proof fn lemma_simple_path(graph: Seq<Module>, path: Seq<ModuleId>) -> (simple: Seq<ModuleId>)
    requires
        path.len() >= 2,
        star_path(graph, path),
        path.first() != path.last(),
    ensures
        simple.len() >= 2,
        star_path(graph, simple),
        simple.first() == path.first(),
        simple.last() == path.last(),
        simple.no_duplicates(),
    decreases path.len(),
{
    if path.no_duplicates() {
        path
    } else {
        let (a, b) = choose|a: int, b: int|
            0 <= a < path.len() && 0 <= b < path.len() && a != b && path[a] == path[b];
        let i = if a < b { a } else { b };
        let j = if a < b { b } else { a };
        let cut = path.take(i + 1) + path.skip(j + 1);
        assert forall|k: int| 0 <= k < cut.len() - 1 implies star_edge(
            graph,
            #[trigger] cut[k],
            cut[k + 1],
        ) by {
            if k < i {
                assert(star_edge(graph, path[k], path[k + 1]));
            } else if k == i {
                assert(star_edge(graph, path[j], path[j + 1]));
            } else {
                assert(star_edge(graph, path[k + j - i], path[k + j - i + 1]));
            }
        }
        assert(star_path(graph, cut));
        lemma_simple_path(graph, cut)
    }
}

/// Whether the module `target` has the name `name` in its own table: its
/// table of exports, or its usage table if it is external.
pub open spec fn holds_name(graph: Seq<Module>, target: ModuleId, name: Seq<char>) -> bool {
    match graph[target.0 as int] {
        Module::Normal(module) => module.exports().contains_key(name),
        Module::External(external) => external.symbols().contains_key(name),
    }
}

/// A name that a module exports is in its own table, or it is in the table
/// of a module that `export *` reaches, and is not `default`.
proof fn lemma_exported_is_held(
    graph: Seq<Module>,
    module: ModuleId,
    stack: Seq<ModuleId>,
    name: Seq<char>,
)
    requires
        linkable(graph),
        module.0 < graph.len(),
        graph[module.0 as int] is Normal,
        exported_names(graph, module, stack).contains(name),
    ensures
        holds_name(graph, module, name) || (name != default_name() && exists|target: ModuleId|
            #[trigger] star_reachable(graph, module, target) && holds_name(graph, target, name)),
    decreases unvisited(graph.len(), stack).len(),
{
    let own = graph[module.0 as int]->Normal_0;
    if !own.exports().contains_key(name) {
        let targets = own.star_targets();
        let deeper = stack.push(module);
        assert(consistent(own, graph));
        lemma_forwarded_names(graph, targets, deeper, name);
        let i = choose|i: int|
            0 <= i < targets.len() && #[trigger] offered_names(graph, targets[i], deeper).contains(
                name,
            );
        let next = targets[i];
        assert(star_edge(graph, module, next));
        lemma_reach_edge(graph, module, next);
        match graph[next.0 as int] {
            Module::Normal(_) => {
                lemma_unvisited_push(graph.len(), stack, module);
                lemma_exported_is_held(graph, next, deeper, name);
                if !holds_name(graph, next, name) {
                    let target = choose|target: ModuleId|
                        #[trigger] star_reachable(graph, next, target) && holds_name(
                            graph,
                            target,
                            name,
                        );
                    lemma_reach_from_target(graph, module, next, target);
                }
            },
            Module::External(_) => {},
        }
    }
}

/// A module exports the names that the module at the end of a path of
/// `export *` declarations holds, but `default`, if the path passes no
/// module twice and none that is on the stack.
proof fn lemma_held_is_exported(
    graph: Seq<Module>,
    path: Seq<ModuleId>,
    stack: Seq<ModuleId>,
    name: Seq<char>,
)
    requires
        linkable(graph),
        path.len() >= 2,
        star_path(graph, path),
        path.no_duplicates(),
        forall|i: int| 0 <= i < path.len() ==> !stack.contains(#[trigger] path[i]),
        holds_name(graph, path.last(), name),
        name != default_name(),
    ensures
        exported_names(graph, path.first(), stack).contains(name),
    decreases path.len(),
{
    let module = path[0];
    let next = path[1];
    let deeper = stack.push(module);
    assert(star_edge(graph, path[0], path[0int + 1]));
    let own = graph[module.0 as int]->Normal_0;
    let targets = own.star_targets();
    assert(consistent(own, graph));
    let i = choose|i: int| 0 <= i < targets.len() && targets[i] == next;
    assert forall|k: int| 1 <= k < path.len() implies !deeper.contains(#[trigger] path[k]) by {
        if deeper.contains(path[k]) {
            let at = choose|at: int| 0 <= at < deeper.len() && deeper[at] == path[k];
            if at < stack.len() {
                assert(stack[at] == path[k]);
            }
        }
    }
    if path.len() > 2 {
        let rest = path.skip(1);
        assert forall|k: int| 0 <= k < rest.len() - 1 implies star_edge(
            graph,
            #[trigger] rest[k],
            rest[k + 1],
        ) by {
            assert(star_edge(graph, path[k + 1], path[k + 1 + 1]));
        }
        assert forall|k: int| 0 <= k < rest.len() implies !deeper.contains(#[trigger] rest[k]) by {
            assert(rest[k] == path[k + 1]);
        }
        assert(rest.last() == path.last());
        lemma_held_is_exported(graph, rest, deeper, name);
        assert(star_edge(graph, path[1], path[1int + 1]));
    } else {
        assert(next == path.last());
        if graph[next.0 as int] is Normal {
            assert(!deeper.contains(path[1]));
        }
    }
    assert(offered_names(graph, targets[i], deeper).contains(name));
    lemma_forwarded_names(graph, targets, deeper, name);
}

/// The names that a module exports are those of its own table and, but for
/// `default`, those of the table of every module that its `export *`
/// declarations reach, directly or through others.
pub proof fn lemma_exported_names_reach(graph: Seq<Module>, module: ModuleId, name: Seq<char>)
    requires
        linkable(graph),
        module.0 < graph.len(),
        graph[module.0 as int] is Normal,
    ensures
        exported_names(graph, module, Seq::empty()).contains(name) <==> holds_name(
            graph,
            module,
            name,
        ) || (name != default_name() && exists|target: ModuleId|
            #[trigger] star_reachable(graph, module, target) && holds_name(graph, target, name)),
{
    let stack = Seq::<ModuleId>::empty();
    if exported_names(graph, module, stack).contains(name) {
        lemma_exported_is_held(graph, module, stack, name);
    }
    if !holds_name(graph, module, name) && name != default_name() && exists|target: ModuleId|
        #[trigger] star_reachable(graph, module, target) && holds_name(graph, target, name) {
        let target = choose|target: ModuleId|
            #[trigger] star_reachable(graph, module, target) && holds_name(graph, target, name);
        let path = choose|path: Seq<ModuleId>|
            path.len() >= 2 && path.first() == module && path.last() == target
                && #[trigger] star_path(graph, path);
        let simple = lemma_simple_path(graph, path);
        lemma_held_is_exported(graph, simple, stack, name);
    }
}

/// Appends to `queue` the targets of the `export *` declarations of `module`.
fn queue_star_targets(module: &NormalModule, queue: &mut Vec<ModuleId>)
    requires
        forall|i: int|
            0 <= i < module.star_exports@.len() ==> (#[trigger] module.star_exports@[i]).0
                < module.records().len(),
    ensures
        final(queue)@ == old(queue)@ + module.star_targets(),
{
    let mut i: usize = 0;
    while i < module.star_exports.len()
        invariant
            i <= module.star_exports@.len(),
            forall|i: int|
                0 <= i < module.star_exports@.len() ==> (#[trigger] module.star_exports@[i]).0
                    < module.records().len(),
            queue@ == old(queue)@ + module.star_targets().take(i as int),
        decreases module.star_exports@.len() - i,
    {
        let record = module.import_records.get(module.star_exports[i]);
        queue.push(record.resolved_module);
        assert(module.star_targets().take(i + 1) =~= module.star_targets().take(i as int).push(
            record.resolved_module,
        ));
        assert(queue@ =~= old(queue)@ + module.star_targets().take(i + 1));
        i = i + 1;
    }
    assert(module.star_targets().take(i as int) =~= module.star_targets());
}

impl NormalModule {
    /// The modules that this module reaches through one or more `export *`
    /// declarations, each once, in no particular order. An external module
    /// is reached and ends the path that reaches it. The walk ends on every
    /// graph: no module is entered twice.
    pub fn resolve_star_exports(&self, modules: &ModuleVec) -> (resolved: Vec<ModuleId>)
        requires
            linkable(modules@),
            member(modules@, *self),
        ensures
            resolved@.no_duplicates(),
            forall|id: ModuleId|
                resolved@.contains(id) <==> star_reachable(modules@, self.id, id),
    {
        let ghost graph = modules@;
        let mut visited = module_id_set_new();
        let mut resolved: Vec<ModuleId> = Vec::new();
        let mut queue: Vec<ModuleId> = Vec::new();
        assert(consistent(*self, graph));
        queue_star_targets(self, &mut queue);
        proof {
            assert(queue@ =~= self.star_targets());
            assert forall|j: int| 0 <= j < queue@.len() implies (#[trigger] queue@[j]).0
                < graph.len() && star_reachable(graph, self.id, queue@[j]) by {
                assert(star_edge(graph, self.id, queue@[j]));
                lemma_reach_edge(graph, self.id, queue@[j]);
            }
        }
        while queue.len() > 0
            invariant
                graph == modules@,
                linkable(graph),
                member(graph, *self),
                resolved@.no_duplicates(),
                forall|id: ModuleId| #[trigger]
                    module_ids_of(visited).contains(id) <==> resolved@.contains(id),
                forall|j: int|
                    0 <= j < queue@.len() ==> (#[trigger] queue@[j]).0 < graph.len()
                        && star_reachable(graph, self.id, queue@[j]),
                forall|j: int|
                    0 <= j < resolved@.len() ==> (#[trigger] resolved@[j]).0 < graph.len()
                        && star_reachable(graph, self.id, resolved@[j]),
                forall|v: ModuleId, w: ModuleId|
                    (v == self.id || resolved@.contains(v)) && #[trigger] star_edge(graph, v, w)
                        ==> resolved@.contains(w) || queue@.contains(w),
            decreases unvisited(graph.len(), resolved@).len(), queue@.len(),
        {
            let ghost queued = queue@;
            let ghost seen = resolved@;
            let importee_id = queue.pop().unwrap();
            assert(queued =~= queue@.push(importee_id));
            if !module_id_set_contains(&visited, importee_id) {
                module_id_set_insert(&mut visited, importee_id);
                resolved.push(importee_id);
                let ghost waiting = queue@;
                match modules.get(importee_id) {
                    Module::Normal(importee) => {
                        assert(consistent(*importee, graph));
                        queue_star_targets(importee, &mut queue);
                    },
                    Module::External(_) => {},
                }
                proof {
                    lemma_unvisited_push(graph.len(), seen, importee_id);
                    assert forall|id: ModuleId| #[trigger]
                        module_ids_of(visited).contains(id) <==> resolved@.contains(id) by {
                        if seen.contains(id) {
                            let j = choose|j: int| 0 <= j < seen.len() && seen[j] == id;
                            assert(resolved@[j] == id);
                        }
                        assert(resolved@[seen.len() as int] == importee_id);
                    }
                    assert forall|j: int| 0 <= j < queue@.len() implies (#[trigger] queue@[j]).0
                        < graph.len() && star_reachable(graph, self.id, queue@[j]) by {
                        if j < waiting.len() {
                            assert(queue@[j] == queued[j]);
                        } else {
                            let importee = graph[importee_id.0 as int]->Normal_0;
                            let target = importee.star_targets()[j - waiting.len()];
                            assert(queue@[j] == target);
                            assert(star_edge(graph, importee_id, target));
                            assert(star_reachable(graph, self.id, queued[queued.len() - 1]));
                            lemma_reach_step(graph, self.id, importee_id, target);
                        }
                    }
                    assert forall|j: int| 0 <= j < resolved@.len() implies (#[trigger] resolved@[j]).0
                        < graph.len() && star_reachable(graph, self.id, resolved@[j]) by {
                        if j < seen.len() {
                            assert(resolved@[j] == seen[j]);
                        } else {
                            assert(resolved@[j] == queued[queued.len() - 1]);
                        }
                    }
                    assert forall|v: ModuleId, w: ModuleId|
                        (v == self.id || resolved@.contains(v)) && #[trigger] star_edge(
                            graph,
                            v,
                            w,
                        ) implies resolved@.contains(w) || queue@.contains(w) by {
                        if v != self.id && !seen.contains(v) {
                            let j = choose|j: int| 0 <= j < resolved@.len() && resolved@[j] == v;
                            assert(v == importee_id);
                            let importee = graph[importee_id.0 as int]->Normal_0;
                            let k = choose|k: int|
                                0 <= k < importee.star_targets().len() && importee.star_targets()[k]
                                    == w;
                            assert(queue@[waiting.len() + k] == w);
                        } else {
                            if seen.contains(w) {
                                let j = choose|j: int| 0 <= j < seen.len() && seen[j] == w;
                                assert(resolved@[j] == w);
                            } else {
                                let j = choose|j: int| 0 <= j < queued.len() && queued[j] == w;
                                if j < waiting.len() {
                                    assert(queue@[j] == w);
                                } else {
                                    assert(resolved@[seen.len() as int] == w);
                                }
                            }
                        }
                    }
                }
            } else {
                proof {
                    assert forall|v: ModuleId, w: ModuleId|
                        (v == self.id || resolved@.contains(v)) && #[trigger] star_edge(
                            graph,
                            v,
                            w,
                        ) implies resolved@.contains(w) || queue@.contains(w) by {
                        if !resolved@.contains(w) {
                            let j = choose|j: int| 0 <= j < queued.len() && queued[j] == w;
                            assert(queue@[j] == w);
                        }
                    }
                    assert forall|j: int| 0 <= j < queue@.len() implies (#[trigger] queue@[j]).0
                        < graph.len() && star_reachable(graph, self.id, queue@[j]) by {
                        assert(queue@[j] == queued[j]);
                    }
                }
            }
        }
        proof {
            assert forall|id: ModuleId| resolved@.contains(id) <==> star_reachable(
                graph,
                self.id,
                id,
            ) by {
                if resolved@.contains(id) {
                    let j = choose|j: int| 0 <= j < resolved@.len() && resolved@[j] == id;
                    assert(star_reachable(graph, self.id, resolved@[j]));
                }
                if star_reachable(graph, self.id, id) {
                    let path = choose|path: Seq<ModuleId>|
                        path.len() >= 2 && path.first() == self.id && path.last() == id
                            && #[trigger] star_path(graph, path);
                    assert forall|v: ModuleId, w: ModuleId|
                        (v == self.id || resolved@.contains(v)) && #[trigger] star_edge(
                            graph,
                            v,
                            w,
                        ) implies resolved@.contains(w) by {
                        assert(!queue@.contains(w));
                    }
                    lemma_closed(graph, self.id, resolved@, path, path.len() - 1);
                }
            }
        }
        resolved
    }
}

} // verus!
