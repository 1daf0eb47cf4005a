//! The part of the catalog that a target needs, with its edges reversed.

use crate::config::task_registry::TaskRegistry;
use crate::strings::{contains_string, occurrences, position_of};
use vstd::prelude::*;
use vstd::set_lib::lemma_len_subset;
use vstd::string::StringExecFns;

verus! {

/// Whether each identifier of `path` names a dependency of the one before it.
pub open spec fn is_dependency_path(catalog: &TaskRegistry, path: Seq<Seq<char>>) -> bool {
    &&& path.len() > 0
    &&& forall|i: int|
        0 <= i < path.len() - 1 ==> catalog.dependencies_of(#[trigger] path[i]).contains(
            path[i + 1],
        )
}

/// Whether `to` can be reached from `from` by following dependencies, in any number of
/// steps. Every identifier reaches itself; an identifier the catalog does not hold
/// reaches nothing else.
pub open spec fn reaches(catalog: &TaskRegistry, from: Seq<char>, to: Seq<char>) -> bool {
    exists|path: Seq<Seq<char>>| #[trigger]
        is_dependency_path(catalog, path) && path[0] == from && path.last() == to
}

/// Whether a run for `target` needs `id`: it is the target itself, or a task of the
/// catalog that the target reaches. A dependency that the catalog does not hold is
/// needed by nothing.
pub open spec fn is_needed(catalog: &TaskRegistry, target: Seq<char>, id: Seq<char>) -> bool {
    reaches(catalog, target, id) && (id == target || catalog.contains(id))
}

/// The transitive closure of `target`: the target, and every task of the catalog that
/// the target reaches.
pub open spec fn closure(catalog: &TaskRegistry, target: Seq<char>) -> Set<Seq<char>> {
    Set::new(|id: Seq<char>| is_needed(catalog, target, id))
}

/// Whether `nodes` holds every dependency of `id` that the catalog holds.
pub open spec fn holds_dependencies_of(
    catalog: &TaskRegistry,
    nodes: Seq<Seq<char>>,
    id: Seq<char>,
) -> bool {
    forall|d: Seq<char>| #[trigger]
        catalog.dependencies_of(id).contains(d) ==> catalog.contains(d) ==> nodes.contains(d)
}

/// Every identifier reaches itself.
pub proof fn lemma_reaches_self(catalog: &TaskRegistry, id: Seq<char>)
    ensures
        reaches(catalog, id, id),
{
    let path = seq![id];
    assert(is_dependency_path(catalog, path) && path[0] == id && path.last() == id);
}

/// What reaches a task reaches each of its dependencies.
pub proof fn lemma_reaches_step(
    catalog: &TaskRegistry,
    from: Seq<char>,
    via: Seq<char>,
    to: Seq<char>,
)
    requires
        reaches(catalog, from, via),
        catalog.dependencies_of(via).contains(to),
    ensures
        reaches(catalog, from, to),
{
    let path = choose|path: Seq<Seq<char>>| #[trigger]
        is_dependency_path(catalog, path) && path[0] == from && path.last() == via;
    let longer = path.push(to);
    assert forall|i: int| 0 <= i < longer.len() - 1 implies catalog.dependencies_of(
        #[trigger] longer[i],
    ).contains(longer[i + 1]) by {
        if i < path.len() - 1 {
            assert(longer[i] == path[i]);
            assert(catalog.dependencies_of(path[i]).contains(path[i + 1]));
        }
    }
    assert(is_dependency_path(catalog, longer) && longer[0] == from && longer.last() == to);
}

/// A list that holds the first identifier of a path, and every dependency in the
/// catalog of each of its own members, holds every identifier of the path that the
/// catalog holds.
pub proof fn lemma_closed_list_holds_path(
    catalog: &TaskRegistry,
    nodes: Seq<Seq<char>>,
    path: Seq<Seq<char>>,
    k: int,
)
    requires
        is_dependency_path(catalog, path),
        nodes.contains(path[0]),
        forall|x: Seq<char>| #[trigger] nodes.contains(x) ==> holds_dependencies_of(catalog, nodes, x),
        0 <= k < path.len(),
        k == 0 || catalog.contains(path[k]),
    ensures
        nodes.contains(path[k]),
    decreases k,
{
    if k > 0 {
        assert(catalog.dependencies_of(path[k - 1]).contains(path[k - 1 + 1]));
        assert(catalog.contains(path[k - 1]));
        lemma_closed_list_holds_path(catalog, nodes, path, k - 1);
        assert(holds_dependencies_of(catalog, nodes, path[k - 1]));
    }
}

/// Every dependency named anywhere in a list of tasks, task by task.
pub open spec fn all_dependencies(tasks: Seq<crate::tasks::task::Task>) -> Seq<Seq<char>>
    decreases tasks.len(),
{
    if tasks.len() == 0 {
        Seq::empty()
    } else {
        all_dependencies(tasks.drop_last()) + tasks.last().spec_dependencies()
    }
}

/// The identifiers a traversal from `target` can ever meet: the target and whatever
/// some task names as a dependency.
pub open spec fn mentioned(catalog: &TaskRegistry, target: Seq<char>) -> Set<Seq<char>> {
    all_dependencies(catalog.spec_tasks()).to_set().insert(target)
}

proof fn lemma_all_dependencies_holds(tasks: Seq<crate::tasks::task::Task>, i: int, d: Seq<char>)
    requires
        0 <= i < tasks.len(),
        tasks[i].spec_dependencies().contains(d),
    ensures
        all_dependencies(tasks).contains(d),
    decreases tasks.len(),
{
    let front = all_dependencies(tasks.drop_last());
    let last = tasks.last().spec_dependencies();
    if i == tasks.len() - 1 {
        let k = choose|k: int| 0 <= k < last.len() && last[k] == d;
        assert((front + last)[front.len() + k] == d);
    } else {
        lemma_all_dependencies_holds(tasks.drop_last(), i, d);
        let k = choose|k: int| 0 <= k < front.len() && front[k] == d;
        assert((front + last)[k] == d);
    }
}

/// Whatever the target reaches is the target or a dependency that some task names.
proof fn lemma_reached_is_mentioned(catalog: &TaskRegistry, target: Seq<char>, id: Seq<char>)
    requires
        reaches(catalog, target, id),
    ensures
        mentioned(catalog, target).contains(id),
        mentioned(catalog, target).finite(),
{
    broadcast use vstd::seq_lib::seq_to_set_is_finite;

    let path = choose|path: Seq<Seq<char>>| #[trigger]
        is_dependency_path(catalog, path) && path[0] == target && path.last() == id;
    if path.len() > 1 {
        let via = path[path.len() - 2];
        assert(catalog.dependencies_of(via).contains(path[path.len() - 2 + 1]));
        assert(catalog.contains(via));
        let i = catalog.index_of(via);
        assert(0 <= i < catalog.ids().len() && catalog.ids()[i] == via);
        lemma_all_dependencies_holds(catalog.spec_tasks(), i, id);
    }
}

/// A list without repetition whose members a run for the target all needs is no longer than the
/// set of identifiers a traversal can meet.
proof fn lemma_reached_list_is_bounded(
    catalog: &TaskRegistry,
    target: Seq<char>,
    nodes: Seq<Seq<char>>,
)
    requires
        nodes.no_duplicates(),
        forall|x: Seq<char>| #[trigger] nodes.contains(x) ==> is_needed(catalog, target, x),
    ensures
        nodes.len() <= mentioned(catalog, target).len(),
{
    broadcast use vstd::seq_lib::seq_to_set_is_finite;

    lemma_reaches_self(catalog, target);
    lemma_reached_is_mentioned(catalog, target, target);
    assert forall|x: Seq<char>| nodes.to_set().contains(x) implies mentioned(
        catalog,
        target,
    ).contains(x) by {
        assert(nodes.contains(x));
        lemma_reached_is_mentioned(catalog, target, x);
    }
    lemma_len_subset(nodes.to_set(), mentioned(catalog, target));
    nodes.unique_seq_to_set();
}

/// The part of the catalog that a target needs: every needed task with the list of the
/// tasks that directly depend on it.
#[derive(Debug)]
pub struct DependencyGraph {
    nodes: Vec<String>,
    parents: Vec<Vec<String>>,
}

impl DependencyGraph {
    /// The identifiers the graph holds, in the order they were met.
    pub closed spec fn spec_nodes(&self) -> Seq<Seq<char>> {
        self.nodes.deep_view()
    }

    /// For each identifier of [`Self::spec_nodes`], the tasks that depend on it.
    pub closed spec fn spec_parents(&self) -> Seq<Seq<Seq<char>>> {
        Seq::new(self.parents@.len(), |i: int| self.parents@[i].deep_view())
    }

    /// The graph's invariant: no identifier occurs twice and each has its parent list.
    pub open spec fn wf(&self) -> bool {
        &&& self.spec_nodes().no_duplicates()
        &&& self.spec_parents().len() == self.spec_nodes().len()
    }

    /// Whether the graph holds `id`.
    pub open spec fn contains(&self, id: Seq<char>) -> bool {
        self.spec_nodes().contains(id)
    }

    /// The tasks that directly depend on `id`, one entry for each time they name it;
    /// none for an identifier the graph does not hold.
    pub open spec fn parents_of(&self, id: Seq<char>) -> Seq<Seq<char>> {
        if self.contains(id) {
            self.spec_parents()[self.spec_nodes().index_of(id)]
        } else {
            Seq::empty()
        }
    }

    /// How often `parent` is listed among the parents of `id`.
    pub open spec fn parent_count(&self, id: Seq<char>, parent: Seq<char>) -> nat {
        occurrences(self.parents_of(id), parent)
    }

    /// Whether this is the graph of `target` over `catalog`: it holds exactly the
    /// closure of the target, and the parents of each of its identifiers are exactly the
    /// tasks of the closure that name it as a dependency, once for each naming.
    pub open spec fn is_graph_of(&self, catalog: &TaskRegistry, target: Seq<char>) -> bool {
        &&& self.wf()
        &&& self.spec_nodes().to_set() == closure(catalog, target)
        &&& forall|b: Seq<char>, a: Seq<char>| #[trigger]
            self.contains(b) ==> #[trigger] occurrences(self.parents_of(b), a) == (if self.contains(
                a,
            ) {
                occurrences(catalog.dependencies_of(a), b)
            } else {
                0
            })
    }

    /// Closure correctness: the graph of a target holds an identifier exactly if a run
    /// for the target needs it. In particular it holds the target.
    pub proof fn lemma_holds_closure(&self, catalog: &TaskRegistry, target: Seq<char>, id: Seq<char>)
        requires
            self.is_graph_of(catalog, target),
        ensures
            self.contains(id) <==> is_needed(catalog, target, id),
            self.contains(target),
    {
        lemma_reaches_self(catalog, target);
        assert(self.spec_nodes().to_set().contains(id) == closure(catalog, target).contains(id));
        assert(self.spec_nodes().to_set().contains(target) == closure(catalog, target).contains(
            target,
        ));
    }

    /// The graph leaves out what the catalog lacks: an identifier that is neither the
    /// target nor a task of the catalog is not in the graph, and has no parents.
    pub proof fn lemma_leaves_out_unknown(&self, catalog: &TaskRegistry, target: Seq<char>, id: Seq<char>)
        requires
            self.is_graph_of(catalog, target),
            !catalog.contains(id),
            id != target,
        ensures
            !self.contains(id),
            self.parents_of(id).len() == 0,
    {
        self.lemma_holds_closure(catalog, target, id);
    }

    /// The graph is closed and lists every edge: a dependency of a task of the graph
    /// that the catalog holds is in the graph, and has that task among its parents.
    pub proof fn lemma_lists_every_edge(
        &self,
        catalog: &TaskRegistry,
        target: Seq<char>,
        task: Seq<char>,
        dependency: Seq<char>,
    )
        requires
            self.is_graph_of(catalog, target),
            self.contains(task),
            catalog.dependencies_of(task).contains(dependency),
            catalog.contains(dependency),
        ensures
            self.contains(dependency),
            self.parent_count(dependency, task) > 0,
            self.parents_of(dependency).contains(task),
    {
        self.lemma_holds_closure(catalog, target, task);
        lemma_reaches_step(catalog, target, task, dependency);
        self.lemma_holds_closure(catalog, target, dependency);
        crate::strings::lemma_occurrences_contains(catalog.dependencies_of(task), dependency);
        assert(occurrences(self.parents_of(dependency), task) == occurrences(
            catalog.dependencies_of(task),
            dependency,
        ));
        crate::strings::lemma_occurrences_contains(self.parents_of(dependency), task);
    }

    /// The graph lists nothing but edges: a parent of an identifier is a task of the
    /// graph that names the identifier as a dependency.
    pub proof fn lemma_lists_only_edges(
        &self,
        catalog: &TaskRegistry,
        target: Seq<char>,
        parent: Seq<char>,
        id: Seq<char>,
    )
        requires
            self.is_graph_of(catalog, target),
            self.parents_of(id).contains(parent),
        ensures
            self.contains(id),
            self.contains(parent),
            catalog.dependencies_of(parent).contains(id),
    {
        crate::strings::lemma_occurrences_contains(self.parents_of(id), parent);
        assert(self.contains(id));
        assert(occurrences(self.parents_of(id), parent) == (if self.contains(parent) {
            occurrences(catalog.dependencies_of(parent), id)
        } else {
            0
        }));
        crate::strings::lemma_occurrences_contains(catalog.dependencies_of(parent), id);
    }

    /// Builds the graph of `final_task`: collects the target and the tasks of the
    /// catalog that it reaches, then lists for each collected identifier the collected
    /// tasks that name it as a dependency. A dependency that the catalog does not hold
    /// gets no entry.
    pub fn from_config(config: &TaskRegistry, final_task: &String) -> (graph: Self)
        requires
            config.wf(),
        ensures
            graph.is_graph_of(config, final_task@),
    {
        let nodes = Self::collect_needed_tasks(config, final_task);
        let mut parents: Vec<Vec<String>> = Vec::new();
        let mut n: usize = 0;
        while n < nodes.len()
            invariant
                n <= nodes.len(),
                parents@.len() == n,
                forall|j: int| 0 <= j < n ==> (#[trigger] parents@[j])@.len() == 0,
            decreases nodes.len() - n,
        {
            parents.push(Vec::new());
            n += 1;
        }
        let ghost ids = nodes.deep_view();
        let mut a: usize = 0;
        assert forall|bi: int, x: Seq<char>| 0 <= bi < ids.len() implies #[trigger] occurrences(parents@[bi].deep_view(), x) == listed_so_far(config, ids, 0, 0, ids[bi], x) by {
            assert(parents@[bi].deep_view() =~= Seq::<Seq<char>>::empty());
            assert(ids.subrange(0, 0) =~= Seq::<Seq<char>>::empty());
            assert(config.dependencies_of(x).subrange(0, 0) =~= Seq::<Seq<char>>::empty());
        }
        while a < nodes.len()
            invariant
                config.wf(),
                a <= nodes.len(),
                ids == nodes.deep_view(),
                ids.no_duplicates(),
                ids.to_set() == closure(config, final_task@),
                parents@.len() == nodes.len(),
                forall|bi: int, x: Seq<char>|
                    0 <= bi < ids.len() ==> #[trigger] occurrences(parents@[bi].deep_view(), x)
                        == listed_so_far(config, ids, a as int, 0, ids[bi], x),
            decreases nodes.len() - a,
        {
            let ghost id = ids[a as int];
            assert(nodes@[a as int]@ == id);
            match config.position(&nodes[a]) {
                Some(pos) => {
                    let task = &config.get_tasks_iter()[pos];
                    let deps = task.dependencies();
                    proof {
                        config.lemma_index_of(pos as int);
                        assert(config.dependencies_of(id) == deps.deep_view());
                    }
                    let mut d: usize = 0;
                    while d < deps.len()
                        invariant
                            config.wf(),
                            a < nodes.len(),
                            d <= deps.len(),
                            ids == nodes.deep_view(),
                            ids.no_duplicates(),
                            ids.to_set() == closure(config, final_task@),
                            id == ids[a as int],
                            config.dependencies_of(id) == deps.deep_view(),
                            parents@.len() == nodes.len(),
                            forall|bi: int, x: Seq<char>|
                                0 <= bi < ids.len() ==> #[trigger] occurrences(parents@[bi].deep_view(), x) == listed_so_far(config, ids, a as int, d as int, ids[bi], x),
                        decreases deps.len() - d,
                    {
                        let ghost dep = deps.deep_view()[d as int];
                        assert(deps@[d as int]@ == dep);
                        match position_of(&nodes, &deps[d]) {
                            Some(at) => {
                                let ghost before = parents@;
                                parents[at].push(nodes[a].clone());
                                proof {
                                    assert(ids[at as int] == dep);
                                    let full = config.dependencies_of(id);
                                    assert(full.subrange(0, d + 1).drop_last() =~= full.subrange(
                                        0,
                                        d as int,
                                    ));
                                    assert(full.subrange(0, d + 1).last() == dep);
                                    assert forall|bi: int, x: Seq<char>|
                                        0 <= bi < ids.len() implies #[trigger] occurrences(parents@[bi].deep_view(), x) == listed_so_far(
                                        config,
                                        ids,
                                        a as int,
                                        d + 1,
                                        ids[bi],
                                        x,
                                    ) by {
                                        assert(occurrences(before[bi].deep_view(), x)
                                            == listed_so_far(
                                            config,
                                            ids,
                                            a as int,
                                            d as int,
                                            ids[bi],
                                            x,
                                        ));
                                        if bi == at {
                                            assert(parents@[bi].deep_view() =~= before[bi].deep_view().push(
                                                id,
                                            ));
                                            assert(parents@[bi].deep_view().drop_last()
                                                =~= before[bi].deep_view());
                                        } else {
                                            assert(parents@[bi] == before[bi]);
                                            assert(ids[bi] != ids[at as int]);
                                        }
                                        if ids.subrange(0, a as int).contains(x) {
                                            let k = choose|k: int|
                                                0 <= k < a && ids.subrange(0, a as int)[k] == x;
                                            assert(ids[k] == x);
                                            assert(x != id);
                                        }
                                    }
                                }
                            },
                            None => {
                                proof {
                                    let full = config.dependencies_of(id);
                                    assert(full.subrange(0, d + 1).drop_last() =~= full.subrange(
                                        0,
                                        d as int,
                                    ));
                                    assert(full.subrange(0, d + 1).last() == dep);
                                    assert forall|bi: int, x: Seq<char>|
                                        0 <= bi < ids.len() implies #[trigger] occurrences(
                                        parents@[bi].deep_view(),
                                        x,
                                    ) == listed_so_far(
                                        config,
                                        ids,
                                        a as int,
                                        d + 1,
                                        ids[bi],
                                        x,
                                    ) by {
                                        assert(occurrences(parents@[bi].deep_view(), x)
                                            == listed_so_far(
                                            config,
                                            ids,
                                            a as int,
                                            d as int,
                                            ids[bi],
                                            x,
                                        ));
                                        assert(ids.contains(ids[bi]));
                                        assert(ids[bi] != dep);
                                    }
                                }
                            },
                        }
                        d += 1;
                    }
                    proof {
                        let full = config.dependencies_of(id);
                        assert(full.subrange(0, d as int) =~= full);
                    }
                },
                None => {
                    proof {
                        assert(config.dependencies_of(id) =~= Seq::<Seq<char>>::empty());
                        assert(config.dependencies_of(id).subrange(0, 0) =~= config.dependencies_of(
                            id,
                        ));
                    }
                },
            }
            proof {
                let full = config.dependencies_of(id);
                assert(ids.subrange(0, a + 1).drop_last() =~= ids.subrange(0, a as int));
                assert(ids.subrange(0, a + 1).last() == id);
                assert forall|bi: int, x: Seq<char>| 0 <= bi < ids.len() implies #[trigger] occurrences(parents@[bi].deep_view(), x) == listed_so_far(config, ids, a + 1, 0, ids[bi], x) by {
                    assert(occurrences(parents@[bi].deep_view(), x) == listed_so_far(
                        config,
                        ids,
                        a as int,
                        full.len() as int,
                        ids[bi],
                        x,
                    ));
                    assert(full.subrange(0, full.len() as int) =~= full);
                    assert(config.dependencies_of(x).subrange(0, 0) =~= Seq::<Seq<char>>::empty());
                    vstd::seq_lib::lemma_seq_contains_after_push(ids.subrange(0, a as int), id, x);
                    assert(ids.subrange(0, a + 1) =~= ids.subrange(0, a as int).push(id));
                    if a + 1 < ids.len() && ids[a + 1] == x {
                        assert(x != id);
                        if ids.subrange(0, a as int).contains(x) {
                            let k = choose|k: int| 0 <= k < a && ids.subrange(0, a as int)[k] == x;
                            assert(ids[k] == x);
                        }
                    }
                }
            }
            a += 1;
        }
        let graph = DependencyGraph { nodes, parents };
        proof {
            assert(graph.spec_nodes() == ids);
            assert(ids.subrange(0, ids.len() as int) =~= ids);
            assert forall|b: Seq<char>, x: Seq<char>| #[trigger]
                graph.contains(b) implies #[trigger] occurrences(graph.parents_of(b), x) == (
            if graph.contains(x) {
                occurrences(config.dependencies_of(x), b)
            } else {
                0
            }) by {
                let bi = ids.index_of(b);
                assert(0 <= bi < ids.len() && ids[bi] == b);
                assert(graph.spec_parents()[bi] == graph.parents@[bi].deep_view());
                assert(occurrences(graph.parents@[bi].deep_view(), x) == listed_so_far(
                    config,
                    ids,
                    ids.len() as int,
                    0,
                    ids[bi],
                    x,
                ));
            }
        }
        graph
    }

    /// The tasks that directly depend on `task_id`, if the graph holds it.
    pub fn get_parent_by_id(&self, task_id: &str) -> (res: Option<&Vec<String>>)
        requires
            self.wf(),
        ensures
            res.is_some() == self.contains(task_id@),
            res matches Some(parents) ==> parents.deep_view() == self.parents_of(task_id@),
    {
        let owned = String::from_str(task_id);
        match position_of(&self.nodes, &owned) {
            Some(i) => {
                proof {
                    let ids = self.spec_nodes();
                    assert(ids[i as int] == task_id@);
                    let k = ids.index_of(task_id@);
                    assert(0 <= k < ids.len() && ids[k] == task_id@);
                    assert(self.spec_parents()[i as int] == self.parents@[i as int].deep_view());
                }
                Some(&self.parents[i])
            },
            None => None,
        }
    }

    /// Every identifier of the graph with the tasks that directly depend on it.
    pub fn get_task_parents_iter(&self) -> (res: Vec<(&String, &Vec<String>)>)
        requires
            self.wf(),
        ensures
            res@.len() == self.spec_nodes().len(),
            forall|i: int|
                0 <= i < res@.len() ==> (#[trigger] res@[i]).0@ == self.spec_nodes()[i]
                    && res@[i].1.deep_view() == self.spec_parents()[i],
    {
        let mut out: Vec<(&String, &Vec<String>)> = Vec::new();
        let mut i: usize = 0;
        while i < self.nodes.len()
            invariant
                self.wf(),
                i <= self.nodes.len(),
                out@.len() == i,
                forall|j: int|
                    0 <= j < i ==> (#[trigger] out@[j]).0@ == self.spec_nodes()[j]
                        && out@[j].1.deep_view() == self.spec_parents()[j],
            decreases self.nodes.len() - i,
        {
            out.push((&self.nodes[i], &self.parents[i]));
            i += 1;
        }
        out
    }

    /// Collects the target and every task of the catalog that it reaches, the target
    /// first.
    fn collect_needed_tasks(config: &TaskRegistry, final_task: &String) -> (needed: Vec<String>)
        requires
            config.wf(),
        ensures
            needed.deep_view().no_duplicates(),
            needed.deep_view().to_set() == closure(config, final_task@),
    {
        let mut needed: Vec<String> = Vec::new();
        proof {
            lemma_reaches_self(config, final_task@);
            assert(needed.deep_view() =~= Seq::<Seq<char>>::empty());
        }
        Self::collect_dependencies_recursive(config, final_task, &mut needed, Ghost(final_task@));
        proof {
            let nodes = needed.deep_view();
            assert forall|x: Seq<char>| closure(config, final_task@).contains(x) implies nodes.contains(
                x,
            ) by {
                if x != final_task@ {
                    let path = choose|path: Seq<Seq<char>>| #[trigger]
                        is_dependency_path(config, path) && path[0] == final_task@ && path.last()
                            == x;
                    lemma_closed_list_holds_path(config, nodes, path, path.len() - 1);
                }
            }
            assert(nodes.to_set() =~= closure(config, final_task@));
        }
        needed
    }

    /// Depth-first step: adds `task_id` and, through its dependencies, whatever it
    /// reaches that `needed` does not hold yet. An identifier already held ends the
    /// descent, which is what makes a cycle harmless. A dependency that the catalog
    /// does not hold is passed over.
    fn collect_dependencies_recursive(
        config: &TaskRegistry,
        task_id: &String,
        needed: &mut Vec<String>,
        Ghost(target): Ghost<Seq<char>>,
    )
        requires
            config.wf(),
            old(needed).deep_view().no_duplicates(),
            forall|x: Seq<char>| #[trigger]
                old(needed).deep_view().contains(x) ==> is_needed(config, target, x),
            is_needed(config, target, task_id@),
        ensures
            final(needed).deep_view().no_duplicates(),
            forall|x: Seq<char>| #[trigger]
                final(needed).deep_view().contains(x) ==> is_needed(config, target, x),
            forall|x: Seq<char>| #[trigger]
                old(needed).deep_view().contains(x) ==> final(needed).deep_view().contains(x),
            final(needed).deep_view().contains(task_id@),
            final(needed)@.len() >= old(needed)@.len(),
            forall|x: Seq<char>| #[trigger]
                final(needed).deep_view().contains(x) && !old(needed).deep_view().contains(x)
                    ==> holds_dependencies_of(config, final(needed).deep_view(), x),
        decreases mentioned(config, target).len() - old(needed)@.len(),
    {
        if contains_string(needed, task_id) {
            return ;
        }
        let ghost before = needed.deep_view();
        needed.push(task_id.clone());
        let ghost entered = needed.deep_view();
        proof {
            assert(entered =~= before.push(task_id@));
            assert forall|x: Seq<char>| #[trigger] entered.contains(x) implies is_needed(config, target, x) by {
                vstd::seq_lib::lemma_seq_contains_after_push(before, task_id@, x);
            }
            assert forall|x: Seq<char>| #[trigger] before.contains(x) implies entered.contains(
                x,
            ) by {
                vstd::seq_lib::lemma_seq_contains_after_push(before, task_id@, x);
            }
            vstd::seq_lib::lemma_seq_contains_after_push(before, task_id@, task_id@);
            assert(entered.no_duplicates()) by {
                assert forall|i: int, j: int|
                    0 <= i < entered.len() && 0 <= j < entered.len() && i != j implies entered[i]
                    != entered[j] by {
                    if i < before.len() && j < before.len() {
                        assert(before[i] != before[j]);
                    } else if i < before.len() {
                        assert(before.contains(before[i]));
                    } else {
                        assert(before.contains(before[j]));
                    }
                }
            }
            lemma_reached_list_is_bounded(config, target, entered);
        }
        match config.position(task_id) {
            Some(pos) => {
                let task = &config.get_tasks_iter()[pos];
                let deps = task.dependencies();
                proof {
                    config.lemma_index_of(pos as int);
                    assert(config.dependencies_of(task_id@) == deps.deep_view());
                }
                let mut k: usize = 0;
                while k < deps.len()
                    invariant
                        config.wf(),
                        k <= deps.len(),
                        config.dependencies_of(task_id@) == deps.deep_view(),
                        is_needed(config, target, task_id@),
                        entered.len() == before.len() + 1,
                        before.len() == old(needed)@.len(),
                        needed@.len() >= entered.len(),
                        needed@.len() <= mentioned(config, target).len(),
                        needed.deep_view().no_duplicates(),
                        forall|x: Seq<char>| #[trigger]
                            needed.deep_view().contains(x) ==> is_needed(config, target, x),
                        forall|x: Seq<char>| #[trigger]
                            entered.contains(x) ==> needed.deep_view().contains(x),
                        forall|j: int|
                            0 <= j < k && config.contains(#[trigger] deps.deep_view()[j])
                                ==> needed.deep_view().contains(deps.deep_view()[j]),
                        forall|x: Seq<char>| #[trigger]
                            needed.deep_view().contains(x) && !entered.contains(x)
                                ==> holds_dependencies_of(config, needed.deep_view(), x),
                    decreases deps.len() - k,
                {
                    let ghost held = needed.deep_view();
                    let ghost dep = deps.deep_view()[k as int];
                    proof {
                        assert(deps@[k as int]@ == dep);
                        assert(config.dependencies_of(task_id@).contains(dep));
                        lemma_reaches_step(config, target, task_id@, dep);
                    }
                    if config.position(&deps[k]).is_some() {
                        Self::collect_dependencies_recursive(
                            config,
                            &deps[k],
                            needed,
                            Ghost(target),
                        );
                    }
                    proof {
                        let grown = needed.deep_view();
                        lemma_reached_list_is_bounded(config, target, grown);
                        assert forall|x: Seq<char>| #[trigger]
                            grown.contains(x) && !entered.contains(x) implies holds_dependencies_of(
                            config,
                            grown,
                            x,
                        ) by {
                            if held.contains(x) {
                                assert(holds_dependencies_of(config, held, x));
                                assert forall|d: Seq<char>| #[trigger]
                                    config.dependencies_of(x).contains(d) && config.contains(
                                        d,
                                    ) implies grown.contains(d) by {
                                    assert(held.contains(d));
                                }
                            }
                        }
                        assert forall|j: int|
                            0 <= j < k + 1 && config.contains(
                                #[trigger] deps.deep_view()[j],
                            ) implies grown.contains(deps.deep_view()[j]) by {
                            if j < k {
                                assert(held.contains(deps.deep_view()[j]));
                            }
                        }
                    }
                    k += 1;
                }
                proof {
                    let grown = needed.deep_view();
                    assert(holds_dependencies_of(config, grown, task_id@)) by {
                        assert forall|d: Seq<char>| #[trigger]
                            config.dependencies_of(task_id@).contains(d) && config.contains(
                                d,
                            ) implies grown.contains(d) by {
                            let j = choose|j: int|
                                0 <= j < deps.deep_view().len() && deps.deep_view()[j] == d;
                            assert(config.contains(deps.deep_view()[j]));
                        }
                    }
                }
            },
            None => {
                proof {
                    assert(config.dependencies_of(task_id@) =~= Seq::<Seq<char>>::empty());
                    assert(holds_dependencies_of(config, needed.deep_view(), task_id@));
                }
            },
        }
        proof {
            let grown = needed.deep_view();
            assert forall|x: Seq<char>| #[trigger]
                grown.contains(x) && !before.contains(x) implies holds_dependencies_of(
                config,
                grown,
                x,
            ) by {
                if entered.contains(x) {
                    vstd::seq_lib::lemma_seq_contains_after_push(before, task_id@, x);
                    assert(x == task_id@);
                }
            }
        }
    }
}

/// How often `a` must be listed as a parent of `b` once the first `done` identifiers of
/// `nodes` have been handled in full and the next one up to its first `partial`
/// dependencies.
pub open spec fn listed_so_far(
    catalog: &TaskRegistry,
    nodes: Seq<Seq<char>>,
    done: int,
    partial: int,
    b: Seq<char>,
    a: Seq<char>,
) -> nat {
    if nodes.subrange(0, done).contains(a) {
        occurrences(catalog.dependencies_of(a), b)
    } else if done < nodes.len() && nodes[done] == a {
        occurrences(catalog.dependencies_of(a).subrange(0, partial), b)
    } else {
        0
    }
}

} // verus!
