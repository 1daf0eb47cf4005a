//! The scheduler: which tasks may start, and what each completion event leads to.
//!
//! The scheduler is a state machine. Starting a run yields the tasks without
//! dependencies; every completion event then yields the tasks whose last dependency
//! has just completed, until the target completes or a task fails. Running the tasks
//! and delivering their completion events is the caller's part.

use crate::application::runtime_config::RuntimeConfig;
use crate::config::task_registry::{task_ids, TaskRegistry};
use crate::executor::dependency_graph::{
    closure, holds_dependencies_of, is_dependency_path, lemma_closed_list_holds_path,
    DependencyGraph,
};
use crate::file_dependencies::dependency_tracker::{recorded, DependencyTracker, PathProbe};
use crate::strings::{
    lemma_occurrences_contains, lemma_occurrences_prefix, lemma_occurrences_step, occurrences,
};
use crate::tasks::task::{Task, TaskError};
use vstd::prelude::*;

verus! {

/// Number of worker threads when the machine's parallelism is unknown.
pub const DEFAULT_WORKER_THREADS: usize = 1;

/// Why no executor could be set up.
#[derive(Debug)]
pub enum ExecutorCreationError {
    /// The worker pool could not be built; `source` is the system's message.
    DispatcherError { source: String },
}

/// Why a run ended without completing its target.
#[derive(Debug)]
pub enum ExecutionError {
    /// The worker pool refused a task.
    TaskDispatchError { task_id: String, error: String },
    /// A task failed.
    TaskExecutionError { source: TaskError },
    /// No completion event can arrive any more, and the target has not completed.
    ExecutionEndedPrematurely,
}

/// What to do with a task that has become ready.
#[derive(Debug)]
pub enum Dispatch {
    /// The task is up to date: it counts as completed without running.
    Skip(String),
    /// The task has to run.
    Run(Task),
}

/// How the dispatch of a ready task begins.
#[derive(Debug)]
pub enum DispatchStep {
    /// No fingerprints are saved for the task: it has to run, whatever its inputs hold.
    Run(Task),
    /// Fingerprints are saved for the task: its inputs have to be looked at, and
    /// [`Executor::dispatch_task`] then decides.
    Compare(Task),
}

/// What a completion event leads to.
#[derive(Debug)]
pub enum Progress {
    /// The run goes on; these tasks have become ready.
    Ready(Vec<Task>),
    /// The run is over: with the completed tasks in completion order, or with an error.
    Finished(Result<Vec<String>, ExecutionError>),
}

/// How many positions of `deps` hold a member of `done`.
pub open spec fn completed_among(deps: Seq<Seq<char>>, done: Seq<Seq<char>>) -> nat
    decreases deps.len(),
{
    if deps.len() == 0 {
        0
    } else {
        completed_among(deps.drop_last(), done) + if done.contains(deps.last()) {
            1nat
        } else {
            0nat
        }
    }
}

/// All positions of `deps` hold a member of `done` exactly when their count says so.
pub proof fn lemma_completed_among_all(deps: Seq<Seq<char>>, done: Seq<Seq<char>>)
    ensures
        completed_among(deps, done) <= deps.len(),
        completed_among(deps, done) == deps.len() <==> forall|j: int|
            0 <= j < deps.len() ==> done.contains(#[trigger] deps[j]),
    decreases deps.len(),
{
    if deps.len() > 0 {
        let front = deps.drop_last();
        lemma_completed_among_all(front, done);
        if completed_among(deps, done) == deps.len() {
            assert forall|j: int| 0 <= j < deps.len() implies done.contains(#[trigger] deps[j]) by {
                if j < front.len() {
                    assert(front[j] == deps[j]);
                }
            }
        }
        if forall|j: int| 0 <= j < deps.len() ==> done.contains(#[trigger] deps[j]) {
            assert forall|j: int| 0 <= j < front.len() implies done.contains(
                #[trigger] front[j],
            ) by {
                assert(front[j] == deps[j]);
            }
            assert(done.contains(deps[deps.len() - 1]));
        }
    }
}

/// One more completed task covers exactly the positions that name it.
pub proof fn lemma_completed_among_push(deps: Seq<Seq<char>>, done: Seq<Seq<char>>, id: Seq<char>)
    requires
        !done.contains(id),
    ensures
        completed_among(deps, done.push(id)) == completed_among(deps, done) + occurrences(deps, id),
    decreases deps.len(),
{
    if deps.len() > 0 {
        lemma_completed_among_push(deps.drop_last(), done, id);
        vstd::seq_lib::lemma_seq_contains_after_push(done, id, deps.last());
    }
}

/// The identifiers of `nodes` that the catalog holds without any dependency, in order:
/// the tasks a run starts with.
pub open spec fn initial_ids(catalog: &TaskRegistry, nodes: Seq<Seq<char>>) -> Seq<Seq<char>>
    decreases nodes.len(),
{
    if nodes.len() == 0 {
        Seq::empty()
    } else if catalog.contains(nodes.last()) && catalog.dependencies_of(nodes.last()).len() == 0 {
        initial_ids(catalog, nodes.drop_last()).push(nodes.last())
    } else {
        initial_ids(catalog, nodes.drop_last())
    }
}

/// The tasks a run starts with are the members of `nodes` that the catalog holds
/// without any dependency, each once where `nodes` holds nothing twice.
pub proof fn lemma_initial_ids(catalog: &TaskRegistry, nodes: Seq<Seq<char>>)
    requires
        nodes.no_duplicates(),
    ensures
        initial_ids(catalog, nodes).no_duplicates(),
        forall|x: Seq<char>| #[trigger]
            initial_ids(catalog, nodes).contains(x) <==> nodes.contains(x) && catalog.contains(x)
                && catalog.dependencies_of(x).len() == 0,
    decreases nodes.len(),
{
    if nodes.len() > 0 {
        let front = nodes.drop_last();
        let last = nodes.last();
        lemma_initial_ids(catalog, front);
        let seeds = initial_ids(catalog, nodes);
        let before = initial_ids(catalog, front);
        assert(nodes =~= front.push(last));
        assert forall|x: Seq<char>| #[trigger]
            seeds.contains(x) <==> nodes.contains(x) && catalog.contains(x)
                && catalog.dependencies_of(x).len() == 0 by {
            vstd::seq_lib::lemma_seq_contains_after_push(front, last, x);
            vstd::seq_lib::lemma_seq_contains_after_push(before, last, x);
        }
        if catalog.contains(last) && catalog.dependencies_of(last).len() == 0 {
            assert(!front.contains(last)) by {
                if front.contains(last) {
                    let k = choose|k: int| 0 <= k < front.len() && front[k] == last;
                    assert(nodes[k] == nodes[nodes.len() - 1]);
                }
            }
            assert(!before.contains(last));
            assert forall|a: int, b: int|
                0 <= a < seeds.len() && 0 <= b < seeds.len() && a != b implies seeds[a]
                != seeds[b] by {
                if a < before.len() && b < before.len() {
                    assert(before[a] != before[b]);
                } else if a < before.len() {
                    assert(before.contains(before[a]));
                } else {
                    assert(before.contains(before[b]));
                }
            }
        }
    }
}

/// The catalog, the graph of the target, the run's settings and the saved fingerprints.
#[derive(Debug)]
pub struct Executor {
    config: TaskRegistry,
    dependency_graph: DependencyGraph,
    app_config: RuntimeConfig,
    saved_dependencies: DependencyTracker,
}

/// The state of one run.
#[derive(Debug)]
pub struct ExecutionState {
    /// For each task of the catalog, in catalog order, how many of its dependencies
    /// have not completed yet.
    dependency_counts: Vec<u32>,
    /// The completed tasks, in completion order.
    completed: Vec<String>,
    /// Every task handed out so far, in the order of handing out.
    dispatched: Vec<String>,
}

impl Executor {
    /// The catalog.
    pub closed spec fn spec_config(&self) -> &TaskRegistry {
        &self.config
    }

    /// The graph of the target.
    pub closed spec fn spec_graph(&self) -> &DependencyGraph {
        &self.dependency_graph
    }

    /// The target of the run.
    pub closed spec fn spec_target(&self) -> Seq<char> {
        self.app_config.target@
    }

    /// The directory that holds the project.
    pub closed spec fn spec_root(&self) -> Seq<char> {
        self.app_config.root@
    }

    /// The fingerprints saved by earlier runs.
    pub closed spec fn spec_saved(&self) -> &DependencyTracker {
        &self.saved_dependencies
    }

    /// Whether the number of dependencies of every task fits the counters of a run.
    pub open spec fn counts_fit(catalog: &TaskRegistry) -> bool {
        forall|i: int|
            0 <= i < catalog.spec_tasks().len() ==> (
            #[trigger] catalog.spec_tasks()[i]).spec_dependencies().len() <= u32::MAX
    }

    /// The executor's invariant: the catalog and the tracker are valid, the graph is
    /// the graph of the target, and the dependency counts fit their counters.
    pub open spec fn wf(&self) -> bool {
        &&& self.spec_config().wf()
        &&& self.spec_graph().is_graph_of(self.spec_config(), self.spec_target())
        &&& Self::counts_fit(self.spec_config())
        &&& self.spec_saved().wf()
    }

    /// Sets up the executor of one run.
    pub fn new(
        config: TaskRegistry,
        dependency_graph: DependencyGraph,
        app_config: RuntimeConfig,
        saved_dependencies: DependencyTracker,
    ) -> (res: Result<Self, ExecutorCreationError>)
        requires
            config.wf(),
            dependency_graph.is_graph_of(&config, app_config.target@),
            Self::counts_fit(&config),
            saved_dependencies.wf(),
        ensures
            res matches Ok(executor) && executor.wf() && *executor.spec_config() == config
                && *executor.spec_graph() == dependency_graph && executor.spec_target()
                == app_config.target@ && executor.spec_root() == app_config.root@
                && *executor.spec_saved() == saved_dependencies,
    {
        Ok(Executor { config, dependency_graph, app_config, saved_dependencies })
    }

    /// Whether every task's dependencies fit the counters of a run.
    pub fn dependency_counts_fit(config: &TaskRegistry) -> (res: bool)
        ensures
            res == Self::counts_fit(config),
    {
        let tasks = config.get_tasks_iter();
        let mut i: usize = 0;
        while i < tasks.len()
            invariant
                i <= tasks.len(),
                tasks@ == config.spec_tasks(),
                forall|k: int|
                    0 <= k < i ==> (#[trigger] config.spec_tasks()[k]).spec_dependencies().len()
                        <= u32::MAX,
            decreases tasks.len() - i,
        {
            let deps = tasks[i].dependencies();
            assert(deps.deep_view().len() == deps@.len());
            if deps.len() > 0xFFFF_FFFF {
                return false;
            }
            i += 1;
        }
        true
    }

    /// The number of worker threads: the machine's parallelism where it is known and
    /// positive, else one.
    pub fn determine_worker_count(detected: Option<usize>) -> (workers: usize)
        ensures
            workers >= 1,
            workers == match detected {
                Some(n) => if n > 0 {
                    n
                } else {
                    DEFAULT_WORKER_THREADS
                },
                None => DEFAULT_WORKER_THREADS,
            },
    {
        match detected {
            Some(n) => if n > 0 {
                n
            } else {
                DEFAULT_WORKER_THREADS
            },
            None => DEFAULT_WORKER_THREADS,
        }
    }

    /// The catalog.
    pub fn config(&self) -> (config: &TaskRegistry)
        ensures
            config == self.spec_config(),
    {
        &self.config
    }

    /// The graph of the target.
    pub fn dependency_graph(&self) -> (graph: &DependencyGraph)
        ensures
            graph == self.spec_graph(),
    {
        &self.dependency_graph
    }

    /// The run's settings.
    pub fn app_config(&self) -> (app_config: &RuntimeConfig)
        ensures
            app_config.target@ == self.spec_target(),
            app_config.root@ == self.spec_root(),
    {
        &self.app_config
    }

    /// The fingerprints saved by earlier runs.
    pub fn saved_dependencies(&self) -> (saved: &DependencyTracker)
        ensures
            saved == self.spec_saved(),
    {
        &self.saved_dependencies
    }

    /// Takes the executor apart again, once its run is over.
    pub fn into_parts(self) -> (parts: (TaskRegistry, DependencyGraph, RuntimeConfig, DependencyTracker))
        ensures
            parts.0 == *self.spec_config(),
            parts.1 == *self.spec_graph(),
            parts.2.target@ == self.spec_target(),
            parts.2.root@ == self.spec_root(),
            parts.3 == *self.spec_saved(),
    {
        (self.config, self.dependency_graph, self.app_config, self.saved_dependencies)
    }

    /// The counters a run starts with: for each task of the catalog, in catalog order,
    /// the number of its dependencies.
    pub fn initialize_dependency_counts(&self) -> (counts: Vec<u32>)
        requires
            self.wf(),
        ensures
            counts@.len() == self.spec_config().spec_tasks().len(),
            forall|i: int|
                0 <= i < counts@.len() ==> (#[trigger] counts@[i])
                    == self.spec_config().spec_tasks()[i].spec_dependencies().len(),
    {
        let tasks = self.config.get_tasks_iter();
        let mut counts: Vec<u32> = Vec::new();
        let mut i: usize = 0;
        while i < tasks.len()
            invariant
                self.wf(),
                tasks@ == self.spec_config().spec_tasks(),
                i <= tasks.len(),
                counts@.len() == i,
                forall|k: int|
                    0 <= k < i ==> (#[trigger] counts@[k])
                        == self.spec_config().spec_tasks()[k].spec_dependencies().len(),
            decreases tasks.len() - i,
        {
            let deps = tasks[i].dependencies();
            assert(deps.deep_view().len() == deps@.len());
            assert(self.spec_config().spec_tasks()[i as int].spec_dependencies().len() <= u32::MAX);
            counts.push(deps.len() as u32);
            i += 1;
        }
        counts
    }

    /// The tasks a run starts with: every task of the graph whose counter reads zero,
    /// in graph order.
    pub fn dispatch_initial_tasks(&self, counts: &Vec<u32>) -> (ready: Vec<Task>)
        requires
            self.wf(),
            counts@.len() == self.spec_config().spec_tasks().len(),
            forall|i: int|
                0 <= i < counts@.len() ==> (#[trigger] counts@[i])
                    == self.spec_config().spec_tasks()[i].spec_dependencies().len(),
        ensures
            task_ids(ready@) == initial_ids(self.spec_config(), self.spec_graph().spec_nodes()),
            forall|j: int|
                0 <= j < ready@.len() ==> self.spec_config().contains(
                    (#[trigger] ready@[j]).spec_id(),
                ) && ready@[j].same_as(self.spec_config().task(ready@[j].spec_id())),
    {
        let entries = self.dependency_graph.get_task_parents_iter();
        let ghost nodes = self.spec_graph().spec_nodes();
        let mut ready: Vec<Task> = Vec::new();
        let mut n: usize = 0;
        assert(task_ids(ready@) =~= initial_ids(self.spec_config(), nodes.subrange(0, 0)));
        while n < entries.len()
            invariant
                self.wf(),
                nodes == self.spec_graph().spec_nodes(),
                n <= entries@.len(),
                entries@.len() == nodes.len(),
                forall|i: int| 0 <= i < entries@.len() ==> (#[trigger] entries@[i]).0@ == nodes[i],
                counts@.len() == self.spec_config().spec_tasks().len(),
                forall|i: int|
                    0 <= i < counts@.len() ==> (#[trigger] counts@[i])
                        == self.spec_config().spec_tasks()[i].spec_dependencies().len(),
                task_ids(ready@) == initial_ids(self.spec_config(), nodes.subrange(0, n as int)),
                forall|j: int|
                    0 <= j < ready@.len() ==> self.spec_config().contains(
                        (#[trigger] ready@[j]).spec_id(),
                    ) && ready@[j].same_as(self.spec_config().task(ready@[j].spec_id())),
            decreases entries.len() - n,
        {
            let ghost before = ready@;
            let ghost id = nodes[n as int];
            proof {
                assert(nodes.subrange(0, n + 1).drop_last() =~= nodes.subrange(0, n as int));
                assert(nodes.subrange(0, n + 1).last() == id);
                assert(entries@[n as int].0@ == id);
            }
            match self.config.position(entries[n].0) {
                Some(i) => {
                    proof {
                        self.spec_config().lemma_index_of(i as int);
                    }
                    if counts[i] == 0 {
                        let task = self.config.get_tasks_iter()[i].clone();
                        ready.push(task);
                        assert(task_ids(ready@) =~= task_ids(before).push(id));
                    }
                },
                None => {},
            }
            n += 1;
        }
        assert(nodes.subrange(0, n as int) =~= nodes);
        ready
    }

    /// Starts a run: sets the counters and hands out the tasks without dependencies.
    pub fn execute(&self) -> (res: (ExecutionState, Vec<Task>))
        requires
            self.wf(),
        ensures
            res.0.wf(self),
            res.0.spec_completed().len() == 0,
            res.0.spec_counts().len() == self.spec_config().spec_tasks().len(),
            forall|i: int|
                0 <= i < res.0.spec_counts().len() ==> (#[trigger] res.0.spec_counts()[i])
                    == self.spec_config().spec_tasks()[i].spec_dependencies().len(),
            res.0.spec_dispatched() == task_ids(res.1@),
            task_ids(res.1@) == initial_ids(self.spec_config(), self.spec_graph().spec_nodes()),
            forall|j: int|
                0 <= j < res.1@.len() ==> self.spec_config().contains(
                    (#[trigger] res.1@[j]).spec_id(),
                ) && res.1@[j].same_as(self.spec_config().task(res.1@[j].spec_id())),
    {
        let counts = self.initialize_dependency_counts();
        let ready = self.dispatch_initial_tasks(&counts);
        let mut dispatched: Vec<String> = Vec::new();
        let mut j: usize = 0;
        while j < ready.len()
            invariant
                j <= ready.len(),
                dispatched@.len() == j,
                forall|k: int| 0 <= k < j ==> (#[trigger] dispatched@[k])@ == ready@[k].spec_id(),
            decreases ready.len() - j,
        {
            dispatched.push(ready[j].id());
            j += 1;
        }
        let state = ExecutionState { dependency_counts: counts, completed: Vec::new(), dispatched };
        proof {
            let catalog = self.spec_config();
            let graph = self.spec_graph();
            let tasks = catalog.spec_tasks();
            let done = state.spec_completed();
            let disp = state.spec_dispatched();
            assert(disp =~= task_ids(ready@));
            assert(done =~= Seq::<Seq<char>>::empty());
            lemma_initial_ids(catalog, graph.spec_nodes());
            assert forall|i: int|
                0 <= i < tasks.len() && graph.contains(
                    (#[trigger] tasks[i]).spec_id(),
                ) implies state.dependency_counts@[i] + completed_among(
                tasks[i].spec_dependencies(),
                done,
            ) == tasks[i].spec_dependencies().len() by {
                lemma_completed_among_none(tasks[i].spec_dependencies());
            }
            assert forall|i: int|
                0 <= i < tasks.len() && graph.contains(
                    (#[trigger] tasks[i]).spec_id(),
                ) implies (disp.contains(tasks[i].spec_id()) <==> state.dependency_counts@[i]
                == 0) by {
                catalog.lemma_index_of(i);
            }
        }
        (state, ready)
    }

    /// The error of a run whose worker pool refused the task named `task_id`.
    pub fn dispatch_failure(task_id: &String, message: String) -> (error: ExecutionError)
        ensures
            error matches ExecutionError::TaskDispatchError { task_id: named, error: text }
                && named@ == task_id@ && text@ == message@,
    {
        ExecutionError::TaskDispatchError { task_id: task_id.clone(), error: message }
    }

    /// Begins the dispatch of a ready task: a task without saved fingerprints is not up
    /// to date whatever its inputs hold, so it runs without its inputs being looked at.
    pub fn begin_dispatch(&self, task: Task) -> (step: DispatchStep)
        requires
            self.wf(),
        ensures
            match step {
                DispatchStep::Run(run) => run == task && !self.spec_saved()@.contains_key(
                    task.spec_id(),
                ) && forall|inputs: Seq<PathProbe>| !#[trigger] self.is_up_to_date(
                    task.spec_id(),
                    inputs,
                ),
                DispatchStep::Compare(held) => held == task && self.spec_saved()@.contains_key(
                    task.spec_id(),
                ),
            },
    {
        if self.saved_dependencies.record(task.id_ref().as_str()).is_some() {
            DispatchStep::Compare(task)
        } else {
            DispatchStep::Run(task)
        }
    }

    /// Decides how a ready task is dispatched: a task that is up to date is skipped and
    /// counts as completed, every other task has to run.
    pub fn dispatch_task(&self, task: Task, inputs: &Vec<PathProbe>) -> (action: Dispatch)
        requires
            self.wf(),
        ensures
            match action {
                Dispatch::Skip(task_id) => task_id@ == task.spec_id() && self.is_up_to_date(
                    task.spec_id(),
                    inputs@,
                ),
                Dispatch::Run(run) => run == task && !self.is_up_to_date(task.spec_id(), inputs@),
            },
    {
        if self.saved_dependencies.is_task_up_to_date(&task, inputs) {
            Dispatch::Skip(task.id())
        } else {
            Dispatch::Run(task)
        }
    }

    /// Whether the saved fingerprints of the task named `id` equal the record that
    /// `inputs` amount to.
    pub open spec fn is_up_to_date(&self, id: Seq<char>, inputs: Seq<PathProbe>) -> bool {
        self.spec_saved().is_up_to_date(id, inputs)
    }

    /// Skip idempotence: a run whose saved fingerprints are those recorded from `tasks`
    /// skips each of these tasks for as long as its inputs hold what they held when it
    /// was recorded.
    pub proof fn lemma_recorded_tasks_are_skipped(
        &self,
        before: &DependencyTracker,
        tasks: Seq<Task>,
        inputs: Seq<Vec<PathProbe>>,
        k: int,
    )
        requires
            tasks.len() == inputs.len(),
            task_ids(tasks).no_duplicates(),
            self.spec_saved()@ == recorded(before@, tasks, inputs, tasks.len()),
            0 <= k < tasks.len(),
        ensures
            self.is_up_to_date(tasks[k].spec_id(), inputs[k]@),
    {
        crate::file_dependencies::dependency_tracker::lemma_recorded_task_is_up_to_date(
            before,
            self.spec_saved(),
            tasks,
            inputs,
            k,
        );
    }

    /// What a completion event other than the target's leads to: the task is completed,
    /// the counter of every task of the catalog goes down by the number of times the
    /// task is listed as a parent of the completed one (so every other counter keeps
    /// its value), and `ready` are the tasks handed out because of it, each a task of
    /// the catalog.
    pub open spec fn is_step(
        &self,
        before: &ExecutionState,
        after: &ExecutionState,
        id: Seq<char>,
        ready: Seq<Task>,
    ) -> bool {
        &&& after.wf(self)
        &&& after.spec_completed() == before.spec_completed().push(id)
        &&& after.spec_dispatched() == before.spec_dispatched() + task_ids(ready)
        &&& after.spec_counts().len() == before.spec_counts().len()
        &&& forall|i: int|
            0 <= i < self.spec_config().spec_tasks().len() ==> after.spec_counts()[i]
                + self.spec_graph().parent_count(
                id,
                (#[trigger] self.spec_config().spec_tasks()[i]).spec_id(),
            ) == before.spec_counts()[i]
        &&& forall|j: int|
            0 <= j < ready.len() ==> self.spec_config().contains((#[trigger] ready[j]).spec_id())
                && ready[j].same_as(self.spec_config().task(ready[j].spec_id()))
    }

    /// What a completion event leads to, `None` standing for the end of all events.
    ///
    /// A failed task ends the run with its error, and so does the end of events; the
    /// state stays as it is. The target's completion ends the run with the completed
    /// tasks in completion order: the closure of the target, each task once. Any other
    /// completion is a step of the run.
    pub open spec fn is_outcome(
        &self,
        before: &ExecutionState,
        after: &ExecutionState,
        event: Option<Result<String, TaskError>>,
        progress: Progress,
    ) -> bool {
        match event {
            None => (progress matches Progress::Finished(
                Err(ExecutionError::ExecutionEndedPrematurely),
            ) && *after == *before),
            Some(Err(error)) => (progress matches Progress::Finished(
                Err(ExecutionError::TaskExecutionError { source }),
            ) && source == error && *after == *before),
            Some(Ok(id)) => if id@ == self.spec_target() {
                (progress matches Progress::Finished(Ok(completed)) && completed.deep_view()
                    == before.spec_completed().push(id@) && after.spec_completed()
                    == completed.deep_view() && completed.deep_view().no_duplicates()
                    && completed.deep_view().to_set() == closure(
                    self.spec_config(),
                    self.spec_target(),
                ))
            } else {
                (progress matches Progress::Ready(ready) && self.is_step(
                    before,
                    after,
                    id@,
                    ready@,
                ))
            },
        }
    }

    /// Takes the next event of the completion channel, `None` standing for its end. The
    /// completion of a task that is not in flight is passed over: the state stays as it
    /// is and nothing becomes ready. Every other event is handled as
    /// [`Self::process_task_results`] handles it.
    pub fn accept_task_result(
        &self,
        state: &mut ExecutionState,
        event: Option<Result<String, TaskError>>,
    ) -> (progress: Progress)
        requires
            self.wf(),
            old(state).wf(self),
        ensures
            if event matches Some(Ok(id)) && !old(state).in_flight(id@) {
                progress matches Progress::Ready(ready) && ready@.len() == 0 && *final(state)
                    == *old(state)
            } else {
                self.is_outcome(old(state), final(state), event, progress)
            },
    {
        let passed_over = match &event {
            Some(Ok(task_id)) => !state.is_in_flight(task_id),
            _ => false,
        };
        if passed_over {
            Progress::Ready(Vec::new())
        } else {
            self.process_task_results(state, event)
        }
    }

    /// Takes the next completion event, `None` standing for the end of all events.
    ///
    /// A failed task ends the run with its error, and so does the end of events. A
    /// completed task is appended to the completed tasks; the target's completion ends
    /// the run with that list, and any other completion releases the tasks that waited
    /// for it alone.
    pub fn process_task_results(
        &self,
        state: &mut ExecutionState,
        event: Option<Result<String, TaskError>>,
    ) -> (progress: Progress)
        requires
            self.wf(),
            old(state).wf(self),
            event matches Some(Ok(id)) ==> old(state).in_flight(id@),
        ensures
            self.is_outcome(old(state), final(state), event, progress),
    {
        match event {
            None => Progress::Finished(Err(ExecutionError::ExecutionEndedPrematurely)),
            Some(Err(error)) => Progress::Finished(
                Err(ExecutionError::TaskExecutionError { source: error }),
            ),
            Some(Ok(task_id)) => {
                if task_id == self.app_config.target {
                    let ghost done = state.spec_completed();
                    proof {
                        self.lemma_target_completes_closure(state);
                    }
                    state.completed.push(task_id);
                    let completed = crate::strings::clone_strings(&state.completed);
                    proof {
                        assert(state.spec_completed() =~= done.push(self.spec_target()));
                    }
                    Progress::Finished(Ok(completed))
                } else {
                    let ready = self.handle_task_completion(state, &task_id);
                    Progress::Ready(ready)
                }
            },
        }
    }

    /// Completes the task named `completed_task_id`: counts it off at every task that
    /// depends on it, and hands out each task whose counter reaches zero.
    pub fn handle_task_completion(
        &self,
        state: &mut ExecutionState,
        completed_task_id: &String,
    ) -> (ready: Vec<Task>)
        requires
            self.wf(),
            old(state).wf(self),
            old(state).in_flight(completed_task_id@),
        ensures
            self.is_step(old(state), final(state), completed_task_id@, ready@),
    {
        let ghost before = *state;
        let ghost id = completed_task_id@;
        let ghost catalog = self.spec_config();
        let ghost graph = self.spec_graph();
        let ghost tasks = catalog.spec_tasks();
        let ghost done0 = state.spec_completed();
        let ghost disp0 = state.spec_dispatched();
        let ghost counts0 = state.dependency_counts@;
        let mut ready: Vec<Task> = Vec::new();
        let parents = match self.dependency_graph.get_parent_by_id(completed_task_id.as_str()) {
            Some(parents) => parents,
            None => {
                proof {
                    assert(disp0.contains(id));
                    assert(false);
                }
                return ready;
            },
        };
        let ghost listed = parents.deep_view();
        state.completed.push(completed_task_id.clone());
        let ghost done1 = state.spec_completed();
        proof {
            assert(done1 =~= done0.push(id));
            assert(listed == graph.parents_of(id));
            self.lemma_parent_counts(&before, id);
            assert(listed.subrange(0, 0) =~= Seq::<Seq<char>>::empty());
            assert(task_ids(ready@) =~= Seq::<Seq<char>>::empty());
            assert(disp0 + task_ids(ready@) =~= disp0);
            assert forall|x: Seq<char>| #[trigger] disp0.contains(x) implies catalog.contains(x)
                && graph.contains(x) && counts0[catalog.index_of(x)] == 0 by {
                let i = catalog.index_of(x);
                assert(0 <= i < catalog.ids().len() && catalog.ids()[i] == x);
                assert(tasks[i].spec_id() == x);
            }
        }
        let mut k: usize = 0;
        while k < parents.len()
            invariant
                self.wf(),
                catalog == self.spec_config(),
                graph == self.spec_graph(),
                tasks == catalog.spec_tasks(),
                listed == parents.deep_view(),
                listed == graph.parents_of(id),
                k <= parents@.len(),
                graph.contains(id),
                state.spec_completed() == done1,
                state.dependency_counts@.len() == tasks.len(),
                counts0.len() == tasks.len(),
                forall|i: int|
                    0 <= i < tasks.len() ==> occurrences(listed, (#[trigger] tasks[i]).spec_id())
                        <= counts0[i],
                forall|i: int|
                    0 <= i < tasks.len() ==> state.dependency_counts@[i] + occurrences(
                        listed.subrange(0, k as int),
                        (#[trigger] tasks[i]).spec_id(),
                    ) == counts0[i],
                state.spec_dispatched() == disp0 + task_ids(ready@),
                state.spec_dispatched().no_duplicates(),
                forall|x: Seq<char>| #[trigger]
                    state.spec_dispatched().contains(x) ==> catalog.contains(x) && graph.contains(
                        x,
                    ) && state.dependency_counts@[catalog.index_of(x)] == 0,
                forall|i: int|
                    0 <= i < tasks.len() && graph.contains((#[trigger] tasks[i]).spec_id())
                        && state.dependency_counts@[i] == 0 ==> state.spec_dispatched().contains(
                        tasks[i].spec_id(),
                    ),
                forall|j: int|
                    0 <= j < ready@.len() ==> catalog.contains((#[trigger] ready@[j]).spec_id())
                        && ready@[j].same_as(catalog.task(ready@[j].spec_id())),
            decreases parents.len() - k,
        {
            let ghost parent = listed[k as int];
            let ghost counts_now = state.dependency_counts@;
            let ghost disp_now = state.spec_dispatched();
            let ghost ready_now = ready@;
            proof {
                assert(parents@[k as int]@ == parent);
                assert forall|i: int| 0 <= i < tasks.len() implies occurrences(
                    listed.subrange(0, k + 1),
                    (#[trigger] tasks[i]).spec_id(),
                ) == occurrences(listed.subrange(0, k as int), tasks[i].spec_id()) + (
                if parent == tasks[i].spec_id() {
                    1nat
                } else {
                    0nat
                }) by {
                    lemma_occurrences_step(listed, k as int, tasks[i].spec_id());
                }
            }
            match self.config.position(&parents[k]) {
                Some(i) => {
                    proof {
                        catalog.lemma_index_of(i as int);
                        assert(tasks[i as int].spec_id() == parent);
                        lemma_occurrences_prefix(listed, k + 1, parent);
                        assert(state.dependency_counts@[i as int] >= 1);
                        assert(!disp_now.contains(parent));
                        assert(graph.contains(parent)) by {
                            lemma_occurrences_contains(listed, parent);
                            assert(listed.contains(parent)) by {
                                assert(listed[k as int] == parent);
                            }
                            if !graph.contains(parent) {
                                assert(occurrences(graph.parents_of(id), parent) == 0);
                            }
                        }
                    }
                    let remaining: u32 = state.dependency_counts[i] - 1;
                    state.dependency_counts[i] = remaining;
                    proof {
                        assert(state.dependency_counts@ =~= counts_now.update(
                            i as int,
                            remaining,
                        ));
                        assert forall|j: int| 0 <= j < tasks.len() && j != i implies (
                        #[trigger] tasks[j]).spec_id() != parent by {
                            catalog.lemma_index_of(j);
                        }
                        assert forall|x: Seq<char>| #[trigger]
                            disp_now.contains(x) implies catalog.index_of(x) != i by {
                            assert(counts_now[catalog.index_of(x)] == 0);
                        }
                    }
                    if remaining == 0 {
                        let task = self.config.get_tasks_iter()[i].clone();
                        ready.push(task);
                        state.dispatched.push(parents[k].clone());
                        proof {
                            assert(task_ids(ready@) =~= task_ids(ready_now).push(parent));
                            assert(state.spec_dispatched() =~= disp_now.push(parent));
                            assert(state.spec_dispatched() =~= disp0 + task_ids(ready@));
                            assert forall|x: Seq<char>| #[trigger]
                                state.spec_dispatched().contains(x) implies catalog.contains(x)
                                && graph.contains(x) && state.dependency_counts@[catalog.index_of(
                                x,
                            )] == 0 by {
                                vstd::seq_lib::lemma_seq_contains_after_push(disp_now, parent, x);
                            }
                            assert forall|a: int, b: int|
                                0 <= a < state.spec_dispatched().len() && 0 <= b
                                    < state.spec_dispatched().len() && a
                                    != b implies state.spec_dispatched()[a]
                                != state.spec_dispatched()[b] by {
                                if a < disp_now.len() && b < disp_now.len() {
                                    assert(disp_now[a] != disp_now[b]);
                                } else if a < disp_now.len() {
                                    assert(disp_now.contains(disp_now[a]));
                                } else {
                                    assert(disp_now.contains(disp_now[b]));
                                }
                            }
                            assert forall|j: int|
                                0 <= j < tasks.len() && graph.contains(
                                    (#[trigger] tasks[j]).spec_id(),
                                ) && state.dependency_counts@[j]
                                    == 0 implies state.spec_dispatched().contains(
                                tasks[j].spec_id(),
                            ) by {
                                vstd::seq_lib::lemma_seq_contains_after_push(
                                    disp_now,
                                    parent,
                                    tasks[j].spec_id(),
                                );
                            }
                        }
                    }
                },
                None => {
                    proof {
                        assert forall|j: int| 0 <= j < tasks.len() implies (
                        #[trigger] tasks[j]).spec_id() != parent by {
                            catalog.lemma_index_of(j);
                        }
                    }
                },
            }
            k += 1;
        }
        proof {
            assert(listed.subrange(0, k as int) =~= listed);
            self.lemma_step_restores_invariant(&before, state, id);
        }
        ready
    }

    /// For a task in flight, how its parent list relates to the counters: a task of the
    /// graph is listed as often as it names the completing task, and its counter is at
    /// least that.
    proof fn lemma_parent_counts(&self, state: &ExecutionState, id: Seq<char>)
        requires
            self.wf(),
            state.wf(self),
            state.in_flight(id),
        ensures
            self.spec_graph().contains(id),
            forall|i: int|
                0 <= i < self.spec_config().spec_tasks().len() ==> occurrences(
                    self.spec_graph().parents_of(id),
                    (#[trigger] self.spec_config().spec_tasks()[i]).spec_id(),
                ) == (if self.spec_graph().contains(self.spec_config().spec_tasks()[i].spec_id()) {
                    occurrences(self.spec_config().spec_tasks()[i].spec_dependencies(), id)
                } else {
                    0
                }),
            forall|i: int|
                0 <= i < self.spec_config().spec_tasks().len() ==> occurrences(
                    self.spec_graph().parents_of(id),
                    (#[trigger] self.spec_config().spec_tasks()[i]).spec_id(),
                ) <= state.dependency_counts@[i],
    {
        let catalog = self.spec_config();
        let graph = self.spec_graph();
        let tasks = catalog.spec_tasks();
        let done = state.spec_completed();
        assert(state.spec_dispatched().contains(id));
        assert(graph.contains(id));
        assert forall|i: int| 0 <= i < tasks.len() implies occurrences(
            graph.parents_of(id),
            (#[trigger] tasks[i]).spec_id(),
        ) == (if graph.contains(tasks[i].spec_id()) {
            occurrences(tasks[i].spec_dependencies(), id)
        } else {
            0
        }) by {
            catalog.lemma_index_of(i);
            assert(catalog.dependencies_of(tasks[i].spec_id()) == tasks[i].spec_dependencies());
        }
        assert forall|i: int| 0 <= i < tasks.len() implies occurrences(
            graph.parents_of(id),
            (#[trigger] tasks[i]).spec_id(),
        ) <= state.dependency_counts@[i] by {
            if graph.contains(tasks[i].spec_id()) {
                let deps = tasks[i].spec_dependencies();
                lemma_completed_among_push(deps, done, id);
                lemma_completed_among_all(deps, done.push(id));
            }
        }
    }

    /// A completed step leaves a valid state: the counters of the tasks that name the
    /// completed task have gone down by the number of times they name it.
    proof fn lemma_step_restores_invariant(
        &self,
        before: &ExecutionState,
        after: &ExecutionState,
        id: Seq<char>,
    )
        requires
            self.wf(),
            before.wf(self),
            before.in_flight(id),
            after.spec_completed() == before.spec_completed().push(id),
            after.dependency_counts@.len() == before.dependency_counts@.len(),
            forall|i: int|
                0 <= i < self.spec_config().spec_tasks().len() ==> after.dependency_counts@[i]
                    + occurrences(
                    self.spec_graph().parents_of(id),
                    (#[trigger] self.spec_config().spec_tasks()[i]).spec_id(),
                ) == before.dependency_counts@[i],
            after.spec_dispatched().no_duplicates(),
            forall|x: Seq<char>| #[trigger]
                before.spec_dispatched().contains(x) ==> after.spec_dispatched().contains(x),
            forall|x: Seq<char>| #[trigger]
                after.spec_dispatched().contains(x) ==> self.spec_config().contains(x)
                    && self.spec_graph().contains(x) && after.dependency_counts@[
                self.spec_config().index_of(x)] == 0,
            forall|i: int|
                0 <= i < self.spec_config().spec_tasks().len() && self.spec_graph().contains(
                    (#[trigger] self.spec_config().spec_tasks()[i]).spec_id(),
                ) && after.dependency_counts@[i] == 0 ==> after.spec_dispatched().contains(
                    self.spec_config().spec_tasks()[i].spec_id(),
                ),
        ensures
            after.wf(self),
    {
        let catalog = self.spec_config();
        let graph = self.spec_graph();
        let tasks = catalog.spec_tasks();
        let done0 = before.spec_completed();
        let done1 = after.spec_completed();
        self.lemma_parent_counts(before, id);
        assert(done1.no_duplicates()) by {
            assert forall|a: int, b: int|
                0 <= a < done1.len() && 0 <= b < done1.len() && a != b implies done1[a]
                != done1[b] by {
                if a < done0.len() && b < done0.len() {
                    assert(done0[a] != done0[b]);
                } else if a < done0.len() {
                    assert(done0.contains(done0[a]));
                } else {
                    assert(done0.contains(done0[b]));
                }
            }
        }
        assert forall|x: Seq<char>| #[trigger] done1.contains(x) implies after.spec_dispatched().contains(
            x,
        ) by {
            vstd::seq_lib::lemma_seq_contains_after_push(done0, id, x);
            if x != id {
                assert(before.spec_dispatched().contains(x));
            }
        }
        assert forall|i: int|
            0 <= i < tasks.len() && graph.contains(
                (#[trigger] tasks[i]).spec_id(),
            ) implies after.dependency_counts@[i] + completed_among(
            tasks[i].spec_dependencies(),
            done1,
        ) == tasks[i].spec_dependencies().len() by {
            lemma_completed_among_push(tasks[i].spec_dependencies(), done0, id);
        }
        assert forall|i: int|
            0 <= i < tasks.len() && graph.contains(
                (#[trigger] tasks[i]).spec_id(),
            ) implies (after.spec_dispatched().contains(tasks[i].spec_id())
            <==> after.dependency_counts@[i] == 0) by {
            catalog.lemma_index_of(i);
        }
            assert forall|i: int|
            0 <= i < tasks.len() && !graph.contains(
                (#[trigger] tasks[i]).spec_id(),
            ) implies after.dependency_counts@[i] == tasks[i].spec_dependencies().len() by {
            assert(occurrences(graph.parents_of(id), tasks[i].spec_id()) == 0);
        }
    }

    /// Once the target is in flight, everything it reaches but itself has completed:
    /// completing it completes the closure, and nothing else.
    proof fn lemma_target_completes_closure(&self, state: &ExecutionState)
        requires
            self.wf(),
            state.wf(self),
            state.in_flight(self.spec_target()),
        ensures
            state.spec_completed().push(self.spec_target()).no_duplicates(),
            state.spec_completed().push(self.spec_target()).to_set() == closure(
                self.spec_config(),
                self.spec_target(),
            ),
    {
        let catalog = self.spec_config();
        let graph = self.spec_graph();
        let target = self.spec_target();
        let done0 = state.spec_completed();
        let done1 = done0.push(target);
        assert forall|a: int, b: int|
            0 <= a < done1.len() && 0 <= b < done1.len() && a != b implies done1[a] != done1[b] by {
            if a < done0.len() && b < done0.len() {
                assert(done0[a] != done0[b]);
            } else if a < done0.len() {
                assert(done0.contains(done0[a]));
            } else {
                assert(done0.contains(done0[b]));
            }
        }
        assert forall|x: Seq<char>| #[trigger] done1.contains(x) implies holds_dependencies_of(
            catalog,
            done1,
            x,
        ) by {
            vstd::seq_lib::lemma_seq_contains_after_push(done0, target, x);
            assert(state.spec_dispatched().contains(x));
            assert forall|d: Seq<char>| #[trigger]
                catalog.dependencies_of(x).contains(d) implies done1.contains(d) by {
                self.lemma_dispatch_is_topological(state, x, d);
                vstd::seq_lib::lemma_seq_contains_after_push(done0, target, d);
            }
        }
        assert forall|x: Seq<char>| closure(catalog, target).contains(x) implies done1.contains(
            x,
        ) by {
            vstd::seq_lib::lemma_seq_contains_after_push(done0, target, target);
            let path = choose|path: Seq<Seq<char>>| #[trigger]
                is_dependency_path(catalog, path) && path[0] == target && path.last() == x;
            lemma_closed_list_holds_path(catalog, done1, path, path.len() - 1);
        }
        assert forall|x: Seq<char>| done1.contains(x) implies closure(catalog, target).contains(
            x,
        ) by {
            vstd::seq_lib::lemma_seq_contains_after_push(done0, target, x);
            assert(state.spec_dispatched().contains(x));
            assert(graph.contains(x));
            assert(graph.spec_nodes().to_set().contains(x));
        }
        assert(done1.to_set() =~= closure(catalog, target));
    }

    /// Topological dispatch: in every state of a run, each dependency of a task that
    /// has been handed out has completed.
    pub proof fn lemma_dispatch_is_topological(
        &self,
        state: &ExecutionState,
        task: Seq<char>,
        dependency: Seq<char>,
    )
        requires
            self.wf(),
            state.wf(self),
            state.spec_dispatched().contains(task),
            self.spec_config().dependencies_of(task).contains(dependency),
        ensures
            state.spec_completed().contains(dependency),
    {
        let catalog = self.spec_config();
        let tasks = catalog.spec_tasks();
        let i = catalog.index_of(task);
        assert(catalog.contains(task));
        assert(0 <= i < catalog.ids().len() && catalog.ids()[i] == task);
        assert(tasks[i].spec_id() == task);
        let deps = tasks[i].spec_dependencies();
        lemma_completed_among_all(deps, state.spec_completed());
        let j = choose|j: int| 0 <= j < deps.len() && deps[j] == dependency;
        assert(state.spec_completed().contains(deps[j]));
    }

    /// Single completion: in every state of a run, no task occurs twice among the
    /// completed tasks, and none among the tasks handed out.
    pub proof fn lemma_completed_once(&self, state: &ExecutionState)
        requires
            self.wf(),
            state.wf(self),
        ensures
            state.spec_completed().no_duplicates(),
            state.spec_dispatched().no_duplicates(),
            forall|x: Seq<char>| #[trigger]
                state.spec_completed().contains(x) ==> state.spec_dispatched().contains(x),
    {
    }

    /// What a step hands out: exactly the tasks of the graph and the catalog that had not
    /// been handed out before and whose dependencies have now all completed, each once.
    pub proof fn lemma_step_hands_out_the_ready(
        &self,
        before: &ExecutionState,
        after: &ExecutionState,
        id: Seq<char>,
        ready: Seq<Task>,
        task: Seq<char>,
    )
        requires
            self.wf(),
            before.wf(self),
            self.is_step(before, after, id, ready),
        ensures
            task_ids(ready).no_duplicates(),
            task_ids(ready).contains(task) <==> !before.spec_dispatched().contains(task)
                && self.spec_graph().contains(task) && self.spec_config().contains(task)
                && forall|d: Seq<char>| #[trigger]
                self.spec_config().dependencies_of(task).contains(d)
                    ==> after.spec_completed().contains(d),
    {
        let handed = before.spec_dispatched();
        let ids = task_ids(ready);
        let all = after.spec_dispatched();
        assert(all == handed + ids);
        assert forall|a: int, b: int| 0 <= a < ids.len() && 0 <= b < ids.len() && a != b implies ids[a]
            != ids[b] by {
            assert(all[handed.len() + a] == ids[a]);
            assert(all[handed.len() + b] == ids[b]);
        }
        self.lemma_dispatched_iff_ready(after, task);
        if ids.contains(task) {
            let a = choose|a: int| 0 <= a < ids.len() && ids[a] == task;
            assert(all[handed.len() + a] == task);
            if handed.contains(task) {
                let b = choose|b: int| 0 <= b < handed.len() && handed[b] == task;
                assert(all[b] == task);
            }
        }
        if all.contains(task) && !handed.contains(task) {
            let c = choose|c: int| 0 <= c < all.len() && all[c] == task;
            if c < handed.len() {
                assert(handed[c] == task);
            } else {
                assert(ids[c - handed.len()] == task);
            }
        }
    }

    /// Readiness: in every state of a run, a task of the graph has been handed out
    /// exactly if the catalog holds it and all its dependencies have completed. Nothing
    /// outside the graph is ever handed out.
    pub proof fn lemma_dispatched_iff_ready(&self, state: &ExecutionState, task: Seq<char>)
        requires
            self.wf(),
            state.wf(self),
        ensures
            state.spec_dispatched().contains(task) <==> self.spec_graph().contains(task)
                && self.spec_config().contains(task) && forall|d: Seq<char>| #[trigger]
                self.spec_config().dependencies_of(task).contains(d)
                    ==> state.spec_completed().contains(d),
    {
        let catalog = self.spec_config();
        let graph = self.spec_graph();
        let tasks = catalog.spec_tasks();
        let done = state.spec_completed();
        if state.spec_dispatched().contains(task) {
            assert forall|d: Seq<char>| #[trigger]
                catalog.dependencies_of(task).contains(d) implies done.contains(d) by {
                self.lemma_dispatch_is_topological(state, task, d);
            }
        }
        if graph.contains(task) && catalog.contains(task) && forall|d: Seq<char>| #[trigger]
            catalog.dependencies_of(task).contains(d) ==> done.contains(d) {
            let i = catalog.index_of(task);
            assert(0 <= i < catalog.ids().len() && catalog.ids()[i] == task);
            assert(tasks[i].spec_id() == task);
            let deps = tasks[i].spec_dependencies();
            lemma_completed_among_all(deps, done);
            assert forall|j: int| 0 <= j < deps.len() implies done.contains(#[trigger] deps[j]) by {
                assert(catalog.dependencies_of(task).contains(deps[j]));
            }
        }
    }
}

/// Nothing is completed among the dependencies when nothing has completed.
proof fn lemma_completed_among_none(deps: Seq<Seq<char>>)
    ensures
        completed_among(deps, Seq::<Seq<char>>::empty()) == 0,
    decreases deps.len(),
{
    if deps.len() > 0 {
        lemma_completed_among_none(deps.drop_last());
    }
}

impl ExecutionState {
    /// The completed tasks, in completion order.
    pub closed spec fn spec_completed(&self) -> Seq<Seq<char>> {
        self.completed.deep_view()
    }

    /// Every task handed out so far, in the order of handing out.
    pub closed spec fn spec_dispatched(&self) -> Seq<Seq<char>> {
        self.dispatched.deep_view()
    }

    /// For each task of the catalog, in catalog order, how many of its dependencies have
    /// not been counted off yet.
    pub closed spec fn spec_counts(&self) -> Seq<u32> {
        self.dependency_counts@
    }

    /// Whether the task named `id` has been handed out and has not completed.
    pub open spec fn in_flight(&self, id: Seq<char>) -> bool {
        self.spec_dispatched().contains(id) && !self.spec_completed().contains(id)
    }

    /// The invariant of a run: the counter of every task of the graph reads the number
    /// of its dependencies that have not completed, the counter of every other task the
    /// number of its dependencies, a task of the graph has been handed out exactly if
    /// its counter reads zero, only tasks of the graph and the catalog are handed out,
    /// only tasks handed out complete, and none twice.
    pub closed spec fn wf(&self, executor: &Executor) -> bool {
        let catalog = executor.spec_config();
        let graph = executor.spec_graph();
        let tasks = catalog.spec_tasks();
        let done = self.spec_completed();
        let handed = self.spec_dispatched();
        &&& self.dependency_counts@.len() == tasks.len()
        &&& done.no_duplicates()
        &&& handed.no_duplicates()
        &&& forall|x: Seq<char>| #[trigger] done.contains(x) ==> handed.contains(x)
        &&& forall|x: Seq<char>| #[trigger]
            handed.contains(x) ==> catalog.contains(x) && graph.contains(x)
        &&& forall|i: int|
            0 <= i < tasks.len() && graph.contains((#[trigger] tasks[i]).spec_id())
                ==> self.dependency_counts@[i] + completed_among(
                tasks[i].spec_dependencies(),
                done,
            ) == tasks[i].spec_dependencies().len()
        &&& forall|i: int|
            0 <= i < tasks.len() && graph.contains((#[trigger] tasks[i]).spec_id()) ==> (
            handed.contains(tasks[i].spec_id()) <==> self.dependency_counts@[i] == 0)
        &&& forall|i: int|
            0 <= i < tasks.len() && !graph.contains((#[trigger] tasks[i]).spec_id())
                ==> self.dependency_counts@[i] == tasks[i].spec_dependencies().len()
    }

    /// The counters, one for each task of the catalog, in catalog order.
    pub fn dependency_counts(&self) -> (counts: &Vec<u32>)
        ensures
            counts@ == self.spec_counts(),
    {
        &self.dependency_counts
    }

    /// The completed tasks, in completion order.
    pub fn completed(&self) -> (completed: &Vec<String>)
        ensures
            completed.deep_view() == self.spec_completed(),
    {
        &self.completed
    }

    /// Whether the task named `id` has been handed out and has not completed.
    pub fn is_in_flight(&self, id: &String) -> (res: bool)
        ensures
            res == self.in_flight(id@),
    {
        crate::strings::contains_string(&self.dispatched, id) && !crate::strings::contains_string(
            &self.completed,
            id,
        )
    }
}

} // verus!
