//! The catalog of tasks: every task under its unique identifier.

use crate::tasks::base_task::string_list;
use crate::tasks::execute_task::text_entry;
use crate::tasks::task::{selects_execute, Task};
use crate::yaml::{load_documents, mapping_get, mapping_index, yaml_documents, YamlNode};
use saphyr::ScanError;
use vstd::prelude::*;
use vstd::string::StringExecFns;

verus! {

/// Name of the catalog file below the project root.
pub const TASK_FILE_NAME: &'static str = "tasks.yaml";

/// Why no catalog could be built.
#[derive(Debug)]
#[allow(inconsistent_fields)]
pub enum TaskRegistryCreationError {
    /// The catalog file could not be read; `source` is the system's message.
    ReadError { file_path: String, source: String },
    /// The text is not well-formed YAML.
    ParseError { source: ScanError },
    /// The text holds no document.
    MalformedConfig,
    /// The document is not a mapping.
    TopLevelNotMap,
    /// The `tasks` entry is not a mapping.
    TasksNotMap,
    /// Two tasks share an identifier.
    DuplicateTask { task_name: String },
}

/// The identifiers of a list of tasks, in order.
pub open spec fn task_ids(tasks: Seq<Task>) -> Seq<Seq<char>> {
    Seq::new(tasks.len(), |i: int| tasks[i].spec_id())
}

/// Whether an entry of the `tasks` mapping describes a task: a string key, a mapping
/// body that selects the command variant and holds a string `command`.
pub open spec fn entry_yields_task(entry: (YamlNode, YamlNode)) -> bool {
    match entry {
        (YamlNode::Text(_), YamlNode::Mapping(body)) => selects_execute(body@) && text_entry(
            body@,
            "command"@,
        ).is_some(),
        _ => false,
    }
}

/// Whether `task` is the task that `entry` describes.
pub open spec fn task_matches_entry(task: Task, entry: (YamlNode, YamlNode)) -> bool {
    match entry {
        (YamlNode::Text(name), YamlNode::Mapping(body)) => {
            &&& task.spec_id() == name@
            &&& Some(task.spec_command()) == text_entry(body@, "command"@)
            &&& task.spec_dependencies() == string_list(body@, "dependsOn"@)
            &&& task.spec_inputs() == string_list(body@, "inputs"@)
        },
        _ => false,
    }
}

/// Whether `tasks` are exactly the tasks that `entries` describe, in document order.
pub open spec fn tasks_match(tasks: Seq<Task>, entries: Seq<(YamlNode, YamlNode)>) -> bool
    decreases entries.len(),
{
    if entries.len() == 0 {
        tasks.len() == 0
    } else if entry_yields_task(entries.last()) {
        tasks.len() > 0 && task_matches_entry(tasks.last(), entries.last()) && tasks_match(
            tasks.drop_last(),
            entries.drop_last(),
        )
    } else {
        tasks_match(tasks, entries.drop_last())
    }
}

/// The identifiers of the tasks that `entries` describe, in document order.
pub open spec fn described_ids(entries: Seq<(YamlNode, YamlNode)>) -> Seq<Seq<char>>
    decreases entries.len(),
{
    if entries.len() == 0 {
        Seq::empty()
    } else if entry_yields_task(entries.last()) {
        described_ids(entries.drop_last()).push(entries.last().0->Text_0@)
    } else {
        described_ids(entries.drop_last())
    }
}

/// Tasks that match a list of entries carry the identifiers the entries describe.
pub proof fn lemma_tasks_match_ids(tasks: Seq<Task>, entries: Seq<(YamlNode, YamlNode)>)
    requires
        tasks_match(tasks, entries),
    ensures
        task_ids(tasks) == described_ids(entries),
    decreases entries.len(),
{
    if entries.len() == 0 {
        assert(task_ids(tasks) =~= Seq::<Seq<char>>::empty());
    } else if entry_yields_task(entries.last()) {
        lemma_tasks_match_ids(tasks.drop_last(), entries.drop_last());
        assert(task_ids(tasks) =~= task_ids(tasks.drop_last()).push(tasks.last().spec_id()));
    } else {
        lemma_tasks_match_ids(tasks, entries.drop_last());
    }
}

/// The entries of the `tasks` mapping: none when the key is absent, and `None` when the
/// key holds anything but a mapping.
pub open spec fn tasks_section(top_level: Seq<(YamlNode, YamlNode)>) -> Option<
    Seq<(YamlNode, YamlNode)>,
> {
    match mapping_index(top_level, "tasks"@) {
        Some(i) => match top_level[i].1 {
            YamlNode::Mapping(entries) => Some(entries@),
            _ => None,
        },
        None => Some(Seq::empty()),
    }
}

/// Position of the first identifier that already occurs before it.
pub open spec fn first_duplicate(ids: Seq<Seq<char>>) -> Option<int>
    decreases ids.len(),
{
    if ids.len() == 0 {
        None
    } else {
        match first_duplicate(ids.drop_last()) {
            Some(j) => Some(j),
            None => if ids.drop_last().contains(ids.last()) {
                Some(ids.len() - 1)
            } else {
                None
            },
        }
    }
}

/// `first_duplicate` finds nothing exactly in the lists without repetition, and else the
/// first position whose identifier occurred before.
pub proof fn lemma_first_duplicate(ids: Seq<Seq<char>>)
    ensures
        first_duplicate(ids) is None <==> ids.no_duplicates(),
        first_duplicate(ids) matches Some(j) ==> 0 <= j < ids.len() && ids.subrange(0, j).contains(
            ids[j],
        ) && ids.subrange(0, j).no_duplicates(),
    decreases ids.len(),
{
    if ids.len() > 0 {
        let front = ids.drop_last();
        lemma_first_duplicate(front);
        match first_duplicate(front) {
            Some(j) => {
                assert(front.subrange(0, j) =~= ids.subrange(0, j));
                assert(front[j] == ids[j]);
                let k = choose|k: int| 0 <= k < j && ids.subrange(0, j)[k] == ids[j];
                assert(ids[k] == ids[j]);
            },
            None => {
                assert(ids.subrange(0, ids.len() - 1) =~= front);
                if front.contains(ids.last()) {
                    let k = choose|k: int| 0 <= k < front.len() && front[k] == ids.last();
                    assert(ids[k] == ids[ids.len() - 1]);
                } else {
                    assert forall|a: int, b: int| 0 <= a < ids.len() && 0 <= b < ids.len() && a
                        != b implies ids[a] != ids[b] by {
                        if a < front.len() && b < front.len() {
                            assert(front[a] != front[b]);
                        } else if a < front.len() {
                            assert(front[a] == ids[a]);
                        } else {
                            assert(front[b] == ids[b]);
                        }
                    }
                }
            },
        }
    }
}

/// The task catalog. No identifier occurs twice.
#[derive(Debug)]
pub struct TaskRegistry {
    tasks: Vec<Task>,
}

impl TaskRegistry {
    /// The tasks, in catalog order.
    pub closed spec fn spec_tasks(&self) -> Seq<Task> {
        self.tasks@
    }

    /// The identifiers of the tasks, in catalog order.
    pub open spec fn ids(&self) -> Seq<Seq<char>> {
        task_ids(self.spec_tasks())
    }

    /// The catalog's invariant: identifiers are unique.
    pub open spec fn wf(&self) -> bool {
        self.ids().no_duplicates()
    }

    /// Whether the catalog holds a task named `id`.
    pub open spec fn contains(&self, id: Seq<char>) -> bool {
        self.ids().contains(id)
    }

    /// Position of the task named `id`; meaningful where the catalog contains it.
    pub open spec fn index_of(&self, id: Seq<char>) -> int {
        choose|i: int| 0 <= i < self.ids().len() && self.ids()[i] == id
    }

    /// The task named `id`; meaningful where the catalog contains it.
    pub open spec fn task(&self, id: Seq<char>) -> Task {
        self.spec_tasks()[self.index_of(id)]
    }

    /// The identifiers that the task named `id` depends on; none for an identifier the
    /// catalog does not hold.
    pub open spec fn dependencies_of(&self, id: Seq<char>) -> Seq<Seq<char>> {
        if self.contains(id) {
            self.task(id).spec_dependencies()
        } else {
            Seq::empty()
        }
    }

    /// In a valid catalog the position of an identifier is the only one holding it.
    pub proof fn lemma_index_of(&self, i: int)
        requires
            self.wf(),
            0 <= i < self.spec_tasks().len(),
        ensures
            self.contains(self.spec_tasks()[i].spec_id()),
            self.index_of(self.spec_tasks()[i].spec_id()) == i,
            self.task(self.spec_tasks()[i].spec_id()) == self.spec_tasks()[i],
    {
        let id = self.spec_tasks()[i].spec_id();
        assert(self.ids()[i] == id);
        let j = self.index_of(id);
        assert(0 <= j < self.ids().len() && self.ids()[j] == id);
    }

    /// Builds a catalog from a list of tasks, refusing the first task whose identifier
    /// an earlier task already carries.
    pub fn from_tasks(tasks: Vec<Task>) -> (res: Result<Self, TaskRegistryCreationError>)
        ensures
            match first_duplicate(task_ids(tasks@)) {
                None => res matches Ok(registry) && registry.wf() && registry.spec_tasks()
                    == tasks@,
                Some(j) => res matches Err(TaskRegistryCreationError::DuplicateTask { task_name })
                    && task_name@ == tasks@[j].spec_id(),
            },
    {
        let mut j: usize = 0;
        while j < tasks.len()
            invariant
                j <= tasks.len(),
                first_duplicate(task_ids(tasks@).subrange(0, j as int)) is None,
            decreases tasks.len() - j,
        {
            let ghost ids = task_ids(tasks@);
            let ghost front = ids.subrange(0, j as int);
            let mut i: usize = 0;
            let mut seen = false;
            while i < j
                invariant
                    i <= j,
                    j < tasks.len(),
                    ids == task_ids(tasks@),
                    front == ids.subrange(0, j as int),
                    seen == exists|k: int| 0 <= k < i && front[k] == ids[j as int],
                decreases j - i,
            {
                if *tasks[i].id_ref() == *tasks[j].id_ref() {
                    assert(front[i as int] == ids[j as int]);
                    seen = true;
                }
                i += 1;
            }
            proof {
                assert(ids.subrange(0, j + 1).drop_last() =~= front);
                assert(ids.subrange(0, j + 1).last() == ids[j as int]);
                assert(seen == front.contains(ids[j as int]));
            }
            if seen {
                proof {
                    lemma_first_duplicate_prefix(ids, j + 1);
                }
                return Err(TaskRegistryCreationError::DuplicateTask { task_name: tasks[j].id() });
            }
            j += 1;
        }
        proof {
            assert(task_ids(tasks@).subrange(0, j as int) =~= task_ids(tasks@));
            lemma_first_duplicate(task_ids(tasks@));
        }
        Ok(TaskRegistry { tasks })
    }

    /// The task named `id`, if the catalog holds one.
    pub fn get_task_by_id(&self, id: &str) -> (res: Option<&Task>)
        requires
            self.wf(),
        ensures
            res.is_some() == self.contains(id@),
            res matches Some(task) ==> *task == self.task(id@),
    {
        let owned = String::from_str(id);
        match self.position(&owned) {
            Some(i) => Some(&self.tasks[i]),
            None => None,
        }
    }

    /// Position of the task named `id`, if the catalog holds one.
    pub fn position(&self, id: &String) -> (res: Option<usize>)
        requires
            self.wf(),
        ensures
            res.is_some() == self.contains(id@),
            res matches Some(i) ==> i == self.index_of(id@) && i < self.spec_tasks().len(),
    {
        let mut i: usize = 0;
        while i < self.tasks.len()
            invariant
                self.wf(),
                i <= self.tasks.len(),
                forall|k: int| 0 <= k < i ==> (#[trigger] self.ids()[k]) != id@,
            decreases self.tasks.len() - i,
        {
            if *self.tasks[i].id_ref() == *id {
                proof {
                    self.lemma_index_of(i as int);
                }
                return Some(i);
            }
            i += 1;
        }
        None
    }

    /// Every task of the catalog, in catalog order.
    pub fn get_tasks_iter(&self) -> (tasks: &Vec<Task>)
        ensures
            tasks@ == self.spec_tasks(),
    {
        &self.tasks
    }

    /// Reads the tasks that the `tasks` mapping of a document describes. Entries that do
    /// not describe a task are skipped; a `tasks` entry that is no mapping is an error.
    pub fn parse_tasks_from_yaml(top_level: &Vec<(YamlNode, YamlNode)>) -> (res: Result<
        Vec<Task>,
        TaskRegistryCreationError,
    >)
        ensures
            match tasks_section(top_level@) {
                Some(entries) => res matches Ok(tasks) && tasks_match(tasks@, entries),
                None => res matches Err(TaskRegistryCreationError::TasksNotMap),
            },
    {
        let entries = match mapping_get(top_level, "tasks") {
            Some(node) => match node.as_mapping() {
                Some(entries) => entries,
                None => {
                    return Err(TaskRegistryCreationError::TasksNotMap);
                },
            },
            None => {
                return Ok(Vec::new());
            },
        };
        let mut tasks: Vec<Task> = Vec::new();
        let mut i: usize = 0;
        while i < entries.len()
            invariant
                i <= entries.len(),
                tasks_match(tasks@, entries@.subrange(0, i as int)),
            decreases entries.len() - i,
        {
            let ghost before = tasks@;
            proof {
                assert(entries@.subrange(0, i + 1).drop_last() =~= entries@.subrange(0, i as int));
                assert(entries@.subrange(0, i + 1).last() == entries@[i as int]);
            }
            match &entries[i] {
                (YamlNode::Text(name), YamlNode::Mapping(body)) => {
                    match Task::from_task_yaml(name.as_str(), body) {
                        Some(task) => {
                            tasks.push(task);
                            assert(tasks@.drop_last() =~= before);
                        },
                        None => {},
                    }
                },
                _ => {},
            }
            i += 1;
        }
        assert(entries@.subrange(0, i as int) =~= entries@);
        Ok(tasks)
    }

    /// Builds the catalog from parsed documents: the first document must be a mapping,
    /// its `tasks` entry, if any, a mapping, and no two tasks may share an identifier.
    pub fn from_documents(documents: &Vec<YamlNode>) -> (res: Result<Self, TaskRegistryCreationError>)
        ensures
            is_catalog_of(res, documents@),
    {
        if documents.len() == 0 {
            return Err(TaskRegistryCreationError::MalformedConfig);
        }
        let top_level = match documents[0].as_mapping() {
            Some(top_level) => top_level,
            None => {
                return Err(TaskRegistryCreationError::TopLevelNotMap);
            },
        };
        let tasks = match Self::parse_tasks_from_yaml(top_level) {
            Ok(tasks) => tasks,
            Err(e) => {
                return Err(e);
            },
        };
        proof {
            lemma_tasks_match_ids(tasks@, tasks_section(top_level@).unwrap());
            lemma_first_duplicate(task_ids(tasks@));
        }
        Self::from_tasks(tasks)
    }

    /// Reads the catalog from the text of a catalog file. Text that the YAML parser
    /// rejects is a parse error; what it accepts is read by [`Self::from_documents`].
    pub fn try_from(contents: &str) -> (res: Result<Self, TaskRegistryCreationError>)
        ensures
            match yaml_documents(contents@) {
                Some(documents) => is_catalog_of(res, documents),
                None => res matches Err(TaskRegistryCreationError::ParseError { .. }),
            },
    {
        match load_documents(contents) {
            Ok(documents) => Self::from_documents(&documents),
            Err(e) => Err(TaskRegistryCreationError::ParseError { source: e }),
        }
    }
}

/// What building a catalog from `documents` must result in: the first document must be a
/// mapping, its `tasks` entry, if any, a mapping, and no two described tasks may share
/// an identifier; the catalog then holds exactly the described tasks.
pub open spec fn is_catalog_of(
    res: Result<TaskRegistry, TaskRegistryCreationError>,
    documents: Seq<YamlNode>,
) -> bool {
    if documents.len() == 0 {
        res matches Err(TaskRegistryCreationError::MalformedConfig)
    } else {
        match documents[0] {
            YamlNode::Mapping(top_level) => match tasks_section(top_level@) {
                Some(entries) => match first_duplicate(described_ids(entries)) {
                    None => (res matches Ok(registry) && registry.wf() && tasks_match(
                        registry.spec_tasks(),
                        entries,
                    )),
                    Some(j) => (res matches Err(
                        TaskRegistryCreationError::DuplicateTask { task_name },
                    ) && task_name@ == described_ids(entries)[j]),
                },
                None => res matches Err(TaskRegistryCreationError::TasksNotMap),
            },
            _ => res matches Err(TaskRegistryCreationError::TopLevelNotMap),
        }
    }
}

/// Where a prefix of a list ends in a repeated identifier and holds no repetition
/// before it, the first duplicate of the whole list is that position.
pub proof fn lemma_first_duplicate_prefix(ids: Seq<Seq<char>>, n: int)
    requires
        0 < n <= ids.len(),
        first_duplicate(ids.subrange(0, n - 1)) is None,
        ids.subrange(0, n - 1).contains(ids[n - 1]),
    ensures
        first_duplicate(ids) == Some(n - 1),
    decreases ids.len() - n,
{
    let prefix = ids.subrange(0, n);
    assert(prefix.drop_last() =~= ids.subrange(0, n - 1));
    assert(prefix.last() == ids[n - 1]);
    assert(first_duplicate(prefix) == Some(n - 1));
    if n < ids.len() {
        lemma_first_duplicate_extend(ids, n);
    } else {
        assert(prefix =~= ids);
    }
}

/// A first duplicate found in a prefix stays the first duplicate of every longer list.
pub proof fn lemma_first_duplicate_extend(ids: Seq<Seq<char>>, n: int)
    requires
        0 <= n <= ids.len(),
        first_duplicate(ids.subrange(0, n)) is Some,
    ensures
        first_duplicate(ids) == first_duplicate(ids.subrange(0, n)),
    decreases ids.len() - n,
{
    if n < ids.len() {
        let longer = ids.subrange(0, n + 1);
        assert(longer.drop_last() =~= ids.subrange(0, n));
        lemma_first_duplicate_extend(ids, n + 1);
    } else {
        assert(ids.subrange(0, n) =~= ids);
    }
}

} // verus!
