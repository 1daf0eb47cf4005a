//! The fields every task variant shares.

use crate::strings::clone_strings;
use crate::tasks::task::TaskError;
use crate::yaml::{mapping_get, mapping_index, YamlNode};
use vstd::prelude::*;
use vstd::string::StringExecFns;

verus! {

/// The string scalars among `items`, in order.
pub open spec fn text_items(items: Seq<YamlNode>) -> Seq<Seq<char>>
    decreases items.len(),
{
    if items.len() == 0 {
        Seq::empty()
    } else {
        match items.last() {
            YamlNode::Text(s) => text_items(items.drop_last()).push(s@),
            _ => text_items(items.drop_last()),
        }
    }
}

/// The list of strings stored under `key`: the string items of the sequence found
/// there, and nothing when the key is absent or holds no sequence.
pub open spec fn string_list(entries: Seq<(YamlNode, YamlNode)>, key: Seq<char>) -> Seq<Seq<char>> {
    match mapping_index(entries, key) {
        Some(i) => match entries[i].1 {
            YamlNode::Sequence(items) => text_items(items@),
            _ => Seq::empty(),
        },
        None => Seq::empty(),
    }
}

/// Collects the string items of a sequence, skipping every other item.
pub fn collect_text_items(items: &Vec<YamlNode>) -> (res: Vec<String>)
    ensures
        res.deep_view() == text_items(items@),
{
    let mut out: Vec<String> = Vec::new();
    let mut i: usize = 0;
    while i < items.len()
        invariant
            i <= items.len(),
            out.deep_view() == text_items(items@.subrange(0, i as int)),
        decreases items.len() - i,
    {
        let ghost before = out.deep_view();
        assert(items@.subrange(0, i + 1).drop_last() =~= items@.subrange(0, i as int));
        match &items[i] {
            YamlNode::Text(s) => {
                out.push(s.clone());
                assert(out.deep_view() =~= before.push(s@));
            },
            _ => {},
        }
        i += 1;
    }
    assert(items@.subrange(0, i as int) =~= items@);
    out
}

/// Reads the list of strings stored under `key`.
pub fn read_string_list(entries: &Vec<(YamlNode, YamlNode)>, key: &str) -> (res: Vec<String>)
    ensures
        res.deep_view() == string_list(entries@, key@),
{
    match mapping_get(entries, key) {
        Some(node) => match node {
            YamlNode::Sequence(items) => collect_text_items(items),
            _ => {
                let out: Vec<String> = Vec::new();
                assert(out.deep_view() =~= Seq::<Seq<char>>::empty());
                out
            },
        },
        None => {
            let out: Vec<String> = Vec::new();
            assert(out.deep_view() =~= Seq::<Seq<char>>::empty());
            out
        },
    }
}

/// Identifier, dependencies and inputs of a task.
#[derive(Debug)]
pub struct BaseTask {
    name: String,
    dependencies: Vec<String>,
    inputs: Vec<String>,
}

impl BaseTask {
    /// The task's identifier.
    pub closed spec fn spec_id(&self) -> Seq<char> {
        self.name@
    }

    /// The identifiers the task depends on, in declaration order.
    pub closed spec fn spec_dependencies(&self) -> Seq<Seq<char>> {
        self.dependencies.deep_view()
    }

    /// The declared input paths, in declaration order.
    pub closed spec fn spec_inputs(&self) -> Seq<Seq<char>> {
        self.inputs.deep_view()
    }

    /// Builds a task from its parts.
    pub fn new(name: String, dependencies: Vec<String>, inputs: Vec<String>) -> (task: Self)
        ensures
            task.spec_id() == name@,
            task.spec_dependencies() == dependencies.deep_view(),
            task.spec_inputs() == inputs.deep_view(),
    {
        BaseTask { name, dependencies, inputs }
    }

    /// Reads the shared fields from a task body: `dependsOn` and `inputs` are optional
    /// sequences whose non-string items are dropped.
    pub fn from_task_yaml(task_name: &str, task_data: &Vec<(YamlNode, YamlNode)>) -> (res: Option<Self>)
        ensures
            res matches Some(task) && task.spec_id() == task_name@ && task.spec_dependencies()
                == string_list(task_data@, "dependsOn"@) && task.spec_inputs() == string_list(
                task_data@,
                "inputs"@,
            ),
    {
        let dependencies = read_string_list(task_data, "dependsOn");
        let inputs = read_string_list(task_data, "inputs");
        Some(BaseTask { name: String::from_str(task_name), dependencies, inputs })
    }

    /// A base task has nothing to execute: it completes with its own identifier.
    pub fn run(&self) -> (res: Result<String, TaskError>)
        ensures
            res matches Ok(id) && id@ == self.spec_id(),
    {
        Ok(self.id())
    }

    /// A copy of the task's identifier.
    pub fn id(&self) -> (id: String)
        ensures
            id@ == self.spec_id(),
    {
        self.name.clone()
    }

    /// The task's identifier, borrowed.
    pub fn id_ref(&self) -> (id: &String)
        ensures
            id@ == self.spec_id(),
    {
        &self.name
    }

    /// The identifiers the task depends on.
    pub fn dependencies(&self) -> (deps: &Vec<String>)
        ensures
            deps.deep_view() == self.spec_dependencies(),
    {
        &self.dependencies
    }

    /// The declared input paths.
    pub fn inputs(&self) -> (inputs: &Vec<String>)
        ensures
            inputs.deep_view() == self.spec_inputs(),
    {
        &self.inputs
    }
}

impl Clone for BaseTask {
    fn clone(&self) -> (res: Self)
        ensures
            res.spec_id() == self.spec_id(),
            res.spec_dependencies() == self.spec_dependencies(),
            res.spec_inputs() == self.spec_inputs(),
    {
        BaseTask {
            name: self.name.clone(),
            dependencies: clone_strings(&self.dependencies),
            inputs: clone_strings(&self.inputs),
        }
    }
}

} // verus!
