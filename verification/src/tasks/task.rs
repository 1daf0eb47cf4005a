//! The task sum type and the errors a task run can end in.

use crate::tasks::base_task::string_list;
use crate::tasks::execute_task::{read_text_entry, text_entry, ExecuteTask, ExecuteTaskError};
use crate::yaml::{text_equals, YamlNode};
use std::collections::hash_map::DefaultHasher;
use std::hash::Hasher;
use vstd::prelude::*;
use vstd::std_specs::hash::DefaultHasherAdditionalSpecFns;
use vstd::string::StringExecFns;
use vstd::utf8::encode_utf8;

verus! {

/// Why a dispatched task did not complete.
#[derive(Debug)]
pub enum TaskError {
    /// The command could not be started or awaited, or exited unsuccessfully.
    ExecutionError { source: ExecuteTaskError },
    /// The worker dropped the task's result before delivering it.
    CanceledError,
}

/// The colour a task's output is prefixed with.
#[derive(Debug, Clone, Copy, PartialEq, Eq, Structural)]
pub struct TaskColor {
    pub r: u8,
    pub g: u8,
    pub b: u8,
}

/// The 64-bit hash of an identifier: what the standard library's default hasher makes
/// of the identifier's UTF-8 bytes followed by the byte `0xFF`.
pub open spec fn id_hash(id: Seq<char>) -> u64 {
    DefaultHasher::spec_finish(seq![encode_utf8(id), seq![0xFFu8]])
}

/// Hashes an identifier with the standard library's default hasher.
pub fn hash_of_id(id: &String) -> (hash: u64)
    ensures
        hash == id_hash(id@),
{
    let mut hasher = DefaultHasher::new();
    hasher.write(id.as_str().as_bytes());
    let marker: [u8; 1] = [0xFF];
    hasher.write(marker.as_slice());
    proof {
        assert(marker@ =~= seq![0xFFu8]);
        assert(hasher@ =~= seq![encode_utf8(id@), seq![0xFFu8]]);
    }
    hasher.finish()
}

/// Splits a 64-bit hash into a colour: the low byte is red, the next green, the next blue.
pub fn color_from_hash(hash: u64) -> (color: TaskColor)
    ensures
        color.r == hash & 0xFF,
        color.g == (hash >> 8) & 0xFF,
        color.b == (hash >> 16) & 0xFF,
{
    assert(hash & 0xFF <= 0xFF) by (bit_vector);
    assert((hash >> 8) & 0xFF <= 0xFF) by (bit_vector);
    assert((hash >> 16) & 0xFF <= 0xFF) by (bit_vector);
    TaskColor {
        r: (hash & 0xFF) as u8,
        g: ((hash >> 8) & 0xFF) as u8,
        b: ((hash >> 16) & 0xFF) as u8,
    }
}

/// What is left of `line` once the whitespace at its ends is taken away, as
/// `str::trim` takes it away.
pub uninterp spec fn trimmed(line: Seq<char>) -> Seq<char>;

/// Trims with the standard library's `str::trim`. Trusted: the result is named, nothing
/// more is claimed of it.
#[verifier::external_body]
fn trim_line(line: &str) -> (res: String)
    ensures
        res@ == trimmed(line@),
{
    line.trim().to_string()
}

/// The prefix of every line that the task named `task_id` writes: the identifier in
/// square brackets.
pub fn output_prefix(task_id: &str) -> (prefix: String)
    ensures
        prefix@ == "["@ + task_id@ + "]"@,
{
    String::from_str("[").concat(task_id).concat("]")
}

/// What is printed of a line that a task wrote: the line without the whitespace at its
/// ends, and nothing if nothing else is in it.
pub fn output_line(line: &str) -> (res: Option<String>)
    ensures
        match res {
            Some(text) => text@ == trimmed(line@) && text@.len() > 0,
            None => trimmed(line@).len() == 0,
        },
{
    let text = trim_line(line);
    if text.as_str().unicode_len() == 0 {
        None
    } else {
        Some(text)
    }
}

/// The record printed for a line of output: the prefix, a colon and a space, the line.
pub fn output_record(prefix: &str, line: &str) -> (record: String)
    ensures
        record@ == prefix@ + ": "@ + line@,
{
    String::from_str(prefix).concat(": ").concat(line)
}

/// A task of the catalog.
#[derive(Debug)]
pub enum Task {
    Execute(ExecuteTask),
}

/// Whether a task body selects the command variant: its `type` is the string
/// `execute`, or it declares no string type at all.
pub open spec fn selects_execute(entries: Seq<(YamlNode, YamlNode)>) -> bool {
    match text_entry(entries, "type"@) {
        Some(declared) => declared == "execute"@,
        None => true,
    }
}

impl Task {
    /// The task's identifier.
    pub open spec fn spec_id(&self) -> Seq<char> {
        match *self {
            Task::Execute(task) => task.spec_id(),
        }
    }

    /// The identifiers the task depends on, in declaration order.
    pub open spec fn spec_dependencies(&self) -> Seq<Seq<char>> {
        match *self {
            Task::Execute(task) => task.spec_dependencies(),
        }
    }

    /// The declared input paths, in declaration order.
    pub open spec fn spec_inputs(&self) -> Seq<Seq<char>> {
        match *self {
            Task::Execute(task) => task.spec_inputs(),
        }
    }

    /// The shell command.
    pub open spec fn spec_command(&self) -> Seq<char> {
        match *self {
            Task::Execute(task) => task.spec_command(),
        }
    }

    /// Whether two tasks agree in identifier, dependencies, inputs and command.
    pub open spec fn same_as(&self, other: Task) -> bool {
        &&& self.spec_id() == other.spec_id()
        &&& self.spec_dependencies() == other.spec_dependencies()
        &&& self.spec_inputs() == other.spec_inputs()
        &&& self.spec_command() == other.spec_command()
    }

    /// Reads a task from a task body. A body whose `type` names anything but `execute`
    /// yields no task, and so does a command task without a string `command`.
    pub fn from_task_yaml(task_name: &str, task_data: &Vec<(YamlNode, YamlNode)>) -> (res: Option<Self>)
        ensures
            res.is_some() == (selects_execute(task_data@) && text_entry(
                task_data@,
                "command"@,
            ).is_some()),
            res matches Some(Task::Execute(task)) ==> {
                &&& task.spec_id() == task_name@
                &&& Some(task.spec_command()) == text_entry(task_data@, "command"@)
                &&& task.spec_dependencies() == string_list(task_data@, "dependsOn"@)
                &&& task.spec_inputs() == string_list(task_data@, "inputs"@)
            },
    {
        let is_execute = match read_text_entry(task_data, "type") {
            Some(declared) => text_equals(declared, "execute"),
            None => true,
        };
        if is_execute {
            match ExecuteTask::from_task_yaml(task_name, task_data) {
                Some(task) => Some(Task::Execute(task)),
                None => None,
            }
        } else {
            None
        }
    }

    /// A copy of the task's identifier.
    pub fn id(&self) -> (id: String)
        ensures
            id@ == self.spec_id(),
    {
        match self {
            Task::Execute(task) => task.id(),
        }
    }

    /// The colour of the task's output: derived from the hash of its identifier, so one
    /// task has one colour in every run.
    pub fn color(&self) -> (color: TaskColor)
        ensures
            color.r == id_hash(self.spec_id()) & 0xFF,
            color.g == (id_hash(self.spec_id()) >> 8) & 0xFF,
            color.b == (id_hash(self.spec_id()) >> 16) & 0xFF,
    {
        color_from_hash(hash_of_id(self.id_ref()))
    }

    /// The task's identifier, borrowed.
    pub fn id_ref(&self) -> (id: &String)
        ensures
            id@ == self.spec_id(),
    {
        match self {
            Task::Execute(task) => task.id_ref(),
        }
    }

    /// The identifiers the task depends on.
    pub fn dependencies(&self) -> (deps: &Vec<String>)
        ensures
            deps.deep_view() == self.spec_dependencies(),
    {
        match self {
            Task::Execute(task) => task.dependencies(),
        }
    }

    /// The declared input paths.
    pub fn inputs(&self) -> (inputs: &Vec<String>)
        ensures
            inputs.deep_view() == self.spec_inputs(),
    {
        match self {
            Task::Execute(task) => task.inputs(),
        }
    }
}

impl Clone for Task {
    fn clone(&self) -> (res: Self)
        ensures
            res.same_as(*self),
            res.spec_id() == self.spec_id(),
            res.spec_dependencies() == self.spec_dependencies(),
            res.spec_inputs() == self.spec_inputs(),
            res.spec_command() == self.spec_command(),
    {
        match self {
            Task::Execute(task) => Task::Execute(task.clone()),
        }
    }
}

} // verus!
