//! Tasks that run a shell command.

use crate::tasks::base_task::BaseTask;
use crate::tasks::task::TaskError;
use crate::yaml::{mapping_get, mapping_index, YamlNode};
use vstd::prelude::*;

verus! {

/// Why running a command failed.
#[derive(Debug)]
pub enum ExecuteTaskError {
    /// The command could not be started; `source` is the system's message.
    SpawnError { command: String, task_name: String, source: String },
    /// Waiting for the command failed; `source` is the system's message.
    WaitError { command: String, task_name: String, source: String },
    /// The command ran and exited unsuccessfully.
    UnsuccessfulExecution { command: String, task_name: String, status: i32 },
}

/// The operating-system family, which decides the shell a command runs in.
#[derive(Debug, Clone, Copy, PartialEq, Eq, Structural)]
pub enum OsFamily {
    Unix,
    Windows,
}

/// The string scalar stored under `key`, if the key is present and holds one.
pub open spec fn text_entry(entries: Seq<(YamlNode, YamlNode)>, key: Seq<char>) -> Option<Seq<char>> {
    match mapping_index(entries, key) {
        Some(i) => entries[i].1.spec_as_str(),
        None => None,
    }
}

/// Reads the string scalar stored under `key`.
pub fn read_text_entry<'a>(entries: &'a Vec<(YamlNode, YamlNode)>, key: &str) -> (res: Option<&'a String>)
    ensures
        res.is_some() == text_entry(entries@, key@).is_some(),
        res matches Some(s) ==> text_entry(entries@, key@) == Some(s@),
{
    match mapping_get(entries, key) {
        Some(node) => node.as_str(),
        None => None,
    }
}

/// A task whose work is one shell command.
#[derive(Debug)]
pub struct ExecuteTask {
    base_task: BaseTask,
    command: String,
}

impl ExecuteTask {
    /// The task's identifier.
    pub closed spec fn spec_id(&self) -> Seq<char> {
        self.base_task.spec_id()
    }

    /// The identifiers the task depends on, in declaration order.
    pub closed spec fn spec_dependencies(&self) -> Seq<Seq<char>> {
        self.base_task.spec_dependencies()
    }

    /// The declared input paths, in declaration order.
    pub closed spec fn spec_inputs(&self) -> Seq<Seq<char>> {
        self.base_task.spec_inputs()
    }

    /// The shell command.
    pub closed spec fn spec_command(&self) -> Seq<char> {
        self.command@
    }

    /// Builds a task from its shared fields and its command.
    pub fn new(base_task: BaseTask, command: String) -> (task: Self)
        ensures
            task.spec_id() == base_task.spec_id(),
            task.spec_dependencies() == base_task.spec_dependencies(),
            task.spec_inputs() == base_task.spec_inputs(),
            task.spec_command() == command@,
    {
        ExecuteTask { base_task, command }
    }

    /// Reads a command task from a task body. The body must hold a string under
    /// `command`; the shared fields are read as for every task.
    pub fn from_task_yaml(task_name: &str, task_data: &Vec<(YamlNode, YamlNode)>) -> (res: Option<Self>)
        ensures
            res.is_some() == text_entry(task_data@, "command"@).is_some(),
            res matches Some(task) ==> {
                &&& task.spec_id() == task_name@
                &&& Some(task.spec_command()) == text_entry(task_data@, "command"@)
                &&& task.spec_dependencies() == crate::tasks::base_task::string_list(
                    task_data@,
                    "dependsOn"@,
                )
                &&& task.spec_inputs() == crate::tasks::base_task::string_list(task_data@, "inputs"@)
            },
    {
        let command = match read_text_entry(task_data, "command") {
            Some(text) => text.clone(),
            None => {
                return None;
            },
        };
        match BaseTask::from_task_yaml(task_name, task_data) {
            Some(base_task) => Some(ExecuteTask { base_task, command }),
            None => None,
        }
    }

    /// A copy of the task's identifier.
    pub fn id(&self) -> (id: String)
        ensures
            id@ == self.spec_id(),
    {
        self.base_task.id()
    }

    /// The task's identifier, borrowed.
    pub fn id_ref(&self) -> (id: &String)
        ensures
            id@ == self.spec_id(),
    {
        self.base_task.id_ref()
    }

    /// The identifiers the task depends on.
    pub fn dependencies(&self) -> (deps: &Vec<String>)
        ensures
            deps.deep_view() == self.spec_dependencies(),
    {
        self.base_task.dependencies()
    }

    /// The declared input paths.
    pub fn inputs(&self) -> (inputs: &Vec<String>)
        ensures
            inputs.deep_view() == self.spec_inputs(),
    {
        self.base_task.inputs()
    }

    /// The shell command.
    pub fn command(&self) -> (command: &String)
        ensures
            command@ == self.spec_command(),
    {
        &self.command
    }

    /// The program and arguments that run the command: `sh -c <command>` on the Unix
    /// family, `cmd /C <command>` on the Windows family.
    pub fn full_command(&self, family: OsFamily) -> (res: (&'static str, Vec<&str>))
        ensures
            res.0@ == (if family == OsFamily::Unix {
                "sh"@
            } else {
                "cmd"@
            }),
            res.1@.len() == 2,
            res.1@[0]@ == (if family == OsFamily::Unix {
                "-c"@
            } else {
                "/C"@
            }),
            res.1@[1]@ == self.spec_command(),
    {
        let mut args: Vec<&str> = Vec::new();
        match family {
            OsFamily::Unix => {
                args.push("-c");
                args.push(self.command.as_str());
                ("sh", args)
            },
            OsFamily::Windows => {
                args.push("/C");
                args.push(self.command.as_str());
                ("cmd", args)
            },
        }
    }

    /// The error for a command that could not be started.
    pub fn spawn_failure(&self, message: String) -> (err: TaskError)
        ensures
            err matches TaskError::ExecutionError {
                source: ExecuteTaskError::SpawnError { command, task_name, source },
            } && command@ == self.spec_command() && task_name@ == self.spec_id() && source@
                == message@,
    {
        TaskError::ExecutionError {
            source: ExecuteTaskError::SpawnError {
                command: self.command.clone(),
                task_name: self.id(),
                source: message,
            },
        }
    }

    /// The error for a command whose exit could not be awaited.
    pub fn wait_failure(&self, message: String) -> (err: TaskError)
        ensures
            err matches TaskError::ExecutionError {
                source: ExecuteTaskError::WaitError { command, task_name, source },
            } && command@ == self.spec_command() && task_name@ == self.spec_id() && source@
                == message@,
    {
        TaskError::ExecutionError {
            source: ExecuteTaskError::WaitError {
                command: self.command.clone(),
                task_name: self.id(),
                source: message,
            },
        }
    }

    /// What a finished command means for the task: a successful exit completes it with
    /// its identifier; any other exit is an error carrying the exit code, or -1 when the
    /// system reports none.
    pub fn completion(&self, success: bool, code: Option<i32>) -> (res: Result<String, TaskError>)
        ensures
            success ==> (res matches Ok(id) && id@ == self.spec_id()),
            !success ==> (res matches Err(
                TaskError::ExecutionError {
                    source: ExecuteTaskError::UnsuccessfulExecution { command, task_name, status },
                },
            ) && command@ == self.spec_command() && task_name@ == self.spec_id() && status == (
            match code {
                Some(c) => c,
                None => -1i32,
            })),
    {
        if success {
            Ok(self.id())
        } else {
            let status: i32 = match code {
                Some(c) => c,
                None => -1,
            };
            Err(
                TaskError::ExecutionError {
                    source: ExecuteTaskError::UnsuccessfulExecution {
                        command: self.command.clone(),
                        task_name: self.id(),
                        status,
                    },
                },
            )
        }
    }
}

impl Clone for ExecuteTask {
    fn clone(&self) -> (res: Self)
        ensures
            res.spec_id() == self.spec_id(),
            res.spec_dependencies() == self.spec_dependencies(),
            res.spec_inputs() == self.spec_inputs(),
            res.spec_command() == self.spec_command(),
    {
        ExecuteTask { base_task: self.base_task.clone(), command: self.command.clone() }
    }
}

} // verus!
