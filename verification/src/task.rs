//! Tasks, what is recorded of them, and what a worker reports back.

use vstd::prelude::*;
use vstd::string::*;

verus! {

/// What a worker is asked to do. The scheduler reads the name, the dependencies and the
/// identity labels; the rest travels with the task to the worker.
#[derive(Debug, Clone)]
pub struct TaskDef {
    pub name: String,
    pub cwd: String,
    pub prompt: String,
    pub depends_on: Vec<String>,
    pub agent_id: Option<String>,
    pub thread_id: Option<String>,
    pub output_schema: Option<String>,
    pub ephemeral: bool,
    pub add_dirs: Vec<String>,
    pub sandbox: String,
    pub model: Option<String>,
    pub ask_for_approval: String,
    pub config_overrides: Vec<String>,
    pub profile: Option<String>,
}

/// Where a task stands.
#[derive(Debug, Clone, Copy, PartialEq, Eq, Structural)]
pub enum TaskStatus {
    Pending,
    Running,
    Done,
    Failed,
    Cancelled,
}

/// How a worker's task ended.
#[derive(Debug, Clone)]
pub struct TaskRunReport {
    pub name: String,
    pub status: TaskStatus,
    pub error: Option<String>,
}

/// What a report says.
#[verifier::ext_equal]
pub struct ReportRecord {
    pub name: Seq<char>,
    pub status: TaskStatus,
    pub error: Option<Seq<char>>,
}

impl View for TaskRunReport {
    type V = ReportRecord;

    open spec fn view(&self) -> ReportRecord {
        ReportRecord { name: self.name@, status: self.status, error: optional_text(self.error) }
    }
}

/// The record kept of one task. A label that was never set is empty; times are RFC 3339 texts.
#[derive(Debug, Clone)]
pub struct TaskMeta {
    pub name: String,
    pub cwd: String,
    pub prompt: String,
    pub agent_id: String,
    pub thread_id: String,
    pub wave: Option<u32>,
    pub status: TaskStatus,
    pub error: Option<String>,
    pub end_time: Option<String>,
    /// What else is recorded, as it is stored: when the task started, what it used, how its
    /// worker exited. Empty where there is nothing.
    pub other: String,
}

/// What a record says.
#[verifier::ext_equal]
pub struct MetaRecord {
    pub name: Seq<char>,
    pub cwd: Seq<char>,
    pub prompt: Seq<char>,
    pub agent_id: Seq<char>,
    pub thread_id: Seq<char>,
    pub wave: Option<u32>,
    pub status: TaskStatus,
    pub error: Option<Seq<char>>,
    pub end_time: Option<Seq<char>>,
    pub other: Seq<char>,
}

impl View for TaskMeta {
    type V = MetaRecord;

    open spec fn view(&self) -> MetaRecord {
        MetaRecord {
            name: self.name@,
            cwd: self.cwd@,
            prompt: self.prompt@,
            agent_id: self.agent_id@,
            thread_id: self.thread_id@,
            wave: self.wave,
            status: self.status,
            error: optional_text(self.error),
            end_time: optional_text(self.end_time),
            other: self.other@,
        }
    }
}

impl MetaRecord {
    /// The record of a task of which nothing is known but its definition.
    pub open spec fn blank(name: Seq<char>, cwd: Seq<char>, prompt: Seq<char>) -> MetaRecord {
        MetaRecord {
            name,
            cwd,
            prompt,
            agent_id: Seq::empty(),
            thread_id: Seq::empty(),
            wave: None,
            status: TaskStatus::Pending,
            error: None,
            end_time: None,
            other: Seq::empty(),
        }
    }

    /// The record of `task` once it is clear that it will never start: what was recorded, or a
    /// blank record, with missing labels filled in. All else that was recorded is kept.
    pub open spec fn cancelled(
        recorded: Option<MetaRecord>,
        task: TaskDef,
        reason: Seq<char>,
        end_time: Seq<char>,
    ) -> MetaRecord {
        let base = match recorded {
            Some(record) => record,
            None => MetaRecord::blank(task.name@, task.cwd@, task.prompt@),
        };
        MetaRecord {
            agent_id: label(base.agent_id, task.agent_id, task.name@),
            thread_id: label(base.thread_id, task.thread_id, task.name@),
            status: TaskStatus::Cancelled,
            error: Some(reason),
            end_time: Some(end_time),
            ..base
        }
    }
}

/// A recorded label, or else the one that the task asks for, or else the task's name.
pub open spec fn label(recorded: Seq<char>, wanted: Option<String>, name: Seq<char>) -> Seq<char> {
    if recorded.len() > 0 {
        recorded
    } else {
        match wanted {
            Some(text) => text@,
            None => name,
        }
    }
}

/// The record of an optional one.
pub open spec fn optional_record(meta: Option<TaskMeta>) -> Option<MetaRecord> {
    match meta {
        Some(m) => Some(m@),
        None => None,
    }
}

impl TaskMeta {
    /// The record of a task of which nothing is known but its definition.
    pub fn new(name: &str, cwd: &str, prompt: &str) -> (meta: TaskMeta)
        ensures
            meta@ == MetaRecord::blank(name@, cwd@, prompt@),
            meta.name@ == name@,
            meta.cwd@ == cwd@,
            meta.prompt@ == prompt@,
            meta.agent_id@.len() == 0,
            meta.thread_id@.len() == 0,
            meta.wave is None,
            meta.status == TaskStatus::Pending,
            meta.error is None,
            meta.end_time is None,
            meta.other@.len() == 0,
    {
        TaskMeta {
            name: name.to_owned(),
            cwd: cwd.to_owned(),
            prompt: prompt.to_owned(),
            agent_id: String::new(),
            thread_id: String::new(),
            wave: None,
            status: TaskStatus::Pending,
            error: None,
            end_time: None,
            other: String::new(),
        }
    }

    /// The record of a task that will never start, with the time given.
    pub fn cancelled_at(
        recorded: Option<TaskMeta>,
        task: &TaskDef,
        reason: &str,
        end_time: String,
    ) -> (meta: TaskMeta)
        ensures
            meta@ == MetaRecord::cancelled(optional_record(recorded), *task, reason@, end_time@),
            meta.status == TaskStatus::Cancelled,
            meta.error matches Some(error) && error@ == reason@,
            meta.end_time matches Some(time) && time@ == end_time@,
            match recorded {
                Some(record) => {
                    &&& meta.name@ == record.name@
                    &&& meta.cwd@ == record.cwd@
                    &&& meta.prompt@ == record.prompt@
                    &&& meta.wave == record.wave
                    &&& meta.other@ == record.other@
                    &&& record.agent_id@.len() > 0 ==> meta.agent_id@ == record.agent_id@
                    &&& record.thread_id@.len() > 0 ==> meta.thread_id@ == record.thread_id@
                },
                None => {
                    &&& meta.name@ == task.name@
                    &&& meta.cwd@ == task.cwd@
                    &&& meta.prompt@ == task.prompt@
                    &&& meta.wave is None
                    &&& meta.other@.len() == 0
                },
            },
            recorded is None || recorded->0.agent_id@.len() == 0 ==> meta.agent_id@
                == match task.agent_id {
                Some(label) => label@,
                None => task.name@,
            },
            recorded is None || recorded->0.thread_id@.len() == 0 ==> meta.thread_id@
                == match task.thread_id {
                Some(label) => label@,
                None => task.name@,
            },
    {
        let mut meta = match recorded {
            Some(meta) => meta,
            None => TaskMeta::new(task.name.as_str(), task.cwd.as_str(), task.prompt.as_str()),
        };
        if meta.agent_id.as_str().is_empty() {
            meta.agent_id = match &task.agent_id {
                Some(label) => label.clone(),
                None => task.name.clone(),
            };
        }
        if meta.thread_id.as_str().is_empty() {
            meta.thread_id = match &task.thread_id {
                Some(label) => label.clone(),
                None => task.name.clone(),
            };
        }
        meta.status = TaskStatus::Cancelled;
        meta.error = Some(reason.to_owned());
        meta.end_time = Some(end_time);
        meta
    }
}

/// The text in an optional string.
pub open spec fn optional_text(text: Option<String>) -> Option<Seq<char>> {
    match text {
        Some(t) => Some(t@),
        None => None,
    }
}

/// An optional string once more.
pub fn clone_text(text: &Option<String>) -> (copy: Option<String>)
    ensures
        optional_text(copy) == optional_text(*text),
        match (copy, *text) {
            (Some(c), Some(t)) => c@ == t@,
            (None, None) => true,
            _ => false,
        },
{
    match text {
        Some(t) => Some(t.clone()),
        None => None,
    }
}

/// The names of a list of tasks, in order.
pub open spec fn task_names(tasks: Seq<TaskDef>) -> Seq<Seq<char>> {
    tasks.map_values(|task: TaskDef| task.name@)
}

/// The names that a task waits for.
pub open spec fn dependencies(task: TaskDef) -> Set<Seq<char>> {
    crate::names::texts(task.depends_on@).to_set()
}

} // verus!
