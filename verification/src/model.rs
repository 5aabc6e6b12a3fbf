//! Task records and the status code mapping used by the store.

use vstd::prelude::*;

verus! {

/// The closed set of task states.  The stored integer code of each state is
/// fixed by `status_code` and must round-trip exactly.
#[derive(Debug, Clone, Copy, PartialEq, Eq, Structural)]
pub enum TaskStatus {
    Created,
    Overdue,
    Deleted,
    Done,
}

/// The fixed storage code of each status: `Overdue = 0`, `Created = 1`,
/// `Done = 2`, `Deleted = 3`.
pub open spec fn status_code(s: TaskStatus) -> i32 {
    match s {
        TaskStatus::Created => 1,
        TaskStatus::Overdue => 0,
        TaskStatus::Done => 2,
        TaskStatus::Deleted => 3,
    }
}

/// A code that stands for some status.
pub open spec fn valid_status_code(c: i32) -> bool {
    0 <= c <= 3
}

/// Terminal codes: a `Done` or `Deleted` task is never promoted to `Overdue`.
pub open spec fn terminal_code(c: i32) -> bool {
    c == status_code(TaskStatus::Done) || c == status_code(TaskStatus::Deleted)
}

impl TaskStatus {
    /// The integer code under which this status is stored.
    pub fn to_store(&self) -> (r: i32)
        ensures
            r == status_code(*self),
    {
        match *self {
            TaskStatus::Created => 1,
            TaskStatus::Overdue => 0,
            TaskStatus::Done => 2,
            TaskStatus::Deleted => 3,
        }
    }

    /// The status a stored code stands for.  Codes outside the mapping carry
    /// no meaning and are rejected by the validation layer before they reach
    /// this function.
    pub fn from_store(status: i32) -> (r: Self)
        requires
            valid_status_code(status),
        ensures
            r == Self::from_store_spec(status),
            status_code(r) == status,
    {
        if status == 1 {
            TaskStatus::Created
        } else if status == 0 {
            TaskStatus::Overdue
        } else if status == 2 {
            TaskStatus::Done
        } else {
            TaskStatus::Deleted
        }
    }
}

/// The status code mapping round-trips exactly in both directions, so the
/// stored meaning of a code can never drift.
pub proof fn lemma_status_code_round_trip(s: TaskStatus, c: i32)
    requires
        valid_status_code(c),
    ensures
        TaskStatus::from_store_spec(status_code(s)) == s,
        status_code(TaskStatus::from_store_spec(c)) == c,
{
}

impl TaskStatus {
    /// What `from_store` returns, stated as a spec function.
    pub open spec fn from_store_spec(status: i32) -> TaskStatus {
        if status == 1 {
            TaskStatus::Created
        } else if status == 0 {
            TaskStatus::Overdue
        } else if status == 2 {
            TaskStatus::Done
        } else {
            TaskStatus::Deleted
        }
    }
}

/// Client input that must be rejected before it reaches the store: a filter
/// expression without its second separator, a timestamp that does not parse,
/// or a status name or code outside the closed set.
#[derive(Debug, Clone, Copy, PartialEq, Eq, Structural)]
pub enum ValidationError {
    MalformedFilter,
    BadTimestamp,
    UnknownStatus,
}

/// A failure of the underlying storage.  The in-memory table never fails,
/// so no operation ever produces a value of it, but callers see the same
/// `Result` shape they would over a fallible store.
#[derive(Debug, Clone, Copy, PartialEq, Eq, Structural)]
pub struct StorageError;

/// A task record.  Timestamps are milliseconds since the Unix epoch; a `due`
/// of `None` means the task has no deadline and never becomes overdue.
#[derive(Debug)]
pub struct Task {
    pub id: String,
    pub name: String,
    pub description: String,
    pub status: i32,
    pub due: Option<i64>,
    pub created_at: i64,
    pub updated_at: i64,
}

impl Clone for Task {
    fn clone(&self) -> (r: Self)
        ensures
            r == *self,
    {
        Task {
            id: self.id.clone(),
            name: self.name.clone(),
            description: self.description.clone(),
            status: self.status,
            due: self.due,
            created_at: self.created_at,
            updated_at: self.updated_at,
        }
    }
}

impl PartialEq for Task {
    fn eq(&self, other: &Self) -> (r: bool) {
        let due_eq = match (self.due, other.due) {
            (Option::None, Option::None) => true,
            (Option::Some(a), Option::Some(b)) => a == b,
            _ => false,
        };
        self.id == other.id && self.name == other.name && self.description == other.description
            && self.status == other.status && due_eq && self.created_at == other.created_at
            && self.updated_at == other.updated_at
    }
}

impl vstd::std_specs::cmp::PartialEqSpecImpl for Task {
    open spec fn obeys_eq_spec() -> bool {
        true
    }

    open spec fn eq_spec(&self, other: &Self) -> bool {
        self.id@ == other.id@ && self.name@ == other.name@ && self.description@
            == other.description@ && self.status == other.status && self.due == other.due
            && self.created_at == other.created_at && self.updated_at == other.updated_at
    }
}

impl Task {
    /// A fresh record: a new identifier, the given fields, `Created`
    /// status, an empty description when none is given, and both
    /// timestamps set to the same present instant.
    pub fn new(name: &str, descr: Option<&str>, due: Option<i64>) -> (r: Self)
        ensures
            r.name@ == name@,
            r.description@ == (match descr {
                Option::Some(d) => d@,
                Option::None => Seq::<char>::empty(),
            }),
            r.status == status_code(TaskStatus::Created),
            r.due == due,
            r.created_at == r.updated_at,
            r.id@.len() == 36,
    {
        let id = crate::id::fresh_id();
        let description = match descr {
            Option::Some(d) => d.to_owned(),
            Option::None => String::new(),
        };
        let ts = crate::time::now_millis();
        Task {
            id,
            name: name.to_owned(),
            description,
            status: TaskStatus::Created.to_store(),
            due,
            created_at: ts,
            updated_at: ts,
        }
    }
}

/// The status a lowercase status name denotes, or nothing for any other
/// string.
pub open spec fn status_of_name(s: Seq<char>) -> Option<TaskStatus> {
    if s == "overdue"@ {
        Some(TaskStatus::Overdue)
    } else if s == "created"@ {
        Some(TaskStatus::Created)
    } else if s == "done"@ {
        Some(TaskStatus::Done)
    } else if s == "deleted"@ {
        Some(TaskStatus::Deleted)
    } else {
        None
    }
}

/// Maps a lowercase status name to its status.
pub fn status_from_name(name: &str) -> (r: Option<TaskStatus>)
    ensures
        r == status_of_name(name@),
{
    if crate::text::str_eq(name, "overdue") {
        Some(TaskStatus::Overdue)
    } else if crate::text::str_eq(name, "created") {
        Some(TaskStatus::Created)
    } else if crate::text::str_eq(name, "done") {
        Some(TaskStatus::Done)
    } else if crate::text::str_eq(name, "deleted") {
        Some(TaskStatus::Deleted)
    } else {
        None
    }
}

/// The fields a caller supplies to create a task.
#[derive(Debug)]
pub struct TaskForm {
    pub name: String,
    pub description: Option<String>,
    pub due: Option<i64>,
}

/// The replacement fields of an update: every mutable field of the record.
/// The timestamps ride along but are not written by `update`.
#[derive(Debug)]
pub struct TaskUpdate {
    pub id: String,
    pub name: String,
    pub description: String,
    pub status: i32,
    pub due: Option<i64>,
    pub created_at: i64,
    pub updated_at: i64,
}

/// A status filter request: the stored code to select on.
#[derive(Debug)]
pub struct FilterStatus {
    pub status: i32,
}

/// A free-text search request.
#[derive(Debug)]
pub struct FilterText {
    pub term: String,
}

} // verus!
