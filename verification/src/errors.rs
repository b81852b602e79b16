use vstd::prelude::*;

verus! {

/// Failure of an operation on a named list in the store.
#[derive(Debug, Clone, Copy, PartialEq, Eq, Structural)]
pub enum ListError {
    /// A list with the requested name already exists.
    AlreadyExists,
    /// No list with the requested name exists.
    NotFound,
}

/// Failure of an operation on a task inside the store.
#[derive(Debug, Clone, Copy, PartialEq, Eq, Structural)]
pub enum TaskError {
    /// The named list does not exist.
    ListNotFound,
    /// The named list already holds a task with the requested name.
    TaskAlreadyExists,
    /// No task with the requested name was found anywhere it was looked for.
    TaskNotFound,
    /// The user declined a confirmation; callers print nothing for this one.
    Declined,
}

/// Failure to decode a persisted store.
#[derive(Debug, Clone, Copy, PartialEq, Eq, Structural)]
pub enum StorageError {
    /// The persisted text is not a well-formed store.
    Malformed,
}

impl ListError {
    /// The single human-readable line shown for this error.
    pub fn message(&self) -> (r: String)
        ensures
            *self == ListError::AlreadyExists ==> r@ == "List already exists"@,
            *self == ListError::NotFound ==> r@ == "List not found"@,
    {
        match self {
            ListError::AlreadyExists => "List already exists".to_owned(),
            ListError::NotFound => "List not found".to_owned(),
        }
    }
}

impl TaskError {
    /// The single human-readable line shown for this error; the silent
    /// decline carries no message at all.
    pub fn message(&self) -> (r: String)
        ensures
            *self == TaskError::ListNotFound ==> r@ == "List not found"@,
            *self == TaskError::TaskAlreadyExists ==> r@ == "Task already exists"@,
            *self == TaskError::TaskNotFound ==> r@ == "Task not found"@,
            *self == TaskError::Declined ==> r@ == ""@,
    {
        match self {
            TaskError::ListNotFound => "List not found".to_owned(),
            TaskError::TaskAlreadyExists => "Task already exists".to_owned(),
            TaskError::TaskNotFound => "Task not found".to_owned(),
            TaskError::Declined => "".to_owned(),
        }
    }
}

impl StorageError {
    /// The single human-readable line shown for this error.
    pub fn message(&self) -> (r: String)
        ensures
            r@ == "Unable to deserialize json"@,
    {
        "Unable to deserialize json".to_owned()
    }
}

} // verus!
