//! Task descriptions and the requests the command layer hands the core.
//!
//! A task carries an identifier and optional descriptive fields; the
//! request types are plain data that an outer command-line layer fills
//! in.

use vstd::prelude::*;

verus! {

/// A tracked task: its identifier and optional description fields.
pub struct Task {
    pub task_id: String,
    pub url: Option<String>,
    pub title: Option<String>,
    pub workpackage: Option<String>,
    pub objective: Option<String>,
}

/// Request to activate a task.
pub struct ActivateArgs {
    pub task_id: String,
}

/// Request to show one task's description.
pub struct ShowArgs {
    pub task_id: String,
}

/// Request to list tasks, optionally only the most recent ones.
pub struct ListArgs {
    pub num_tasks: Option<usize>,
}

/// Request to create a task.
pub struct NewArgs {
    pub task_id: String,
    pub url: Option<String>,
    pub title: Option<String>,
    pub workpackage: Option<String>,
    pub objective: Option<String>,
}

/// Request to edit a task's description: each field may be set to a new
/// value or dropped.
pub struct EditArgs {
    pub task_id: String,
    pub url: Option<String>,
    pub drop_url: bool,
    pub title: Option<String>,
    pub drop_title: bool,
    pub workpackage: Option<String>,
    pub drop_workpackage: bool,
    pub objective: Option<String>,
    pub drop_objective: bool,
}

/// Request to remove a vacation by its identifier.
pub struct VacationRemoveArgs {
    pub id: i64,
}

/// Whether an edit touches one field: it does when a new value is given
/// or the field is dropped, and is skipped otherwise.
pub fn field_update_applies(value: &Option<String>, drop: bool) -> (r: bool)
    ensures
        r == (value is Some || drop),
{
    value.is_some() || drop
}

impl EditArgs {
    /// Whether the edit touches any field at all; an edit that touches
    /// none is reported to the caller instead of being applied.
    pub fn has_updates(&self) -> (r: bool)
        ensures
            r == (self.url is Some || self.drop_url || self.title is Some || self.drop_title
                || self.workpackage is Some || self.drop_workpackage || self.objective is Some
                || self.drop_objective),
    {
        field_update_applies(&self.url, self.drop_url) || field_update_applies(
            &self.title,
            self.drop_title,
        ) || field_update_applies(&self.workpackage, self.drop_workpackage)
            || field_update_applies(&self.objective, self.drop_objective)
    }
}

} // verus!
