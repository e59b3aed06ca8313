//! The board data model.
//!
//! A board is the top-level shared document: an opaque identifier (generated
//! at creation, never reassigned), a monotonically increasing version counter
//! (0 at creation, +1 on every successful write), a creation timestamp in
//! milliseconds, a display name, and an ordered sequence of task lists. List
//! and task order is significant (drag-and-drop position) and must round-trip
//! unchanged through persistence and relay.
//!
//! Identifiers are held as plain 128-bit integers; the surrounding shell
//! generates fresh ones and converts to whatever form its store uses.

use vstd::prelude::*;
use vstd::string::StringExecFns;
use crate::numbers::{dec_rep, push_dec};

verus! {

/// The broker topic for a board: `board.` followed by the identifier in
/// canonical decimal. The writer (coordinator) and every subscriber (bridge)
/// must compute exactly this string, or publications become invisible to
/// watchers; both sides' topic functions are pinned to this one spelling.
pub open spec fn subject_spec(id: u128) -> Seq<char> {
    "board."@ + dec_rep(id as nat)
}

/// Identifier of a board: an opaque unique token.
pub type BoardId = u128;

/// One entry of a task list.
#[derive(Debug, PartialEq, Eq)]
pub struct Task {
    pub id: u128,
    pub name: String,
}

/// An ordered list of tasks with a display name.
#[derive(Debug, PartialEq, Eq)]
pub struct TaskList {
    pub id: u128,
    pub name: String,
    pub tasks: Vec<Task>,
}

/// The top-level shared document.
#[derive(Debug, PartialEq, Eq)]
pub struct Board {
    pub id: BoardId,
    pub version: u64,
    /// Milliseconds since the epoch, assigned once at creation.
    pub created_at: u64,
    pub name: String,
    pub lists: Vec<TaskList>,
}

/// Mathematical image of a `Task`.
#[verifier::ext_equal]
pub ghost struct TaskModel {
    pub id: u128,
    pub name: Seq<char>,
}

/// Mathematical image of a `TaskList`.
#[verifier::ext_equal]
pub ghost struct TaskListModel {
    pub id: u128,
    pub name: Seq<char>,
    pub tasks: Seq<TaskModel>,
}

/// Mathematical image of a `Board`.
#[verifier::ext_equal]
pub ghost struct BoardModel {
    pub id: u128,
    pub version: u64,
    pub created_at: u64,
    pub name: Seq<char>,
    pub lists: Seq<TaskListModel>,
}

impl View for Task {
    type V = TaskModel;

    open spec fn view(&self) -> TaskModel {
        TaskModel { id: self.id, name: self.name@ }
    }
}

impl View for TaskList {
    type V = TaskListModel;

    open spec fn view(&self) -> TaskListModel {
        TaskListModel {
            id: self.id,
            name: self.name@,
            tasks: self.tasks@.map_values(|t: Task| t@),
        }
    }
}

impl View for Board {
    type V = BoardModel;

    open spec fn view(&self) -> BoardModel {
        BoardModel {
            id: self.id,
            version: self.version,
            created_at: self.created_at,
            name: self.name@,
            lists: self.lists@.map_values(|l: TaskList| l@),
        }
    }
}

impl Task {
    /// A fresh task carries the identifier the caller generated for it.
    pub fn new(id: u128, name: String) -> (t: Task)
        ensures
            t@ == (TaskModel { id, name: name@ }),
    {
        Task { id, name }
    }
}

impl TaskList {
    /// A fresh list carries the identifier the caller generated for it.
    pub fn new(id: u128, name: String, tasks: Vec<Task>) -> (l: TaskList)
        ensures
            l@ == (TaskListModel {
                id,
                name: name@,
                tasks: tasks@.map_values(|t: Task| t@),
            }),
    {
        TaskList { id, name, tasks }
    }
}

impl Board {
    /// A fresh board starts at version 0 with the identifier and creation
    /// time the caller generated for it.
    pub fn new(id: BoardId, created_at: u64, name: String, lists: Vec<TaskList>) -> (b: Board)
        ensures
            b@ == (BoardModel {
                id,
                version: 0,
                created_at,
                name: name@,
                lists: lists@.map_values(|l: TaskList| l@),
            }),
    {
        Board { id, version: 0, created_at, name, lists }
    }

    /// The topic this board's updates are published on.
    pub fn pubsub_subject(&self) -> (r: String)
        ensures
            r@ == subject_spec(self.id),
    {
        pubsub_subject(&self.id)
    }
}

/// The topic for a board identifier; subscribers call this with the
/// identifier a connection was opened for, and it agrees with the writer's
/// [`Board::pubsub_subject`] by construction.
pub fn pubsub_subject(board_id: &BoardId) -> (r: String)
    ensures
        r@ == subject_spec(*board_id),
{
    let mut s = String::new();
    s.append("board.");
    push_dec(&mut s, *board_id);
    proof {
        assert(s@ =~= subject_spec(*board_id));
    }
    s
}

} // verus!
