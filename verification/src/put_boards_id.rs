//! The write path: the update coordinator's decisions.
//!
//! An edit arrives as a [`BoardDTO`]: the proposed new name and lists. The
//! store applies it with its one atomic operation — replace the name and
//! lists, increment the version by exactly 1, and return the post-update
//! document — whose semantics is [`update_model`]. The coordinator then
//! serializes the returned authoritative board and publishes it on the
//! board's topic. A missing board fails with `NotFound` and is not retried; a
//! store fault is surfaced as `StoreUnavailable`; a publish failure after a
//! successful write is reported as `PublishFailed` but never rolls the write
//! back — the store is the source of truth and a watcher can always re-fetch.
//!
//! The update payload carries no identifiers for its lists and tasks; the
//! schema is additive and a missing identifier takes the default value 0, so
//! the replaced lists and tasks come back with identifier 0.

use vstd::prelude::*;
use crate::boards::{Board, BoardModel, Task, TaskList, TaskListModel, TaskModel, subject_spec};
use crate::codec::{enc_board, encode_board};

verus! {

/// A proposed task in an update payload.
#[derive(Debug, PartialEq, Eq)]
pub struct TaskDTO {
    pub name: String,
}

/// A proposed task list in an update payload.
#[derive(Debug, PartialEq, Eq)]
pub struct TaskListDTO {
    pub name: String,
    pub tasks: Vec<TaskDTO>,
}

/// A proposed update: the board's new name and lists.
#[derive(Debug, PartialEq, Eq)]
pub struct BoardDTO {
    pub name: String,
    pub lists: Vec<TaskListDTO>,
}

/// Mathematical image of a `TaskDTO`.
#[verifier::ext_equal]
pub ghost struct TaskDTOModel {
    pub name: Seq<char>,
}

/// Mathematical image of a `TaskListDTO`.
#[verifier::ext_equal]
pub ghost struct TaskListDTOModel {
    pub name: Seq<char>,
    pub tasks: Seq<TaskDTOModel>,
}

/// Mathematical image of a `BoardDTO`.
#[verifier::ext_equal]
pub ghost struct BoardDTOModel {
    pub name: Seq<char>,
    pub lists: Seq<TaskListDTOModel>,
}

impl View for TaskDTO {
    type V = TaskDTOModel;

    open spec fn view(&self) -> TaskDTOModel {
        TaskDTOModel { name: self.name@ }
    }
}

impl View for TaskListDTO {
    type V = TaskListDTOModel;

    open spec fn view(&self) -> TaskListDTOModel {
        TaskListDTOModel {
            name: self.name@,
            tasks: self.tasks@.map_values(|t: TaskDTO| t@),
        }
    }
}

impl View for BoardDTO {
    type V = BoardDTOModel;

    open spec fn view(&self) -> BoardDTOModel {
        BoardDTOModel {
            name: self.name@,
            lists: self.lists@.map_values(|l: TaskListDTO| l@),
        }
    }
}

/// The task a proposed task becomes: its identifier defaults to 0.
pub open spec fn task_from_dto(d: TaskDTOModel) -> TaskModel {
    TaskModel { id: 0, name: d.name }
}

/// The list a proposed list becomes: its identifier defaults to 0.
pub open spec fn list_from_dto(d: TaskListDTOModel) -> TaskListModel {
    TaskListModel {
        id: 0,
        name: d.name,
        tasks: d.tasks.map_values(|t: TaskDTOModel| task_from_dto(t)),
    }
}

/// What the store's atomic operation does to a stored board: the name and
/// lists are replaced by the update's, the version rises by exactly 1, and
/// the identifier and creation time never change.
pub open spec fn update_model(b: BoardModel, d: BoardDTOModel) -> BoardModel {
    BoardModel {
        id: b.id,
        version: (b.version + 1) as u64,
        created_at: b.created_at,
        name: d.name,
        lists: d.lists.map_values(|l: TaskListDTOModel| list_from_dto(l)),
    }
}

fn task_from_update(d: &TaskDTO) -> (t: Task)
    ensures
        t@ == task_from_dto(d@),
{
    Task { id: 0, name: d.name.clone() }
}

fn list_from_update(d: &TaskListDTO) -> (l: TaskList)
    ensures
        l@ == list_from_dto(d@),
{
    let mut tasks: Vec<Task> = Vec::new();
    let mut k: usize = 0;
    while k < d.tasks.len()
        invariant
            k <= d.tasks@.len(),
            tasks@.len() == k,
            forall|i: int| 0 <= i < k ==> #[trigger] tasks@[i]@ == task_from_dto(
                d.tasks@[i]@,
            ),
        decreases d.tasks@.len() - k,
    {
        tasks.push(task_from_update(&d.tasks[k]));
        k = k + 1;
    }
    let l = TaskList { id: 0, name: d.name.clone(), tasks };
    proof {
        assert(l@.tasks =~= list_from_dto(d@).tasks);
        assert(l@ =~= list_from_dto(d@));
    }
    l
}

/// Applies a proposed update to a stored board: exactly what the store's
/// atomic replace-and-increment returns. The version rises by 1, the name and
/// lists are replaced, the identifier and creation time are kept.
pub fn apply_update(board: &Board, dto: &BoardDTO) -> (r: Board)
    requires
        board.version < u64::MAX,
    ensures
        r@ == update_model(board@, dto@),
{
    let mut lists: Vec<TaskList> = Vec::new();
    let mut k: usize = 0;
    while k < dto.lists.len()
        invariant
            k <= dto.lists@.len(),
            lists@.len() == k,
            forall|i: int| 0 <= i < k ==> #[trigger] lists@[i]@ == list_from_dto(
                dto.lists@[i]@,
            ),
        decreases dto.lists@.len() - k,
    {
        lists.push(list_from_update(&dto.lists[k]));
        k = k + 1;
    }
    let r = Board {
        id: board.id,
        version: board.version + 1,
        created_at: board.created_at,
        name: dto.name.clone(),
        lists,
    };
    proof {
        assert(r@.lists =~= update_model(board@, dto@).lists);
        assert(r@ =~= update_model(board@, dto@));
    }
    r
}

/// The board a sequence of updates leaves behind, applied in the order the
/// store serialized them.
pub open spec fn apply_updates(b: BoardModel, ds: Seq<BoardDTOModel>) -> BoardModel
    decreases ds.len(),
{
    if ds.len() == 0 {
        b
    } else {
        apply_updates(update_model(b, ds[0]), ds.drop_first())
    }
}

/// Writes racing on one board are serialized by the store's atomic
/// increment, and then every one of them succeeds with its own version:
/// after the store orders N concurrent writes, the i-th write returns
/// version `version(B) + i + 1`, so the N returned versions are distinct and
/// consecutive — no write is lost and no version is duplicated — and the
/// board's identifier and creation time survive every write.
pub proof fn lemma_concurrent_writes(b: BoardModel, ds: Seq<BoardDTOModel>)
    requires
        b.version + ds.len() <= u64::MAX,
    ensures
        apply_updates(b, ds).version == b.version + ds.len(),
        apply_updates(b, ds).id == b.id,
        apply_updates(b, ds).created_at == b.created_at,
        forall|i: int| 0 <= i < ds.len() ==> #[trigger] apply_updates(b, ds.take(i + 1)).version
            == b.version + i + 1,
    decreases ds.len(),
{
    if ds.len() > 0 {
        let b1 = update_model(b, ds[0]);
        lemma_concurrent_writes(b1, ds.drop_first());
        assert forall|i: int| 0 <= i < ds.len() implies #[trigger] apply_updates(
            b,
            ds.take(i + 1),
        ).version == b.version + i + 1 by {
            assert(ds.take(i + 1).len() == i + 1);
            assert(ds.take(i + 1)[0] == ds[0]);
            assert(ds.take(i + 1).drop_first() =~= ds.drop_first().take(i));
            if i == 0 {
                assert(ds.drop_first().take(0) =~= Seq::<BoardDTOModel>::empty());
            } else {
                let i0 = i - 1;
                assert(apply_updates(b1, ds.drop_first().take(i0 + 1)).version == b1.version
                    + i0 + 1);
                assert(ds.drop_first().take(i0 + 1) == ds.drop_first().take(i));
            }
            assert(apply_updates(b, ds.take(i + 1)) == apply_updates(
                b1,
                ds.drop_first().take(i),
            ));
        }
    }
}

/// Why a write failed. `NotFound` is terminal for the request: the edit
/// target does not exist, and the coordinator does not retry.
/// `StoreUnavailable` is surfaced so the caller may retry.
#[derive(Debug, PartialEq, Eq)]
pub enum WriteError {
    NotFound,
    StoreUnavailable,
}

/// Whether the post-write fan-out reached the broker. A failed publish
/// degrades liveness only: the write stands, and watchers can re-fetch.
#[derive(Debug, PartialEq, Eq)]
pub enum PublishStatus {
    Published,
    PublishFailed,
}

/// What came back from the store's atomic replace-and-increment.
#[derive(Debug, PartialEq, Eq)]
pub enum StoreReply {
    /// The post-update document.
    Updated(Board),
    /// No board with the requested identifier exists.
    NotFound,
    /// The store could not be reached.
    Unavailable,
}

/// The publication the coordinator owes after a successful write: the
/// board's topic and the serialized authoritative post-write state.
#[derive(Debug, PartialEq, Eq)]
pub struct PublishRequest {
    pub subject: String,
    pub payload: String,
}

/// The outcome of a write whose store operation succeeded.
#[derive(Debug, PartialEq, Eq)]
pub struct WriteSuccess {
    pub board: Board,
    pub publish: PublishStatus,
}

/// The coordinator's decision after the store reply: a returned post-update
/// board is to be published on that board's topic with its exact canonical
/// serialization; a missing board fails with `NotFound`; a store fault fails
/// with `StoreUnavailable`.
pub fn after_store(reply: StoreReply) -> (r: Result<(Board, PublishRequest), WriteError>)
    ensures
        reply matches StoreReply::Updated(b) ==> (r matches Ok(p) && p.0@ == b@ && p.1.subject@
            == subject_spec(b@.id) && p.1.payload@ == enc_board(b@)),
        reply is NotFound <==> r == Result::<(Board, PublishRequest), WriteError>::Err(
            WriteError::NotFound,
        ),
        reply is Unavailable <==> r == Result::<(Board, PublishRequest), WriteError>::Err(
            WriteError::StoreUnavailable,
        ),
{
    match reply {
        StoreReply::Updated(b) => {
            let subject = b.pubsub_subject();
            let payload = encode_board(&b);
            Ok((b, PublishRequest { subject, payload }))
        },
        StoreReply::NotFound => Err(WriteError::NotFound),
        StoreReply::Unavailable => Err(WriteError::StoreUnavailable),
    }
}

/// The coordinator's decision after the publish attempt: the write already
/// succeeded, so the caller gets the updated board either way; a failed
/// publish is reported as `PublishFailed`, never rolled back.
pub fn after_publish(board: Board, publish_ok: bool) -> (r: WriteSuccess)
    ensures
        r.board@ == board@,
        r.publish == (if publish_ok {
            PublishStatus::Published
        } else {
            PublishStatus::PublishFailed
        }),
{
    WriteSuccess {
        board,
        publish: if publish_ok {
            PublishStatus::Published
        } else {
            PublishStatus::PublishFailed
        },
    }
}

} // verus!
