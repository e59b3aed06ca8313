//! A model of the document store, and the store-side logic of the read
//! paths.
//!
//! The real system keeps its boards in an external document store whose one
//! synchronization primitive is an atomic replace-and-increment returning the
//! post-update document. This module states that primitive's semantics
//! exactly, over an in-memory store: every contract the coordinator relies on
//! — found versus missing, which board changes and which stay untouched, and
//! what the returned document holds — is written here and proved. It also
//! holds the read-path logic the request handlers need: listing boards in
//! creation order, and the seed boards an empty store is given.

use vstd::prelude::*;
use vstd::seq_lib::group_to_multiset_ensures;
use vstd::multiset::Multiset;
use vstd::string::StringExecFns;
use crate::boards::{Board, BoardModel, Task, TaskList, TaskListModel, TaskModel};
use crate::put_boards_id::{apply_update, update_model, BoardDTO};

verus! {

/// A deep copy of a task, equal in the model.
pub fn clone_task(t: &Task) -> (r: Task)
    ensures
        r@ == t@,
{
    Task { id: t.id, name: t.name.clone() }
}

fn clone_tasks(ts: &Vec<Task>) -> (r: Vec<Task>)
    ensures
        r@.map_values(|t: Task| t@) == ts@.map_values(|t: Task| t@),
{
    let mut r: Vec<Task> = Vec::new();
    let mut k: usize = 0;
    while k < ts.len()
        invariant
            k <= ts@.len(),
            r@.len() == k,
            forall|i: int| 0 <= i < k ==> #[trigger] r@[i]@ == ts@[i]@,
        decreases ts@.len() - k,
    {
        r.push(clone_task(&ts[k]));
        k = k + 1;
    }
    proof {
        assert(r@.map_values(|t: Task| t@) =~= ts@.map_values(|t: Task| t@));
    }
    r
}

/// A deep copy of a task list, equal in the model.
pub fn clone_list(l: &TaskList) -> (r: TaskList)
    ensures
        r@ == l@,
{
    let r = TaskList { id: l.id, name: l.name.clone(), tasks: clone_tasks(&l.tasks) };
    proof {
        assert(r@ =~= l@);
    }
    r
}

fn clone_lists(ls: &Vec<TaskList>) -> (r: Vec<TaskList>)
    ensures
        r@.map_values(|l: TaskList| l@) == ls@.map_values(|l: TaskList| l@),
{
    let mut r: Vec<TaskList> = Vec::new();
    let mut k: usize = 0;
    while k < ls.len()
        invariant
            k <= ls@.len(),
            r@.len() == k,
            forall|i: int| 0 <= i < k ==> #[trigger] r@[i]@ == ls@[i]@,
        decreases ls@.len() - k,
    {
        r.push(clone_list(&ls[k]));
        k = k + 1;
    }
    proof {
        assert(r@.map_values(|l: TaskList| l@) =~= ls@.map_values(|l: TaskList| l@));
    }
    r
}

/// A deep copy of a board, equal in the model.
pub fn clone_board(b: &Board) -> (r: Board)
    ensures
        r@ == b@,
{
    let r = Board {
        id: b.id,
        version: b.version,
        created_at: b.created_at,
        name: b.name.clone(),
        lists: clone_lists(&b.lists),
    };
    proof {
        assert(r@ =~= b@);
    }
    r
}

/// The store's boards, keyed by their identifiers.
#[derive(Debug)]
pub struct Store {
    pub boards: Vec<Board>,
}

impl Store {
    /// The stored documents, as mathematical values.
    pub open spec fn models(self) -> Seq<BoardModel> {
        self.boards@.map_values(|b: Board| b@)
    }

    /// Identifiers are unique: the store keys documents by them.
    pub open spec fn wf(self) -> bool {
        forall|i: int, j: int| 0 <= i < j < self.models().len()
            ==> #[trigger] self.models()[i].id != #[trigger] self.models()[j].id
    }

    /// Some document carries this identifier.
    pub open spec fn contains_id(self, id: u128) -> bool {
        exists|k: int| 0 <= k < self.models().len() && #[trigger] self.models()[k].id == id
    }

    /// An empty store.
    pub fn new() -> (s: Store)
        ensures
            s.models() == Seq::<BoardModel>::empty(),
            s.wf(),
    {
        let s = Store { boards: Vec::new() };
        proof {
            assert(s.models() =~= Seq::<BoardModel>::empty());
        }
        s
    }

    /// How many boards are stored.
    pub fn count(&self) -> (n: usize)
        ensures
            n == self.models().len(),
    {
        self.boards.len()
    }

    /// Stores a new board under its fresh identifier.
    pub fn insert_board(&mut self, b: Board)
        requires
            old(self).wf(),
            !old(self).contains_id(b.id),
        ensures
            final(self).models() == old(self).models().push(b@),
            final(self).wf(),
    {
        self.boards.push(b);
        proof {
            assert(self.models() =~= old(self).models().push(b@));
        }
    }

    /// Reads one board by identifier: a copy of the stored document exactly
    /// when one with that identifier exists.
    pub fn find_one(&self, id: u128) -> (r: Option<Board>)
        requires
            self.wf(),
        ensures
            r is Some <==> self.contains_id(id),
            forall|k: int| 0 <= k < self.models().len() && self.models()[k].id == id
                ==> r is Some && r->0@ == self.models()[k],
    {
        let n = self.boards.len();
        let mut k: usize = 0;
        while k < n
            invariant
                self.wf(),
                n == self.models().len(),
                k <= n,
                forall|j: int| 0 <= j < k ==> self.models()[j].id != id,
            decreases n - k,
        {
            if self.boards[k].id == id {
                proof {
                    assert(self.models()[k as int].id == id);
                    // Identifiers are unique, so this is the one such board.
                    assert forall|j: int| 0 <= j < n && self.models()[j].id == id implies j
                        == k as int by {
                        if j != k as int {
                            assert(self.models()[j].id != self.models()[k as int].id);
                        }
                    }
                }
                return Some(clone_board(&self.boards[k]));
            }
            k = k + 1;
        }
        None
    }

    /// Reads the first stored board, if any: what a filterless single-row
    /// query returns.
    pub fn first_board(&self) -> (r: Option<Board>)
        ensures
            r is Some <==> self.models().len() > 0,
            r is Some ==> r->0@ == self.models()[0],
    {
        if self.boards.len() > 0 {
            Some(clone_board(&self.boards[0]))
        } else {
            None
        }
    }

    /// The store's one synchronization primitive: atomically replaces the
    /// named board's name and lists, increments its version by exactly 1,
    /// and returns the post-update document. Returns nothing, and changes
    /// nothing, when no board carries the identifier. Every other document
    /// is untouched, so concurrent writers to different boards never
    /// interfere, and concurrent writers to one board are serialized by the
    /// store and each see their own write's distinct version.
    pub fn find_one_and_update(&mut self, id: u128, dto: &BoardDTO) -> (r: Option<Board>)
        requires
            old(self).wf(),
            forall|k: int| 0 <= k < old(self).models().len() && old(self).models()[k].id == id
                ==> old(self).models()[k].version < u64::MAX,
        ensures
            final(self).wf(),
            r is Some <==> old(self).contains_id(id),
            r is None ==> final(self).models() == old(self).models(),
            final(self).models().len() == old(self).models().len(),
            forall|k: int| 0 <= k < old(self).models().len() && old(self).models()[k].id != id
                ==> final(self).models()[k] == old(self).models()[k],
            forall|k: int| 0 <= k < old(self).models().len() && old(self).models()[k].id == id
                ==> r is Some && r->0@ == update_model(old(self).models()[k], dto@)
                    && final(self).models()[k] == r->0@,
    {
        let n = self.boards.len();
        let mut k: usize = 0;
        while k < n
            invariant
                self == old(self),
                old(self).wf(),
                forall|j: int| 0 <= j < old(self).models().len() && old(self).models()[j].id
                    == id ==> old(self).models()[j].version < u64::MAX,
                n == self.models().len(),
                k <= n,
                forall|j: int| 0 <= j < k ==> self.models()[j].id != id,
            decreases n - k,
        {
            if self.boards[k].id == id {
                let ghost before = self.models();
                proof {
                    assert(before[k as int].id == id);
                    assert forall|j: int| 0 <= j < n && before[j].id == id implies j
                        == k as int by {
                        if j != k as int {
                            assert(before[j].id != before[k as int].id);
                        }
                    }
                }
                let updated = apply_update(&self.boards[k], dto);
                let copy = clone_board(&updated);
                self.boards.remove(k);
                self.boards.insert(k, updated);
                proof {
                    let nm = update_model(before[k as int], dto@);
                    assert(self.models() =~= before.update(k as int, nm));
                    assert(nm.id == id);
                    assert forall|i: int, j: int| 0 <= i < j < self.models().len() implies
                        self.models()[i].id != self.models()[j].id by {
                        assert(before[i].id != before[j].id);
                    }
                }
                return Some(copy);
            }
            k = k + 1;
        }
        proof {
            assert(!self.contains_id(id));
        }
        None
    }

    /// All boards, ordered by creation time: what the listing endpoint
    /// serves. The result holds exactly the stored documents.
    pub fn list_boards(&self) -> (r: Vec<Board>)
        ensures
            r@.map_values(|b: Board| b@).to_multiset() == self.models().to_multiset(),
            forall|i: int, j: int| 0 <= i <= j < r@.len() ==> r@[i].created_at
                <= r@[j].created_at,
    {
        let mut src: Vec<Board> = Vec::new();
        let mut k: usize = 0;
        while k < self.boards.len()
            invariant
                k <= self.boards@.len(),
                src@.len() == k,
                forall|i: int| 0 <= i < k ==> #[trigger] src@[i]@ == self.models()[i],
            decreases self.boards@.len() - k,
        {
            src.push(clone_board(&self.boards[k]));
            k = k + 1;
        }
        proof {
            assert(src@.map_values(|b: Board| b@) =~= self.models());
        }
        sort_boards_by_created_at(src)
    }
}

/// Sorts boards by creation time, keeping exactly the given boards.
pub fn sort_boards_by_created_at(boards: Vec<Board>) -> (r: Vec<Board>)
    ensures
        r@.map_values(|b: Board| b@).to_multiset() == boards@.map_values(
            |b: Board| b@,
        ).to_multiset(),
        forall|i: int, j: int| 0 <= i <= j < r@.len() ==> r@[i].created_at <= r@[j].created_at,
{
    broadcast use group_to_multiset_ensures;

    let ghost orig = boards@.map_values(|b: Board| b@);
    let mut src = boards;
    let mut out: Vec<Board> = Vec::new();
    proof {
        broadcast use group_to_multiset_ensures;

        assert(out@.map_values(|b: Board| b@) =~= Seq::<BoardModel>::empty());
        assert(out@.map_values(|b: Board| b@).to_multiset() =~= Multiset::<BoardModel>::empty());
        assert(out@.map_values(|b: Board| b@).to_multiset().add(
            src@.map_values(|b: Board| b@).to_multiset(),
        ) =~= orig.to_multiset());
    }
    while src.len() > 0
        invariant
            out@.map_values(|b: Board| b@).to_multiset().add(
                src@.map_values(|b: Board| b@).to_multiset(),
            ) == orig.to_multiset(),
            forall|i: int, j: int| 0 <= i <= j < out@.len() ==> out@[i].created_at
                <= out@[j].created_at,
            forall|i: int, j: int| 0 <= i < out@.len() && 0 <= j < src@.len()
                ==> out@[i].created_at <= src@[j].created_at,
        decreases src@.len(),
    {
        let mut mi: usize = 0;
        let mut k: usize = 1;
        while k < src.len()
            invariant
                src@.len() > 0,
                mi < k <= src@.len(),
                forall|j: int| 0 <= j < k ==> src@[mi as int].created_at <= src@[j].created_at,
            decreases src@.len() - k,
        {
            if src[k].created_at < src[mi].created_at {
                mi = k;
            }
            k = k + 1;
        }
        let ghost src_before = src@.map_values(|b: Board| b@);
        let ghost out_before = out@.map_values(|b: Board| b@);
        let b = src.remove(mi);
        out.push(b);
        proof {
            broadcast use group_to_multiset_ensures;

            assert(src@.map_values(|b2: Board| b2@) =~= src_before.remove(mi as int));
            assert(out@.map_values(|b2: Board| b2@) =~= out_before.push(src_before[mi as int]));
            let m = src_before[mi as int];
            assert(src_before.remove(mi as int).to_multiset() =~= src_before.to_multiset()
                .remove(m));
            assert(out_before.push(m).to_multiset() =~= out_before.to_multiset().insert(m));
            assert(out_before.to_multiset().insert(m).add(
                src_before.to_multiset().remove(m),
            ) =~= out_before.to_multiset().add(src_before.to_multiset()));
        }
    }
    proof {
        broadcast use group_to_multiset_ensures;

        assert(src@.map_values(|b: Board| b@) =~= Seq::<BoardModel>::empty());
        assert(src@.map_values(|b: Board| b@).to_multiset() =~= Multiset::<BoardModel>::empty());
        assert(out@.map_values(|b: Board| b@).to_multiset() =~= orig.to_multiset());
    }
    out
}

/// Whether an empty store must be seeded: the bootstrap path seeds exactly
/// when no board exists yet.
pub fn needs_seed(board_count: usize) -> (r: bool)
    ensures
        r <==> board_count == 0,
{
    board_count == 0
}

/// The boards an empty store is seeded with, as mathematical values: a
/// sample shopping board with two lists, and four empty boards. The eight
/// fresh identifiers are consecutive from `base_id`.
pub open spec fn initial_boards_model(base_id: u128, created_at: u64) -> Seq<BoardModel> {
    seq![
        BoardModel {
            id: base_id,
            version: 0,
            created_at,
            name: "Shopping"@,
            lists: seq![
                TaskListModel {
                    id: (base_id + 1) as u128,
                    name: "Grocery list"@,
                    tasks: seq![
                        TaskModel { id: (base_id + 2) as u128, name: "4-6 Apples"@ },
                        TaskModel { id: (base_id + 3) as u128, name: "Milk"@ },
                    ],
                },
                TaskListModel {
                    id: (base_id + 4) as u128,
                    name: "Click here to rename"@,
                    tasks: seq![
                        TaskModel {
                            id: (base_id + 5) as u128,
                            name: "Drag tasks and lists to rearrange them"@,
                        },
                    ],
                },
            ],
        },
        BoardModel {
            id: (base_id + 6) as u128,
            version: 0,
            created_at,
            name: "Empty Board 1"@,
            lists: Seq::empty(),
        },
        BoardModel {
            id: (base_id + 7) as u128,
            version: 0,
            created_at,
            name: "Empty Board 2"@,
            lists: Seq::empty(),
        },
        BoardModel {
            id: (base_id + 8) as u128,
            version: 0,
            created_at,
            name: "Empty Board 3"@,
            lists: Seq::empty(),
        },
        BoardModel {
            id: (base_id + 9) as u128,
            version: 0,
            created_at,
            name: "Empty Board 4"@,
            lists: Seq::empty(),
        },
    ]
}

/// The seed boards for an empty store. The caller hands a base for the
/// eight fresh identifiers and the creation time.
pub fn create_initial_boards(base_id: u128, created_at: u64) -> (r: Vec<Board>)
    requires
        base_id <= u128::MAX - 9,
    ensures
        r@.map_values(|b: Board| b@) == initial_boards_model(base_id, created_at),
{
    let grocery_tasks: Vec<Task> = vec![
        Task::new(base_id + 2, String::from_str("4-6 Apples")),
        Task::new(base_id + 3, String::from_str("Milk")),
    ];
    let grocery_list = TaskList::new(
        base_id + 1,
        String::from_str("Grocery list"),
        grocery_tasks,
    );
    let tutorial_tasks: Vec<Task> = vec![
        Task::new(base_id + 5, String::from_str("Drag tasks and lists to rearrange them")),
    ];
    let tutorial_list = TaskList::new(
        base_id + 4,
        String::from_str("Click here to rename"),
        tutorial_tasks,
    );
    let shopping_lists: Vec<TaskList> = vec![grocery_list, tutorial_list];
    let shopping = Board::new(
        base_id,
        created_at,
        String::from_str("Shopping"),
        shopping_lists,
    );
    let empty1 = Board::new(
        base_id + 6,
        created_at,
        String::from_str("Empty Board 1"),
        Vec::new(),
    );
    let empty2 = Board::new(
        base_id + 7,
        created_at,
        String::from_str("Empty Board 2"),
        Vec::new(),
    );
    let empty3 = Board::new(
        base_id + 8,
        created_at,
        String::from_str("Empty Board 3"),
        Vec::new(),
    );
    let empty4 = Board::new(
        base_id + 9,
        created_at,
        String::from_str("Empty Board 4"),
        Vec::new(),
    );
    let r: Vec<Board> = vec![shopping, empty1, empty2, empty3, empty4];
    proof {
        assert(r@.map_values(|b: Board| b@) =~~= initial_boards_model(base_id, created_at));
    }
    r
}

} // verus!
