//! The write path: the store's atomic update, the coordinator's decisions,
//! and the seed and listing logic around the store.

use kanban_backend::boards::{Board, Task, TaskList};
use kanban_backend::post_boards;
use kanban_backend::put_boards_id::{
    after_publish, after_store, apply_update, BoardDTO, PublishStatus, StoreReply, TaskDTO,
    TaskListDTO, WriteError,
};
use kanban_backend::codec::encode_board;
use kanban_backend::store::{create_initial_boards, needs_seed, sort_boards_by_created_at, Store};

fn update(name: &str) -> BoardDTO {
    BoardDTO {
        name: String::from(name),
        lists: vec![TaskListDTO {
            name: String::from("todo"),
            tasks: vec![TaskDTO { name: String::from("one") }],
        }],
    }
}

fn seeded_store(id: u128) -> Store {
    let mut store = Store::new();
    store.insert_board(Board::new(id, 1000, String::from("before"), Vec::new()));
    store
}

#[test]
fn write_increments_version_and_replaces_fields() {
    let b = Board::new(3, 1000, String::from("before"), Vec::new());
    let dto = update("after");
    let b2 = apply_update(&b, &dto);
    assert_eq!(b2.version, 1);
    assert_eq!(b2.id, 3);
    assert_eq!(b2.created_at, 1000);
    assert_eq!(b2.name, "after");
    assert_eq!(b2.lists.len(), 1);
    assert_eq!(b2.lists[0].name, "todo");
    assert_eq!(b2.lists[0].id, 0);
    assert_eq!(b2.lists[0].tasks[0].name, "one");
    assert_eq!(b2.lists[0].tasks[0].id, 0);
}

#[test]
fn sequential_writes_get_distinct_consecutive_versions() {
    // Concurrent writers racing on one identifier are serialized by the
    // store's atomic increment; in any serialization order each write
    // succeeds with its own version.
    let mut store = seeded_store(9);
    let mut seen = Vec::new();
    for k in 0..5u64 {
        let b = store
            .find_one_and_update(9, &update(&format!("writer {k}")))
            .expect("the board exists");
        seen.push(b.version);
    }
    assert_eq!(seen, vec![1, 2, 3, 4, 5]);
    let stored = store.find_one(9).expect("still there");
    assert_eq!(stored.version, 5);
    assert_eq!(stored.name, "writer 4");
}

#[test]
fn write_to_missing_board_changes_nothing() {
    let mut store = seeded_store(9);
    assert!(store.find_one_and_update(10, &update("x")).is_none());
    let b = store.find_one(9).expect("untouched board");
    assert_eq!(b.version, 0);
    assert_eq!(b.name, "before");
}

#[test]
fn coordinator_maps_store_replies() {
    let b = Board::new(4, 7, String::from("n"), Vec::new());
    let payload = encode_board(&b);
    match after_store(StoreReply::Updated(b)) {
        Ok((board, publish)) => {
            assert_eq!(publish.subject, "board.4");
            assert_eq!(publish.payload, payload);
            assert_eq!(board.id, 4);
        }
        Err(_) => panic!("an updated board is published, not failed"),
    }
    assert_eq!(after_store(StoreReply::NotFound), Err(WriteError::NotFound));
    assert_eq!(
        after_store(StoreReply::Unavailable),
        Err(WriteError::StoreUnavailable)
    );
}

#[test]
fn publish_failure_still_returns_success() {
    // Broker unreachable after a successful store write: the caller still
    // gets the updated board; only the fan-out is reported degraded; a later
    // direct read returns the updated board.
    let mut store = seeded_store(11);
    let updated = store
        .find_one_and_update(11, &update("Renamed"))
        .expect("the board exists");
    let (board, _publish) = after_store(StoreReply::Updated(updated)).expect("write succeeded");
    let outcome = after_publish(board, false);
    assert_eq!(outcome.publish, PublishStatus::PublishFailed);
    assert_eq!(outcome.board.version, 1);
    assert_eq!(outcome.board.name, "Renamed");
    let later = store.find_one(11).expect("the write was not rolled back");
    assert_eq!(later.version, 1);
    assert_eq!(later.name, "Renamed");
}

#[test]
fn create_path_starts_at_version_zero() {
    let dto = post_boards::BoardDTO { name: String::from("fresh") };
    let b = post_boards::board_from_dto(dto, 77, 123);
    assert_eq!(b.id, 77);
    assert_eq!(b.version, 0);
    assert_eq!(b.created_at, 123);
    assert_eq!(b.name, "fresh");
    assert!(b.lists.is_empty());
}

#[test]
fn listing_is_sorted_by_creation_time() {
    let mut store = Store::new();
    store.insert_board(Board::new(1, 300, String::from("late"), Vec::new()));
    store.insert_board(Board::new(2, 100, String::from("early"), Vec::new()));
    store.insert_board(Board::new(3, 200, String::from("middle"), Vec::new()));
    let listed = store.list_boards();
    let names: Vec<&str> = listed.iter().map(|b| b.name.as_str()).collect();
    assert_eq!(names, vec!["early", "middle", "late"]);
}

#[test]
fn sort_keeps_equal_keys_together() {
    let boards = vec![
        Board::new(1, 100, String::from("a"), Vec::new()),
        Board::new(2, 100, String::from("b"), Vec::new()),
        Board::new(3, 50, String::from("c"), Vec::new()),
    ];
    let sorted = sort_boards_by_created_at(boards);
    assert_eq!(sorted.len(), 3);
    assert_eq!(sorted[0].name, "c");
    assert!(sorted[1].created_at <= sorted[2].created_at);
    let mut names: Vec<String> = sorted.iter().map(|b| b.name.clone()).collect();
    names.sort();
    assert_eq!(names, vec!["a", "b", "c"]);
}

#[test]
fn seed_boards_match_the_fixture() {
    assert!(needs_seed(0));
    assert!(!needs_seed(3));
    let seeds = create_initial_boards(1000, 42);
    assert_eq!(seeds.len(), 5);
    assert_eq!(seeds[0].name, "Shopping");
    assert_eq!(seeds[0].lists.len(), 2);
    assert_eq!(seeds[0].lists[0].name, "Grocery list");
    assert_eq!(seeds[0].lists[0].tasks[0].name, "4-6 Apples");
    assert_eq!(seeds[0].lists[0].tasks[1].name, "Milk");
    assert_eq!(seeds[0].lists[1].name, "Click here to rename");
    assert_eq!(seeds[1].name, "Empty Board 1");
    assert_eq!(seeds[4].name, "Empty Board 4");
    for b in &seeds {
        assert_eq!(b.version, 0);
        assert_eq!(b.created_at, 42);
    }
    // All generated identifiers are distinct.
    let mut ids: Vec<u128> = Vec::new();
    for b in &seeds {
        ids.push(b.id);
        for l in &b.lists {
            ids.push(l.id);
            for t in &l.tasks {
                ids.push(t.id);
            }
        }
    }
    let n = ids.len();
    ids.sort();
    ids.dedup();
    assert_eq!(ids.len(), n);
}
