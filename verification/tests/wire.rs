//! The wire codec: exact canonical output, exact round trips, and rejection
//! of everything non-canonical.

use kanban_backend::boards::{pubsub_subject, Board, Task, TaskList};
use kanban_backend::codec::{decode_board, encode_board};

fn sample_board() -> Board {
    let tasks = vec![
        Task::new(7, String::from("4-6 Apples")),
        Task::new(8, String::from("Milk")),
    ];
    let list = TaskList::new(5, String::from("Grocery list"), tasks);
    let extra = TaskList::new(6, String::from("Later"), Vec::new());
    Board::new(42, 1700000000000, String::from("Shopping"), vec![list, extra])
}

#[test]
fn encode_known_board_exact() {
    let b = sample_board();
    let s = encode_board(&b);
    assert_eq!(
        s,
        "{\"id\":42,\"version\":0,\"created_at\":1700000000000,\"name\":\"Shopping\",\
         \"lists\":[{\"id\":5,\"name\":\"Grocery list\",\"tasks\":[\
         {\"id\":7,\"name\":\"4-6 Apples\"},{\"id\":8,\"name\":\"Milk\"}]},\
         {\"id\":6,\"name\":\"Later\",\"tasks\":[]}]}"
    );
}

#[test]
fn encode_escapes_name() {
    let b = Board::new(1, 2, String::from("a\"b\\c\nd"), Vec::new());
    let s = encode_board(&b);
    assert_eq!(
        s,
        "{\"id\":1,\"version\":0,\"created_at\":2,\"name\":\"a\\\"b\\\\c\\u000ad\",\"lists\":[]}"
    );
}

#[test]
fn round_trip_simple() {
    let b = sample_board();
    let s = encode_board(&b);
    let d = decode_board(&s).expect("canonical text must decode");
    assert_eq!(d, sample_board());
}

#[test]
fn round_trip_unicode_and_controls() {
    let name = String::from("u\u{308}ber \u{2603} \u{1} \t \"q\" \\ end");
    let tasks = vec![Task::new(u128::MAX, name.clone())];
    let list = TaskList::new(0, String::from("\u{0}"), tasks);
    let b = Board::new(u128::MAX - 1, u64::MAX, name.clone(), vec![list]);
    let s = encode_board(&b);
    let d = decode_board(&s).expect("canonical text must decode");
    assert_eq!(d, b);
}

#[test]
fn round_trip_preserves_order() {
    let mut lists = Vec::new();
    for l in 0..3u128 {
        let mut tasks = Vec::new();
        for t in 0..2u128 {
            tasks.push(Task::new(100 + l * 10 + t, format!("task {l}.{t}")));
        }
        lists.push(TaskList::new(l, format!("list {l}"), tasks));
    }
    let b = Board::new(9, 3, String::from("ordered"), lists);
    let d = decode_board(&encode_board(&b)).expect("canonical text must decode");
    assert_eq!(d.lists.len(), 3);
    for l in 0..3usize {
        assert_eq!(d.lists[l].name, format!("list {l}"));
        for t in 0..2usize {
            assert_eq!(d.lists[l].tasks[t].name, format!("task {l}.{t}"));
        }
    }
}

#[test]
fn decode_rejects_noncanonical() {
    // Canonical form of an empty board, for reference.
    let good = "{\"id\":1,\"version\":0,\"created_at\":2,\"name\":\"x\",\"lists\":[]}";
    assert!(decode_board(good).is_some());
    // Whitespace.
    assert!(decode_board("{\"id\": 1,\"version\":0,\"created_at\":2,\"name\":\"x\",\"lists\":[]}").is_none());
    // Leading zero in a number.
    assert!(decode_board("{\"id\":01,\"version\":0,\"created_at\":2,\"name\":\"x\",\"lists\":[]}").is_none());
    // Trailing data.
    assert!(decode_board(&format!("{good} ")).is_none());
    // Truncation.
    assert!(decode_board(&good[..good.len() - 1]).is_none());
    // Wrong key order.
    assert!(decode_board("{\"version\":0,\"id\":1,\"created_at\":2,\"name\":\"x\",\"lists\":[]}").is_none());
    // Uppercase hex in an escape.
    assert!(decode_board("{\"id\":1,\"version\":0,\"created_at\":2,\"name\":\"\\u000A\",\"lists\":[]}").is_none());
    // An escape that the canonical form never produces.
    assert!(decode_board("{\"id\":1,\"version\":0,\"created_at\":2,\"name\":\"\\u0041\",\"lists\":[]}").is_none());
    // A raw control character inside a string.
    assert!(decode_board("{\"id\":1,\"version\":0,\"created_at\":2,\"name\":\"\u{1}\",\"lists\":[]}").is_none());
    // Empty input.
    assert!(decode_board("").is_none());
}

#[test]
fn decode_rejects_oversized_counters() {
    // One above u64::MAX in the version.
    assert!(decode_board(
        "{\"id\":1,\"version\":18446744073709551616,\"created_at\":2,\"name\":\"x\",\"lists\":[]}"
    )
    .is_none());
    // u64::MAX itself is fine.
    assert!(decode_board(
        "{\"id\":1,\"version\":18446744073709551615,\"created_at\":2,\"name\":\"x\",\"lists\":[]}"
    )
    .is_some());
    // One above u128::MAX in the identifier.
    assert!(decode_board(
        "{\"id\":340282366920938463463374607431768211456,\"version\":0,\"created_at\":2,\"name\":\"x\",\"lists\":[]}"
    )
    .is_none());
}

#[test]
fn topic_naming_exact() {
    assert_eq!(pubsub_subject(&42), "board.42");
    assert_eq!(pubsub_subject(&0), "board.0");
    assert_eq!(
        pubsub_subject(&u128::MAX),
        "board.340282366920938463463374607431768211455"
    );
}

#[test]
fn topic_naming_writer_and_subscriber_agree() {
    // The coordinator publishes on the board's own topic; a bridge computes
    // the topic from the identifier the connection was opened with. They
    // must be identical strings.
    let b = sample_board();
    assert_eq!(b.pubsub_subject(), pubsub_subject(&b.id));
}
