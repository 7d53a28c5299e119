use lsr::entry::{Entry, Metadata};
use lsr::fault::WalkError;
use lsr::row::Row;
use lsr::walk::{Event, Request, Walker};

/// A file system kept in memory.
enum Node {
    /// A file of so many bytes.
    File(u64),
    /// A directory and what it holds, in the order in which it is read.
    Dir(Vec<(&'static str, Node)>),
    /// A directory that cannot be read.
    Locked,
    /// Something whose size and kind cannot be had.
    Broken,
    /// Something that is listed as a directory and denies being one.
    Denier,
}

fn find<'a>(root: &'a Node, path: &str) -> Option<&'a Node> {
    let mut node = root;
    for name in path.split('/').skip(1) {
        match node {
            Node::Dir(children) => {
                node = &children.iter().find(|(n, _)| *n == name)?.1;
            }
            _ => return None,
        }
    }
    Some(node)
}

fn answer(root: &Node, request: &Request) -> Event {
    match request {
        Request::IsDir(path) => Event::IsDir(matches!(
            find(root, path),
            Some(Node::Dir(_)) | Some(Node::Locked)
        )),
        Request::ReadDir(path) => Event::Entries(match find(root, path) {
            Some(Node::Dir(children)) => Ok(children
                .iter()
                .map(|(name, _)| {
                    if name.starts_with('!') {
                        Err(format!("cannot read {}", name))
                    } else {
                        Ok(Entry {
                            name: name.to_string(),
                            path: format!("{}/{}", path, name),
                        })
                    }
                })
                .collect()),
            Some(Node::Locked) => Err("Permission denied (os error 13)".to_string()),
            _ => Err("Not a directory (os error 20)".to_string()),
        }),
        Request::Metadata(path) => Event::Metadata(match find(root, path) {
            Some(Node::File(len)) => Ok(Metadata {
                len: *len,
                is_dir: false,
            }),
            Some(Node::Dir(_)) | Some(Node::Locked) | Some(Node::Denier) => Ok(Metadata {
                len: 4096,
                is_dir: true,
            }),
            _ => Err("No such file or directory (os error 2)".to_string()),
        }),
    }
}

struct Walk {
    rows: Vec<Row>,
    lines: Vec<String>,
    result: Result<u64, String>,
    asked: Vec<String>,
}

fn walk(root: &Node, depth: i8, all: bool) -> Walk {
    colored::control::set_override(false);
    let mut walker = Walker::new("top".to_string(), depth, all);
    let mut rows = Vec::new();
    let mut lines = Vec::new();
    let mut asked = Vec::new();
    assert!(walker.outcome().is_none());
    while let Some(request) = walker.request() {
        asked.push(match &request {
            Request::IsDir(path) => format!("is_dir {}", path),
            Request::ReadDir(path) => format!("read_dir {}", path),
            Request::Metadata(path) => format!("metadata {}", path),
        });
        let event = answer(root, &request);
        assert!(walker.accepts(&event));
        if let Some(row) = walker.step(event) {
                    lines.push(row.render());
            rows.push(row);
        }
        assert!(asked.len() < 10_000);
    }
    let result = match walker.outcome() {
        Some(Ok(total)) => Ok(*total),
        Some(Err(error)) => Err(error.message()),
        None => panic!("the walk ended without a result"),
    };
    Walk {
        rows,
        lines,
        result,
        asked,
    }
}

fn small_tree() -> Node {
    Node::Dir(vec![
        ("a.txt", Node::File(500)),
        ("sub", Node::Dir(vec![("b.txt", Node::File(2048))])),
    ])
}

fn deep_tree() -> Node {
    Node::Dir(vec![
        ("one", Node::File(1)),
        (
            "d1",
            Node::Dir(vec![
                ("two", Node::File(20)),
                (
                    "d2",
                    Node::Dir(vec![
                        ("three", Node::File(300)),
                        ("d3", Node::Dir(vec![("four", Node::File(4000))])),
                    ]),
                ),
                ("five", Node::File(50_000)),
            ]),
        ),
        ("six", Node::File(600_000)),
    ])
}

fn indent_of(row: &Row) -> usize {
    match row {
        Row::Directory { at, .. } => at.indent,
        Row::File { at, .. } => at.indent,
        Row::Failure { indent, .. } => *indent,
    }
}

fn file_bytes(rows: &[Row]) -> u64 {
    rows.iter()
        .map(|row| match row {
            Row::File { bytes, .. } => *bytes,
            _ => 0,
        })
        .sum()
}

#[test]
fn end_to_end() {
    let seen = walk(&small_tree(), -1, false);
    assert_eq!(
        seen.lines,
        vec!["╭ a.txt  500B", "╰ sub/", "  ╰ b.txt  2.00KB"]
    );
    assert_eq!(seen.result, Ok(2548));
}

#[test]
fn end_to_end_in_the_other_order() {
    let root = Node::Dir(vec![
        ("sub", Node::Dir(vec![("b.txt", Node::File(2048))])),
        ("a.txt", Node::File(500)),
    ]);
    let seen = walk(&root, -1, false);
    assert_eq!(
        seen.lines,
        vec!["╭ sub/", "  ╰ b.txt  2.00KB", "╰ a.txt  500B"]
    );
    assert_eq!(seen.result, Ok(2548));
}

#[test]
fn questions_come_in_the_order_of_the_visit() {
    let seen = walk(&small_tree(), -1, false);
    assert_eq!(
        seen.asked,
        vec![
            "is_dir top",
            "read_dir top",
            "metadata top/a.txt",
            "metadata top/sub",
            "is_dir top/sub",
            "read_dir top/sub",
            "metadata top/sub/b.txt",
        ]
    );
}

#[test]
fn error_containment() {
    let root = Node::Dir(vec![
        ("first.txt", Node::File(10)),
        ("locked", Node::Locked),
        ("second.txt", Node::File(20)),
    ]);
    let seen = walk(&root, -1, false);
    assert_eq!(
        seen.lines,
        vec![
            "╭ first.txt  10B",
            "├ locked/",
            "  ╰ Permission denied (os error 13)",
            "╰ second.txt  20B",
        ]
    );
    assert_eq!(seen.result, Ok(30));
}

#[test]
fn root_that_is_no_directory_fails() {
    let seen = walk(&Node::File(3), -1, false);
    assert!(seen.lines.is_empty());
    assert_eq!(seen.result, Err("top is not a directory".to_string()));
    assert_eq!(seen.asked, vec!["is_dir top"]);
}

#[test]
fn root_that_cannot_be_read_fails() {
    let seen = walk(&Node::Locked, -1, false);
    assert!(seen.lines.is_empty());
    assert_eq!(
        seen.result,
        Err("Permission denied (os error 13)".to_string())
    );
}

#[test]
fn not_a_directory_carries_the_path() {
    let mut walker = Walker::new("some/where".to_string(), 2, false);
    assert!(matches!(walker.request(), Some(Request::IsDir(path)) if path == "some/where"));
    let event = Event::IsDir(false);
    assert!(walker.accepts(&event));
    assert!(walker.step(event).is_none());
    assert!(walker.request().is_none());
    assert!(matches!(
        walker.outcome(),
        Some(Err(WalkError::NotADirectory { path })) if path == "some/where"
    ));
}

#[test]
fn unreadable_carries_path_and_cause() {
    let mut walker = Walker::new("top".to_string(), 2, false);
    walker.step(Event::IsDir(true));
    let event = Event::Entries(Err("Permission denied".to_string()));
    assert!(walker.accepts(&event));
    assert!(walker.step(event).is_none());
    assert!(matches!(
        walker.outcome(),
        Some(Err(WalkError::Unreadable { path, cause }))
            if path == "top" && cause == "Permission denied"
    ));
}

#[test]
fn metadata_failure_at_the_top_ends_the_walk() {
    let root = Node::Dir(vec![
        ("a", Node::File(7)),
        ("bad", Node::Broken),
        ("c", Node::File(9)),
    ]);
    let seen = walk(&root, -1, false);
    assert_eq!(seen.lines, vec!["╭ a  7B"]);
    assert_eq!(
        seen.result,
        Err("No such file or directory (os error 2)".to_string())
    );
    assert_eq!(seen.asked.last().unwrap(), "metadata top/bad");
}

#[test]
fn metadata_failure_carries_the_entry() {
    let mut walker = Walker::new("top".to_string(), 2, false);
    walker.step(Event::IsDir(true));
    walker.step(Event::Entries(Ok(vec![Ok(Entry {
        name: "x".to_string(),
        path: "top/x".to_string(),
    })])));
    let event = Event::Metadata(Err("gone".to_string()));
    assert!(walker.accepts(&event));
    assert!(walker.step(event).is_none());
    assert!(matches!(
        walker.outcome(),
        Some(Err(WalkError::MetadataUnavailable { path, cause }))
            if path == "top/x" && cause == "gone"
    ));
}

#[test]
fn metadata_failure_below_is_shown_and_the_walk_goes_on() {
    let root = Node::Dir(vec![
        (
            "sub",
            Node::Dir(vec![
                ("x", Node::File(100)),
                ("bad", Node::Broken),
                ("y", Node::File(1000)),
            ]),
        ),
        ("z", Node::File(5)),
    ]);
    let seen = walk(&root, -1, false);
    assert_eq!(
        seen.lines,
        vec![
            "╭ sub/",
            "  ├ x  100B",
            "  ╰ No such file or directory (os error 2)",
            "╰ z  5B",
        ]
    );
    // the visit of `sub` failed, so what it had counted goes to no total
    assert_eq!(seen.result, Ok(5));
    assert_eq!(file_bytes(&seen.rows), 105);
}

#[test]
fn entry_that_denies_being_a_directory_is_marked() {
    let root = Node::Dir(vec![("odd", Node::Denier), ("a", Node::File(1))]);
    let seen = walk(&root, 0, false);
    assert_eq!(
        seen.lines,
        vec!["╭ odd/", "  ╰ top/odd is not a directory", "╰ a  1B"]
    );
    assert_eq!(seen.result, Ok(1));
}

#[test]
fn empty_directory_shows_nothing() {
    let seen = walk(&Node::Dir(vec![]), -1, false);
    assert!(seen.lines.is_empty());
    assert_eq!(seen.result, Ok(0));
    assert_eq!(seen.asked, vec!["is_dir top", "read_dir top"]);
}

#[test]
fn directory_with_hidden_entries_only_shows_nothing() {
    let root = Node::Dir(vec![(".a", Node::File(1)), (".b", Node::File(2))]);
    let seen = walk(&root, -1, false);
    assert!(seen.lines.is_empty());
    assert_eq!(seen.result, Ok(0));
}

#[test]
fn empty_directory_below_is_shown_by_its_row_alone() {
    let root = Node::Dir(vec![("empty", Node::Dir(vec![])), ("a", Node::File(1))]);
    let seen = walk(&root, -1, false);
    assert_eq!(seen.lines, vec!["╭ empty/", "╰ a  1B"]);
    assert_eq!(seen.result, Ok(1));
}

#[test]
fn last_entry_a_directory_hands_its_total_up() {
    let root = Node::Dir(vec![(
        "d1",
        Node::Dir(vec![(
            "d2",
            Node::Dir(vec![("d3", Node::Dir(vec![("f", Node::File(77))]))]),
        )]),
    )]);
    let seen = walk(&root, -1, false);
    assert_eq!(
        seen.lines,
        vec!["─ d1/", "  ╰ d2/", "    ╰ d3/", "      ╰ f  77B"]
    );
    assert_eq!(seen.result, Ok(77));
}

#[test]
fn depth_zero_lists_the_root_alone() {
    let seen = walk(&deep_tree(), 0, false);
    assert_eq!(seen.lines, vec!["╭ one  1B", "├ d1/", "╰ six  585.94KB"]);
    assert_eq!(seen.result, Ok(600_001));
    assert!(matches!(
        &seen.rows[1],
        Row::Directory {
            expanded: false,
            ..
        }
    ));
    // the directory is probed, and no more
    assert!(seen.asked.contains(&"is_dir top/d1".to_string()));
    assert!(!seen.asked.contains(&"read_dir top/d1".to_string()));
}

#[test]
fn depth_one_lists_one_level_below() {
    let seen = walk(&deep_tree(), 1, false);
    assert_eq!(
        seen.lines,
        vec![
            "╭ one  1B",
            "├ d1/",
            "  ├ two  20B",
            "  ├ d2/",
            "  ╰ five  48.83KB",
            "╰ six  585.94KB",
        ]
    );
    assert_eq!(seen.result, Ok(650_021));
    assert!(matches!(
        &seen.rows[1],
        Row::Directory { expanded: true, .. }
    ));
    assert!(matches!(
        &seen.rows[3],
        Row::Directory {
            expanded: false,
            ..
        }
    ));
}

#[test]
fn depth_bound() {
    for depth in 0..6 {
        let seen = walk(&deep_tree(), depth, false);
        for row in &seen.rows {
            assert!(indent_of(row) <= depth as usize);
        }
        let deepest = seen.rows.iter().map(indent_of).max().unwrap();
        assert_eq!(deepest, (depth as usize).min(3));
    }
}

#[test]
fn negative_depth_lists_everything() {
    let whole = walk(&deep_tree(), 127, false);
    assert_eq!(whole.lines.len(), 9);
    assert_eq!(whole.result, Ok(654_321));
    for depth in [-1, -2, -77, i8::MIN] {
        let seen = walk(&deep_tree(), depth, false);
        assert_eq!(seen.lines, whole.lines);
        assert_eq!(seen.result, whole.result);
    }
    assert_eq!(
        whole.lines,
        vec![
            "╭ one  1B",
            "├ d1/",
            "  ├ two  20B",
            "  ├ d2/",
            "    ├ three  300B",
            "    ╰ d3/",
            "      ╰ four  3.91KB",
            "  ╰ five  48.83KB",
            "╰ six  585.94KB",
        ]
    );
}

#[test]
fn depth_beyond_the_tree_changes_nothing() {
    let whole = walk(&deep_tree(), 3, false);
    for depth in 4..10 {
        let seen = walk(&deep_tree(), depth, false);
        assert_eq!(seen.lines, whole.lines);
        assert_eq!(seen.result, whole.result);
    }
}

#[test]
fn hidden_file_filter() {
    let root = Node::Dir(vec![
        (".hidden", Node::File(1)),
        ("seen", Node::File(10)),
        (".git", Node::Dir(vec![("config", Node::File(100))])),
        (
            "src",
            Node::Dir(vec![
                (".cache", Node::File(1000)),
                ("main", Node::File(10_000)),
            ]),
        ),
    ]);
    let seen = walk(&root, -1, false);
    assert_eq!(
        seen.lines,
        vec!["╭ seen  10B", "╰ src/", "  ╰ main  9.77KB"]
    );
    assert_eq!(seen.result, Ok(10_010));
    for row in &seen.rows {
        match row {
            Row::Directory { name, .. } | Row::File { name, .. } => {
                assert!(!name.starts_with('.'))
            }
            Row::Failure { .. } => {}
        }
    }

    let seen = walk(&root, -1, true);
    assert_eq!(
        seen.lines,
        vec![
            "╭ .hidden  1B",
            "├ seen  10B",
            "├ .git/",
            "  ╰ config  100B",
            "╰ src/",
            "  ├ .cache  1000B",
            "  ╰ main  9.77KB",
        ]
    );
    assert_eq!(seen.result, Ok(11_111));
}

#[test]
fn entries_that_fail_to_enumerate_are_dropped() {
    let root = Node::Dir(vec![
        ("a", Node::File(1)),
        ("!torn", Node::File(2)),
        ("b", Node::File(4)),
    ]);
    let seen = walk(&root, -1, true);
    assert_eq!(seen.lines, vec!["╭ a  1B", "╰ b  4B"]);
    assert_eq!(seen.result, Ok(5));
}

#[test]
fn total_bytes() {
    for depth in [-1, 0, 1, 2, 3, 4] {
        for all in [false, true] {
            let seen = walk(&deep_tree(), depth, all);
            assert_eq!(seen.result, Ok(file_bytes(&seen.rows)));
        }
    }
    assert_eq!(walk(&deep_tree(), 0, false).result, Ok(600_001));
    assert_eq!(walk(&deep_tree(), 1, false).result, Ok(650_021));
    assert_eq!(walk(&deep_tree(), 2, false).result, Ok(650_321));
    assert_eq!(walk(&deep_tree(), 3, false).result, Ok(654_321));
}

#[test]
fn directories_count_by_their_files_alone() {
    // the size that the file system gives for a directory itself is not counted
    let root = Node::Dir(vec![("d", Node::Dir(vec![])), ("e", Node::Dir(vec![]))]);
    assert_eq!(walk(&root, -1, false).result, Ok(0));
}

#[test]
fn an_answer_to_another_question_is_not_accepted() {
    let walker = Walker::new("top".to_string(), 1, false);
    assert!(walker.accepts(&Event::IsDir(true)));
    assert!(!walker.accepts(&Event::Entries(Ok(vec![]))));
    assert!(!walker.accepts(&Event::Metadata(Ok(Metadata {
        len: 1,
        is_dir: false
    }))));

    let mut walker = Walker::new("top".to_string(), 1, false);
    walker.step(Event::IsDir(true));
    assert!(!walker.accepts(&Event::IsDir(true)));
    assert!(walker.accepts(&Event::Entries(Err("no".to_string()))));

    let mut walker = Walker::new("top".to_string(), 1, false);
    walker.step(Event::IsDir(false));
    assert!(!walker.accepts(&Event::IsDir(true)));
    assert!(!walker.accepts(&Event::Entries(Ok(vec![]))));
}

#[test]
fn a_total_beyond_64_bits_is_not_accepted() {
    let root = Node::Dir(vec![
        ("huge", Node::File(u64::MAX - 10)),
        ("small", Node::File(10)),
        ("more", Node::File(1)),
    ]);
    let mut walker = Walker::new("top".to_string(), -1, false);
    let mut taken = 0;
    loop {
        let request = walker.request().unwrap();
        let event = answer(&root, &request);
        if !walker.accepts(&event) {
            assert!(matches!(request, Request::Metadata(path) if path == "top/more"));
            break;
        }
        walker.step(event);
        taken += 1;
    }
    assert_eq!(taken, 4);
}

#[test]
fn a_total_beyond_64_bits_further_up_is_not_accepted() {
    // the inner directory's total fits; handed up, it does not
    let root = Node::Dir(vec![
        ("big", Node::File(u64::MAX - 5)),
        ("sub", Node::Dir(vec![("six", Node::File(6))])),
    ]);
    let mut walker = Walker::new("top".to_string(), -1, false);
    loop {
        let request = walker.request().unwrap();
        let event = answer(&root, &request);
        if !walker.accepts(&event) {
            assert!(matches!(request, Request::Metadata(path) if path == "top/sub/six"));
            break;
        }
        walker.step(event);
    }

    let root = Node::Dir(vec![
        ("big", Node::File(u64::MAX - 6)),
        ("sub", Node::Dir(vec![("six", Node::File(6))])),
    ]);
    assert_eq!(walk(&root, -1, false).result, Ok(u64::MAX));
}

#[test]
fn the_walk_stops_at_the_greatest_depth() {
    // a directory that holds itself, as a link may make it
    let mut walker = Walker::new("top".to_string(), -1, false);
    let mut directories = 0;
    while let Some(request) = walker.request() {
        let event = match request {
            Request::IsDir(_) => Event::IsDir(true),
            Request::ReadDir(path) => Event::Entries(Ok(vec![Ok(Entry {
                name: "again".to_string(),
                path: format!("{}/again", path),
            })])),
            Request::Metadata(_) => Event::Metadata(Ok(Metadata {
                len: 0,
                is_dir: true,
            })),
        };
        assert!(walker.accepts(&event));
        if let Some(Row::Directory { at, .. }) = walker.step(event) {
            assert_eq!(at.indent, directories);
            directories += 1;
        }
    }
    assert_eq!(directories, 128);
    assert!(matches!(walker.outcome(), Some(Ok(0))));
}
