use lsr::row::{Position, Row};

fn at(index: usize, count: usize, indent: usize) -> Position {
    Position {
        index,
        count,
        indent,
    }
}

fn plain(row: &Row) -> String {
    colored::control::set_override(false);
    row.render()
}

#[test]
fn file_row_shows_name_and_size() {
    let row = Row::File {
        at: at(0, 2, 0),
        name: "a.txt".to_string(),
        bytes: 500,
    };
    assert_eq!(plain(&row), "╭ a.txt  500B");
}

#[test]
fn file_row_is_indented_two_spaces_a_level() {
    let row = Row::File {
        at: at(0, 1, 1),
        name: "b.txt".to_string(),
        bytes: 2048,
    };
    assert_eq!(plain(&row), "  ╰ b.txt  2.00KB");
    let row = Row::File {
        at: at(1, 3, 3),
        name: "c".to_string(),
        bytes: 0,
    };
    assert_eq!(plain(&row), "      ├ c  0B");
}

#[test]
fn directory_row_ends_in_a_slash() {
    let row = Row::Directory {
        at: at(1, 2, 0),
        name: "sub".to_string(),
        expanded: true,
    };
    assert_eq!(plain(&row), "╰ sub/");
    let row = Row::Directory {
        at: at(0, 1, 0),
        name: "sub".to_string(),
        expanded: false,
    };
    assert_eq!(plain(&row), "─ sub/");
}

#[test]
fn failure_row_closes_with_the_message() {
    let row = Row::Failure {
        indent: 1,
        message: "Permission denied (os error 13)".to_string(),
    };
    assert_eq!(plain(&row), "  ╰ Permission denied (os error 13)");
    let row = Row::Failure {
        indent: 0,
        message: "x".to_string(),
    };
    assert_eq!(plain(&row), "╰ x");
}

#[test]
fn the_glyph_goes_by_the_place() {
    let row = Row::File {
        at: at(0, 2, 0),
        name: "a".to_string(),
        bytes: 1,
    };
    assert_eq!(row.glyph(), "╭");
    let row = Row::Directory {
        at: at(1, 2, 0),
        name: "d".to_string(),
        expanded: true,
    };
    assert_eq!(row.glyph(), "╰");
    let row = Row::Directory {
        at: at(1, 3, 2),
        name: "d".to_string(),
        expanded: false,
    };
    assert_eq!(row.glyph(), "├");
}

#[test]
fn a_failure_always_closes() {
    for indent in 0..5 {
        let row = Row::Failure {
            indent,
            message: "gone".to_string(),
        };
        assert_eq!(row.glyph(), "╰");
    }
}

#[test]
fn the_words_stand_behind_the_glyph_given() {
    let row = Row::File {
        at: at(0, 2, 1),
        name: "a.txt".to_string(),
        bytes: 1536,
    };
    assert_eq!(row.text_with("+"), "  + a.txt  1.50KB");
    assert_eq!(row.text_with("<b>├</b>"), "  <b>├</b> a.txt  1.50KB");
    assert_eq!(row.text_with(""), "   a.txt  1.50KB");
}

#[test]
fn the_words_of_a_directory_leave_the_slash_off() {
    let row = Row::Directory {
        at: at(0, 1, 2),
        name: "sub".to_string(),
        expanded: true,
    };
    assert_eq!(row.text_with("─"), "    ─ sub");
}

#[test]
fn the_words_of_a_failure_are_its_message() {
    let row = Row::Failure {
        indent: 1,
        message: "top/x is not a directory".to_string(),
    };
    assert_eq!(row.text_with("╰"), "  ╰ top/x is not a directory");
}

#[test]
fn plain_rendering_puts_the_plain_glyph_in() {
    let rows = vec![
        Row::File {
            at: at(1, 3, 2),
            name: "f".to_string(),
            bytes: 12,
        },
        Row::Failure {
            indent: 3,
            message: "m".to_string(),
        },
    ];
    for row in &rows {
        assert_eq!(plain(row), row.text_with(row.glyph()));
    }
    let row = Row::Directory {
        at: at(2, 3, 1),
        name: "d".to_string(),
        expanded: true,
    };
    assert_eq!(plain(&row), format!("{}/", row.text_with(row.glyph())));
}
