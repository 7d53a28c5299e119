use lsr::row::{Position, Row};

fn at(index: usize, count: usize, indent: usize) -> Position {
    Position {
        index,
        count,
        indent,
    }
}

fn coloured(row: &Row) -> String {
    colored::control::set_override(true);
    row.render()
}

#[test]
fn the_glyph_of_a_file_is_dimmed() {
    let row = Row::File {
        at: at(0, 2, 1),
        name: "a.txt".to_string(),
        bytes: 1024,
    };
    assert_eq!(coloured(&row), "  \u{1b}[2m├\u{1b}[0m a.txt  1.00KB");
}

#[test]
fn the_glyph_of_a_failure_is_dimmed() {
    let row = Row::Failure {
        indent: 2,
        message: "gone".to_string(),
    };
    assert_eq!(coloured(&row), "    \u{1b}[2m╰\u{1b}[0m gone");
}

#[test]
fn an_expanded_directory_is_dimmed_up_to_the_slash() {
    let row = Row::Directory {
        at: at(0, 1, 0),
        name: "sub".to_string(),
        expanded: true,
    };
    assert_eq!(
        coloured(&row),
        "\u{1b}[2m\u{1b}[2m─\u{1b}[0m\u{1b}[2m sub\u{1b}[0m/"
    );
}

#[test]
fn a_directory_that_is_not_expanded_keeps_its_name_plain() {
    let row = Row::Directory {
        at: at(0, 1, 0),
        name: "sub".to_string(),
        expanded: false,
    };
    assert_eq!(coloured(&row), "\u{1b}[2m─\u{1b}[0m sub/");
}
