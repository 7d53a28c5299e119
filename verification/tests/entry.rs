use lsr::entry::{any_listed, hidden, select, Entry};

fn entry(name: &str) -> Result<Entry, String> {
    Ok(Entry {
        name: name.to_string(),
        path: format!("top/{}", name),
    })
}

fn names(entries: &[Entry]) -> Vec<&str> {
    entries.iter().map(|e| e.name.as_str()).collect()
}

#[test]
fn a_leading_dot_hides() {
    assert!(hidden(".git"));
    assert!(hidden("."));
    assert!(hidden(".."));
    assert!(hidden(".a.txt"));
}

#[test]
fn other_names_are_not_hidden() {
    assert!(!hidden("a.txt"));
    assert!(!hidden("a."));
    assert!(!hidden(""));
    assert!(!hidden("é.txt"));
    assert!(!hidden(" .x"));
}

#[test]
fn hidden_entries_are_left_out() {
    let found = vec![entry("a"), entry(".b"), entry("c"), entry(".d")];
    let chosen = select(found, false);
    assert_eq!(names(&chosen), vec!["a", "c"]);
    assert_eq!(chosen[0].path, "top/a");
    assert_eq!(chosen[1].path, "top/c");
}

#[test]
fn all_keeps_hidden_entries() {
    let found = vec![entry("a"), entry(".b"), entry("c"), entry(".d")];
    let chosen = select(found, true);
    assert_eq!(names(&chosen), vec!["a", ".b", "c", ".d"]);
}

#[test]
fn what_could_not_be_read_is_dropped() {
    let found = vec![
        Err("permission denied".to_string()),
        entry("a"),
        Err("gone".to_string()),
        entry(".b"),
    ];
    assert_eq!(names(&select(found, true)), vec!["a", ".b"]);
    let found = vec![Err("permission denied".to_string()), entry("a")];
    assert_eq!(names(&select(found, false)), vec!["a"]);
}

#[test]
fn order_is_kept() {
    let found = vec![entry("z"), entry("m"), entry("a"), entry("m2")];
    assert_eq!(names(&select(found, false)), vec!["z", "m", "a", "m2"]);
}

#[test]
fn nothing_read_nothing_listed() {
    assert!(select(Vec::new(), true).is_empty());
    assert!(!any_listed(&Vec::new(), true));
}

#[test]
fn any_listed_agrees_with_select() {
    let cases: Vec<Vec<Result<Entry, String>>> = vec![
        vec![],
        vec![entry(".a")],
        vec![Err("x".to_string())],
        vec![entry(".a"), Err("x".to_string()), entry("b")],
        vec![entry("b")],
        vec![entry(".a"), entry(".b")],
    ];
    for found in cases {
        for all in [false, true] {
            let yes = any_listed(&found, all);
            let copy: Vec<Result<Entry, String>> = found
                .iter()
                .map(|one| match one {
                    Ok(e) => Ok(Entry {
                        name: e.name.clone(),
                        path: e.path.clone(),
                    }),
                    Err(cause) => Err(cause.clone()),
                })
                .collect();
            assert_eq!(yes, !select(copy, all).is_empty());
        }
    }
}
