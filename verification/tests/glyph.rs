use lsr::glyph::get_symbol;

#[test]
fn lone_entry_at_the_top_is_flat() {
    assert_eq!(get_symbol(0, 1, 0), "─");
}

#[test]
fn lone_entry_below_the_top_closes() {
    assert_eq!(get_symbol(0, 1, 1), "╰");
    assert_eq!(get_symbol(0, 1, 7), "╰");
}

#[test]
fn first_of_several_at_the_top_opens() {
    assert_eq!(get_symbol(0, 2, 0), "╭");
    assert_eq!(get_symbol(0, 9, 0), "╭");
}

#[test]
fn first_of_several_below_the_top_is_a_junction() {
    assert_eq!(get_symbol(0, 2, 1), "├");
    assert_eq!(get_symbol(0, 3, 4), "├");
}

#[test]
fn last_of_several_closes_at_every_depth() {
    for indent in 0..6 {
        for count in 2..8 {
            assert_eq!(get_symbol(count - 1, count, indent), "╰");
        }
    }
}

#[test]
fn middle_entries_are_junctions() {
    for indent in 0..4 {
        assert_eq!(get_symbol(1, 3, indent), "├");
        assert_eq!(get_symbol(1, 4, indent), "├");
        assert_eq!(get_symbol(2, 4, indent), "├");
    }
}

#[test]
fn every_glyph_is_one_of_four() {
    for indent in 0..3 {
        for count in 1..6 {
            for index in 0..count {
                let glyph = get_symbol(index, count, indent);
                assert!(matches!(glyph, "─" | "╭" | "├" | "╰"));
            }
        }
    }
}

#[test]
fn an_only_sibling_is_told_by_the_count_alone() {
    assert_eq!(get_symbol(3, 1, 0), "─");
    assert_eq!(get_symbol(3, 1, 2), "╰");
}

#[test]
fn a_position_past_the_end_is_a_junction() {
    assert_eq!(get_symbol(5, 3, 0), "├");
    assert_eq!(get_symbol(1, 0, 0), "├");
    assert_eq!(get_symbol(usize::MAX, 0, 1), "├");
    assert_eq!(get_symbol(0, 0, 0), "╭");
}
