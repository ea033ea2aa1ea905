use save_scummer::path_order::{compare_paths, PathOrder};

#[test]
fn equal_paths_are_the_same() {
    assert_eq!(compare_paths("", ""), PathOrder::Same);
    assert_eq!(compare_paths("save1.ck3", "save1.ck3"), PathOrder::Same);
}

#[test]
fn a_proper_prefix_comes_first() {
    assert_eq!(compare_paths("", "a"), PathOrder::Before);
    assert_eq!(compare_paths("save", "save1"), PathOrder::Before);
    assert_eq!(compare_paths("save1", "save"), PathOrder::After);
}

#[test]
fn the_first_differing_byte_decides() {
    assert_eq!(compare_paths("save1.ck3", "save2.ck3"), PathOrder::Before);
    assert_eq!(compare_paths("b", "abc"), PathOrder::After);
    assert_eq!(compare_paths("Z", "a"), PathOrder::Before);
}

#[test]
fn paths_beyond_ascii_compare_by_their_bytes() {
    assert_eq!(compare_paths("z", "\u{e9}"), PathOrder::Before);
    assert_eq!(compare_paths("\u{e9}", "\u{4e16}"), PathOrder::Before);
    assert_eq!(compare_paths("\u{4e16}", "\u{1f600}"), PathOrder::Before);
    assert_eq!(compare_paths("\u{1f600}", "\u{1f600}"), PathOrder::Same);
}

#[test]
fn the_order_is_the_one_of_std_on_strings() {
    let paths = ["", "a", "ab", "b", "save1.ck3", "save2.ck3", "\u{e9}", "\u{4e16}"];
    for a in paths {
        for b in paths {
            let expected = if a < b {
                PathOrder::Before
            } else if a == b {
                PathOrder::Same
            } else {
                PathOrder::After
            };
            assert_eq!(compare_paths(a, b), expected);
        }
    }
}
