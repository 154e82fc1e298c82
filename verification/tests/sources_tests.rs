use parser::sources::relative;

#[test]
fn file_below_root_is_named_by_its_path() {
    assert_eq!(relative("/src", "/src/main/lib.rv", '/'), "main::lib");
    assert_eq!(relative("/src", "/src/main.rv", '/'), "main");
}

#[test]
fn root_that_is_the_file() {
    assert_eq!(relative("/src/main.rv", "/src/main.rv", '/'), "main");
}

#[test]
fn other_separator_and_wide_characters() {
    assert_eq!(relative("C:\\src", "C:\\src\\a\\b.rv", '\\'), "a::b");
    assert_eq!(relative("/r", "/r/\u{e9}.rv", '/'), "\u{e9}");
}

#[test]
fn names_that_cannot_be_cut() {
    assert_eq!(parser::sources::try_relative("/src", "/src/a", '/'), None);
    assert_eq!(parser::sources::try_relative("/src", "/src/ab.rv", '/'), Some("ab".to_string()));
    assert_eq!(parser::sources::try_relative("", "ab", '/'), None);
}
