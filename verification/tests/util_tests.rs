use php_injector::count_occurences_not_in_string;
use php_injector::get_index;
use php_injector::get_index_of_line;
use php_injector::split_lines;

#[test]
fn index_of_line_simple() {
    // offsets of the first character of each line of "ab\ncd\nef"
    let txt = "ab\ncd\nef";
    assert_eq!(get_index_of_line(txt, 1), 0);
    assert_eq!(get_index_of_line(txt, 2), 3);
    assert_eq!(get_index_of_line(txt, 3), 6);
}

#[test]
fn index_of_line_trailing_newline() {
    let txt = "one\ntwo\n";
    assert_eq!(get_index_of_line(txt, 1), 0);
    assert_eq!(get_index_of_line(txt, 2), 4);
    // the final empty line of the split model starts at the text's end
    assert_eq!(get_index_of_line(txt, 3), 8);
}

#[test]
fn count_ignores_string_braces() {
    // brace counting must ignore braces inside quoted strings
    assert_eq!(count_occurences_not_in_string("$x = \"{\"; }", '{'), 0);
    assert_eq!(count_occurences_not_in_string("$x = \"{\"; }", '}'), 1);
}

#[test]
fn count_plain_braces() {
    assert_eq!(count_occurences_not_in_string("{ { } }", '{'), 2);
    assert_eq!(count_occurences_not_in_string("{ { } }", '}'), 2);
}

#[test]
fn count_respects_escapes() {
    // the escaped quote does not close the string, so the brace stays inside
    assert_eq!(count_occurences_not_in_string("\"a\\\"{\" {", '{'), 1);
    // single quotes open strings too
    assert_eq!(count_occurences_not_in_string("'{' {", '{'), 1);
}

#[test]
fn get_index_finds_first_match() {
    let v = vec!["a".to_string(), "b".to_string(), "b".to_string()];
    assert_eq!(get_index(&v, "b"), 1);
    assert_eq!(get_index(&v, "a"), 0);
    assert_eq!(get_index(&v, "z"), -1);
}

#[test]
fn split_lines_models() {
    assert_eq!(split_lines("a\nb"), vec!["a".to_string(), "b".to_string()]);
    assert_eq!(split_lines("a\nb\n"), vec!["a".to_string(), "b".to_string()]);
    assert_eq!(split_lines(""), Vec::<String>::new());
    assert_eq!(split_lines("\n"), vec!["".to_string()]);
}
