use rust_todo::mark::remove_occurrences;
use rust_todo::order::{sort_descending, text_at_most};
use rust_todo::text::{decimal_text, is_blank, is_space, join_lines, split_into_lines};
use rust_todo::{TodoError, TodoList};

fn plain() {
    colored::control::set_override(false);
}

fn strings(items: &[&str]) -> Vec<String> {
    items.iter().map(|s| s.to_string()).collect()
}

#[test]
fn load_gives_one_task_per_line_in_order() {
    let list = TodoList::new("todo.txt".to_string(), "a\nb\nc\n");
    assert_eq!(list.todos, strings(&["a", "b", "c"]));
    assert_eq!(list.todo_path, "todo.txt");
}

#[test]
fn load_keeps_a_last_line_without_newline() {
    let list = TodoList::new("t".to_string(), "a\r\nb\n\nc");
    assert_eq!(list.todos, strings(&["a", "b", "", "c"]));
}

#[test]
fn load_of_empty_file_is_empty() {
    let list = TodoList::new("t".to_string(), "");
    assert!(list.todos.is_empty());
}

#[test]
fn add_then_list_shows_one_line() {
    plain();
    let mut list = TodoList::new("t".to_string(), "");
    let appended = list.add(&strings(&["buy milk"])).unwrap();
    assert_eq!(appended, "buy milk\n");
    let shown = list.list(&appended);
    assert_eq!(shown, strings(&["1 buy milk"]));
}

#[test]
fn add_blank_items_appends_nothing() {
    let mut list = TodoList::new("t".to_string(), "x\n");
    assert_eq!(list.add(&strings(&["", "  "])), Ok(String::new()));
    assert_eq!(list.todos, strings(&["x"]));
}

#[test]
fn add_skips_blank_items_only() {
    let mut list = TodoList::new("t".to_string(), "");
    let appended = list.add(&strings(&["a", "\t\u{3000}", " b "])).unwrap();
    assert_eq!(appended, "a\n b \n");
}

#[test]
fn add_without_items_is_refused() {
    let mut list = TodoList::new("t".to_string(), "x\n");
    assert_eq!(list.add(&[]), Err(TodoError::NoItems));
}

#[test]
fn rm_second_of_three() {
    let mut list = TodoList::new("t".to_string(), "a\nb\nc\n");
    assert_eq!(list.rm(&[2]), "a\nc\n");
    assert_eq!(list.todos, strings(&["a", "c"]));
}

#[test]
fn rm_ignores_ids_out_of_range() {
    let mut list = TodoList::new("t".to_string(), "a\nb\n");
    assert_eq!(list.rm(&[0, -1, 3, 1]), "b\n");
}

#[test]
fn sort_is_descending() {
    let list = TodoList::new("t".to_string(), "b\na\nc\n");
    assert_eq!(list.sort("b\na\nc\n"), "c\nb\na\n");
}

#[test]
fn sort_orders_by_characters() {
    let list = TodoList::new("t".to_string(), "");
    assert_eq!(list.sort("ab\nb\na\nB\nab\n"), "b\nab\nab\na\nB\n");
}

#[test]
fn reset_empties_the_file() {
    let mut list = TodoList::new("t".to_string(), "a\nb\n");
    assert_eq!(list.reset(), "");
    assert_eq!(list.todos, strings(&["a", "b"]));
}

#[test]
fn done_without_styles_keeps_text() {
    plain();
    let mut list = TodoList::new("t".to_string(), "a\nb\n");
    assert_eq!(list.done(&[1]), "a\nb\n");
}

#[test]
fn undone_takes_out_the_done_mark() {
    let mut list = TodoList::new("t".to_string(), "\u{1b}[9ma\u{1b}[0m\nb\n");
    assert_eq!(list.undone(&[1]), "a\nb\n");
}

#[test]
fn undone_leaves_other_tasks() {
    let mut list = TodoList::new("t".to_string(), "\u{1b}[9ma\u{1b}[0m\n");
    assert_eq!(list.undone(&[2]), "\u{1b}[9ma\u{1b}[0m\n");
}

#[test]
fn list_numbers_lines_from_one() {
    plain();
    let list = TodoList::new("t".to_string(), "");
    let shown = list.list("x\ny\nz\nw\nv\nu\nt\ns\nr\nq\n");
    assert_eq!(shown.len(), 10);
    assert_eq!(shown[0], "1 x");
    assert_eq!(shown[9], "10 q");
}

#[test]
fn space_matches_std_whitespace() {
    for u in 0u32..0x11_0000 {
        if let Some(c) = char::from_u32(u) {
            assert_eq!(is_space(c), c.is_whitespace(), "{:x}", u);
        }
    }
}

#[test]
fn blank_texts() {
    assert!(is_blank(""));
    assert!(is_blank(" \t\n"));
    assert!(!is_blank(" a "));
}

#[test]
fn decimal_digits() {
    assert_eq!(decimal_text(0), "0");
    assert_eq!(decimal_text(7), "7");
    assert_eq!(decimal_text(1234), "1234");
}

#[test]
fn lines_round_trip() {
    let lines = strings(&["one", "", "three"]);
    let text = join_lines(&lines);
    assert_eq!(text, "one\n\nthree\n");
    assert_eq!(split_into_lines(&text), lines);
}

#[test]
fn removing_a_pattern() {
    assert_eq!(remove_occurrences("abcabcx", "bc"), "aax");
    assert_eq!(remove_occurrences("aaa", "aa"), "a");
    assert_eq!(remove_occurrences("abc", ""), "abc");
}

#[test]
fn text_order() {
    assert!(text_at_most("a", "b"));
    assert!(text_at_most("a", "ab"));
    assert!(text_at_most("ab", "ab"));
    assert!(!text_at_most("b", "ab"));
    assert!(!text_at_most("ab", "a"));
    assert!(text_at_most("Z", "a"));
}

#[test]
fn sorting_texts() {
    let sorted = sort_descending(strings(&["m", "z", "a", "m"]));
    assert_eq!(sorted, strings(&["z", "m", "m", "a"]));
}
