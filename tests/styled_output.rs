use rust_todo::TodoList;

fn styled() {
    colored::control::set_override(true);
}

#[test]
fn done_strikes_through() {
    styled();
    let mut list = TodoList::new("t".to_string(), "a\nb\n");
    assert_eq!(list.done(&[1]), "\u{1b}[9ma\u{1b}[0m\nb\n");
}

#[test]
fn done_then_undone_restores_text() {
    styled();
    let mut list = TodoList::new("t".to_string(), "buy milk\nb\n");
    list.done(&[1, 2]);
    assert_ne!(list.todos[0], "buy milk");
    assert_eq!(list.undone(&[1, 2]), "buy milk\nb\n");
}

#[test]
fn list_shows_index_in_bold() {
    styled();
    let list = TodoList::new("t".to_string(), "");
    let shown = list.list("buy milk\n");
    assert_eq!(shown, vec!["\u{1b}[1m1\u{1b}[0m buy milk".to_string()]);
}
