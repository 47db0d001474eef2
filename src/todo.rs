//! The task list: its tasks in file order and the path of the file that
//! holds them. Each edit returns the text that the file receives.
use vstd::prelude::*;
use vstd::string::*;
use crate::mark::{bold_code, bold_text, strike_code, strikethrough_text, styled, unmark, unmarked};
use crate::order::{sort_desc, sort_descending};
use crate::text::{
    decimal, decimal_text, file_text_of, is_blank, is_blank_text, join_lines, lines_of,
    split_into_lines, texts,
};

verus! {

/// Why an edit of the list was refused.
#[derive(Debug, Clone, Copy, PartialEq, Eq, Structural)]
pub enum TodoError {
    /// `add` was given no task at all.
    NoItems,
}

/// A task list read from its file.
pub struct TodoList {
    /// The tasks, in file order; a task's id is its position counted from 1.
    pub todos: Vec<String>,
    /// The path of the file that holds the list.
    pub todo_path: String,
}

/// Whether the task at position `k` (counted from 0) is named by one of `ids`
/// (counted from 1).
pub open spec fn is_named(ids: Seq<i32>, k: int) -> bool {
    exists|j: int| 0 <= j < ids.len() && ids[j] as int == k + 1
}

/// The tasks of `t` that none of `ids` names, in their order.
pub open spec fn kept(t: Seq<Seq<char>>, ids: Seq<i32>) -> Seq<Seq<char>>
    decreases t.len(),
{
    if t.len() == 0 {
        Seq::empty()
    } else if is_named(ids, t.len() - 1) {
        kept(t.drop_last(), ids)
    } else {
        kept(t.drop_last(), ids).push(t.last())
    }
}

/// The items of `items` that are not blank, in their order.
pub open spec fn non_blank(items: Seq<Seq<char>>) -> Seq<Seq<char>>
    decreases items.len(),
{
    if items.len() == 0 {
        Seq::empty()
    } else if is_blank_text(items.last()) {
        non_blank(items.drop_last())
    } else {
        non_blank(items.drop_last()).push(items.last())
    }
}

/// The text with which `list` shows a line at position `k` (counted from 0),
/// with its index plain or in bold.
pub open spec fn is_listed_as(r: Seq<char>, k: int, line: Seq<char>) -> bool {
    let index = decimal((k + 1) as nat);
    r == index + seq![' '] + line || r == styled(bold_code(), index) + seq![' '] + line
}

fn names(ids: &[i32], k: usize) -> (r: bool)
    ensures
        r == is_named(ids@, k as int),
{
    let mut j: usize = 0;
    while j < ids.len()
        invariant
            j <= ids@.len(),
            forall|i: int| 0 <= i < j ==> ids@[i] as int != k + 1,
        decreases ids@.len() - j,
    {
        if ids[j] > 0 && (ids[j] - 1) as usize == k {
            return true;
        }
        j = j + 1;
    }
    false
}

impl TodoList {
    /// The list held by the file at `todo_path`, whose text is `content`.
    pub fn new(todo_path: String, content: &str) -> (r: TodoList)
        ensures
            texts(r.todos@) == lines_of(content@),
            r.todo_path == todo_path,
    {
        TodoList { todos: split_into_lines(content), todo_path }
    }

    /// The text to append to the file for `todos`: each item that is not
    /// blank, followed by a newline. The list itself is left as it is.
    pub fn add(&mut self, todos: &[String]) -> (r: Result<String, TodoError>)
        ensures
            *final(self) == *old(self),
            todos@.len() == 0 <==> r == Err::<String, TodoError>(TodoError::NoItems),
            todos@.len() > 0 ==> r is Ok && r->Ok_0@ == file_text_of(non_blank(texts(todos@))),
    {
        if todos.len() == 0 {
            return Err(TodoError::NoItems);
        }
        let mut chosen: Vec<String> = Vec::new();
        let mut i: usize = 0;
        assert(texts(todos@).take(0) =~= Seq::<Seq<char>>::empty());
        while i < todos.len()
            invariant
                i <= todos@.len(),
                texts(chosen@) == non_blank(texts(todos@).take(i as int)),
            decreases todos@.len() - i,
        {
            let ghost prev = texts(chosen@);
            let ghost next = texts(todos@).take(i + 1);
            assert(next.drop_last() =~= texts(todos@).take(i as int));
            assert(next.last() == todos@[i as int]@);
            if !is_blank(todos[i].as_str()) {
                chosen.push(todos[i].clone());
                assert(texts(chosen@) =~= prev.push(todos@[i as int]@));
            }
            i = i + 1;
        }
        assert(texts(todos@).take(i as int) =~= texts(todos@));
        Ok(join_lines(&chosen))
    }

    /// Removes the tasks at the positions `ids` (counted from 1) and returns
    /// the new file text.
    pub fn rm(&mut self, ids: &[i32]) -> (r: String)
        ensures
            texts(final(self).todos@) == kept(texts(old(self).todos@), ids@),
            final(self).todo_path == old(self).todo_path,
            r@ == file_text_of(texts(final(self).todos@)),
    {
        let mut todos: Vec<String> = Vec::new();
        let mut i: usize = 0;
        assert(texts(self.todos@).take(0) =~= Seq::<Seq<char>>::empty());
        while i < self.todos.len()
            invariant
                i <= self.todos@.len(),
                texts(todos@) == kept(texts(self.todos@).take(i as int), ids@),
            decreases self.todos@.len() - i,
        {
            let ghost prev = texts(todos@);
            let ghost next = texts(self.todos@).take(i + 1);
            assert(next.drop_last() =~= texts(self.todos@).take(i as int));
            assert(next.last() == self.todos@[i as int]@);
            if !names(ids, i) {
                todos.push(self.todos[i].clone());
                assert(texts(todos@) =~= prev.push(self.todos@[i as int]@));
            }
            i = i + 1;
        }
        assert(texts(self.todos@).take(i as int) =~= texts(self.todos@));
        self.todos = todos;
        join_lines(&self.todos)
    }

    /// Marks the tasks at the positions `ids` (counted from 1) as done, struck
    /// through where the terminal shows styles, and returns the new file text.
    pub fn done(&mut self, ids: &[i32]) -> (r: String)
        ensures
            final(self).todos@.len() == old(self).todos@.len(),
            forall|k: int|
                0 <= k < old(self).todos@.len() ==> {
                    let t = #[trigger] old(self).todos@[k]@;
                    let u = final(self).todos@[k]@;
                    if is_named(ids@, k) {
                        u == t || u == styled(strike_code(), t)
                    } else {
                        u == t
                    }
                },
            final(self).todo_path == old(self).todo_path,
            r@ == file_text_of(texts(final(self).todos@)),
    {
        let mut todos: Vec<String> = Vec::new();
        let mut i: usize = 0;
        while i < self.todos.len()
            invariant
                i <= self.todos@.len(),
                todos@.len() == i,
                forall|k: int|
                    0 <= k < i ==> {
                        let t = #[trigger] self.todos@[k]@;
                        let u = todos@[k]@;
                        if is_named(ids@, k) {
                            u == t || u == styled(strike_code(), t)
                        } else {
                            u == t
                        }
                    },
            decreases self.todos@.len() - i,
        {
            if names(ids, i) {
                todos.push(strikethrough_text(self.todos[i].as_str()));
            } else {
                todos.push(self.todos[i].clone());
            }
            i = i + 1;
        }
        self.todos = todos;
        join_lines(&self.todos)
    }

    /// Takes the done mark out of the tasks at the positions `ids` (counted
    /// from 1) and returns the new file text.
    pub fn undone(&mut self, ids: &[i32]) -> (r: String)
        ensures
            final(self).todos@.len() == old(self).todos@.len(),
            forall|k: int|
                0 <= k < old(self).todos@.len() ==> {
                    let t = #[trigger] old(self).todos@[k]@;
                    final(self).todos@[k]@ == if is_named(ids@, k) {
                        unmarked(t)
                    } else {
                        t
                    }
                },
            final(self).todo_path == old(self).todo_path,
            r@ == file_text_of(texts(final(self).todos@)),
    {
        let mut todos: Vec<String> = Vec::new();
        let mut i: usize = 0;
        while i < self.todos.len()
            invariant
                i <= self.todos@.len(),
                todos@.len() == i,
                forall|k: int|
                    0 <= k < i ==> {
                        let t = #[trigger] self.todos@[k]@;
                        todos@[k]@ == if is_named(ids@, k) {
                            unmarked(t)
                        } else {
                            t
                        }
                    },
            decreases self.todos@.len() - i,
        {
            if names(ids, i) {
                todos.push(unmark(self.todos[i].as_str()));
            } else {
                todos.push(self.todos[i].clone());
            }
            i = i + 1;
        }
        self.todos = todos;
        join_lines(&self.todos)
    }

    /// The lines that show the file text `content`, read afresh: each line
    /// after its position (counted from 1), bold where the terminal shows
    /// styles, and a space.
    pub fn list(&self, content: &str) -> (r: Vec<String>)
        ensures
            r@.len() == lines_of(content@).len(),
            forall|k: int|
                0 <= k < r@.len() ==> is_listed_as(#[trigger] r@[k]@, k, lines_of(content@)[k]),
    {
        let lines = split_into_lines(content);
        let mut out: Vec<String> = Vec::new();
        let mut i: usize = 0;
        while i < lines.len()
            invariant
                i <= lines@.len(),
                texts(lines@) == lines_of(content@),
                out@.len() == i,
                forall|k: int| 0 <= k < i ==> is_listed_as(#[trigger] out@[k]@, k, lines@[k]@),
            decreases lines@.len() - i,
        {
            proof {
                reveal_strlit(" ");
            }
            let index = decimal_text(i + 1);
            let mut shown = bold_text(index.as_str());
            let ghost label = shown@;
            shown.append(" ");
            shown.append(lines[i].as_str());
            assert(shown@ =~= label + seq![' '] + lines@[i as int]@);
            assert(is_listed_as(shown@, i as int, lines@[i as int]@));
            out.push(shown);
            i = i + 1;
        }
        out
    }

    /// The file text `content`, read afresh, with its lines sorted in
    /// descending lexicographic order.
    pub fn sort(&self, content: &str) -> (r: String)
        ensures
            r@ == file_text_of(sort_desc(lines_of(content@))),
    {
        let lines = split_into_lines(content);
        let sorted = sort_descending(lines);
        join_lines(&sorted)
    }

    /// The file text of an emptied list. The list itself is left as it is.
    pub fn reset(&mut self) -> (r: String)
        ensures
            *final(self) == *old(self),
            r@ == Seq::<char>::empty(),
    {
        String::new()
    }
}

} // verus!
