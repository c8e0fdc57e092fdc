//! The item model: one to-do entry (id, title, status), and the commands the
//! interactive front end can ask for.

use vstd::prelude::*;

verus! {

/// Whether a to-do item is still open or has been finished.
#[derive(Debug, PartialEq, Eq, Structural, Clone, Copy)]
pub enum TodoStatus {
    Pending,
    Completed,
}

/// One to-do entry. Ids are positive and unique among live items; the
/// manager assigns them on `add_todo`.
#[derive(Debug, PartialEq)]
pub struct TodoItem {
    pub id: usize,
    pub title: String,
    pub status: TodoStatus,
}

/// The mathematical value of a [`TodoItem`]: the id as an unbounded integer
/// and the title as a sequence of characters.
pub ghost struct ItemView {
    pub id: int,
    pub title: Seq<char>,
    pub status: TodoStatus,
}

impl View for TodoItem {
    type V = ItemView;

    open spec fn view(&self) -> ItemView {
        ItemView { id: self.id as int, title: self.title@, status: self.status }
    }
}

/// A parsed line of user input.
#[derive(Debug, PartialEq)]
pub enum Command {
    Add(String),
    Delete(usize),
    Complete(usize),
    List,
    Exit,
    Help,
}

} // verus!
