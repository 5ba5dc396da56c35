//! One entry of the list.

use vstd::prelude::*;

verus! {

/// An entry of the to-do list.
#[derive(Debug, PartialEq, Eq)]
pub struct ToDo {
    /// Whether the entry has been marked as done.
    pub finished: bool,
    /// What is to be done.
    pub content: String,
    /// The number under which commands address the entry.
    pub idx: usize,
}

/// What an entry holds, as plain mathematical values.
pub struct ToDoView {
    pub finished: bool,
    pub content: Seq<char>,
    pub idx: nat,
}

impl View for ToDo {
    type V = ToDoView;

    open spec fn view(&self) -> ToDoView {
        ToDoView { finished: self.finished, content: self.content@, idx: self.idx as nat }
    }
}

/// The entries of a list, each as plain values.
pub open spec fn views(list: Seq<ToDo>) -> Seq<ToDoView> {
    list.map_values(|t: ToDo| t@)
}

/// The largest number that any entry of `list` carries; zero for no entries.
pub open spec fn max_index(list: Seq<ToDoView>) -> nat
    decreases list.len(),
{
    if list.len() == 0 {
        0
    } else {
        let before = max_index(list.drop_last());
        if list.last().idx > before {
            list.last().idx
        } else {
            before
        }
    }
}

/// Whether the numbers of `list` are `1`, `2`, ... up to its length, each
/// carried by exactly one entry.
pub open spec fn contiguous(list: Seq<ToDoView>) -> bool {
    &&& forall|i: int| 0 <= i < list.len() ==> 1 <= (#[trigger] list[i]).idx <= list.len()
    &&& forall|i: int, j: int|
        0 <= i < list.len() && 0 <= j < list.len() && i != j ==> (#[trigger] list[i]).idx != (
        #[trigger] list[j]).idx
}

/// Whether some entry of `list` has exactly the text `content`.
pub open spec fn has_content(list: Seq<ToDoView>, content: Seq<char>) -> bool {
    exists|i: int| 0 <= i < list.len() && (#[trigger] list[i]).content == content
}

} // verus!
