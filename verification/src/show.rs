//! The list as lines for a terminal, with done entries struck through.

use vstd::prelude::*;
use colored::Colorize;
use crate::item::{ToDo, ToDoView};
use crate::number::{decimal, write_index};
use crate::store::Save;
use crate::text::{chars_of, string_of};

verus! {

/// The escape character that starts a terminal control sequence.
pub open spec fn escape_char() -> char {
    '\x1b'
}

/// `text` between the control sequence that switches strikethrough on and
/// the one that resets all styles.
pub open spec fn struck_through(text: Seq<char>) -> Seq<char> {
    seq![escape_char(), '[', '9', 'm'] + text + seq![escape_char(), '[', '0', 'm']
}

/// Whether `out` may be what the terminal styling gives for `text`. Styling
/// is switched on or off from outside the program, so a text without
/// control sequences comes back either as it is or struck through. Of a
/// text that holds an escape character nothing is said.
pub open spec fn may_strike(text: Seq<char>, out: Seq<char>) -> bool {
    (forall|i: int| 0 <= i < text.len() ==> text[i] != escape_char()) ==> (out == text || out
        == struck_through(text))
}

/// Calls `colored::Colorize::strikethrough` on `text` and formats the
/// result. Believed of it: where the crate's colour control is off, the text
/// comes back unchanged; where it is on, it comes back between the
/// strikethrough sequence and the reset sequence, with the strikethrough
/// sequence put in again after each reset sequence inside the text, of
/// which there is none where the text holds no escape character.
#[verifier::external_body]
fn strike(text: &str) -> (out: String)
    ensures
        may_strike(text@, out@),
{
    text.strikethrough().to_string()
}

/// The start of the line shown for an entry numbered `idx`.
pub open spec fn line_head(idx: nat) -> Seq<char> {
    decimal(idx) + seq!['.', ' ']
}

/// Whether `line` is a line that may be shown for `item`: its number, a
/// full stop and a space, then its text, styled where the entry is done.
pub open spec fn shows(item: ToDoView, line: Seq<char>) -> bool {
    let head = line_head(item.idx);
    if item.finished {
        &&& line.len() >= head.len()
        &&& line.take(head.len() as int) == head
        &&& may_strike(item.content, line.skip(head.len() as int))
    } else {
        line == head + item.content
    }
}

/// The line for the entry numbered `idx` with `text` as what is shown of
/// its content.
pub fn show_line(idx: usize, text: &str) -> (line: String)
    ensures
        line@ == line_head(idx as nat) + text@,
{
    let mut out = write_index(idx);
    out.push('.');
    out.push(' ');
    let mut rest = chars_of(text);
    out.append(&mut rest);
    assert(out@ =~= line_head(idx as nat) + text@);
    string_of(out.as_slice())
}

/// The line shown for `item`.
pub fn show_item(item: &ToDo) -> (line: String)
    ensures
        shows(item@, line@),
{
    if item.finished {
        let styled = strike(item.content.as_str());
        let line = show_line(item.idx, styled.as_str());
        let ghost head = line_head(item.idx as nat);
        assert(line@.take(head.len() as int) =~= head);
        assert(line@.skip(head.len() as int) =~= styled@);
        line
    } else {
        show_line(item.idx, item.content.as_str())
    }
}

impl Save {
    /// The lines to show for the list, one for each entry, in order.
    pub fn showtodo(&self) -> (show: Vec<String>)
        ensures
            show.len() == self.list.len(),
            forall|i: int| 0 <= i < show.len() ==> shows(self@.list[i], (#[trigger] show@[i])@),
    {
        let mut show: Vec<String> = Vec::new();
        let mut i: usize = 0;
        while i < self.list.len()
            invariant
                i <= self.list.len(),
                show.len() == i,
                forall|j: int| 0 <= j < i ==> shows(self@.list[j], (#[trigger] show@[j])@),
            decreases self.list.len() - i,
        {
            assert(self@.list[i as int] == self.list@[i as int]@);
            let line = show_item(&self.list[i]);
            show.push(line);
            i += 1;
        }
        show
    }
}

} // verus!
