//! The text form of a list: one line per entry, holding its number, its
//! done flag and its text, separated by commas.

use vstd::prelude::*;
use crate::item::{ToDo, ToDoView, views, max_index};
use crate::number::{decimal, parse_index, read_index, write_index};
use crate::text::{chars_of, seqs, string_of};
use vstd::slice::{slice_subrange, slice_to_vec};

verus! {

/// The word written for a done flag.
pub open spec fn flag_word(finished: bool) -> Seq<char> {
    if finished {
        seq!['t', 'r', 'u', 'e']
    } else {
        seq!['f', 'a', 'l', 's', 'e']
    }
}

/// The text with every line feed replaced by a backslash and the letter `n`.
pub open spec fn escape(t: Seq<char>) -> Seq<char>
    decreases t.len(),
{
    if t.len() == 0 {
        Seq::empty()
    } else if t[0] == '\n' {
        seq!['\\', 'n'] + escape(t.drop_first())
    } else {
        seq![t[0]] + escape(t.drop_first())
    }
}

/// The text with every backslash that is followed by the letter `n` replaced,
/// together with that letter, by a line feed; pairs are taken from the left.
pub open spec fn unescape(t: Seq<char>) -> Seq<char>
    decreases t.len(),
{
    if t.len() == 0 {
        Seq::empty()
    } else if t.len() >= 2 && t[0] == '\\' && t[1] == 'n' {
        seq!['\n'] + unescape(t.skip(2))
    } else {
        seq![t[0]] + unescape(t.drop_first())
    }
}

/// The index of the first `c` in `s`, or the length of `s` where it holds none.
pub open spec fn first_index(s: Seq<char>, c: char) -> int
    decreases s.len(),
{
    if s.len() == 0 || s[0] == c {
        0
    } else {
        1 + first_index(s.drop_first(), c)
    }
}

/// The pieces of `s` between occurrences of `sep`. There is always one piece
/// more than there are separators, and a piece may be empty.
pub open spec fn split(s: Seq<char>, sep: char) -> Seq<Seq<char>>
    decreases s.len(),
{
    let i = first_index(s, sep);
    if 0 <= i < s.len() {
        seq![s.take(i)] + split(s.skip(i + 1), sep)
    } else {
        seq![s]
    }
}

/// A line without the carriage return that ends it, if one does.
pub open spec fn strip_cr(line: Seq<char>) -> Seq<char> {
    if line.len() > 0 && line.last() == '\r' {
        line.drop_last()
    } else {
        line
    }
}

/// The lines of a text. A line ends at a line feed, and a carriage return
/// just before that line feed belongs to the line ending. Text after the
/// last line feed is a line of its own, taken as it stands.
pub open spec fn lines(s: Seq<char>) -> Seq<Seq<char>>
    decreases s.len(),
{
    if s.len() == 0 {
        Seq::empty()
    } else {
        let i = first_index(s, '\n');
        if 0 <= i < s.len() {
            seq![strip_cr(s.take(i))] + lines(s.skip(i + 1))
        } else {
            seq![s]
        }
    }
}

/// The entry that a line stands for. A line with other than three fields
/// stands for none. A first field that is no number reads as zero, and a
/// second field other than `true` reads as not done.
pub open spec fn decode_line(line: Seq<char>) -> Option<ToDoView> {
    let parts = split(line, ',');
    if parts.len() != 3 {
        None
    } else {
        Some(
            ToDoView {
                finished: parts[1] == flag_word(true),
                content: unescape(parts[2]),
                idx: match parse_index(parts[0]) {
                    Some(n) => n,
                    None => 0,
                },
            },
        )
    }
}

/// The entries that a run of lines stands for, in order.
pub open spec fn decode_lines(ls: Seq<Seq<char>>) -> Seq<ToDoView>
    decreases ls.len(),
{
    if ls.len() == 0 {
        Seq::empty()
    } else {
        match decode_line(ls[0]) {
            Some(item) => seq![item] + decode_lines(ls.drop_first()),
            None => decode_lines(ls.drop_first()),
        }
    }
}

/// The entries that a whole text stands for.
pub open spec fn decode(text: Seq<char>) -> Seq<ToDoView> {
    decode_lines(lines(text))
}

/// The line written for one entry, line feed included.
pub open spec fn encode_item(item: ToDoView) -> Seq<char> {
    decimal(item.idx) + seq![','] + flag_word(item.finished) + seq![','] + escape(item.content)
        + seq!['\n']
}

/// The text written for a list: the lines of its entries, in order.
pub open spec fn encode(list: Seq<ToDoView>) -> Seq<char>
    decreases list.len(),
{
    if list.len() == 0 {
        Seq::empty()
    } else {
        encode_item(list[0]) + encode(list.drop_first())
    }
}

/// Appends to `out` the escaped form of `t`.
pub fn push_escaped(out: &mut Vec<char>, t: &[char])
    ensures
        final(out)@ == old(out)@ + escape(t@),
{
    let mut i: usize = 0;
    assert(t@.skip(0) =~= t@);
    while i < t.len()
        invariant
            i <= t.len(),
            out@ + escape(t@.skip(i as int)) == old(out)@ + escape(t@),
        decreases t.len() - i,
    {
        let ghost rest = t@.skip(i as int);
        assert(rest.drop_first() =~= t@.skip(i + 1));
        let ghost before = out@;
        if t[i] == '\n' {
            out.push('\\');
            out.push('n');
            assert(out@ + escape(rest.drop_first()) =~= before + escape(rest));
        } else {
            out.push(t[i]);
            assert(out@ + escape(rest.drop_first()) =~= before + escape(rest));
        }
        i += 1;
    }
    assert(escape(t@.skip(i as int)) =~= Seq::<char>::empty());
    assert(out@ + Seq::<char>::empty() =~= out@);
}

/// The text that the escaped form `t` stands for.
pub fn unescaped(t: &[char]) -> (out: Vec<char>)
    ensures
        out@ == unescape(t@),
{
    let mut out: Vec<char> = Vec::new();
    let mut i: usize = 0;
    assert(t@.skip(0) =~= t@);
    assert(out@ + unescape(t@) =~= unescape(t@));
    while i < t.len()
        invariant
            i <= t.len(),
            out@ + unescape(t@.skip(i as int)) == unescape(t@),
        decreases t.len() - i,
    {
        let ghost rest = t@.skip(i as int);
        let ghost before = out@;
        if t[i] == '\\' && i + 1 < t.len() && t[i + 1] == 'n' {
            assert(rest.skip(2) =~= t@.skip(i + 2));
            out.push('\n');
            assert(out@ + unescape(rest.skip(2)) =~= before + unescape(rest));
            i += 2;
        } else {
            assert(rest.drop_first() =~= t@.skip(i + 1));
            out.push(t[i]);
            assert(out@ + unescape(rest.drop_first()) =~= before + unescape(rest));
            i += 1;
        }
    }
    assert(unescape(t@.skip(i as int)) =~= Seq::<char>::empty());
    assert(out@ + Seq::<char>::empty() =~= out@);
    out
}

/// Where the first `c` at or after `from` stands in `s`; the length of `s`
/// where there is none.
pub fn find_from(s: &[char], from: usize, c: char) -> (at: usize)
    requires
        from <= s.len(),
    ensures
        from <= at <= s.len(),
        at == from + first_index(s@.skip(from as int), c),
{
    let mut i: usize = from;
    while i < s.len() && s[i] != c
        invariant
            from <= i <= s.len(),
            first_index(s@.skip(from as int), c) == (i - from) + first_index(s@.skip(i as int), c),
        decreases s.len() - i,
    {
        assert(s@.skip(i as int).drop_first() =~= s@.skip(i + 1));
        i += 1;
    }
    i
}

/// The pieces of `s` between occurrences of `sep`.
pub fn split_fields(s: &[char], sep: char) -> (parts: Vec<Vec<char>>)
    ensures
        seqs(parts@) == split(s@, sep),
{
    let mut parts: Vec<Vec<char>> = Vec::new();
    let mut pos: usize = 0;
    let mut open = true;
    assert(s@.skip(0) =~= s@);
    assert(seqs(parts@) + split(s@, sep) =~= split(s@, sep));
    while open
        invariant
            pos <= s.len(),
            open ==> seqs(parts@) + split(s@.skip(pos as int), sep) == split(s@, sep),
            !open ==> seqs(parts@) == split(s@, sep),
        decreases
            (if open {
                1 + s.len() - pos
            } else {
                0
            }),
    {
        let ghost rest = s@.skip(pos as int);
        let ghost before = seqs(parts@);
        let at = find_from(s, pos, sep);
        let piece = slice_to_vec(slice_subrange(s, pos, at));
        assert(piece@ =~= rest.take(at - pos));
        parts.push(piece);
        assert(seqs(parts@) =~= before.push(piece@));
        if at < s.len() {
            assert(rest.skip(at - pos + 1) =~= s@.skip(at + 1));
            assert(before.push(piece@) + split(rest.skip(at - pos + 1), sep) =~= before + split(
                rest,
                sep,
            ));
            pos = at + 1;
        } else {
            assert(rest.take(at - pos) =~= rest);
            assert(before.push(piece@) =~= before + split(rest, sep));
            open = false;
        }
    }
    parts
}

/// Whether `word` is the word written for a set done flag.
pub fn is_true_word(word: &[char]) -> (yes: bool)
    ensures
        yes == (word@ == flag_word(true)),
{
    let yes = word.len() == 4 && word[0] == 't' && word[1] == 'r' && word[2] == 'u' && word[3]
        == 'e';
    assert(yes ==> word@ =~= flag_word(true));
    yes
}

/// Reads one line; `None` where the line stands for no entry.
pub fn read_line(line: &[char]) -> (r: Option<ToDo>)
    ensures
        match decode_line(line@) {
            Some(v) => r matches Some(t) && t@ == v,
            None => r is None,
        },
{
    let parts = split_fields(line, ',');
    if parts.len() != 3 {
        return None;
    }
    assert(seqs(parts@)[0] == parts@[0]@);
    assert(seqs(parts@)[1] == parts@[1]@);
    assert(seqs(parts@)[2] == parts@[2]@);
    let idx: usize = match read_index(parts[0].as_slice()) {
        Some(n) => n,
        None => 0,
    };
    let finished = is_true_word(parts[1].as_slice());
    let content = string_of(unescaped(parts[2].as_slice()).as_slice());
    Some(ToDo { finished, content, idx })
}

/// Reads a whole text: its entries in order, and the largest number among
/// them (zero where there is none).
pub fn read_list(text: &str) -> (r: (Vec<ToDo>, usize))
    ensures
        views(r.0@) == decode(text@),
        r.1 == max_index(views(r.0@)),
{
    let chars = chars_of(text);
    let s = chars.as_slice();
    let mut list: Vec<ToDo> = Vec::new();
    let mut num: usize = 0;
    let mut pos: usize = 0;
    assert(s@.skip(0) =~= s@);
    assert(views(list@) + decode(s@) =~= decode(s@));
    while pos < s.len()
        invariant
            pos <= s.len(),
            s@ == text@,
            views(list@) + decode_lines(lines(s@.skip(pos as int))) == decode(s@),
            num == max_index(views(list@)),
        decreases s.len() - pos,
    {
        let ghost rest = s@.skip(pos as int);
        let ghost before = views(list@);
        let at = find_from(s, pos, '\n');
        let mut end = at;
        let mut next = at;
        if at < s.len() {
            next = at + 1;
            if pos < at && s[at - 1] == '\r' {
                end = at - 1;
            }
            assert(rest.skip(at - pos + 1) =~= s@.skip(next as int));
        } else {
            assert(lines(s@.skip(next as int)) =~= Seq::<Seq<char>>::empty());
        }
        let line = slice_subrange(s, pos, end);
        assert(line@ =~= lines(rest)[0]) by {
            if at < s.len() {
                assert(rest.take(at - pos) =~= s@.subrange(pos as int, at as int));
            } else {
                assert(rest =~= s@.subrange(pos as int, at as int));
            }
        }
        assert(lines(rest).drop_first() =~= lines(s@.skip(next as int)));
        match read_line(line) {
            Some(item) => {
                if item.idx > num {
                    num = item.idx;
                }
                list.push(item);
                assert(views(list@) =~= before.push(item@));
                assert(views(list@).drop_last() =~= before);
                assert(views(list@) + decode_lines(lines(s@.skip(next as int))) =~= before
                    + decode_lines(lines(rest)));
            },
            None => {},
        }
        pos = next;
    }
    assert(lines(s@.skip(pos as int)) =~= Seq::<Seq<char>>::empty());
    assert(views(list@) + Seq::<ToDoView>::empty() =~= views(list@));
    (list, num)
}

/// Appends to `out` the line of `item`.
pub fn push_item(out: &mut Vec<char>, item: &ToDo)
    ensures
        final(out)@ == old(out)@ + encode_item(item@),
{
    let ghost before = out@;
    let mut digits = write_index(item.idx);
    out.append(&mut digits);
    out.push(',');
    if item.finished {
        out.push('t');
        out.push('r');
        out.push('u');
        out.push('e');
    } else {
        out.push('f');
        out.push('a');
        out.push('l');
        out.push('s');
        out.push('e');
    }
    out.push(',');
    let ghost head = out@;
    assert(head =~= before + decimal(item@.idx) + seq![','] + flag_word(item@.finished) + seq![',']);
    let content = chars_of(item.content.as_str());
    push_escaped(out, content.as_slice());
    out.push('\n');
    assert(out@ =~= before + encode_item(item@));
}

/// Appends to `out` the lines of the entries of `list` from `from` on.
pub fn push_items(out: &mut Vec<char>, list: &[ToDo], from: usize)
    requires
        from <= list.len(),
    ensures
        final(out)@ == old(out)@ + encode(views(list@).skip(from as int)),
{
    let mut i: usize = from;
    while i < list.len()
        invariant
            from <= i <= list.len(),
            out@ + encode(views(list@).skip(i as int)) == old(out)@ + encode(
                views(list@).skip(from as int),
            ),
        decreases list.len() - i,
    {
        let ghost rest = views(list@).skip(i as int);
        let ghost before = out@;
        assert(rest.drop_first() =~= views(list@).skip(i + 1));
        assert(rest[0] == list@[i as int]@);
        push_item(out, &list[i]);
        assert(out@ + encode(rest.drop_first()) =~= before + encode(rest));
        i += 1;
    }
    assert(encode(views(list@).skip(i as int)) =~= Seq::<char>::empty());
    assert(out@ + Seq::<char>::empty() =~= out@);
}

/// The text written for `list`.
pub fn write_list(list: &[ToDo]) -> (text: String)
    ensures
        text@ == encode(views(list@)),
{
    let mut out: Vec<char> = Vec::new();
    push_items(&mut out, list, 0);
    assert(views(list@).skip(0) =~= views(list@));
    assert(Seq::<char>::empty() + encode(views(list@)) =~= encode(views(list@)));
    string_of(out.as_slice())
}

} // verus!
