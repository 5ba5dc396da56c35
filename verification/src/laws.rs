//! What holds of the store whatever it contains: the text form reads back
//! as what was written, and the commands keep the numbering in order.

use vstd::prelude::*;
use crate::codec::{
    decode, decode_line, encode, encode_item, escape, first_index, flag_word, lines, split,
    unescape,
};
use crate::item::{ToDoView, contiguous, has_content, max_index};
use crate::number::{decimal, is_digit, lemma_decimal_digits, lemma_parse_decimal};
use crate::store::{
    SaveView, added, first_match, lemma_first_match, mark, mark_all, moved_up, removed, with_new,
    without,
};

verus! {

/// Whether `c` occurs nowhere in `s`.
pub open spec fn free_of(s: Seq<char>, c: char) -> bool {
    forall|i: int| 0 <= i < s.len() ==> s[i] != c
}

/// Whether no backslash in `t` is followed by the letter `n`.
pub open spec fn no_escape_pair(t: Seq<char>) -> bool {
    forall|i: int| 0 <= i < t.len() - 1 ==> !(t[i] == '\\' && #[trigger] t[i + 1] == 'n')
}

/// Whether the text `t` comes back from the stored form as it went in: it
/// holds no comma and no backslash followed by `n`, and does not end in a
/// carriage return.
pub open spec fn storable(t: Seq<char>) -> bool {
    &&& free_of(t, ',')
    &&& no_escape_pair(t)
    &&& (t.len() > 0 ==> t.last() != '\r')
}

/// Whether every entry of `list` has a number that fits the machine and a
/// text that is storable.
pub open spec fn all_storable(list: Seq<ToDoView>) -> bool {
    forall|i: int|
        0 <= i < list.len() ==> (#[trigger] list[i]).idx <= usize::MAX && storable(list[i].content)
}

/// In a text that starts with a part free of `c` and then has `c`, the
/// first `c` stands right after that part.
pub proof fn lemma_first_index_after(a: Seq<char>, c: char, b: Seq<char>)
    requires
        free_of(a, c),
    ensures
        first_index(a + seq![c] + b, c) == a.len(),
    decreases a.len(),
{
    let s = a + seq![c] + b;
    if a.len() == 0 {
        assert(s[0] == c);
    } else {
        assert(s[0] == a[0]);
        assert(s.drop_first() =~= a.drop_first() + seq![c] + b);
        assert forall|i: int| 0 <= i < a.drop_first().len() implies a.drop_first()[i] != c by {
            assert(a.drop_first()[i] == a[i + 1]);
        }
        lemma_first_index_after(a.drop_first(), c, b);
    }
}

/// In a text free of `c`, the search for `c` runs to the end.
pub proof fn lemma_first_index_absent(a: Seq<char>, c: char)
    requires
        free_of(a, c),
    ensures
        first_index(a, c) == a.len(),
    decreases a.len(),
{
    if a.len() > 0 {
        assert(a[0] != c);
        assert forall|i: int| 0 <= i < a.drop_first().len() implies a.drop_first()[i] != c by {
            assert(a.drop_first()[i] == a[i + 1]);
        }
        lemma_first_index_absent(a.drop_first(), c);
    }
}

/// The escaped form holds no line feed; it holds no comma where the text
/// holds none; and it ends as the text does, or in the letter `n`.
pub proof fn lemma_escape_shape(t: Seq<char>)
    ensures
        free_of(escape(t), '\n'),
        free_of(t, ',') ==> free_of(escape(t), ','),
        t.len() > 0 ==> escape(t).len() > 0 && (escape(t).last() == t.last() || escape(t).last()
            == 'n'),
        t.len() == 0 ==> escape(t).len() == 0,
    decreases t.len(),
{
    if t.len() > 0 {
        let rest = t.drop_first();
        lemma_escape_shape(rest);
        let head = if t[0] == '\n' {
            seq!['\\', 'n']
        } else {
            seq![t[0]]
        };
        assert(escape(t) == head + escape(rest));
        assert forall|i: int| 0 <= i < escape(t).len() implies escape(t)[i] != '\n' by {
            if i >= head.len() {
                assert(escape(t)[i] == escape(rest)[i - head.len()]);
            }
        }
        if free_of(t, ',') {
            assert forall|i: int| 0 <= i < rest.len() implies rest[i] != ',' by {
                assert(rest[i] == t[i + 1]);
            }
            assert(t[0] != ',');
            assert forall|i: int| 0 <= i < escape(t).len() implies escape(t)[i] != ',' by {
                if i >= head.len() {
                    assert(escape(t)[i] == escape(rest)[i - head.len()]);
                }
            }
        }
        if rest.len() > 0 {
            assert(rest.last() == t.last());
            assert(escape(t).last() == escape(rest).last());
        }
    }
}

/// Escaping and then unescaping gives the text back, where the text holds
/// no backslash followed by `n`.
pub proof fn lemma_unescape_escape(t: Seq<char>)
    requires
        no_escape_pair(t),
    ensures
        unescape(escape(t)) == t,
    decreases t.len(),
{
    if t.len() == 0 {
    } else {
        let rest = t.drop_first();
        assert forall|i: int| 0 <= i < rest.len() - 1 implies !(rest[i] == '\\' && #[trigger] rest[i
            + 1] == 'n') by {
            assert(rest[i] == t[i + 1]);
            assert(rest[i + 1] == t[i + 1 + 1]);
        }
        lemma_unescape_escape(rest);
        let e = escape(t);
        if t[0] == '\n' {
            assert(e.skip(2) =~= escape(rest));
            assert(seq!['\n'] + rest =~= t);
        } else {
            assert(e == seq![t[0]] + escape(rest));
            assert(e.drop_first() =~= escape(rest));
            if e.len() >= 2 && e[0] == '\\' && e[1] == 'n' {
                assert(rest.len() > 0);
                assert(escape(rest)[0] == 'n');
                assert(rest[0] == 'n');
                assert(t[0int + 1] == 'n');
                assert(false);
            }
            assert(seq![t[0]] + rest =~= t);
        }
    }
}

/// A numeral holds neither a comma nor a line feed, and neither do the two
/// flag words.
pub proof fn lemma_fields_clean(n: nat, finished: bool)
    ensures
        free_of(decimal(n), ','),
        free_of(decimal(n), '\n'),
        free_of(flag_word(finished), ','),
        free_of(flag_word(finished), '\n'),
{
    lemma_decimal_digits(n);
    assert forall|i: int| 0 <= i < decimal(n).len() implies decimal(n)[i] != ',' && decimal(n)[i]
        != '\n' by {
        assert(is_digit(decimal(n)[i]));
    }
}

/// A text made of two parts free of `c` is free of `c`.
pub proof fn lemma_free_of_concat(a: Seq<char>, b: Seq<char>, c: char)
    requires
        free_of(a, c),
        free_of(b, c),
    ensures
        free_of(a + b, c),
{
    assert forall|i: int| 0 <= i < (a + b).len() implies (a + b)[i] != c by {
        if i < a.len() {
            assert((a + b)[i] == a[i]);
        } else {
            assert((a + b)[i] == b[i - a.len()]);
        }
    }
}

/// A text free of the separator is one piece.
pub proof fn lemma_split_one(a: Seq<char>, sep: char)
    requires
        free_of(a, sep),
    ensures
        split(a, sep) == seq![a],
{
    lemma_first_index_absent(a, sep);
}

/// A part free of the separator, then the separator, then more text: the
/// part is the first piece, and the pieces of the rest follow.
pub proof fn lemma_split_first(a: Seq<char>, sep: char, rest: Seq<char>)
    requires
        free_of(a, sep),
    ensures
        split(a + seq![sep] + rest, sep) == seq![a] + split(rest, sep),
{
    let s = a + seq![sep] + rest;
    lemma_first_index_after(a, sep, rest);
    assert(s.take(a.len() as int) =~= a);
    assert(s.skip(a.len() as int + 1) =~= rest);
}

/// A text whose first part is free of line feeds and ends in no carriage
/// return, followed by a line feed: the part is the first line, and the
/// lines of the rest follow.
pub proof fn lemma_lines_first(a: Seq<char>, rest: Seq<char>)
    requires
        free_of(a, '\n'),
        a.len() > 0 ==> a.last() != '\r',
    ensures
        lines(a + seq!['\n'] + rest) == seq![a] + lines(rest),
{
    let s = a + seq!['\n'] + rest;
    lemma_first_index_after(a, '\n', rest);
    assert(s.take(a.len() as int) =~= a);
    assert(s.skip(a.len() as int + 1) =~= rest);
}

/// The three fields of the line written for `item`: its numeral, its flag
/// word and its escaped text.
pub open spec fn fields_of(item: ToDoView) -> Seq<Seq<char>> {
    seq![decimal(item.idx), flag_word(item.finished), escape(item.content)]
}

/// The line written for an entry whose text holds no comma splits into its
/// three fields.
pub proof fn lemma_line_fields(item: ToDoView)
    requires
        free_of(item.content, ','),
    ensures
        split(encode_item(item).drop_last(), ',') == fields_of(item),
{
    let num = decimal(item.idx);
    let flag = flag_word(item.finished);
    let body = escape(item.content);
    let line = encode_item(item).drop_last();
    lemma_fields_clean(item.idx, item.finished);
    lemma_escape_shape(item.content);
    let after_num = flag + seq![','] + body;
    assert(line =~= num + seq![','] + after_num);
    lemma_split_first(num, ',', after_num);
    lemma_split_first(flag, ',', body);
    lemma_split_one(body, ',');
    assert(seq![num] + (seq![flag] + seq![body]) =~= fields_of(item));
}

/// The line written for an entry holds no line feed before its end, and
/// does not end in a carriage return where the text of the entry does not.
pub proof fn lemma_line_shape(item: ToDoView)
    requires
        item.content.len() > 0 ==> item.content.last() != '\r',
    ensures
        free_of(encode_item(item).drop_last(), '\n'),
        encode_item(item).drop_last().len() > 0,
        encode_item(item).drop_last().last() != '\r',
        encode_item(item) == encode_item(item).drop_last() + seq!['\n'],
{
    let num = decimal(item.idx);
    let flag = flag_word(item.finished);
    let body = escape(item.content);
    let line = encode_item(item).drop_last();
    lemma_fields_clean(item.idx, item.finished);
    lemma_escape_shape(item.content);
    let comma = seq![','];
    assert(free_of(comma, '\n'));
    lemma_free_of_concat(num, comma, '\n');
    lemma_free_of_concat(num + comma, flag, '\n');
    lemma_free_of_concat(num + comma + flag, comma, '\n');
    lemma_free_of_concat(num + comma + flag + comma, body, '\n');
    assert(line =~= num + comma + flag + comma + body);
    if item.content.len() > 0 {
        assert(line.last() == body.last());
    } else {
        assert(line.last() == ',');
    }
    assert(encode_item(item) =~= line + seq!['\n']);
}

/// The line written for a storable entry, without its line feed, reads back
/// as that entry.
pub proof fn lemma_line_round_trip(item: ToDoView)
    requires
        item.idx <= usize::MAX,
        free_of(item.content, ','),
        no_escape_pair(item.content),
    ensures
        decode_line(encode_item(item).drop_last()) == Some(item),
{
    lemma_line_fields(item);
    lemma_unescape_escape(item.content);
    lemma_parse_decimal(item.idx);
    assert(flag_word(false)[0] != flag_word(true)[0]);
}

/// Reading what was written gives the list back: its numbers, flags and
/// texts, for every list whose texts are storable.
pub proof fn lemma_round_trip(list: Seq<ToDoView>)
    requires
        all_storable(list),
    ensures
        decode(encode(list)) == list,
    decreases list.len(),
{
    if list.len() == 0 {
        assert(decode(encode(list)) =~= list);
    } else {
        let item = list[0];
        let rest = list.drop_first();
        assert forall|i: int| 0 <= i < rest.len() implies (#[trigger] rest[i]).idx <= usize::MAX
            && storable(rest[i].content) by {
            assert(rest[i] == list[i + 1]);
        }
        lemma_round_trip(rest);
        let line = encode_item(item).drop_last();
        lemma_line_shape(item);
        assert(encode(list) =~= line + seq!['\n'] + encode(rest));
        lemma_lines_first(line, encode(rest));
        assert(lines(encode(list)).drop_first() =~= lines(encode(rest)));
        lemma_line_round_trip(item);
        assert(seq![item] + rest =~= list);
    }
}

/// The largest number of a list is at least the number of each entry.
pub proof fn lemma_max_index_covers(list: Seq<ToDoView>)
    ensures
        forall|i: int| 0 <= i < list.len() ==> (#[trigger] list[i]).idx <= max_index(list),
    decreases list.len(),
{
    if list.len() > 0 {
        let front = list.drop_last();
        lemma_max_index_covers(front);
        assert forall|i: int| 0 <= i < list.len() implies (#[trigger] list[i]).idx <= max_index(
            list,
        ) by {
            if i < front.len() {
                assert(list[i] == front[i]);
            }
        }
    }
}

/// The largest number of a list is no more than a bound on all its numbers.
pub proof fn lemma_max_index_within(list: Seq<ToDoView>, bound: nat)
    requires
        forall|i: int| 0 <= i < list.len() ==> (#[trigger] list[i]).idx <= bound,
    ensures
        max_index(list) <= bound,
    decreases list.len(),
{
    if list.len() > 0 {
        let front = list.drop_last();
        assert forall|i: int| 0 <= i < front.len() implies (#[trigger] front[i]).idx <= bound by {
            assert(front[i] == list[i]);
        }
        lemma_max_index_within(front, bound);
    }
}

/// In a list numbered without gaps, the largest number is the length.
pub proof fn lemma_contiguous_max(list: Seq<ToDoView>)
    requires
        contiguous(list),
    ensures
        max_index(list) == list.len(),
{
    let n = list.len() as int;
    lemma_max_index_covers(list);
    lemma_max_index_within(list, list.len());
    if n > 0 && max_index(list) < n {
        // Then the numbers are n different values among 1 .. n - 1.
        let numbers = list.map_values(|t: ToDoView| t.idx as int);
        assert(numbers.no_duplicates());
        numbers.unique_seq_to_set();
        let below = vstd::set_lib::set_int_range(1, n);
        vstd::set_lib::lemma_int_range(1, n);
        assert forall|v: int| numbers.to_set().contains(v) implies below.contains(v) by {
            let i = choose|i: int| 0 <= i < numbers.len() && numbers[i] == v;
            assert(list[i].idx <= max_index(list));
        }
        vstd::set_lib::lemma_len_subset(numbers.to_set(), below);
        assert(false);
    }
}

/// A store in order with storable texts reads back whole from what was
/// written for it: the same entries, and the same counter.
pub proof fn lemma_store_round_trip(s: SaveView)
    requires
        tidy(s),
        all_storable(s.list),
    ensures
        decode(encode(s.list)) == s.list,
        max_index(decode(encode(s.list))) == s.num,
{
    lemma_round_trip(s.list);
    lemma_contiguous_max(s.list);
}

/// The text written for an empty list is empty, and an empty text reads as
/// an empty list.
pub proof fn lemma_empty_text()
    ensures
        encode(Seq::<ToDoView>::empty()) == Seq::<char>::empty(),
        decode(Seq::<char>::empty()) == Seq::<ToDoView>::empty(),
        max_index(Seq::<ToDoView>::empty()) == 0,
{
    assert(lines(Seq::<char>::empty()) =~= Seq::<Seq<char>>::empty());
}

/// Whether the store is in order: its numbers run from one to the length
/// of the list, and the counter stands at that length.
pub open spec fn tidy(s: SaveView) -> bool {
    contiguous(s.list) && s.num == s.list.len()
}

/// Whether no two entries of `list` have the same text.
pub open spec fn distinct_contents(list: Seq<ToDoView>) -> bool {
    forall|i: int, j: int|
        0 <= i < list.len() && 0 <= j < list.len() && i != j ==> (#[trigger] list[i]).content != (
        #[trigger] list[j]).content
}

/// Taking one entry out of a list numbered without gaps leaves a list
/// numbered without gaps, one shorter; a counter that stood at the length
/// of the list stands there again.
pub proof fn lemma_without_keeps_order(s: SaveView, i: int)
    requires
        contiguous(s.list),
        0 <= i < s.list.len(),
    ensures
        contiguous(without(s, i).list),
        without(s, i).list.len() == s.list.len() - 1,
        tidy(s) ==> tidy(without(s, i)),
{
    let gone = s.list[i].idx;
    let cut = s.list.remove(i);
    let after = without(s, i).list;
    assert(after.len() == cut.len());
    assert forall|k: int| 0 <= k < after.len() implies 1 <= (#[trigger] after[k]).idx
        <= after.len() by {
        let from = if k < i {
            k
        } else {
            k + 1
        };
        assert(cut[k] == s.list[from]);
        assert(s.list[from].idx != s.list[i].idx);
        assert(after[k] == moved_up(cut[k], gone));
    }
    assert forall|k: int, l: int|
        0 <= k < after.len() && 0 <= l < after.len() && k != l implies (#[trigger] after[k]).idx
        != (#[trigger] after[l]).idx by {
        let from_k = if k < i {
            k
        } else {
            k + 1
        };
        let from_l = if l < i {
            l
        } else {
            l + 1
        };
        assert(cut[k] == s.list[from_k]);
        assert(cut[l] == s.list[from_l]);
        assert(s.list[from_k].idx != s.list[i].idx);
        assert(s.list[from_l].idx != s.list[i].idx);
        assert(s.list[from_k].idx != s.list[from_l].idx);
        assert(after[k] == moved_up(cut[k], gone));
        assert(after[l] == moved_up(cut[l], gone));
    }
}

/// After any run of deletions the numbers of the entries that remain still
/// run from one to their count, without gaps, whether the run went through
/// or stopped at an identifier that no entry answered to.
pub proof fn lemma_delete_keeps_order(s: SaveView, ids: Seq<Seq<char>>)
    requires
        contiguous(s.list),
    ensures
        contiguous(removed(s, ids).0.list),
        tidy(s) ==> tidy(removed(s, ids).0),
        removed(s, ids).0.list.len() <= s.list.len(),
    decreases ids.len(),
{
    if ids.len() > 0 {
        let i = first_match(s.list, ids[0]);
        if 0 <= i < s.list.len() {
            lemma_without_keeps_order(s, i);
            lemma_delete_keeps_order(without(s, i), ids.drop_first());
        }
    }
}

/// Adding to a store in order leaves it in order: each new entry gets the
/// number after the last, and the counter follows.
pub proof fn lemma_add_keeps_order(s: SaveView, contents: Seq<Seq<char>>)
    requires
        tidy(s),
    ensures
        tidy(added(s, contents).0),
    decreases contents.len(),
{
    if contents.len() > 0 && !has_content(s.list, contents[0]) {
        let next = with_new(s, contents[0]);
        assert forall|k: int| 0 <= k < next.list.len() implies 1 <= (#[trigger] next.list[k]).idx
            <= next.list.len() by {
            if k < s.list.len() {
                assert(next.list[k] == s.list[k]);
            }
        }
        assert forall|k: int, l: int|
            0 <= k < next.list.len() && 0 <= l < next.list.len() && k != l implies (
        #[trigger] next.list[k]).idx != (#[trigger] next.list[l]).idx by {
            if k < s.list.len() {
                assert(next.list[k] == s.list[k]);
            }
            if l < s.list.len() {
                assert(next.list[l] == s.list[l]);
            }
        }
        lemma_add_keeps_order(next, contents.drop_first());
    }
}

/// Adding never takes in a text that an entry already has: a call that is
/// handed such a text as its first leaves the store as it was, and one that
/// is handed it later stops before or at it.
pub proof fn lemma_add_rejects_known(s: SaveView, contents: Seq<Seq<char>>, k: int)
    requires
        0 <= k < contents.len(),
        has_content(s.list, contents[k]),
    ensures
        !added(s, contents).1,
        k == 0 ==> added(s, contents).0 == s,
    decreases contents.len(),
{
    if k > 0 && !has_content(s.list, contents[0]) {
        let next = with_new(s, contents[0]);
        let i = choose|i: int| 0 <= i < s.list.len() && (#[trigger] s.list[i]).content == contents[k];
        assert(next.list[i] == s.list[i]);
        assert(contents.drop_first()[k - 1] == contents[k]);
        lemma_add_rejects_known(next, contents.drop_first(), k - 1);
    }
}

/// Adding keeps the texts of the list distinct, keeps the entries that were
/// there as they were, and takes in nothing where it is handed nothing new.
pub proof fn lemma_add_keeps_distinct(s: SaveView, contents: Seq<Seq<char>>)
    requires
        distinct_contents(s.list),
    ensures
        distinct_contents(added(s, contents).0.list),
        s.list.len() <= added(s, contents).0.list.len(),
        added(s, contents).0.list.take(s.list.len() as int) == s.list,
    decreases contents.len(),
{
    if contents.len() > 0 && !has_content(s.list, contents[0]) {
        let next = with_new(s, contents[0]);
        assert forall|k: int, l: int|
            0 <= k < next.list.len() && 0 <= l < next.list.len() && k != l implies (
        #[trigger] next.list[k]).content != (#[trigger] next.list[l]).content by {
            if k < s.list.len() {
                assert(next.list[k] == s.list[k]);
            }
            if l < s.list.len() {
                assert(next.list[l] == s.list[l]);
            }
        }
        lemma_add_keeps_distinct(next, contents.drop_first());
        let end = added(s, contents).0.list;
        assert(end.take(s.list.len() as int) =~= end.take(next.list.len() as int).take(
            s.list.len() as int,
        ));
        assert(next.list.take(s.list.len() as int) =~= s.list);
    } else {
        assert(s.list.take(s.list.len() as int) =~= s.list);
    }
}

/// Marking entries as done changes nothing but done flags, and never takes
/// one back: the list keeps its length, and each entry its number and text.
pub proof fn lemma_mark_keeps_entries(list: Seq<ToDoView>, ids: Seq<Seq<char>>)
    ensures
        mark_all(list, ids).len() == list.len(),
        forall|i: int|
            0 <= i < list.len() ==> {
                &&& (#[trigger] mark_all(list, ids)[i]).idx == list[i].idx
                &&& mark_all(list, ids)[i].content == list[i].content
                &&& list[i].finished ==> mark_all(list, ids)[i].finished
            },
        contiguous(list) ==> contiguous(mark_all(list, ids)),
    decreases ids.len(),
{
    if ids.len() > 0 {
        let next = mark(list, ids[0]);
        lemma_first_match(list, ids[0]);
        lemma_mark_keeps_entries(next, ids.drop_first());
        let end = mark_all(list, ids);
        assert forall|i: int| 0 <= i < list.len() implies {
            &&& (#[trigger] end[i]).idx == list[i].idx
            &&& end[i].content == list[i].content
            &&& list[i].finished ==> end[i].finished
        } by {
            assert(next[i].idx == list[i].idx);
        }
        if contiguous(list) {
            assert(contiguous(next));
        }
    }
}

} // verus!