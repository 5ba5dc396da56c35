//! The list store and the commands that change it.

use vstd::prelude::*;
use crate::codec::{decode, encode, push_items, read_list, write_list};
use crate::item::{ToDo, ToDoView, contiguous, has_content, max_index, views};
use crate::laws::{
    lemma_add_keeps_order, lemma_add_rejects_known, lemma_delete_keeps_order,
    lemma_mark_keeps_entries, tidy,
};
use crate::number::{parse_index, read_index};
use crate::text::{chars_of, string_of, texts};

verus! {

/// The to-do list: its entries in order, and the counter from which the
/// next new entry takes its number.
#[derive(Debug, PartialEq, Eq)]
pub struct Save {
    /// The number given out last; a new entry gets the one after it.
    pub num: usize,
    /// The entries, in the order in which they are shown and written.
    pub list: Vec<ToDo>,
}

/// What a store holds, as plain mathematical values.
pub struct SaveView {
    pub num: nat,
    pub list: Seq<ToDoView>,
}

impl View for Save {
    type V = SaveView;

    open spec fn view(&self) -> SaveView {
        SaveView { num: self.num as nat, list: views(self.list@) }
    }
}

/// Why a command did not go through.
#[derive(Debug, Clone, Copy, PartialEq, Eq, Structural)]
pub enum StoreError {
    /// An entry with the same text is already in the list.
    DuplicateContent,
    /// No entry answers to the identifier.
    NotFound,
}

/// What `add` hands back: the lines to append to the stored text for the
/// entries it took in, and whether it took in all of them.
#[derive(Debug)]
pub struct Added {
    /// The lines of the new entries, in order.
    pub appended: String,
    /// `Ok` where every text was taken in; the error that stopped it otherwise.
    pub outcome: Result<(), StoreError>,
}

/// Whether `item` answers to the identifier `id`: by its number where `id`
/// reads as a number, by its exact text otherwise.
pub open spec fn answers(item: ToDoView, id: Seq<char>) -> bool {
    match parse_index(id) {
        Some(n) => item.idx == n,
        None => item.content == id,
    }
}

/// The index of the first entry of `list` that answers to `id`, or the length
/// of `list` where none does.
pub open spec fn first_match(list: Seq<ToDoView>, id: Seq<char>) -> int
    decreases list.len(),
{
    if list.len() == 0 || answers(list[0], id) {
        0
    } else {
        1 + first_match(list.drop_first(), id)
    }
}

/// `first_match` is within bounds, points at an entry that answers, and no
/// entry before it does.
pub proof fn lemma_first_match(list: Seq<ToDoView>, id: Seq<char>)
    ensures
        0 <= first_match(list, id) <= list.len(),
        first_match(list, id) < list.len() ==> answers(list[first_match(list, id)], id),
        forall|j: int| 0 <= j < first_match(list, id) ==> !answers(#[trigger] list[j], id),
    decreases list.len(),
{
    if list.len() == 0 || answers(list[0], id) {
    } else {
        let rest = list.drop_first();
        lemma_first_match(rest, id);
        assert forall|j: int| 0 <= j < first_match(list, id) implies !answers(
            #[trigger] list[j],
            id,
        ) by {
            if j > 0 {
                assert(list[j] == rest[j - 1]);
            }
        }
    }
}

/// The entry `item`, marked as done.
pub open spec fn done(item: ToDoView) -> ToDoView {
    ToDoView { finished: true, ..item }
}

/// The list after the first entry that answers to `id` is marked as done;
/// the list itself where none answers.
pub open spec fn mark(list: Seq<ToDoView>, id: Seq<char>) -> Seq<ToDoView> {
    let i = first_match(list, id);
    if 0 <= i < list.len() {
        list.update(i, done(list[i]))
    } else {
        list
    }
}

/// The list after marking for each of `ids` in turn.
pub open spec fn mark_all(list: Seq<ToDoView>, ids: Seq<Seq<char>>) -> Seq<ToDoView>
    decreases ids.len(),
{
    if ids.len() == 0 {
        list
    } else {
        mark_all(mark(list, ids[0]), ids.drop_first())
    }
}

/// The entry `item` after the entry numbered `gone` has left: one down where
/// its number was above `gone`, unchanged otherwise.
pub open spec fn moved_up(item: ToDoView, gone: nat) -> ToDoView {
    if item.idx > gone {
        ToDoView { idx: (item.idx - 1) as nat, ..item }
    } else {
        item
    }
}

/// The store without its entry at index `i`: the entries numbered above it
/// move one down, and so does the counter, which stops at zero.
pub open spec fn without(s: SaveView, i: int) -> SaveView
    recommends
        0 <= i < s.list.len(),
{
    SaveView {
        num: if s.num > 0 {
            (s.num - 1) as nat
        } else {
            0
        },
        list: s.list.remove(i).map_values(|t: ToDoView| moved_up(t, s.list[i].idx)),
    }
}

/// The store after deleting for each of `ids` in turn, up to the first that
/// no entry answers to; and whether every one of them was answered.
pub open spec fn removed(s: SaveView, ids: Seq<Seq<char>>) -> (SaveView, bool)
    decreases ids.len(),
{
    if ids.len() == 0 {
        (s, true)
    } else {
        let i = first_match(s.list, ids[0]);
        if 0 <= i < s.list.len() {
            removed(without(s, i), ids.drop_first())
        } else {
            (s, false)
        }
    }
}

/// The store with a new entry for `content` at its end, not done, numbered
/// one above the counter, which moves up with it.
pub open spec fn with_new(s: SaveView, content: Seq<char>) -> SaveView {
    SaveView {
        num: s.num + 1,
        list: s.list.push(ToDoView { finished: false, content, idx: s.num + 1 }),
    }
}

/// The store after taking in `contents` in turn, up to the first that some
/// entry then in the list already has; and whether all were taken in.
pub open spec fn added(s: SaveView, contents: Seq<Seq<char>>) -> (SaveView, bool)
    decreases contents.len(),
{
    if contents.len() == 0 {
        (s, true)
    } else if has_content(s.list, contents[0]) {
        (s, false)
    } else {
        added(with_new(s, contents[0]), contents.drop_first())
    }
}

/// Moves the entries numbered above `gone` one down.
fn close_gap(list: &mut Vec<ToDo>, gone: usize)
    ensures
        views(final(list)@) == views(old(list)@).map_values(
            |t: ToDoView| moved_up(t, gone as nat),
        ),
{
    let mut j: usize = 0;
    while j < list.len()
        invariant
            j <= list.len(),
            list.len() == old(list).len(),
            forall|k: int|
                0 <= k < j ==> (#[trigger] list@[k])@ == moved_up(old(list)@[k]@, gone as nat),
            forall|k: int| j <= k < list.len() ==> #[trigger] list@[k] == old(list)@[k],
        decreases list.len() - j,
    {
        if list[j].idx > gone {
            list[j].idx -= 1;
        }
        j += 1;
    }
    assert(views(list@) =~= views(old(list)@).map_values(
        |t: ToDoView| moved_up(t, gone as nat),
    ));
}

impl Save {
    /// The store that `text` stands for: its entries, and as counter the
    /// largest number among them.
    pub fn from_text(text: &str) -> (store: Save)
        ensures
            store@.list == decode(text@),
            store@.num == max_index(store@.list),
    {
        let (list, num) = read_list(text);
        Save { num, list }
    }

    /// The text that stands for the entries of this store.
    pub fn to_text(&self) -> (text: String)
        ensures
            text@ == encode(self@.list),
    {
        write_list(self.list.as_slice())
    }

    /// Where the first entry that answers to `id` stands in the list;
    /// `None` where no entry answers.
    pub fn position(&self, id: &str) -> (r: Option<usize>)
        ensures
            match r {
                Some(i) => {
                    &&& i < self.list.len()
                    &&& i == first_match(self@.list, id@)
                    &&& answers(self@.list[i as int], id@)
                    &&& forall|j: int| 0 <= j < i ==> !answers(#[trigger] self@.list[j], id@)
                },
                None => {
                    &&& first_match(self@.list, id@) == self.list.len()
                    &&& forall|j: int|
                        0 <= j < self.list.len() ==> !answers(#[trigger] self@.list[j], id@)
                },
            },
    {
        let chars = chars_of(id);
        let wanted = read_index(chars.as_slice());
        let key = id.to_owned();
        let mut i: usize = 0;
        assert(self@.list.skip(0) =~= self@.list);
        while i < self.list.len()
            invariant
                i <= self.list.len(),
                key@ == id@,
                wanted is Some <==> parse_index(id@) is Some,
                wanted matches Some(n) ==> parse_index(id@) == Some(n as nat),
                first_match(self@.list, id@) == i + first_match(self@.list.skip(i as int), id@),
            decreases self.list.len() - i,
        {
            let ghost rest = self@.list.skip(i as int);
            assert(rest.drop_first() =~= self@.list.skip(i + 1));
            assert(rest[0] == self.list@[i as int]@);
            let hit = match wanted {
                Some(n) => self.list[i].idx == n,
                None => self.list[i].content == key,
            };
            if hit {
                proof {
                    lemma_first_match(self@.list, id@);
                }
                return Some(i);
            }
            i += 1;
        }
        proof {
            lemma_first_match(self@.list, id@);
        }
        None
    }

    /// Marks as done, for each of `finishs` in turn, the first entry that
    /// answers to it; an identifier that no entry answers to changes nothing.
    /// Hands back the text to store for the list as it then is.
    pub fn finish(&mut self, finishs: &[String]) -> (image: String)
        ensures
            final(self)@.list == mark_all(old(self)@.list, texts(finishs@)),
            final(self)@.num == old(self)@.num,
            image@ == encode(final(self)@.list),
            final(self)@.list.len() == old(self)@.list.len(),
            contiguous(old(self)@.list) ==> contiguous(final(self)@.list),
    {
        proof {
            lemma_mark_keeps_entries(self@.list, texts(finishs@));
        }
        let mut k: usize = 0;
        assert(texts(finishs@).skip(0) =~= texts(finishs@));
        while k < finishs.len()
            invariant
                k <= finishs.len(),
                self.num == old(self).num,
                mark_all(self@.list, texts(finishs@).skip(k as int)) == mark_all(
                    old(self)@.list,
                    texts(finishs@),
                ),
                mark_all(old(self)@.list, texts(finishs@)).len() == old(self)@.list.len(),
                contiguous(old(self)@.list) ==> contiguous(
                    mark_all(old(self)@.list, texts(finishs@)),
                ),
            decreases finishs.len() - k,
        {
            let ghost rest = texts(finishs@).skip(k as int);
            assert(rest.drop_first() =~= texts(finishs@).skip(k + 1));
            assert(rest[0] == finishs@[k as int]@);
            let ghost before = self@.list;
            match self.position(finishs[k].as_str()) {
                Some(i) => {
                    self.list[i].finished = true;
                    assert(self@.list =~= before.update(i as int, done(before[i as int])));
                },
                None => {},
            }
            k += 1;
        }
        self.to_text()
    }

    /// Takes the entry at index `i` out of the list.
    fn remove_at(&mut self, i: usize)
        requires
            i < old(self).list.len(),
        ensures
            final(self)@ == without(old(self)@, i as int),
    {
        let gone = self.list[i].idx;
        let ghost before = self@.list;
        self.list.remove(i);
        assert(views(self.list@) =~= before.remove(i as int));
        if self.num > 0 {
            self.num -= 1;
        }
        close_gap(&mut self.list, gone);
    }

    /// Deletes, for each of `delete_contents` in turn, the first entry that
    /// answers to it, and closes the gap in the numbers. Stops with
    /// `NotFound` at the first identifier that no entry answers to; the
    /// deletions made before it stay. On success hands back the text to
    /// store for the list as it then is.
    pub fn delete(&mut self, delete_contents: &[String]) -> (r: Result<String, StoreError>)
        ensures
            final(self)@ == removed(old(self)@, texts(delete_contents@)).0,
            r is Ok <==> removed(old(self)@, texts(delete_contents@)).1,
            r matches Ok(image) ==> image@ == encode(final(self)@.list),
            r matches Err(e) ==> e == StoreError::NotFound,
            contiguous(old(self)@.list) ==> contiguous(final(self)@.list),
    {
        proof {
            if contiguous(self@.list) {
                lemma_delete_keeps_order(self@, texts(delete_contents@));
            }
        }
        let mut k: usize = 0;
        assert(texts(delete_contents@).skip(0) =~= texts(delete_contents@));
        while k < delete_contents.len()
            invariant
                k <= delete_contents.len(),
                removed(self@, texts(delete_contents@).skip(k as int)) == removed(
                    old(self)@,
                    texts(delete_contents@),
                ),
                contiguous(old(self)@.list) ==> contiguous(
                    removed(old(self)@, texts(delete_contents@)).0.list,
                ),
            decreases delete_contents.len() - k,
        {
            let ghost rest = texts(delete_contents@).skip(k as int);
            assert(rest.drop_first() =~= texts(delete_contents@).skip(k + 1));
            assert(rest[0] == delete_contents@[k as int]@);
            match self.position(delete_contents[k].as_str()) {
                Some(i) => {
                    self.remove_at(i);
                },
                None => {
                    return Err(StoreError::NotFound);
                },
            }
            k += 1;
        }
        Ok(self.to_text())
    }

    /// Gives the first entry that answers to `rename_content` the text
    /// `adjust_content`; its number and its done flag stay. Fails with
    /// `NotFound`, changing nothing, where no entry answers. On success
    /// hands back the text to store for the list as it then is.
    pub fn rename(&mut self, rename_content: &str, adjust_content: &str) -> (r: Result<
        String,
        StoreError,
    >)
        ensures
            match r {
                Ok(image) => {
                    let i = first_match(old(self)@.list, rename_content@);
                    &&& 0 <= i < old(self)@.list.len()
                    &&& final(self)@.list == old(self)@.list.update(
                        i,
                        ToDoView { content: adjust_content@, ..old(self)@.list[i] },
                    )
                    &&& final(self)@.num == old(self)@.num
                    &&& image@ == encode(final(self)@.list)
                    &&& contiguous(old(self)@.list) ==> contiguous(final(self)@.list)
                },
                Err(e) => {
                    &&& e == StoreError::NotFound
                    &&& first_match(old(self)@.list, rename_content@) == old(self)@.list.len()
                    &&& final(self)@ == old(self)@
                },
            },
    {
        let ghost before = self@.list;
        match self.position(rename_content) {
            Some(i) => {
                self.list[i].content = adjust_content.to_owned();
                assert(self@.list =~= before.update(
                    i as int,
                    ToDoView { content: adjust_content@, ..before[i as int] },
                ));
                Ok(self.to_text())
            },
            None => {
                assert(self@.list =~= before);
                Err(StoreError::NotFound)
            },
        }
    }

    /// Whether some entry has exactly the text `content`.
    pub fn contains(&self, content: &String) -> (yes: bool)
        ensures
            yes == has_content(self@.list, content@),
    {
        let mut i: usize = 0;
        while i < self.list.len()
            invariant
                i <= self.list.len(),
                forall|j: int| 0 <= j < i ==> (#[trigger] self@.list[j]).content != content@,
            decreases self.list.len() - i,
        {
            assert(self@.list[i as int] == self.list@[i as int]@);
            if self.list[i].content == *content {
                return true;
            }
            i += 1;
        }
        false
    }

    /// Takes in each of `add_list` in turn as a new entry at the end of the
    /// list, not done, numbered one above the counter. Stops with
    /// `DuplicateContent` at the first text that an entry then in the list
    /// already has; the entries taken in before it stay. Hands back the lines
    /// of the entries taken in, to be appended to the stored text.
    pub fn add(&mut self, add_list: &[String]) -> (r: Added)
        requires
            old(self).num + add_list.len() <= usize::MAX,
        ensures
            final(self)@ == added(old(self)@, texts(add_list@)).0,
            r.outcome is Ok <==> added(old(self)@, texts(add_list@)).1,
            r.outcome matches Err(e) ==> e == StoreError::DuplicateContent,
            old(self)@.list.len() <= final(self)@.list.len(),
            final(self)@.list.take(old(self)@.list.len() as int) == old(self)@.list,
            r.appended@ == encode(final(self)@.list.skip(old(self)@.list.len() as int)),
            forall|k: int|
                0 <= k < add_list.len() && has_content(old(self)@.list, (#[trigger] add_list@[k])@)
                    ==> r.outcome is Err,
            add_list.len() > 0 && has_content(old(self)@.list, add_list@[0]@) ==> final(self)@
                == old(self)@,
            tidy(old(self)@) ==> tidy(final(self)@),
    {
        proof {
            if tidy(self@) {
                lemma_add_keeps_order(self@, texts(add_list@));
            }
            assert forall|k: int|
                0 <= k < add_list.len() && has_content(
                    self@.list,
                    (#[trigger] add_list@[k])@,
                ) implies !added(self@, texts(add_list@)).1 by {
                assert(texts(add_list@)[k] == add_list@[k]@);
                lemma_add_rejects_known(self@, texts(add_list@), k);
            }
            if add_list.len() > 0 && has_content(self@.list, add_list@[0]@) {
                assert(texts(add_list@)[0] == add_list@[0]@);
            }
        }
        let first_new = self.list.len();
        let mut stopped = false;
        let mut k: usize = 0;
        assert(texts(add_list@).skip(0) =~= texts(add_list@));
        assert(self@.list.take(first_new as int) =~= self@.list);
        while k < add_list.len() && !stopped
            invariant
                k <= add_list.len(),
                self.num == old(self).num + k,
                old(self).num + add_list.len() <= usize::MAX,
                first_new == old(self).list.len(),
                first_new <= self.list.len(),
                self@.list.take(first_new as int) == old(self)@.list,
                !stopped ==> added(self@, texts(add_list@).skip(k as int)) == added(
                    old(self)@,
                    texts(add_list@),
                ),
                stopped ==> added(old(self)@, texts(add_list@)) == (self@, false),
                tidy(old(self)@) ==> tidy(added(old(self)@, texts(add_list@)).0),
            decreases
                add_list.len() - k + (if stopped {
                    0int
                } else {
                    1int
                }),
        {
            let ghost rest = texts(add_list@).skip(k as int);
            assert(rest.drop_first() =~= texts(add_list@).skip(k + 1));
            assert(rest[0] == add_list@[k as int]@);
            if self.contains(&add_list[k]) {
                stopped = true;
            } else {
                let ghost before = self@;
                self.num += 1;
                let item = ToDo { finished: false, content: add_list[k].clone(), idx: self.num };
                self.list.push(item);
                assert(self@.list =~= with_new(before, rest[0]).list);
                assert(self@.list.take(first_new as int) =~= before.list.take(first_new as int));
                k += 1;
            }
        }
        let outcome: Result<(), StoreError> = if stopped {
            Err(StoreError::DuplicateContent)
        } else {
            Ok(())
        };
        let mut out: Vec<char> = Vec::new();
        push_items(&mut out, self.list.as_slice(), first_new);
        assert(Seq::<char>::empty() + encode(self@.list.skip(first_new as int)) =~= encode(
            self@.list.skip(first_new as int),
        ));
        Added { appended: string_of(out.as_slice()), outcome }
    }

    /// Empties the list and sets the counter back to one.
    pub fn empty(&mut self)
        ensures
            final(self)@.list == Seq::<ToDoView>::empty(),
            final(self)@.num == 1,
    {
        self.list.clear();
        self.num = 1;
        assert(self@.list =~= Seq::<ToDoView>::empty());
    }
}

} // verus!