use todo_store::item::ToDo;
use todo_store::store::{Save, StoreError};

fn entry(idx: usize, finished: bool, content: &str) -> ToDo {
    ToDo { finished, content: content.to_string(), idx }
}

fn store_of(entries: &[(usize, bool, &str)]) -> Save {
    Save {
        num: entries.len(),
        list: entries.iter().map(|e| entry(e.0, e.1, e.2)).collect(),
    }
}

fn ids(words: &[&str]) -> Vec<String> {
    words.iter().map(|w| w.to_string()).collect()
}

#[test]
fn finish_by_position_marks_that_entry() {
    let mut s = store_of(&[(1, false, "a"), (2, false, "b")]);
    let image = s.finish(&ids(&["2"]));
    assert_eq!(s.list, vec![entry(1, false, "a"), entry(2, true, "b")]);
    assert_eq!(s.num, 2);
    assert_eq!(image, "1,false,a\n2,true,b\n");
}

#[test]
fn finish_by_text_marks_that_entry() {
    let mut s = store_of(&[(1, false, "a"), (2, false, "b")]);
    let image = s.finish(&ids(&["b"]));
    assert_eq!(s.list, vec![entry(1, false, "a"), entry(2, true, "b")]);
    assert_eq!(image, "1,false,a\n2,true,b\n");
}

#[test]
fn finish_ignores_what_nothing_answers_to() {
    let mut s = store_of(&[(1, false, "a"), (2, false, "b")]);
    let image = s.finish(&ids(&["7", "zzz", "1"]));
    assert_eq!(s.list, vec![entry(1, true, "a"), entry(2, false, "b")]);
    assert_eq!(image, "1,true,a\n2,false,b\n");
}

#[test]
fn finish_marks_only_the_first_that_answers() {
    let mut s = Save {
        num: 2,
        list: vec![entry(1, false, "same"), entry(2, false, "same")],
    };
    s.finish(&ids(&["same"]));
    assert_eq!(s.list, vec![entry(1, true, "same"), entry(2, false, "same")]);
}

#[test]
fn finish_with_nothing_to_do_still_gives_the_text() {
    let mut s = store_of(&[(1, true, "a")]);
    let image = s.finish(&[]);
    assert_eq!(s.list, vec![entry(1, true, "a")]);
    assert_eq!(image, "1,true,a\n");
}

#[test]
fn a_number_is_never_taken_for_a_text() {
    let mut s = store_of(&[(1, false, "2"), (2, false, "b")]);
    s.finish(&ids(&["2"]));
    assert_eq!(s.list, vec![entry(1, false, "2"), entry(2, true, "b")]);
}

#[test]
fn a_signed_or_padded_number_is_a_number() {
    let mut s = store_of(&[(1, false, "a"), (2, false, "b"), (3, false, "c")]);
    s.finish(&ids(&["+2", "003"]));
    assert_eq!(
        s.list,
        vec![entry(1, false, "a"), entry(2, true, "b"), entry(3, true, "c")]
    );
}

#[test]
fn what_is_no_number_is_a_text() {
    let mut s = Save {
        num: 4,
        list: vec![
            entry(1, false, "-1"),
            entry(2, false, " 2"),
            entry(3, false, "+"),
            entry(4, false, "99999999999999999999999999"),
        ],
    };
    s.finish(&ids(&["-1", " 2", "+", "99999999999999999999999999"]));
    assert!(s.list.iter().all(|t| t.finished));
}

#[test]
fn delete_first_renumbers_the_rest() {
    let mut s = store_of(&[(1, false, "a"), (2, false, "b"), (3, false, "c")]);
    let r = s.delete(&ids(&["1"]));
    assert_eq!(r, Ok("1,false,b\n2,false,c\n".to_string()));
    assert_eq!(s.list, vec![entry(1, false, "b"), entry(2, false, "c")]);
    assert_eq!(s.num, 2);
}

#[test]
fn delete_by_text_renumbers_the_rest() {
    let mut s = store_of(&[(1, false, "a"), (2, true, "b"), (3, false, "c")]);
    let r = s.delete(&ids(&["b"]));
    assert_eq!(r, Ok("1,false,a\n2,false,c\n".to_string()));
    assert_eq!(s.list, vec![entry(1, false, "a"), entry(2, false, "c")]);
    assert_eq!(s.num, 2);
}

#[test]
fn deletes_in_a_row_see_the_new_numbers() {
    let mut s = store_of(&[(1, false, "a"), (2, false, "b"), (3, false, "c"), (4, false, "d")]);
    let r = s.delete(&ids(&["2", "2"]));
    assert!(r.is_ok());
    assert_eq!(s.list, vec![entry(1, false, "a"), entry(2, false, "d")]);
    assert_eq!(s.num, 2);
}

#[test]
fn numbers_stay_without_gaps_after_deletes() {
    let mut s = store_of(&[
        (1, false, "a"),
        (2, false, "b"),
        (3, false, "c"),
        (4, false, "d"),
        (5, false, "e"),
    ]);
    s.delete(&ids(&["d", "1", "2"])).unwrap();
    let mut numbers: Vec<usize> = s.list.iter().map(|t| t.idx).collect();
    numbers.sort();
    assert_eq!(numbers, vec![1, 2]);
    assert_eq!(s.list, vec![entry(1, false, "b"), entry(2, false, "e")]);
}

#[test]
fn numbers_out_of_list_order_stay_without_gaps() {
    let mut s = store_of(&[(3, false, "a"), (1, false, "b"), (2, false, "c")]);
    s.delete(&ids(&["1"])).unwrap();
    assert_eq!(s.list, vec![entry(2, false, "a"), entry(1, false, "c")]);
}

#[test]
fn delete_stops_at_the_first_unknown() {
    let mut s = store_of(&[(1, false, "a"), (2, false, "b"), (3, false, "c")]);
    let r = s.delete(&ids(&["1", "nothing", "1"]));
    assert_eq!(r, Err(StoreError::NotFound));
    assert_eq!(s.list, vec![entry(1, false, "b"), entry(2, false, "c")]);
    assert_eq!(s.num, 2);
}

#[test]
fn delete_of_an_unused_number_fails() {
    let mut s = store_of(&[(1, false, "9")]);
    let r = s.delete(&ids(&["9"]));
    assert_eq!(r, Err(StoreError::NotFound));
    assert_eq!(s.list, vec![entry(1, false, "9")]);
    assert_eq!(s.num, 1);
}

#[test]
fn delete_leaves_a_counter_at_zero_there() {
    let mut s = Save { num: 0, list: vec![entry(0, false, "a")] };
    let r = s.delete(&ids(&["a"]));
    assert_eq!(r, Ok(String::new()));
    assert_eq!(s.num, 0);
    assert!(s.list.is_empty());
}

#[test]
fn rename_by_position_changes_only_the_text() {
    let mut s = store_of(&[(1, false, "a"), (2, false, "b")]);
    let r = s.rename("2", "x");
    assert_eq!(r, Ok("1,false,a\n2,false,x\n".to_string()));
    assert_eq!(s.list, vec![entry(1, false, "a"), entry(2, false, "x")]);
    assert_eq!(s.num, 2);
}

#[test]
fn rename_by_text_keeps_the_done_flag() {
    let mut s = store_of(&[(1, true, "a"), (2, false, "b")]);
    let r = s.rename("a", "first");
    assert_eq!(r, Ok("1,true,first\n2,false,b\n".to_string()));
    assert_eq!(s.list, vec![entry(1, true, "first"), entry(2, false, "b")]);
}

#[test]
fn rename_of_an_unknown_fails_and_changes_nothing() {
    let mut s = store_of(&[(1, false, "a"), (2, false, "b")]);
    let r = s.rename("z", "x");
    assert_eq!(r, Err(StoreError::NotFound));
    assert_eq!(s, store_of(&[(1, false, "a"), (2, false, "b")]));
}

#[test]
fn rename_may_repeat_a_text() {
    let mut s = store_of(&[(1, false, "a"), (2, false, "b")]);
    assert!(s.rename("2", "a").is_ok());
    assert_eq!(s.list, vec![entry(1, false, "a"), entry(2, false, "a")]);
}

#[test]
fn add_numbers_from_the_counter() {
    let mut s = store_of(&[(1, true, "a")]);
    let r = s.add(&ids(&["b", "c"]));
    assert_eq!(r.outcome, Ok(()));
    assert_eq!(r.appended, "2,false,b\n3,false,c\n");
    assert_eq!(
        s.list,
        vec![entry(1, true, "a"), entry(2, false, "b"), entry(3, false, "c")]
    );
    assert_eq!(s.num, 3);
}

#[test]
fn add_rejects_a_text_that_is_there() {
    let mut s = store_of(&[(1, false, "a"), (2, true, "b")]);
    let r = s.add(&ids(&["b"]));
    assert_eq!(r.outcome, Err(StoreError::DuplicateContent));
    assert_eq!(r.appended, "");
    assert_eq!(s, store_of(&[(1, false, "a"), (2, true, "b")]));
}

#[test]
fn add_keeps_what_went_in_before_the_duplicate() {
    let mut s = store_of(&[(1, false, "a")]);
    let r = s.add(&ids(&["b", "a", "c"]));
    assert_eq!(r.outcome, Err(StoreError::DuplicateContent));
    assert_eq!(r.appended, "2,false,b\n");
    assert_eq!(s.list, vec![entry(1, false, "a"), entry(2, false, "b")]);
    assert_eq!(s.num, 2);
}

#[test]
fn add_rejects_a_text_given_twice_in_one_call() {
    let mut s = Save { num: 0, list: Vec::new() };
    let r = s.add(&ids(&["a", "a"]));
    assert_eq!(r.outcome, Err(StoreError::DuplicateContent));
    assert_eq!(r.appended, "1,false,a\n");
    assert_eq!(s.list, vec![entry(1, false, "a")]);
    assert_eq!(s.num, 1);
}

#[test]
fn add_of_nothing_changes_nothing() {
    let mut s = store_of(&[(1, false, "a")]);
    let r = s.add(&[]);
    assert_eq!(r.outcome, Ok(()));
    assert_eq!(r.appended, "");
    assert_eq!(s, store_of(&[(1, false, "a")]));
}

#[test]
fn add_writes_line_feeds_escaped() {
    let mut s = Save { num: 0, list: Vec::new() };
    let r = s.add(&ids(&["two\nlines"]));
    assert_eq!(r.appended, "1,false,two\\nlines\n");
    assert_eq!(s.list, vec![entry(1, false, "two\nlines")]);
}

#[test]
fn add_does_not_reuse_a_number_below_the_counter() {
    let mut s = Save { num: 7, list: vec![entry(1, false, "a")] };
    let r = s.add(&ids(&["b"]));
    assert_eq!(r.appended, "8,false,b\n");
    assert_eq!(s.num, 8);
    assert_eq!(s.list[1], entry(8, false, "b"));
}

#[test]
fn empty_clears_the_list_and_resets_the_counter() {
    let mut s = store_of(&[(1, false, "a"), (2, true, "b")]);
    s.empty();
    assert!(s.list.is_empty());
    assert_eq!(s.num, 1);
    assert_eq!(s.to_text(), "");
    assert!(Save::from_text(&s.to_text()).list.is_empty());
}

#[test]
fn position_finds_the_first_that_answers() {
    let s = store_of(&[(1, false, "a"), (2, false, "b"), (3, false, "b")]);
    assert_eq!(s.position("b"), Some(1));
    assert_eq!(s.position("3"), Some(2));
    assert_eq!(s.position("4"), None);
    assert_eq!(s.position(""), None);
    assert_eq!(s.position("c"), None);
}

#[test]
fn contains_tells_whether_a_text_is_there() {
    let s = store_of(&[(1, false, "a"), (2, false, "b")]);
    assert!(s.contains(&"b".to_string()));
    assert!(!s.contains(&"1".to_string()));
    assert!(!s.contains(&"B".to_string()));
}
