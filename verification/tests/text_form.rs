use todo_store::codec::{find_from, is_true_word, read_line, split_fields, unescaped, write_list};
use todo_store::item::ToDo;
use todo_store::number::{char_of_digit, digit_of, read_index, write_index};
use todo_store::store::Save;
use todo_store::text::{chars_of, string_of};

fn entry(idx: usize, finished: bool, content: &str) -> ToDo {
    ToDo { finished, content: content.to_string(), idx }
}

fn chars(s: &str) -> Vec<char> {
    s.chars().collect()
}

#[test]
fn what_is_written_reads_back() {
    let s = Save {
        num: 3,
        list: vec![
            entry(1, false, "buy milk"),
            entry(2, true, "two\nlines\n"),
            entry(3, false, ""),
        ],
    };
    let text = s.to_text();
    assert_eq!(text, "1,false,buy milk\n2,true,two\\nlines\\n\n3,false,\n");
    assert_eq!(Save::from_text(&text), s);
}

#[test]
fn a_backslash_before_a_line_feed_reads_back() {
    let s = Save { num: 1, list: vec![entry(1, false, "a\\\nb")] };
    assert_eq!(s.to_text(), "1,false,a\\\\nb\n");
    assert_eq!(Save::from_text(&s.to_text()), s);
}

#[test]
fn large_numbers_read_back() {
    let s = Save { num: usize::MAX, list: vec![entry(usize::MAX, true, "last")] };
    assert_eq!(Save::from_text(&s.to_text()), s);
}

#[test]
fn a_comma_in_a_text_loses_the_entry() {
    let s = Save { num: 2, list: vec![entry(1, false, "a,b"), entry(2, false, "c")] };
    let back = Save::from_text(&s.to_text());
    assert_eq!(back.list, vec![entry(2, false, "c")]);
    assert_eq!(back.num, 2);
}

#[test]
fn a_written_backslash_n_reads_as_a_line_feed() {
    let s = Save { num: 1, list: vec![entry(1, false, "a\\nb")] };
    let back = Save::from_text(&s.to_text());
    assert_eq!(back.list, vec![entry(1, false, "a\nb")]);
}

#[test]
fn the_empty_text_is_the_empty_store() {
    let s = Save::from_text("");
    assert!(s.list.is_empty());
    assert_eq!(s.num, 0);
    assert_eq!(s.to_text(), "");
}

#[test]
fn lines_with_other_than_three_fields_are_skipped() {
    let s = Save::from_text("1,false,a\nnonsense\n2,true\n\n3,true,c,d\n4,true,e\n");
    assert_eq!(s.list, vec![entry(1, false, "a"), entry(4, true, "e")]);
    assert_eq!(s.num, 4);
}

#[test]
fn the_counter_is_the_largest_number_read() {
    let s = Save::from_text("5,false,a\n9,false,b\n2,true,c\n");
    assert_eq!(s.num, 9);
    assert_eq!(
        s.list,
        vec![entry(5, false, "a"), entry(9, false, "b"), entry(2, true, "c")]
    );
}

#[test]
fn a_first_field_that_is_no_number_reads_as_zero() {
    let s = Save::from_text("x,true,a\n-3,false,b\n 4,false,c\n,false,d\n");
    assert_eq!(
        s.list,
        vec![
            entry(0, true, "a"),
            entry(0, false, "b"),
            entry(0, false, "c"),
            entry(0, false, "d")
        ]
    );
    assert_eq!(s.num, 0);
}

#[test]
fn only_the_word_true_reads_as_done() {
    let s = Save::from_text("1,TRUE,a\n2,yes,b\n3, true,c\n4,true,d\n5,,e\n");
    let flags: Vec<bool> = s.list.iter().map(|t| t.finished).collect();
    assert_eq!(flags, vec![false, false, false, true, false]);
}

#[test]
fn a_last_line_without_line_feed_counts() {
    let s = Save::from_text("1,false,a\n2,true,b");
    assert_eq!(s.list, vec![entry(1, false, "a"), entry(2, true, "b")]);
}

#[test]
fn a_carriage_return_before_the_line_feed_is_dropped() {
    let s = Save::from_text("1,false,a\r\n2,true,b\r\n");
    assert_eq!(s.list, vec![entry(1, false, "a"), entry(2, true, "b")]);
}

#[test]
fn a_carriage_return_elsewhere_stays() {
    let s = Save::from_text("1,false,a\rb\n2,true,c\r");
    assert_eq!(s.list, vec![entry(1, false, "a\rb"), entry(2, true, "c\r")]);
}

#[test]
fn only_one_carriage_return_is_dropped() {
    let s = Save::from_text("1,false,a\r\r\n");
    assert_eq!(s.list, vec![entry(1, false, "a\r")]);
}

#[test]
fn a_text_that_ends_in_a_carriage_return_loses_it() {
    let s = Save { num: 1, list: vec![entry(1, false, "a\r")] };
    let back = Save::from_text(&s.to_text());
    assert_eq!(back.list, vec![entry(1, false, "a")]);
}

#[test]
fn unescaping_takes_pairs_from_the_left() {
    assert_eq!(string_of(&unescaped(&chars("\\\\n"))), "\\\n");
    assert_eq!(string_of(&unescaped(&chars("\\n\\n"))), "\n\n");
    assert_eq!(string_of(&unescaped(&chars("a\\"))), "a\\");
    assert_eq!(string_of(&unescaped(&chars("\\t"))), "\\t");
    assert_eq!(string_of(&unescaped(&chars(""))), "");
}

#[test]
fn text_beyond_ascii_is_kept() {
    let s = Save { num: 1, list: vec![entry(1, false, "caf\u{e9} \u{1f600}")] };
    assert_eq!(s.to_text(), "1,false,caf\u{e9} \u{1f600}\n");
    assert_eq!(Save::from_text(&s.to_text()), s);
}

#[test]
fn write_list_writes_one_line_for_each_entry() {
    let list = vec![entry(10, true, "x"), entry(0, false, "y")];
    assert_eq!(write_list(&list), "10,true,x\n0,false,y\n");
    assert_eq!(write_list(&[]), "");
}

#[test]
fn read_line_reads_one_entry() {
    assert_eq!(read_line(&chars("12,true,a\\nb")), Some(entry(12, true, "a\nb")));
    assert_eq!(read_line(&chars("12,true")), None);
    assert_eq!(read_line(&chars("")), None);
    assert_eq!(read_line(&chars(",,")), Some(entry(0, false, "")));
}

#[test]
fn split_fields_keeps_empty_pieces() {
    let parts: Vec<String> = split_fields(&chars(",a,,b,"), ',')
        .iter()
        .map(|p| p.iter().collect())
        .collect();
    assert_eq!(parts, vec!["", "a", "", "b", ""]);
    assert_eq!(split_fields(&chars(""), ','), vec![Vec::<char>::new()]);
    assert_eq!(split_fields(&chars("abc"), ','), vec![chars("abc")]);
}

#[test]
fn find_from_gives_the_first_at_or_after() {
    let s = chars("a,b,c");
    assert_eq!(find_from(&s, 0, ','), 1);
    assert_eq!(find_from(&s, 1, ','), 1);
    assert_eq!(find_from(&s, 2, ','), 3);
    assert_eq!(find_from(&s, 4, ','), 5);
    assert_eq!(find_from(&s, 5, ','), 5);
}

#[test]
fn is_true_word_takes_the_exact_word() {
    assert!(is_true_word(&chars("true")));
    assert!(!is_true_word(&chars("false")));
    assert!(!is_true_word(&chars("True")));
    assert!(!is_true_word(&chars("true ")));
    assert!(!is_true_word(&chars("")));
}

#[test]
fn write_index_gives_the_decimal_numeral() {
    assert_eq!(string_of(&write_index(0)), "0");
    assert_eq!(string_of(&write_index(7)), "7");
    assert_eq!(string_of(&write_index(10)), "10");
    assert_eq!(string_of(&write_index(120_034)), "120034");
    assert_eq!(string_of(&write_index(usize::MAX)), usize::MAX.to_string());
}

#[test]
fn read_index_reads_what_the_machine_reads() {
    let cases = [
        "0", "7", "007", "+7", "+", "", "-7", "++7", "7+", " 7", "7 ", "1_000", "12a", "٣",
        "18446744073709551615", "18446744073709551616", "99999999999999999999999",
        "000000000000000000000000000000012", "+0",
    ];
    for case in cases {
        assert_eq!(read_index(&chars(case)), case.parse::<usize>().ok(), "{:?}", case);
    }
    assert_eq!(read_index(&chars("+42")), Some(42));
    assert_eq!(read_index(&chars("x")), None);
}

#[test]
fn digits_go_both_ways() {
    for d in 0u8..10 {
        assert_eq!(digit_of(char_of_digit(d)), Some(d));
    }
    assert_eq!(char_of_digit(0), '0');
    assert_eq!(char_of_digit(9), '9');
    assert_eq!(digit_of('/'), None);
    assert_eq!(digit_of(':'), None);
    assert_eq!(digit_of('a'), None);
}

#[test]
fn chars_and_strings_go_both_ways() {
    assert_eq!(chars_of("a\u{e9}\n"), vec!['a', '\u{e9}', '\n']);
    assert_eq!(string_of(&['a', '\u{e9}', '\n']), "a\u{e9}\n");
    assert_eq!(chars_of(""), Vec::<char>::new());
}
