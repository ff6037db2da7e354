use va_sim::text::{
    chars_of, decimal_text, eq_ignoring_case, has_char, has_text, join_texts, lines_of, replaced,
    same_text, sorted_texts, split_at_char, starts_with, text_at_most, text_order, trimmed,
};

fn words(w: &[&str]) -> Vec<String> {
    w.iter().map(|s| s.to_string()).collect()
}

const SAMPLES: [&str; 14] = [
    "",
    " ",
    "a",
    "A",
    "ab",
    " a b ",
    "\u{a0}x\u{3000}",
    "Ω",
    "ω",
    "a=b = c",
    "line\r\nnext\n\nlast",
    "x\n",
    "\r",
    "zz",
];

#[test]
fn texts_compare_as_strings_do() {
    for a in SAMPLES {
        assert_eq!(chars_of(a), a.chars().collect::<Vec<char>>());
        assert_eq!(trimmed(a), a.trim());
        assert_eq!(lines_of(a), a.lines().map(|l| l.to_string()).collect::<Vec<_>>());
        assert_eq!(replaced(a, " = ", "="), a.replace(" = ", "="));
        assert_eq!(
            split_at_char(a, ','),
            a.split(',').map(|p| p.to_string()).collect::<Vec<_>>()
        );
        for b in SAMPLES {
            assert_eq!(same_text(a, b), a == b);
            assert_eq!(eq_ignoring_case(a, b), a.eq_ignore_ascii_case(b));
            assert_eq!(text_at_most(a, b), a <= b);
            assert_eq!(has_text(a, b), a.contains(b));
            assert_eq!(starts_with(a, b), a.starts_with(b));
        }
        assert_eq!(has_char(a, ' '), a.contains(' '));
    }
    assert_eq!(split_at_char("a,,b,", ','), words(&["a", "", "b", ""]));
    assert_eq!(replaced("aaa", "aa", "b"), "ba");
}

#[test]
fn numbers_are_spelled_in_decimal() {
    for n in [0, 1, 9, 10, 99, 100, 1234567890, u64::MAX] {
        assert_eq!(decimal_text(n), format!("{n}"));
    }
}

#[test]
fn texts_are_sorted() {
    let items = words(&["b", "a", "", "B", "ab", "a", "é", "z"]);
    let mut want = items.clone();
    want.sort();
    assert_eq!(sorted_texts(&items), want);
    assert_eq!(text_order(&items), vec![2, 3, 1, 5, 4, 0, 7, 6]);
    assert_eq!(join_texts(&words(&["a", "b", "c"]), ", "), "a, b, c");
    assert_eq!(join_texts(&vec![], ", "), "");
}
