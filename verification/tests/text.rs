use morbitgen::text::{
    append_chars, append_str, chars_of, decimal_of, holds_char, less, periods_fixed, slice_of,
    split_chars, squeezed, string_from, string_of, trimmed,
};

fn chars(s: &str) -> Vec<char> {
    s.chars().collect()
}

fn text(v: &[char]) -> String {
    v.iter().collect()
}

#[test]
fn characters_and_strings_convert_both_ways() {
    assert_eq!(chars_of("h\u{e9}llo"), vec!['h', '\u{e9}', 'l', 'l', 'o']);
    assert_eq!(chars_of(""), Vec::<char>::new());
    assert_eq!(string_from(&chars("h\u{e9}llo")), "h\u{e9}llo");
    assert_eq!(string_of(&chars("abcdef"), 2, 4), "cd");
    assert_eq!(string_of(&chars("abcdef"), 3, 3), "");
    assert_eq!(slice_of(&chars("abcdef"), 1, 5), chars("bcde"));
}

#[test]
fn appending_adds_at_the_end() {
    let mut out = chars("ab");
    append_str(&mut out, "cd");
    append_chars(&mut out, &chars("ef"));
    append_str(&mut out, "");
    assert_eq!(text(&out), "abcdef");
}

#[test]
fn less_is_the_order_of_strings() {
    let words = ["", "a", "A", "ab", "abc", "b", "Zebra", "zebra", "gen10", "gen2", "\u{e9}", "z"];
    for a in words {
        for b in words {
            assert_eq!(less(a, b), a < b);
        }
    }
}

#[test]
fn splitting_keeps_empty_pieces() {
    let pieces: Vec<String> = split_chars(&chars("a||b|"), '|').iter().map(|p| text(p)).collect();
    assert_eq!(pieces, vec!["a", "", "b", ""]);
    let whole: Vec<String> = split_chars(&chars("abc"), '|').iter().map(|p| text(p)).collect();
    assert_eq!(whole, vec!["abc"]);
    let none: Vec<String> = split_chars(&chars(""), '|').iter().map(|p| text(p)).collect();
    assert_eq!(none, vec![""]);
}

#[test]
fn trimming_removes_whitespace_at_both_ends() {
    assert_eq!(text(&trimmed(&chars("  a b\t\n"))), "a b");
    assert_eq!(text(&trimmed(&chars("\u{a0}x\u{3000}"))), "x");
    assert_eq!(text(&trimmed(&chars(" \t "))), "");
    assert_eq!(text(&trimmed(&chars(""))), "");
    assert_eq!(text(&trimmed(&chars("a"))), "a");
}

#[test]
fn decimal_numerals() {
    assert_eq!(text(&decimal_of(0)), "0");
    assert_eq!(text(&decimal_of(7)), "7");
    assert_eq!(text(&decimal_of(10)), "10");
    assert_eq!(text(&decimal_of(909)), "909");
    assert_eq!(text(&decimal_of(1234567890)), "1234567890");
}

#[test]
fn holds_char_finds_a_character() {
    assert!(holds_char(&chars("a?b"), '?'));
    assert!(!holds_char(&chars("ab"), '?'));
    assert!(!holds_char(&chars(""), '?'));
}

#[test]
fn squeezing_drops_empty_pieces_and_trims_the_others() {
    assert_eq!(text(&squeezed(&chars("a    b"), ' ')), "a b");
    assert_eq!(text(&squeezed(&chars("  a  "), ' ')), "a");
    assert_eq!(text(&squeezed(&chars(""), ' ')), "");
    assert_eq!(text(&squeezed(&chars("a \t b"), ' ')), "a  b");
    assert_eq!(text(&squeezed(&chars(" x \n\n y "), '\n')), "x\ny");
}

#[test]
fn periods_lose_the_space_before_them() {
    assert_eq!(text(&periods_fixed(&chars("a . b ."))), "a. b.");
    assert_eq!(text(&periods_fixed(&chars("  ."))), " .");
    assert_eq!(text(&periods_fixed(&chars(" . ."))), "..");
    assert_eq!(text(&periods_fixed(&chars("a."))), "a.");
    assert_eq!(text(&periods_fixed(&chars(" "))), " ");
    assert_eq!(text(&periods_fixed(&chars(""))), "");
    assert_eq!("  . . a .".replace(" .", "."), text(&periods_fixed(&chars("  . . a ."))));
}
