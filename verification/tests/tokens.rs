use vocabulary::text::{chars_of, push_str};
use vocabulary::tokens::{fold_char, lower_text, split_runs, split_tokens};
use vocabulary::vocab::Vocab;

fn strings(items: &[&str]) -> Vec<String> {
    items.iter().map(|s| s.to_string()).collect()
}

#[test]
fn it_works() {
    assert_eq!(2 + 2, 4);
}

#[test]
fn tokenize_lowercases() {
    assert_eq!(Vocab::tokenize("Hello WORLD".to_string()), strings(&["hello", "world"]));
}

#[test]
fn tokenize_strips_punctuation_and_keeps_apostrophes() {
    assert_eq!(
        Vocab::tokenize("don't stop, won't stop!".to_string()),
        strings(&["don't", "stop", "won't", "stop"])
    );
}

#[test]
fn tokenize_is_repeatable() {
    let text = "The quick brown Fox; the LAZY dog's bone.";
    let first = Vocab::tokenize(text.to_string());
    let second = Vocab::tokenize(text.to_string());
    assert_eq!(first, second);
    assert_eq!(first, strings(&["the", "quick", "brown", "fox", "the", "lazy", "dog's", "bone"]));
}

#[test]
fn tokenize_empty_text_gives_nothing() {
    assert_eq!(Vocab::tokenize(String::new()), Vec::<String>::new());
}

#[test]
fn tokenize_only_separators_gives_nothing() {
    assert_eq!(Vocab::tokenize(" \t\n .,;!?-- \r\n".to_string()), Vec::<String>::new());
}

#[test]
fn tokenize_discards_empty_segments() {
    assert_eq!(Vocab::tokenize("a,,  ,b".to_string()), strings(&["a", "b"]));
}

#[test]
fn tokenize_keeps_digits() {
    assert_eq!(Vocab::tokenize("room 101, floor 3b".to_string()), strings(&["room", "101", "floor", "3b"]));
}

#[test]
fn tokenize_handles_letters_beyond_ascii() {
    assert_eq!(
        Vocab::tokenize("\u{c9}coute l'\u{c9}T\u{c9} \u{2014} na\u{ef}ve".to_string()),
        strings(&["\u{e9}coute", "l'\u{e9}t\u{e9}", "na\u{ef}ve"])
    );
}

#[test]
fn tokenize_agrees_with_split_tokens() {
    let text = "One, two; THREE";
    assert_eq!(Vocab::tokenize(text.to_string()), split_tokens(text));
}

#[test]
fn every_separator_splits_joined_tokens() {
    let tokens = ["alpha", "beta's", "g4mma"];
    for sep in [' ', '\t', '\n', ',', '.', '-', '_', '"', '/', '\u{2014}', '\u{0}'] {
        let text = tokens.join(&sep.to_string());
        assert_eq!(Vocab::tokenize(text), strings(&tokens), "separator {:?}", sep);
    }
}

#[test]
fn joined_upper_case_tokens_come_back_lowered() {
    let text = ["Alpha", "BETA"].join("|");
    assert_eq!(Vocab::tokenize(text), strings(&["alpha", "beta"]));
}

#[test]
fn split_runs_follows_the_flags() {
    let chars: Vec<char> = "ab cd".chars().collect();
    let keep = vec![true, true, false, true, true];
    assert_eq!(split_runs(&chars, &keep), strings(&["ab", "cd"]));
    let keep = vec![false, true, true, true, false];
    assert_eq!(split_runs(&chars, &keep), strings(&["b c"]));
    let keep = vec![false; 5];
    assert_eq!(split_runs(&chars, &keep), Vec::<String>::new());
    let keep = vec![true; 5];
    assert_eq!(split_runs(&chars, &keep), strings(&["ab cd"]));
}

#[test]
fn split_runs_of_nothing_is_nothing() {
    assert_eq!(split_runs(&Vec::new(), &Vec::new()), Vec::<String>::new());
}

#[test]
fn chars_of_lists_the_characters() {
    assert_eq!(chars_of("h\u{e9}!"), vec!['h', '\u{e9}', '!']);
    assert_eq!(chars_of(""), Vec::<char>::new());
}

#[test]
fn push_str_appends() {
    let mut out = vec!['a'];
    push_str(&mut out, "bc");
    push_str(&mut out, "");
    assert_eq!(out, vec!['a', 'b', 'c']);
}

#[test]
fn tokenize_lowers_each_character_on_its_own() {
    assert_eq!(
        Vocab::tokenize("\u{39f}\u{394}\u{39f}\u{3a3}".to_string()),
        strings(&["\u{3bf}\u{3b4}\u{3bf}\u{3c3}"])
    );
    assert_eq!(
        Vocab::tokenize("\u{3a3}\u{391}\u{3a3} \u{3a3}".to_string()),
        strings(&["\u{3c3}\u{3b1}\u{3c3}", "\u{3c3}"])
    );
}

#[test]
fn tokenize_keeps_a_lower_case_form_of_several_characters() {
    assert_eq!(Vocab::tokenize("\u{130}stanbul".to_string()), strings(&["i\u{307}stanbul"]));
}

#[test]
fn tokens_are_not_empty_and_hold_no_tab_or_line_feed() {
    let text = "Tab\there, line\nfeed; 'quoted' \u{c9}t\u{e9}\t\n\r\n x";
    let tokens = Vocab::tokenize(text.to_string());
    assert_eq!(tokens, strings(&["tab", "here", "line", "feed", "'quoted'", "\u{e9}t\u{e9}", "x"]));
    for token in &tokens {
        assert!(!token.is_empty());
        assert!(!token.contains('\t') && !token.contains('\n'));
    }
}

#[test]
fn lower_text_lowers_every_character() {
    assert_eq!(lower_text("Hello WORLD, 42!"), "hello world, 42!");
    assert_eq!(lower_text(""), "");
    assert_eq!(lower_text("\u{39f}\u{3a3}"), "\u{3bf}\u{3c3}");
    assert_eq!(lower_text("\u{130}"), "i\u{307}");
}

#[test]
fn fold_char_takes_the_form_that_was_found() {
    assert_eq!(fold_char('A', vec!['a']), vec!['a']);
    assert_eq!(fold_char('\u{130}', vec!['i', '\u{307}']), vec!['i', '\u{307}']);
    assert_eq!(fold_char('7', vec!['7']), vec!['7']);
    assert_eq!(fold_char('q', Vec::new()), Vec::<char>::new());
}

#[test]
fn fold_char_keeps_the_character_where_the_form_would_break_a_line() {
    assert_eq!(fold_char('A', vec!['\t']), vec!['A']);
    assert_eq!(fold_char('B', vec!['b', '\n']), vec!['B']);
    assert_eq!(fold_char('C', vec!['\n', 'c']), vec!['C']);
}
