use vocabulary::vocab::{Vocab, VocabError};

fn failure(r: Result<Vocab, VocabError>) -> VocabError {
    match r {
        Ok(_) => panic!("a vocabulary was made"),
        Err(e) => e,
    }
}

#[test]
fn identifiers_follow_first_occurrence() {
    let v = Vocab::new("a b a c b").unwrap();
    assert_eq!(v.size(), 3);
    assert_eq!(v.write(), "a\t0\nb\t1\nc\t2\n");
}

#[test]
fn size_counts_distinct_tokens() {
    let v = Vocab::new("To be, or not to be: that is the question.").unwrap();
    assert_eq!(v.size(), 8);
    assert_eq!(v.write(), "to\t0\nbe\t1\nor\t2\nnot\t3\nthat\t4\nis\t5\nthe\t6\nquestion\t7\n");
}

#[test]
fn tokens_that_differ_in_case_share_an_identifier() {
    let v = Vocab::new("Wall wall WALL").unwrap();
    assert_eq!(v.size(), 1);
    assert_eq!(v.write(), "wall\t0\n");
}

#[test]
fn empty_text_gives_an_empty_vocabulary() {
    let v = Vocab::new("").unwrap();
    assert_eq!(v.size(), 0);
    assert_eq!(v.write(), "");
    assert_eq!(v.show(), "");
}

#[test]
fn building_twice_gives_the_same() {
    let text = "it was the best of times, it was the worst of times";
    assert_eq!(Vocab::new(text).unwrap().write(), Vocab::new(text).unwrap().write());
}

#[test]
fn load_reads_each_line() {
    let v = Vocab::load("cat\t3\ndog\t-1\nbird\t+12\n").unwrap();
    assert_eq!(v.size(), 3);
    assert_eq!(v.write(), "cat\t3\ndog\t-1\nbird\t12\n");
}

#[test]
fn load_lets_the_last_line_for_a_token_win() {
    let v = Vocab::load("x\t0\nx\t5").unwrap();
    assert_eq!(v.size(), 1);
    assert_eq!(v.write(), "x\t5\n");
}

#[test]
fn load_keeps_the_place_of_an_overwritten_token() {
    let v = Vocab::load("x\t0\ny\t1\nx\t5\n").unwrap();
    assert_eq!(v.size(), 2);
    assert_eq!(v.write(), "x\t5\ny\t1\n");
}

#[test]
fn load_rejects_a_line_without_a_tab() {
    assert_eq!(failure(Vocab::load("a\t1\nno tab here\nb\t2\n")), VocabError::MissingId { line: 1 });
    assert_eq!(failure(Vocab::load("word")), VocabError::MissingId { line: 0 });
}

#[test]
fn load_rejects_an_empty_line() {
    assert_eq!(failure(Vocab::load("a\t1\n\nb\t2\n")), VocabError::MissingId { line: 1 });
    assert_eq!(failure(Vocab::load("\n")), VocabError::MissingId { line: 0 });
}

#[test]
fn load_rejects_an_identifier_that_is_no_integer() {
    assert_eq!(failure(Vocab::load("a\tone\n")), VocabError::InvalidId { line: 0 });
    assert_eq!(failure(Vocab::load("a\t1\nb\t\n")), VocabError::InvalidId { line: 1 });
    assert_eq!(failure(Vocab::load("a\t1\nb\t2\nc\t2147483648\n")), VocabError::InvalidId { line: 2 });
    assert_eq!(failure(Vocab::load("a\t1\t2\n")), VocabError::InvalidId { line: 0 });
    assert_eq!(failure(Vocab::load("a\t 1\n")), VocabError::InvalidId { line: 0 });
}

#[test]
fn load_reports_the_first_faulty_line() {
    assert_eq!(failure(Vocab::load("a\tx\nb\n")), VocabError::InvalidId { line: 0 });
    assert_eq!(failure(Vocab::load("a\nb\tx\n")), VocabError::MissingId { line: 0 });
}

#[test]
fn load_of_nothing_is_empty() {
    let v = Vocab::load("").unwrap();
    assert_eq!(v.size(), 0);
}

#[test]
fn load_splits_at_the_first_tab_only() {
    let v = Vocab::load("\t4\n").unwrap();
    assert_eq!(v.size(), 1);
    assert_eq!(v.write(), "\t4\n");
}

#[test]
fn load_takes_carriage_return_line_ends() {
    let v = Vocab::load("a\t1\r\nb\t2\r\n").unwrap();
    assert_eq!(v.write(), "a\t1\nb\t2\n");
    assert_eq!(failure(Vocab::load("a\t1\r")), VocabError::InvalidId { line: 0 });
}

#[test]
fn load_needs_no_final_line_feed() {
    let v = Vocab::load("a\t1\nb\t2").unwrap();
    assert_eq!(v.write(), "a\t1\nb\t2\n");
}

#[test]
fn load_agrees_with_the_standard_line_splitter() {
    for text in ["a\t1\nb\t2", "a\t1\r\n\r\nb\t2", "\r\n", "a\t1\n\n", "a\r\tb\n", "a\t1\r"] {
        let expected = text.lines().position(|l| match l.split_once('\t') {
            Some((_, id)) => id.parse::<i32>().is_err(),
            None => true,
        });
        let found = match Vocab::load(text) {
            Ok(_) => None,
            Err(VocabError::MissingId { line }) => Some(line),
            Err(VocabError::InvalidId { line }) => Some(line),
            Err(VocabError::TooManyTokens) => panic!("no such failure here"),
        };
        assert_eq!(found, expected, "{:?}", text);
    }
}

#[test]
fn write_then_load_restores_the_vocabulary() {
    let v = Vocab::new("The cat sat on the mat; the CAT's hat sat, too.").unwrap();
    let stored = v.write();
    let w = Vocab::load(&stored).unwrap();
    assert_eq!(w.size(), v.size());
    assert_eq!(w.write(), stored);
    let mut pairs_v: Vec<String> = stored.lines().map(|l| l.to_string()).collect();
    let mut pairs_w: Vec<String> = w.write().lines().map(|l| l.to_string()).collect();
    pairs_v.sort();
    pairs_w.sort();
    assert_eq!(pairs_v, pairs_w);
}

#[test]
fn write_then_load_keeps_negative_identifiers() {
    let v = Vocab::load("low\t-2147483648\nhigh\t2147483647\n").unwrap();
    let w = Vocab::load(&v.write()).unwrap();
    assert_eq!(w.write(), "low\t-2147483648\nhigh\t2147483647\n");
}

#[test]
fn show_lists_keys_and_values() {
    let v = Vocab::new("b a b").unwrap();
    assert_eq!(v.show(), "  KEY: b, VALUE: 0\n  KEY: a, VALUE: 1\n");
}

#[test]
fn show_of_a_loaded_vocabulary() {
    let v = Vocab::load("it's\t-7\n").unwrap();
    assert_eq!(v.show(), "  KEY: it's, VALUE: -7\n");
}

#[test]
fn errors_compare_by_kind_and_line() {
    assert_ne!(VocabError::MissingId { line: 1 }, VocabError::InvalidId { line: 1 });
    assert_ne!(VocabError::MissingId { line: 1 }, VocabError::MissingId { line: 2 });
    assert_ne!(VocabError::TooManyTokens, VocabError::MissingId { line: 0 });
}

#[test]
fn write_then_load_restores_tokens_beyond_ascii() {
    let v = Vocab::new("\u{39f}\u{394}\u{39f}\u{3a3} \u{130}stanbul l'\u{c9}t\u{e9} \u{39f}\u{394}\u{39f}\u{3a3}").unwrap();
    assert_eq!(v.size(), 3);
    let stored = v.write();
    assert_eq!(stored, "\u{3bf}\u{3b4}\u{3bf}\u{3c3}\t0\ni\u{307}stanbul\t1\nl'\u{e9}t\u{e9}\t2\n");
    let w = Vocab::load(&stored).unwrap();
    assert_eq!(w.size(), 3);
    assert_eq!(w.write(), stored);
}
