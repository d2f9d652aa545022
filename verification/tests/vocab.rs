use speech2text::vocab::{detokenize, load_tokens, parse_entries, place, TokensError};

#[test]
fn tokens_stand_at_their_ids() {
    let tokens = load_tokens("<unk> 0\n声 2\r\n\u{2581}the 1\n").unwrap();
    assert_eq!(tokens, vec!["<unk>", "\u{2581}the", "声"]);
}

#[test]
fn gaps_are_empty_and_the_last_entry_counts() {
    let tokens = load_tokens("a 3\n\n\r\r\nb 1\nc 3").unwrap();
    assert_eq!(tokens, vec!["", "b", "", "c"]);
}

#[test]
fn an_empty_file_has_one_empty_token() {
    assert_eq!(load_tokens("").unwrap(), vec![""]);
    assert_eq!(load_tokens("\n\r\n").unwrap(), vec![""]);
}

#[test]
fn tokens_may_hold_spaces() {
    assert_eq!(load_tokens("a b 0\n  1\n").unwrap(), vec!["a b", " "]);
    assert_eq!(load_tokens("x \t1\t").unwrap(), vec!["", "x"]);
}

#[test]
fn a_line_without_a_space_is_malformed() {
    match load_tokens("a 0\nnospace\nb x\n") {
        Err(TokensError::Malformed(line)) => assert_eq!(line, "nospace"),
        _ => panic!(),
    }
}

#[test]
fn an_id_must_be_a_number() {
    match load_tokens("a 0\nb x\nnospace\n") {
        Err(TokensError::BadId { line, id }) => {
            assert_eq!(line, "b x");
            assert_eq!(id, "x");
        }
        _ => panic!(),
    }
    assert!(matches!(load_tokens("a -1"), Err(TokensError::BadId { .. })));
    assert!(matches!(load_tokens("a "), Err(TokensError::BadId { .. })));
    assert!(matches!(load_tokens("a 99999999999999999999999"), Err(TokensError::BadId { .. })));
    assert_eq!(load_tokens("a +1").unwrap(), vec!["", "a"]);
}

#[test]
fn a_vocabulary_in_order_is_read_back() {
    let tokens = ["<unk>", "", "a b", "\r", "\u{2581}x", "9 9"];
    let mut file = String::new();
    for (i, t) in tokens.iter().enumerate() {
        file.push_str(&format!("{t} {i}\n"));
    }
    assert_eq!(load_tokens(&file).unwrap(), tokens);
}

#[test]
fn entries_are_read_in_order() {
    let entries = parse_entries("b 5\na 2\n").unwrap();
    assert_eq!(entries, vec![(5, "b".to_string()), (2, "a".to_string())]);
    assert_eq!(place(&entries), vec!["", "", "a", "", "", "b"]);
    assert_eq!(place(&vec![]), vec![""]);
}

fn table() -> Vec<String> {
    ["<|zh|>", "你", "好", "\u{2581}hello", "\u{2581}", "world", "</s>", ""]
        .iter()
        .map(|s| s.to_string())
        .collect()
}

#[test]
fn text_is_joined_from_tokens() {
    assert_eq!(detokenize(&table(), &vec![0, 1, 2, 6]), "你好");
    assert_eq!(detokenize(&table(), &vec![3, 4, 5]), "hello world");
    assert_eq!(detokenize(&table(), &vec![1, 3]), "你 hello");
    assert_eq!(detokenize(&table(), &vec![4, 4, 7]), "");
    assert_eq!(detokenize(&table(), &vec![]), "");
}

#[test]
fn special_and_unknown_tokens_are_passed_over() {
    assert_eq!(detokenize(&table(), &vec![1, 0, 99, usize::MAX, 6, 2]), detokenize(&table(), &vec![1, 2]));
}
