use cmdrepl::tokenizer::{tokenize, Token};

#[test]
fn test_simple() {
    assert_eq!(tokenize("a"), Ok([Token::plain("a", 0, 1)].into()));
    assert_eq!(tokenize("abcde"), Ok([Token::plain("abcde", 0, 5)].into()));
    assert_eq!(
        tokenize("abcde fghij"),
        Ok([Token::plain("abcde", 0, 5), Token::plain("fghij", 6, 11)].into())
    );
    assert_eq!(
        tokenize("123 abcde fghij"),
        Ok([
            Token::plain("123", 0, 3),
            Token::plain("abcde", 4, 9),
            Token::plain("fghij", 10, 15)
        ]
        .into())
    );
}

#[test]
fn test_whitespace() {
    assert_eq!(
        tokenize("    a    b    "),
        Ok([Token::plain("a", 4, 5), Token::plain("b", 9, 10)].into())
    );
    assert_eq!(tokenize("  abcde  "), Ok([Token::plain("abcde", 2, 7)].into()));
    assert_eq!(
        tokenize("abcde  fghij"),
        Ok([Token::plain("abcde", 0, 5), Token::plain("fghij", 7, 12)].into())
    );
    assert_eq!(
        tokenize(" abcde fghij "),
        Ok([Token::plain("abcde", 1, 6), Token::plain("fghij", 7, 12)].into())
    );
}

#[test]
fn test_quoting() {
    assert_eq!(
        tokenize("say \"abcde fghij\""),
        Ok([Token::plain("say", 0, 3), Token::quoted("abcde fghij", 5, 16)].into())
    );
    assert_eq!(
        tokenize("  say 'abcde  fghij'  "),
        Ok([Token::plain("say", 2, 5), Token::quoted("abcde  fghij", 7, 19)].into())
    );
    assert_eq!(
        tokenize("say 'abcde fghij ' twice"),
        Ok([
            Token::plain("say", 0, 3),
            Token::quoted("abcde fghij ", 5, 17),
            Token::plain("twice", 19, 24)
        ]
        .into())
    );
    assert_eq!(
        tokenize("say \"nothing\" twice"),
        Ok([
            Token::plain("say", 0, 3),
            Token::quoted("nothing", 5, 12),
            Token::plain("twice", 14, 19)
        ]
        .into())
    );
    assert_eq!(
        tokenize("say '' twice"),
        Ok([
            Token::plain("say", 0, 3),
            Token::quoted("", 5, 5),
            Token::plain("twice", 7, 12)
        ]
        .into())
    );
}

#[test]
fn test_invalid() {
    assert_eq!(tokenize("abcde 'fghij"), Err(()));
    assert_eq!(tokenize("abcde' fghij"), Err(()));
    assert_eq!(tokenize("abcde'fghij "), Err(()));
    assert_eq!(tokenize("abcde'fghij\""), Err(()));
}

#[test]
fn tokenize_empty_and_blank_lines() {
    assert_eq!(tokenize(""), Ok([].into()));
    assert_eq!(tokenize("     "), Ok([].into()));
}

#[test]
fn tokenize_other_quote_inside_quotes() {
    assert_eq!(
        tokenize("echo \"it's\""),
        Ok([Token::plain("echo", 0, 4), Token::quoted("it's", 6, 10)].into())
    );
}

#[test]
fn tokenize_offsets_are_bytes_inside_the_line() {
    // "é" takes two bytes: the second token starts at byte 3, and a plain
    // token that runs to the end of the line ends at the line's length in
    // characters.
    assert_eq!(
        tokenize("é ab"),
        Ok([Token::plain("é", 0, 2), Token::plain("ab", 3, 4)].into())
    );
}

#[test]
fn tokens_stand_where_they_say_on_ascii_lines() {
    let line = "set 'a b' x";
    let toks = tokenize(line).unwrap();
    for t in toks.iter() {
        assert_eq!(&line[t.begin..t.end], t.text.as_str());
        if !t.quoted {
            assert!(!t.text.is_empty());
            assert!(!t.text.contains(' ') && !t.text.contains('"') && !t.text.contains('\''));
        }
    }
}

#[test]
fn padding_a_line_moves_every_position() {
    for line in ["say 'a b' x", "a", "  b  c", "x \"y", "q'"] {
        let padded = format!("{}{} ", "   ", line);
        match (tokenize(line), tokenize(&padded)) {
            (Ok(a), Ok(b)) => {
                assert_eq!(a.len(), b.len());
                for (x, y) in a.iter().zip(b.iter()) {
                    assert_eq!(x.text, y.text);
                    assert_eq!(x.quoted, y.quoted);
                    assert_eq!(x.begin + 3, y.begin);
                    assert_eq!(x.end + 3, y.end);
                }
            }
            (Err(()), Err(())) => {}
            _ => panic!("padding changed validity of {line:?}"),
        }
    }
}

#[test]
fn joined_words_come_back() {
    let words = ["set", "x", "42", "é"];
    let toks = tokenize(&words.join(" ")).unwrap();
    assert_eq!(toks.len(), words.len());
    for (t, w) in toks.iter().zip(words.iter()) {
        assert!(!t.quoted);
        assert_eq!(t.text, *w);
    }
}

#[test]
fn tokens_come_in_order() {
    let toks = tokenize("a 'b c' \"\" d").unwrap();
    for i in 1..toks.len() {
        assert!(toks[i - 1].end < toks[i].begin);
    }
}
