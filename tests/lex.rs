use wavefront_obj::lex::{read_obj, Tag, Token, TokenIterator};


fn iter_eof(iter: &mut TokenIterator) -> bool {
    iter.next().is_none()
}

fn tokens(text: &str) -> Vec<Token> {
    let mut iter = read_obj(text);
    let mut out = Vec::new();
    while let Some(t) = iter.next() {
        out.push(t);
    }
    out
}

fn arg(s: &str) -> Token {
    Token::Argument(s.to_string())
}

#[test]
fn test_tag() {
    let mut iter = read_obj("v\n");
    assert!(iter.next().unwrap() == Token::Tag(Tag::V));
    assert!(iter_eof(&mut iter));
}

#[test]
fn test_unknown_tag() {
    let mut iter = read_obj("foo\n");
    assert!(iter.next().unwrap() == Token::Tag(Tag::Unknown("foo".to_string())));
    assert!(iter_eof(&mut iter));
}

#[test]
fn test_tag_and_arguments() {
    let mut iter = read_obj("v b c\n");
    assert!(iter.next().unwrap() == Token::Tag(Tag::V));
    assert!(iter.next().unwrap() == Token::Argument("b".to_string()));
    assert!(iter.next().unwrap() == Token::Argument("c".to_string()));
    assert!(iter_eof(&mut iter));
}

#[test]
fn test_tag_no_newline() {
    let mut iter = read_obj("v");
    assert!(iter.next().unwrap() == Token::Tag(Tag::V));
    assert!(iter_eof(&mut iter));
}

#[test]
fn test_line_comment() {
    let mut iter = read_obj("# comment\n");
    assert!(iter.next().unwrap() == Token::Comment(" comment".to_string()));
    assert!(iter_eof(&mut iter));
}

#[test]
fn test_comment_after_tag() {
    let mut iter = read_obj("v # comment\n");
    assert!(iter.next().unwrap() == Token::Tag(Tag::V));
    assert!(iter.next().unwrap() == Token::Comment(" comment".to_string()));
    assert!(iter_eof(&mut iter));
}

#[test]
fn tag_and_two_arguments_in_order() {
    assert_eq!(
        tokens("vt 0.5 0.25\n"),
        vec![Token::Tag(Tag::Vt), arg("0.5"), arg("0.25")]
    );
    assert_eq!(
        tokens("abc x y\n"),
        vec![Token::Tag(Tag::Unknown("abc".to_string())), arg("x"), arg("y")]
    );
}

#[test]
fn end_of_input_stays_exhausted() {
    let mut iter = read_obj("v");
    assert!(iter.next().is_some());
    assert!(iter.next().is_none());
    assert!(iter.next().is_none());
}

#[test]
fn whitespace_runs_collapse() {
    let spaced = tokens("v   1   2   3\n");
    assert_eq!(spaced, tokens("v 1 2 3\n"));
    assert_eq!(spaced, vec![Token::Tag(Tag::V), arg("1"), arg("2"), arg("3")]);
    assert_eq!(tokens("v\t1 \t 2\n"), vec![Token::Tag(Tag::V), arg("1"), arg("2")]);
}

#[test]
fn trailing_whitespace_emits_no_empty_argument() {
    assert_eq!(tokens("v 1  \n"), vec![Token::Tag(Tag::V), arg("1")]);
    assert_eq!(tokens("v 1 "), vec![Token::Tag(Tag::V), arg("1")]);
}

#[test]
fn leading_whitespace_and_blank_lines_are_skipped() {
    assert_eq!(
        tokens("\n  \n  f 1\n"),
        vec![Token::Tag(Tag::F), arg("1")]
    );
    assert!(tokens("").is_empty());
    assert!(tokens("   \n\n").is_empty());
}

#[test]
fn comment_keeps_the_word_it_interrupts() {
    assert_eq!(tokens("v#foo\n"), vec![Token::Comment("vfoo".to_string())]);
    assert_eq!(
        tokens("v a#b\n"),
        vec![Token::Tag(Tag::V), Token::Comment("ab".to_string())]
    );
}

#[test]
fn comment_without_newline_is_flushed() {
    assert_eq!(tokens("#end"), vec![Token::Comment("end".to_string())]);
}

#[test]
fn lines_are_lexed_in_order() {
    assert_eq!(
        tokens("v 1\nvn 2\n# c\nf 3"),
        vec![
            Token::Tag(Tag::V),
            arg("1"),
            Token::Tag(Tag::Vn),
            arg("2"),
            Token::Comment(" c".to_string()),
            Token::Tag(Tag::F),
            arg("3"),
        ]
    );
}

#[test]
fn tag_classification() {
    assert_eq!(Tag::from_str("f"), Tag::F);
    assert_eq!(Tag::from_str("v"), Tag::V);
    assert_eq!(Tag::from_str("vn"), Tag::Vn);
    assert_eq!(Tag::from_str("vt"), Tag::Vt);
    assert_eq!(Tag::from_str("vtx"), Tag::Unknown("vtx".to_string()));
    assert_eq!(Tag::from_str("F"), Tag::Unknown("F".to_string()));
    assert_eq!(Tag::from_str(""), Tag::Unknown(String::new()));
}

#[test]
fn fed_lexer_matches_lexer_over_text() {
    let text = "v 1 2\n# note\nf 1 2 3";
    let mut lexer = TokenIterator::new();
    let mut fed = Vec::new();
    for c in text.chars() {
        if let Some(t) = lexer.push_char(c) {
            fed.push(t);
        }
    }
    if let Some(t) = lexer.finish() {
        fed.push(t);
    }
    assert_eq!(fed, tokens(text));
    assert!(lexer.finish().is_none());
    assert!(lexer.push_char('x').is_none());
}

#[test]
fn finish_flushes_pending_comment_once() {
    let mut lexer = TokenIterator::new();
    for c in "#tail".chars() {
        assert!(lexer.push_char(c).is_none());
    }
    assert_eq!(lexer.finish(), Some(Token::Comment("tail".to_string())));
    assert_eq!(lexer.finish(), None);
}

#[test]
fn plain_lines_lex_to_their_words() {
    assert_eq!(
        tokens("  v  1\t2\n\n   \nf 3  4 5\nvt 6"),
        vec![
            Token::Tag(Tag::V),
            arg("1"),
            arg("2"),
            Token::Tag(Tag::F),
            arg("3"),
            arg("4"),
            arg("5"),
            Token::Tag(Tag::Vt),
            arg("6"),
        ]
    );
    assert_eq!(tokens("f 1 2"), tokens("f 1 2\n"));
}
