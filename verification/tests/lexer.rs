use chs::lexer::{kind_of_word, Lexer, Loc, Token, TokenKind};

fn significant(src: &str) -> Vec<(TokenKind, String)> {
    let mut lexer = Lexer::new(src.as_bytes().to_vec());
    let mut out = Vec::new();
    loop {
        let token = lexer.next_token();
        match token.kind {
            TokenKind::EOF => return out,
            TokenKind::Whitespace | TokenKind::Comment => {}
            kind => out.push((kind, token.value)),
        }
    }
}

fn all_tokens(src: &[u8]) -> Vec<Token> {
    let mut lexer = Lexer::new(src.to_vec());
    let mut out = Vec::new();
    loop {
        let token = lexer.next_token();
        if token.kind == TokenKind::EOF {
            return out;
        }
        out.push(token);
    }
}

fn pairs(kinds: &[(TokenKind, &str)]) -> Vec<(TokenKind, String)> {
    kinds.iter().map(|(k, v)| (*k, v.to_string())).collect()
}

#[test]
fn lexes_integers_words_and_operators() {
    assert_eq!(
        significant("1 2 + debug"),
        pairs(&[
            (TokenKind::Integer, "1"),
            (TokenKind::Integer, "2"),
            (TokenKind::Intrinsic, "+"),
            (TokenKind::Keyword, "debug"),
        ])
    );
}

#[test]
fn classifies_every_keyword() {
    for word in ["debug", "if", "else", "while", "fn", "let", "const", "alloc"] {
        assert_eq!(significant(word), pairs(&[(TokenKind::Keyword, word)]));
    }
    for sym in [":", "=", "->", "&"] {
        assert_eq!(significant(sym), pairs(&[(TokenKind::Keyword, sym)]));
    }
}

#[test]
fn classifies_every_intrinsic() {
    for word in ["dup", "drop", "swap", "over", "rot", "mod"] {
        assert_eq!(significant(word), pairs(&[(TokenKind::Intrinsic, word)]));
    }
    for sym in ["+", "-", "*", ">", "<", "!", "@", "$", "!=", "=="] {
        assert_eq!(significant(sym), pairs(&[(TokenKind::Intrinsic, sym)]));
    }
}

#[test]
fn other_identifiers_are_words() {
    assert_eq!(
        significant("buf iff Debug"),
        pairs(&[(TokenKind::Word, "buf"), (TokenKind::Word, "iff"), (TokenKind::Word, "Debug")])
    );
}

#[test]
fn an_identifier_runs_up_to_whitespace() {
    assert_eq!(
        significant("foo{ bar-1"),
        pairs(&[(TokenKind::Word, "foo{"), (TokenKind::Word, "bar-1")])
    );
}

#[test]
fn an_identifier_at_the_end_of_the_source_ends_there() {
    assert_eq!(significant("abc"), pairs(&[(TokenKind::Word, "abc")]));
}

#[test]
fn a_number_is_a_run_of_digits() {
    assert_eq!(
        significant("12ab 007"),
        pairs(&[(TokenKind::Integer, "12"), (TokenKind::Word, "ab"), (TokenKind::Integer, "007")])
    );
}

#[test]
fn curly_brackets_are_tokens_of_their_own() {
    assert_eq!(
        significant("{}"),
        pairs(&[(TokenKind::OpenCurly, "{"), (TokenKind::CloseCurly, "}")])
    );
}

#[test]
fn a_comment_runs_to_the_end_of_the_line() {
    let tokens = all_tokens(b"1 -- two 2\n3");
    let kinds: Vec<TokenKind> = tokens.iter().map(|t| t.kind).collect();
    assert_eq!(
        kinds,
        vec![
            TokenKind::Integer,
            TokenKind::Whitespace,
            TokenKind::Comment,
            TokenKind::Whitespace,
            TokenKind::Integer,
        ]
    );
    assert_eq!(tokens[2].value, "-- two 2");
    assert_eq!(tokens[3].value, "\n");
}

#[test]
fn a_comment_ends_at_a_nul_byte() {
    let tokens = all_tokens(b"--x\0y");
    assert_eq!(tokens[0].kind, TokenKind::Comment);
    assert_eq!(tokens[0].value, "--x");
    assert_eq!(tokens[1].kind, TokenKind::Invalid);
    assert_eq!(tokens[1].value, "\0");
    assert_eq!(tokens[2].kind, TokenKind::Word);
}

#[test]
fn an_empty_comment_leaves_the_next_line_alone() {
    assert_eq!(significant("--\n7"), pairs(&[(TokenKind::Integer, "7")]));
}

#[test]
fn two_hyphens_apart_are_no_comment() {
    assert_eq!(
        significant("- -"),
        pairs(&[(TokenKind::Intrinsic, "-"), (TokenKind::Intrinsic, "-")])
    );
}

#[test]
fn unknown_bytes_are_invalid_tokens() {
    assert_eq!(
        significant("# ?"),
        pairs(&[(TokenKind::Invalid, "#"), (TokenKind::Invalid, "?")])
    );
}

#[test]
fn bytes_that_are_not_utf8_become_replacement_characters() {
    let tokens = all_tokens(&[b'a', 0xff, b'b']);
    assert_eq!(tokens.len(), 1);
    assert_eq!(tokens[0].kind, TokenKind::Word);
    assert_eq!(tokens[0].value, "a\u{fffd}b");
}

#[test]
fn the_end_of_file_token_repeats() {
    let mut lexer = Lexer::new(b"x".to_vec());
    assert_eq!(lexer.next_token().kind, TokenKind::Word);
    for _ in 0..3 {
        let token = lexer.next_token();
        assert_eq!(token.kind, TokenKind::EOF);
        assert_eq!(token.value, "\0");
        assert_eq!((token.loc.line(), token.loc.col()), (1, 2));
    }
}

#[test]
fn an_empty_source_is_at_its_end() {
    let mut lexer = Lexer::new(Vec::new());
    let token = lexer.next_token();
    assert_eq!(token.kind, TokenKind::EOF);
    assert_eq!((token.loc.line(), token.loc.col()), (1, 1));
}

#[test]
fn tokens_carry_the_place_of_their_first_byte() {
    let tokens = all_tokens(b"a\nb\tc -> d");
    let places: Vec<(String, usize, usize)> =
        tokens.iter().map(|t| (t.value.clone(), t.loc.line(), t.loc.col())).collect();
    assert_eq!(
        places,
        vec![
            ("a".to_string(), 1, 1),
            ("\n".to_string(), 1, 2),
            ("b".to_string(), 2, 1),
            ("\t".to_string(), 2, 2),
            ("c".to_string(), 2, 8),
            (" ".to_string(), 2, 9),
            ("->".to_string(), 2, 10),
            (" ".to_string(), 2, 12),
            ("d".to_string(), 2, 13),
        ]
    );
}

#[test]
fn loc_new_keeps_line_and_column() {
    let loc = Loc::new(3, 7);
    assert_eq!((loc.line(), loc.col()), (3, 7));
}

#[test]
fn loc_next_column_moves_one_column() {
    let loc = Loc::new(3, 7).next_column();
    assert_eq!((loc.line(), loc.col()), (3, 8));
}

#[test]
fn loc_next_line_starts_the_next_line() {
    let loc = Loc::new(3, 7).next_line();
    assert_eq!((loc.line(), loc.col()), (4, 1));
}

#[test]
fn loc_next_follows_the_byte() {
    let at = Loc::new(2, 5);
    assert_eq!(at.next(b'x'), Loc::new(2, 6));
    assert_eq!(at.next(b'\n'), Loc::new(3, 1));
    assert_eq!(at.next(b'\t'), Loc::new(2, 8));
    assert_eq!(Loc::new(2, 8).next(b'\t'), Loc::new(2, 16));
    assert_eq!(Loc::new(2, 1).next(b'\t'), Loc::new(2, 8));
    assert_eq!(at.next(b'\r'), Loc::new(2, 5));
    assert_eq!(at.next(0x7f), Loc::new(2, 5));
    assert_eq!(at.next(0x9f), Loc::new(2, 5));
    assert_eq!(at.next(0xa0), Loc::new(2, 6));
}

#[test]
fn token_new_and_is() {
    let token = Token::new("fn".to_string(), TokenKind::Keyword, Loc::new(1, 1));
    assert!(token.is("fn"));
    assert!(!token.is("if"));
    assert_eq!(token.kind, TokenKind::Keyword);
    assert_eq!(token.loc, Loc::new(1, 1));
}

#[test]
fn lexing_the_rendered_tokens_gives_the_tokens_back() {
    let src = "fn add a b : int int -> int { & 1 & 1 + } -- sum\n 3 4 add debug\t!= == - -> # @ 64";
    let tokens = significant(src);
    let rendered: Vec<String> = tokens.iter().map(|(_, v)| v.clone()).collect();
    let again = significant(&rendered.join(" "));
    assert_eq!(again, tokens);
    assert_eq!(tokens.len(), 27);
}

#[test]
fn a_location_is_written_with_colons() {
    assert_eq!(Loc::new(1, 1).to_text(), ":1:1");
    assert_eq!(Loc::new(12, 340).to_text(), ":12:340");
    assert_eq!(Loc::new(0, 1000000).to_text(), ":0:1000000");
}

#[test]
fn words_are_classified_by_their_text() {
    assert_eq!(kind_of_word(&"while".to_string()), TokenKind::Keyword);
    assert_eq!(kind_of_word(&"swap".to_string()), TokenKind::Intrinsic);
    assert_eq!(kind_of_word(&"whilst".to_string()), TokenKind::Word);
    assert_eq!(kind_of_word(&"".to_string()), TokenKind::Word);
}

#[test]
fn a_location_at_the_edge_moves_where_the_byte_lets_it() {
    let edge = Loc::new(usize::MAX, usize::MAX);
    assert_eq!(edge.next(b'\r'), edge);
    assert_eq!(edge.next(0), edge);
    assert_eq!(Loc::new(usize::MAX, 5).next(b'x'), Loc::new(usize::MAX, 6));
    assert_eq!(Loc::new(usize::MAX, 5).next(b'\t'), Loc::new(usize::MAX, 8));
    assert_eq!(Loc::new(5, usize::MAX).next(b'\n'), Loc::new(6, 1));
    assert_eq!(Loc::new(3, usize::MAX - 8).next(b'\t'), Loc::new(3, usize::MAX - 7));
}
