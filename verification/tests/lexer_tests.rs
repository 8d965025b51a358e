use neyuki::lexer::{is_keyword, Lexer};

#[test]
fn tokenizes_keywords_numbers_and_strings() {
    let mut lexer = Lexer::new("local x = 42\nif x != 0 then\n  print(\"ok\")\nend");
    let tokens = lexer.tokenize();

    assert_eq!(tokens[0].kind, "keyword");
    assert_eq!(tokens[0].value, "local");
    assert_eq!(tokens[1].kind, "name");
    assert_eq!(tokens[1].value, "x");
    assert_eq!(tokens[2].kind, "symbol");
    assert_eq!(tokens[2].value, "=");
    assert_eq!(tokens[3].kind, "number");
    assert_eq!(tokens[3].value, "42");
    assert_eq!(tokens[4].kind, "keyword");
    assert_eq!(tokens[4].value, "if");
    assert_eq!(tokens[5].kind, "name");
    assert_eq!(tokens[5].value, "x");
    assert_eq!(tokens[6].kind, "symbol");
    assert_eq!(tokens[6].value, "!=");
    assert_eq!(tokens[7].kind, "number");
    assert_eq!(tokens[7].value, "0");
    assert_eq!(tokens[8].kind, "keyword");
    assert_eq!(tokens[8].value, "then");
    assert_eq!(tokens[11].kind, "string");
    assert_eq!(tokens[11].value, "ok");
}

#[test]
fn reads_long_bracket_strings() {
    let mut lexer = Lexer::new("local s = [[hello\nworld]]");
    let tokens = lexer.tokenize();
    assert_eq!(tokens[3].kind, "string");
    assert_eq!(tokens[3].value, "hello\nworld");
}

#[test]
fn tracks_line_and_column() {
    let mut lexer = Lexer::new("local x = 42\nif");
    let tokens = lexer.tokenize();
    assert_eq!(tokens[0].line, 1);
    assert_eq!(tokens[0].col, 1); // "local" starts at col 1
    assert_eq!(tokens[1].col, 7); // "x" starts at col 7
    assert_eq!(tokens[2].col, 9); // "=" at col 9
    assert_eq!(tokens[3].col, 11); // "42" at col 11
    assert_eq!(tokens[4].line, 2);
    assert_eq!(tokens[4].col, 1); // "if" starts at col 1 of line 2
}

#[test]
fn last_token_is_end_of_file() {
    let mut lexer = Lexer::new("return 1");
    let tokens = lexer.tokenize();
    assert_eq!(tokens.len(), 3);
    assert_eq!(tokens[2].kind, "eof");
    assert_eq!(tokens[2].value, "");
}

#[test]
fn longest_operator_wins() {
    let mut lexer = Lexer::new("a //= b ... c");
    let tokens = lexer.tokenize();
    assert_eq!(tokens[1].value, "//=");
    assert_eq!(tokens[3].value, "...");
}

#[test]
fn comments_are_skipped_and_postfix_decrement_is_a_symbol() {
    let mut lexer = Lexer::new("-- a comment\nn--\n--- doc text\nreturn n");
    let (tokens, docs) = lexer.tokenize_with_comments();
    assert_eq!(tokens[0].value, "n");
    assert_eq!(tokens[0].line, 2);
    assert_eq!(tokens[1].kind, "symbol");
    assert_eq!(tokens[1].value, "--");
    assert_eq!(tokens[2].value, "return");
    assert_eq!(docs.len(), 1);
    assert_eq!(docs[0].line, 3);
    assert_eq!(docs[0].text, "doc text");
}

#[test]
fn string_escapes_and_interpolation() {
    let mut lexer = Lexer::new("\"a\\nb\" `v: {x}` 0x1F 3.5e2");
    let tokens = lexer.tokenize();
    assert_eq!(tokens[0].value, "a\nb");
    assert_eq!(tokens[1].kind, "interp");
    assert_eq!(tokens[1].value, "v: {x}");
    assert_eq!(tokens[2].value, "0x1F");
    assert_eq!(tokens[3].value, "3.5e2");
}

#[test]
fn keywords_are_recognised() {
    assert!(is_keyword("elseif"));
    assert!(is_keyword("nil"));
    assert!(!is_keyword("print"));
    assert!(!is_keyword("End"));
}
