use tinysh::lexer::{parse_decimal, Lexer, Token};

fn lex(line: &str) -> Vec<Token> {
    let mut lex = Lexer::new();
    lex.push(line);
    lex.tokenize()
}

fn lit(s: &str) -> Token {
    Token::Literal(s.to_string())
}

#[test]
fn test_white_space() {
    let mut lex = Lexer::new();

    lex.push("hello world");
    let expect = vec![
        Token::Literal("hello".to_string()),
        Token::Literal("world".to_string()),
    ];
    assert_eq!(expect, lex.tokenize());

    lex.push("  hello     world    ");
    let expect = vec![
        Token::Literal("hello".to_string()),
        Token::Literal("world".to_string()),
    ];
    assert_eq!(expect, lex.tokenize());
}

#[test]
fn test_single_quote() {
    let mut lex = Lexer::new();

    lex.push("'hello' world");
    let expect = vec![
        Token::Literal("hello".to_string()),
        Token::Literal("world".to_string()),
    ];
    assert_eq!(expect, lex.tokenize());

    lex.push("'hello''world'");
    let expect = vec![Token::Literal("helloworld".to_string())];
    assert_eq!(expect, lex.tokenize());
}

#[test]
fn test_double_quote() {
    let mut lex = Lexer::new();

    lex.push("\"hello     world\"");
    let expect = vec![Token::Literal("hello     world".to_string())];
    assert_eq!(expect, lex.tokenize());

    lex.push("\"shell's test\"");
    let expect = vec![Token::Literal("shell's test".to_string())];
    assert_eq!(expect, lex.tokenize());
}

#[test]
fn test_escape() {
    let mut lex = Lexer::new();

    lex.push("multiple\\ \\ \\ \\ spaces");
    let expect = vec![Token::Literal("multiple    spaces".to_string())];
    assert_eq!(expect, lex.tokenize());

    lex.push("\\'\\\"literal quotes\\\"\\'");
    let expect = vec![
        Token::Literal("\'\"literal".to_string()),
        Token::Literal("quotes\"\'".to_string()),
    ];
    assert_eq!(expect, lex.tokenize());

    lex.push("ignore\\_backslash");
    let expect = vec![Token::Literal("ignore_backslash".to_string())];
    assert_eq!(expect, lex.tokenize());
}

#[test]
fn test_escape_in_quote() {
    let mut lex = Lexer::new();

    lex.push("'shell\\\\\\nscript'");
    let expect = vec![Token::Literal("shell\\\\\\nscript".to_string())];
    assert_eq!(expect, lex.tokenize());

    lex.push("'example\\\"test'");
    let expect = vec![Token::Literal("example\\\"test".to_string())];
    assert_eq!(expect, lex.tokenize());
}

#[test]
fn test_escape_in_double_quote() {
    // Within double quotes, a backslash only escapes ", \, $, ` and newline;
    // before any other character it stays as it is.
    let mut lex = Lexer::new();

    lex.push("\"\\hello \\world\"");
    let expect = vec![Token::Literal("\\hello \\world".to_string())];
    assert_eq!(expect, lex.tokenize());

    lex.push("\"A \\ escapes itself\"");
    let expect = vec![Token::Literal("A \\ escapes itself".to_string())];
    assert_eq!(expect, lex.tokenize());

    lex.push("\"A \\\" inside double quotes\"");
    let expect = vec![Token::Literal("A \" inside double quotes".to_string())];
    assert_eq!(expect, lex.tokenize());

    lex.push("\"\\$ is a Dollar sign\" ");
    let expect = vec![Token::Literal("$ is a Dollar sign".to_string())];
    assert_eq!(expect, lex.tokenize());
}

#[test]
fn test_redirect_and_append() {
    let mut lex = Lexer::new();

    lex.push("> test.txt");
    let expect = vec![Token::Write(1), Token::Literal("test.txt".to_string())];
    assert_eq!(expect, lex.tokenize());

    lex.push("2> test.txt");
    let expect = vec![Token::Write(2), Token::Literal("test.txt".to_string())];
    assert_eq!(expect, lex.tokenize());

    lex.push(">> test.txt");
    let expect = vec![Token::Append(1), Token::Literal("test.txt".to_string())];
    assert_eq!(expect, lex.tokenize());

    lex.push("2>> test.txt");
    let expect = vec![Token::Append(2), Token::Literal("test.txt".to_string())];
    assert_eq!(expect, lex.tokenize());

    lex.push("just2>test.txt");
    let expect = vec![
        Token::Literal("just2".to_string()),
        Token::Write(1),
        Token::Literal("test.txt".to_string()),
    ];
    assert_eq!(expect, lex.tokenize());
}

#[test]
fn hello_world_gives_two_literals() {
    assert_eq!(lex("hello world"), vec![lit("hello"), lit("world")]);
}

#[test]
fn single_quoted_words_then_word() {
    assert_eq!(lex("'a b' c"), vec![lit("a b"), lit("c")]);
}

#[test]
fn single_quotes_keep_special_characters() {
    assert_eq!(lex("'a  \"|> b'"), vec![lit("a  \"|> b")]);
    assert_eq!(lex("'\\n'"), vec![lit("\\n")]);
}

#[test]
fn descriptor_before_write_and_default_append() {
    assert_eq!(lex("2> out.txt"), vec![Token::Write(2), lit("out.txt")]);
    assert_eq!(lex(">> out.txt"), vec![Token::Append(1), lit("out.txt")]);
}

#[test]
fn backslash_space_joins_words() {
    assert_eq!(lex("a\\ b"), vec![lit("a b")]);
}

#[test]
fn double_quote_escapes_dollar_only() {
    assert_eq!(lex("\"\\$\""), vec![lit("$")]);
    assert_eq!(lex("\"\\z\""), vec![lit("\\z")]);
}

#[test]
fn whitespace_runs_give_no_tokens() {
    assert_eq!(lex(" \t  a \t\t b   "), vec![lit("a"), lit("b")]);
    assert_eq!(lex("    "), Vec::<Token>::new());
    assert_eq!(lex(""), Vec::<Token>::new());
}

#[test]
fn pipe_flushes_the_pending_word() {
    assert_eq!(lex("a|b"), vec![lit("a"), Token::Pipe, lit("b")]);
    assert_eq!(lex("ls -l | wc"), vec![lit("ls"), lit("-l"), Token::Pipe, lit("wc")]);
}

#[test]
fn redirect_at_end_of_line() {
    assert_eq!(lex("echo >"), vec![lit("echo"), Token::Write(1)]);
}

#[test]
fn oversized_descriptor_number_stays_a_literal() {
    assert_eq!(
        lex("99999999999999999999999>f"),
        vec![lit("99999999999999999999999"), Token::Write(1), lit("f")]
    );
}

#[test]
fn trailing_backslash_is_incomplete() {
    let mut l = Lexer::new();
    l.push("echo a\\");
    assert!(!l.is_complete());
    let mut l = Lexer::new();
    l.push("echo 'a\\'");
    assert!(l.is_complete());
    let mut l = Lexer::new();
    l.push("echo \"a\\");
    assert!(l.is_complete());
    assert_eq!(l.tokenize(), vec![lit("echo"), lit("a\\")]);
}

#[test]
fn tokenize_clears_the_buffer() {
    let mut l = Lexer::new();
    l.push("one");
    l.push(" two");
    assert_eq!(l.tokenize(), vec![lit("one"), lit("two")]);
    assert_eq!(l.tokenize(), Vec::<Token>::new());
}

#[test]
fn decimal_numbers() {
    assert_eq!(parse_decimal("0"), Some(0));
    assert_eq!(parse_decimal("042"), Some(42));
    assert_eq!(parse_decimal(""), None);
    assert_eq!(parse_decimal("4a"), None);
    assert_eq!(parse_decimal("18446744073709551615"), Some(usize::MAX));
    assert_eq!(parse_decimal("18446744073709551616"), None);
}

#[test]
fn whitespace_splits_a_line_into_independent_parts() {
    let mut joined = lex("echo 2>x");
    joined.push(lit("a b"));
    joined.extend(lex("| wc"));
    assert_eq!(lex("echo 2>x 'a b' | wc"), joined);
    let mut parts = lex("a\\ b");
    parts.extend(lex("\"c d\""));
    assert_eq!(lex("a\\ b\t\"c d\""), parts);
}

#[test]
fn doubled_whitespace_changes_nothing() {
    assert_eq!(lex("a  b"), lex("a b"));
    assert_eq!(lex("a \t\n b"), lex("a b"));
}
