use compacts::flagrc::nfa::Lexer;
use compacts::flagrc::Word::{self, Lit, NewLine, Var};
use compacts::flagrc::Token;

fn tokens(source: &str) -> Vec<Token> {
    let mut lex = Lexer::new(source.as_bytes().to_vec());
    let mut out = Vec::new();
    while let Some(token) = lex.next_token_nfa() {
        out.push(token);
    }
    out
}

fn check_empty(source: &str) {
    let mut lex = Lexer::new(source.as_bytes().to_vec());
    assert_eq!(lex.next_token_nfa(), None);
}

fn token(words: Vec<Word>) -> Token {
    Token { words }
}

fn lit(bytes: &[u8]) -> Word {
    Lit(bytes.to_vec())
}

fn var(bytes: &[u8]) -> Word {
    Var(bytes.to_vec())
}

#[test]
fn test_empty() {
    check_empty("");
    check_empty(" ");
    check_empty("  ");
}

#[test]
fn no_tokens() {
    assert_eq!(tokens("\\"), []);
    assert_eq!(tokens("\\\n"), []);
    assert_eq!(tokens("\\\n "), []);
    assert_eq!(tokens("\n \n"), []);
    assert_eq!(tokens("\n\t\n"), []);
    assert_eq!(tokens("\n\n\n"), []);
    assert_eq!(tokens("\n\r\n"), []);
}

#[test]
fn nfa_get_tokens() {
    assert_eq!(tokens("foobar"), [token(vec![lit(b"foobar")])]);
    assert_eq!(tokens("$foo-bar"), [token(vec![var(b"foo"), lit(b"-bar")])]);
    assert_eq!(tokens("A\\e"), [token(vec![lit(b"Ae")])]);
    assert_eq!(tokens("\"'A\\e\""), [token(vec![lit(b"'A\\e")])]);

    assert_eq!(tokens("foo bar"), [token(vec![lit(b"foo")]), token(vec![lit(b"bar")])]);
    assert_eq!(tokens("$foo bar"), [token(vec![var(b"foo")]), token(vec![lit(b"bar")])]);
    assert_eq!(
        tokens("\"foo\nbar\r\n\" baz"),
        [token(vec![lit(b"foo\nbar\r\n")]), token(vec![lit(b"baz")])]
    );
}

#[test]
fn get_tokens_non_ascii() {
    assert_eq!(tokens("えび"), [token(vec![lit("えび".as_bytes())])]);
    assert_eq!(
        tokens("え び"),
        [token(vec![lit("え".as_bytes())]), token(vec![lit("び".as_bytes())])]
    );
    assert_eq!(tokens("え\\ び"), [token(vec![lit("え び".as_bytes())])]);
    assert_eq!(
        tokens("え \\ び"),
        [token(vec![lit("え".as_bytes())]), token(vec![lit(" び".as_bytes())])]
    );
    assert_eq!(
        tokens("え \\\nび"),
        [token(vec![lit("え".as_bytes())]), token(vec![lit("び".as_bytes())])]
    );
    assert_eq!(
        tokens("え \\\r\nび"),
        [token(vec![lit("え".as_bytes())]), token(vec![lit("び".as_bytes())])]
    );
}

#[test]
fn for_for_in_for() {
    // A shell prints "for" in this case.
    assert_eq!(
        tokens("for for in for; do for=for; done; echo $for"),
        [
            token(vec![lit(b"for")]),
            token(vec![lit(b"for")]),
            token(vec![lit(b"in")]),
            token(vec![lit(b"for;")]),
            token(vec![lit(b"do")]),
            token(vec![lit(b"for=for;")]),
            token(vec![lit(b"done;")]),
            token(vec![lit(b"echo")]),
            token(vec![var(b"for")]),
        ]
    );
}

#[test]
fn line_breaks() {
    assert_eq!(
        tokens("$A-foo -x\n$B-bar -y\n$C-baz -z\n"),
        [
            token(vec![var(b"A"), lit(b"-foo")]),
            token(vec![lit(b"-x"), NewLine(b'\n')]),
            token(vec![var(b"B"), lit(b"-bar")]),
            token(vec![lit(b"-y"), NewLine(b'\n')]),
            token(vec![var(b"C"), lit(b"-baz")]),
            token(vec![lit(b"-z"), NewLine(b'\n')]),
        ]
    );
    assert_eq!(
        tokens("$A-foo -x\r\n$B-bar -y\r\n$C-baz -z\r\n"),
        [
            token(vec![var(b"A"), lit(b"-foo")]),
            token(vec![lit(b"-x"), NewLine(b'\n')]),
            token(vec![var(b"B"), lit(b"-bar")]),
            token(vec![lit(b"-y"), NewLine(b'\n')]),
            token(vec![var(b"C"), lit(b"-baz")]),
            token(vec![lit(b"-z"), NewLine(b'\n')]),
        ]
    );
}

#[test]
fn escape_ascii_whitespace() {
    assert_eq!(tokens("\\ "), [token(vec![lit(b" ")])]);
    assert_eq!(tokens("\\ A"), [token(vec![lit(b" A")])]);
    assert_eq!(tokens("\\\tA"), [token(vec![lit(b"\tA")])]);
    assert_eq!(tokens("\\\r\nA"), [token(vec![lit(b"A")])]);
    assert_eq!(tokens("\\\nA"), [token(vec![lit(b"A")])]);
}

#[test]
fn escape_in_single_quote() {
    assert_eq!(tokens("'\ne'"), [token(vec![lit(b"\ne")])]);
    assert_eq!(tokens("'\\\ne'"), [token(vec![lit(b"\\\ne")])]);
}

#[test]
fn escape_in_double_quote() {
    assert_eq!(tokens("\"\\ VAR\""), [token(vec![lit(b"\\ VAR")])]);
    assert_eq!(tokens("\"\\$VAR\""), [token(vec![lit(b"$VAR")])]);
    assert_eq!(tokens("\"\\ $VAR\""), [token(vec![lit(b"\\ "), var(b"VAR")])]);
}

#[test]
fn double_quote_no_spaces() {
    assert_eq!(tokens("A\"PPL\"E"), [token(vec![lit(b"APPLE")])]);
    assert_eq!(tokens("\"APPL\"E"), [token(vec![lit(b"APPLE")])]);
    assert_eq!(tokens("A\"PPLE\""), [token(vec![lit(b"APPLE")])]);
}

#[test]
fn double_quote_in_single_quote() {
    assert_eq!(tokens("'A\"PPL\"E'"), [token(vec![lit(b"A\"PPL\"E")])]);
    assert_eq!(tokens("'\"APPL\"E'"), [token(vec![lit(b"\"APPL\"E")])]);
    assert_eq!(tokens("'A\"PPLE\"'"), [token(vec![lit(b"A\"PPLE\"")])]);
}

#[test]
fn var_in_many_ways() {
    assert_eq!(tokens("\"$VAR\""), [token(vec![var(b"VAR")])]);
    assert_eq!(tokens("$VAR"), [token(vec![var(b"VAR")])]);
    assert_eq!(tokens("$VAR#a"), [token(vec![var(b"VAR"), lit(b"#a")])]);
    assert_eq!(tokens("$VAR-a"), [token(vec![var(b"VAR"), lit(b"-a")])]);
    assert_eq!(tokens("e\"$VAR\"o"), [token(vec![lit(b"e"), var(b"VAR"), lit(b"o")])]);
    assert_eq!(tokens("$VAR\\A"), [token(vec![var(b"VAR"), lit(b"A")])]);
    assert_eq!(tokens("\"$VAR\\A\""), [token(vec![var(b"VAR"), lit(b"\\A")])]);
    assert_eq!(tokens("$VAR\"\""), [token(vec![var(b"VAR")])]);
    assert_eq!(tokens("$VAR\"ABC\""), [token(vec![var(b"VAR"), lit(b"ABC")])]);
    assert_eq!(
        tokens("e\"$VAR\"o hello"),
        [token(vec![lit(b"e"), var(b"VAR"), lit(b"o")]), token(vec![lit(b"hello")])]
    );
}

#[test]
fn empty_quotes_end_the_tokens() {
    // A completed token with no words reads as the end of the tokens.
    let mut lex = Lexer::new(b"'' x".to_vec());
    assert_eq!(lex.next_token_nfa(), None);
    assert_eq!(lex.next_token_nfa(), Some(token(vec![lit(b"x")])));
    assert_eq!(lex.next_token_nfa(), None);
}

#[test]
fn clean_inputs() {
    let clean = |b: &[u8]| Lexer::new(b.to_vec()).lexes_cleanly();
    assert!(clean(b"$A \"$B\" '$ x' \\$"));
    assert!(clean(b"$"));
    assert!(!clean(b"$ x"));
    assert!(!clean(b"\"$-\""));
    // Only the next token counts: the stuck `$` comes after it.
    assert!(clean(b"a $-"));
}

#[test]
fn tokens_before_a_stuck_dollar() {
    let mut lex = Lexer::new(b"a $-".to_vec());
    assert!(lex.lexes_cleanly());
    assert_eq!(lex.next_token_nfa(), Some(token(vec![lit(b"a")])));
    assert!(!lex.lexes_cleanly());
}
