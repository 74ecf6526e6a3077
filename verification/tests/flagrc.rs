use compacts::flagrc::{parse_lines, Entry, Tokens};

fn tokens_opt(bytes: &[u8]) -> Option<Vec<String>> {
    let envs = Some(vec![
        ("PORT".to_owned(), "8080".to_owned()),
        ("TEST".to_owned(), "ch".to_owned()),
    ]);

    let mut t = Tokens::new(bytes.to_vec(), envs);
    let tokens = t.next();
    // Check no more tokens.
    assert_eq!(t.next(), None);
    tokens
}

fn tokens(bytes: &[u8]) -> Vec<String> {
    tokens_opt(bytes).expect("no token")
}

#[test]
fn empty_token() {
    assert_eq!(tokens_opt("".as_bytes()), None);
    assert_eq!(tokens_opt(" ".as_bytes()), None);
}

#[test]
fn get_single_token() {
    assert_eq!(tokens("\\ ".as_bytes()), [" "]);
    assert_eq!(tokens("\\ e".as_bytes()), [" e"]);
    assert_eq!(tokens("'\ne'".as_bytes()), ["\ne"]);

    assert_eq!(tokens("A\"PPL\"E".as_bytes()), ["APPLE"]);
    assert_eq!(tokens("\"APPL\"E".as_bytes()), ["APPLE"]);
    assert_eq!(tokens("A\"PPLE\"".as_bytes()), ["APPLE"]);

    assert_eq!(tokens("'A\"PPL\"E'".as_bytes()), ["A\"PPL\"E"]);
    assert_eq!(tokens("'\"APPL\"E'".as_bytes()), ["\"APPL\"E"]);
    assert_eq!(tokens("'A\"PPLE\"'".as_bytes()), ["A\"PPLE\""]);

    assert_eq!(tokens("A\\e".as_bytes()), ["Ae"]);
    assert_eq!(tokens("\"'A\\e\"".as_bytes()), ["'A\\e"]);
}

#[test]
fn tests_get_tokens() {
    assert_eq!(tokens("foo bar".as_bytes()), ["foo", "bar"]);
    assert_eq!(tokens("foo\"ba\"r baz".as_bytes()), ["foobar", "baz"]);
    assert_eq!(tokens("\"foo\nbar\" baz".as_bytes()), ["foo\nbar", "baz"]);
    assert_eq!(tokens("foo; bar; baz".as_bytes()), ["foo;", "bar;", "baz"]);
    assert_eq!(tokens("'foo; bar'; baz".as_bytes()), ["foo; bar;", "baz"]);

    assert_eq!(tokens("え び".as_bytes()), ["え", "び"]);
    assert_eq!(tokens("え\\ び".as_bytes()), ["え び"]);
    assert_eq!(tokens("え \\ び".as_bytes()), ["え", " び"]);
    assert_eq!(tokens("え \\\nび".as_bytes()), ["え", "び"]);

    // A shell prints "for" in this case, but no variable can be defined here.
    assert_eq!(
        tokens("for for in for; do for=for; done; echo $for".as_bytes()),
        ["for", "for", "in", "for;", "do", "for=for;", "done;", "echo", ""],
    );
}

#[test]
fn ignore_whitespaces() {
    assert_eq!(tokens("     A\"PPL\"E".as_bytes()), ["APPLE"]);
    assert_eq!(tokens("     \"APPL\"E".as_bytes()), ["APPLE"]);
    assert_eq!(tokens("     A\"PPLE\"".as_bytes()), ["APPLE"]);
    assert_eq!(tokens("A\"PPL\"E     ".as_bytes()), ["APPLE"]);
    assert_eq!(tokens("\"APPL\"E     ".as_bytes()), ["APPLE"]);
    assert_eq!(tokens("A\"PPLE\"     ".as_bytes()), ["APPLE"]);
}

#[test]
fn delimited_in_quote() {
    assert_eq!(tokens("\"foobar  baz\"".as_bytes()), ["foobar  baz"]);
}

#[test]
fn quote_in_another_quote() {
    assert_eq!(tokens("foo=\"1'0'1\"".as_bytes()), ["foo=1'0'1"]);
}

#[test]
fn no_matching_quote() {
    assert_eq!(tokens("foo\"bar".as_bytes()), ["foobar"]);
}

#[test]
fn expand_envs() {
    assert_eq!(tokens("\\$TEST".as_bytes()), ["$TEST"]);
    assert_eq!(tokens("$TEST".as_bytes()), ["ch"]);
    assert_eq!(tokens("$TEST#a".as_bytes()), ["ch#a"]);
    assert_eq!(tokens("$TEST-a".as_bytes()), ["ch-a"]);
    assert_eq!(tokens("e\"$TEST\"o".as_bytes()), ["echo"]);
    assert_eq!(tokens("$TEST\\A".as_bytes()), ["chA"]);
    assert_eq!(tokens("\"$TEST\\A\"".as_bytes()), ["ch\\A"]);
    assert_eq!(tokens("$TEST{cc".as_bytes()), ["ch{cc"]);
    assert_eq!(tokens("$TEST\"cc\"".as_bytes()), ["chcc"]);
    assert_eq!(tokens("e\"$TEST\"o hello".as_bytes()), ["echo", "hello"]);
}

#[test]
fn lines_come_one_at_a_time() {
    let mut t = Tokens::new(b"a b\nc $PORT\n".to_vec(), Some(vec![
        ("PORT".to_owned(), "1".to_owned()),
        ("PORT".to_owned(), "8080".to_owned()),
    ]));
    assert_eq!(t.next(), Some(vec!["a".to_owned(), "b".to_owned()]));
    // The last binding of a name wins.
    assert_eq!(t.next(), Some(vec!["c".to_owned(), "8080".to_owned()]));
    assert_eq!(t.next(), None);
}

#[test]
fn lines_lex_cleanly_one_at_a_time() {
    let mut t = Tokens::new(b"a b\nc $-\n".to_vec(), None);
    assert!(t.lexes_cleanly());
    assert_eq!(t.next(), Some(vec!["a".to_owned(), "b".to_owned()]));
    assert!(!t.lexes_cleanly());
    assert!(Tokens::new(b"$".to_vec(), None).lexes_cleanly());
    assert!(!Tokens::new(b"a $ b\nc".to_vec(), None).lexes_cleanly());
}

#[test]
fn invalid_utf8_is_replaced() {
    let mut t = Tokens::new(vec![b'a', 0xff], None);
    assert_eq!(t.next(), Some(vec!["a\u{fffd}".to_owned()]));
}

fn parse(rc: &str, envs: Option<Vec<(String, String)>>) -> Vec<Entry> {
    let lines: Vec<String> = rc.lines().map(|l| l.to_owned()).collect();
    parse_lines(&lines, envs)
}

#[test]
fn no_entries() {
    let rc = r#""#;
    assert!(parse(rc, None).is_empty());

    let rc = r#"
"#;
    assert!(parse(rc, None).is_empty());

    let rc = r#"

        "#;
    assert!(parse(rc, None).is_empty());
}

#[test]
fn many_entries() {
    let rc = r#"
test0

test1 gunicorn -b \
:$PORT \
main:app

test2 \
-x 10s \
--env A"B"C=def \
-- foo \ bar

test3 \
"C:\path" D:\path

test4 "10m\n" \
           -- \
foo a=1

test5 a b \ \ c

test6 a  b \c \d \
e

test7 a  b \c \ \
\d e
"#;

    let envs = Some(vec![("PORT".to_owned(), "8080".to_owned())]);
    let entries = parse(rc, envs);

    assert_eq!(entries[0].flag, ["test0"]);
    assert_eq!(entries[1].flag, ["test1", "gunicorn", "-b", ":8080", "main:app"]);
    assert_eq!(entries[2].flag, ["test2", "-x", "10s", "--env", "ABC=def", "--", "foo", " bar"]);
    assert_eq!(entries[3].flag, ["test3", "C:\\path", "D:path"]);
    assert_eq!(entries[4].flag, ["test4", "10m\\n", "--", "foo", "a=1"]);
    assert_eq!(entries[5].flag, ["test5", "a", "b", "  c"]);
    assert_eq!(entries[6].flag, ["test6", "a", "b", "c", "d", "e"]);
    assert_eq!(entries[7].flag, ["test7", "a", "b", "c", " d", "e"]);
}

#[test]
fn comments_and_unbound_variables() {
    let entries = parse("a $NOPE b # c\n  # only a comment\nd", None);
    assert_eq!(entries.len(), 2);
    assert_eq!(entries[0].flag, ["a", "", "b"]);
    assert_eq!(entries[1].flag, ["d"]);
}
