use compacts::procfile::{parse_lines, Entry, ParseError};

fn parse(text: &str) -> Result<Vec<Entry>, ParseError> {
    let lines: Vec<String> = text.lines().map(|l| l.to_owned()).collect();
    parse_lines(&lines)
}

fn entry(name: &str, cmdline: &[&str]) -> Entry {
    Entry { name: name.to_owned(), cmdline: cmdline.iter().map(|s| s.to_string()).collect() }
}

#[test]
fn check_parse() {
    let procfile = r#"
# comment
  # comment
    # comment
0:
1: gunicorn -b :$PORT main:app
2: abc\
--kill-after 10s --env APPLE=banana \
-- foo a b c
3: --backslask C:\path \
foo a=1 b=2 c=3
4: --kill-after 10m --timeout-is-ok -- foo a 1 b 2 c 3
5: a b c
6: a \
\
b \ c \ d e
7: \
# aaa
--env FOO=foo \ # env
# skip --env BAR=bar \
a \
b \
c
# :
# foo a b c
# : foo a b c
"#;
    let entries = parse(procfile).unwrap();
    println!("{entries:?}");
    assert_eq!(
        entries,
        vec![
            entry("0", &[]),
            entry("1", &["gunicorn -b :$PORT main:app"]),
            entry("2", &["abc", "--kill-after 10s --env APPLE=banana", "-- foo a b c"]),
            entry("3", &["--backslask C:\\path", "foo a=1 b=2 c=3"]),
            entry("4", &["--kill-after 10m --timeout-is-ok -- foo a 1 b 2 c 3"]),
            entry("5", &["a b c"]),
            entry("6", &["a", "b \\ c \\ d e"]),
            entry("7", &["--env FOO=foo", "a", "b", "c"]),
        ]
    );
}

#[test]
fn empty() {
    let procfile = r#""#;
    assert!(parse(procfile).is_ok());

    let procfile = r#"
"#;
    assert!(parse(procfile).is_ok());

    let procfile = r#"

        "#;
    assert!(parse(procfile).is_ok());
}

#[test]
fn refused_entries() {
    assert_eq!(parse("web gunicorn"), Err(ParseError::MissingColon));
    assert_eq!(parse(": gunicorn"), Err(ParseError::MissingName));
    assert_eq!(parse("a: x\nb y"), Err(ParseError::MissingColon));
    // The name is kept as it stands before the colon.
    assert_eq!(parse("  web : x").unwrap(), vec![entry("  web ", &["x"])]);
}
