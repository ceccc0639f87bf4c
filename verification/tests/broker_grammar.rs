//! The host name grammar.

use microkitchen::broker::mediator::grammar::{validate_hostname, GrammarError, MAX_NAME_LEN};

#[test]
fn accepts_ordinary_names() {
    for name in [
        "example.com",
        "a",
        "api.github.com",
        "xn--bcher-kva.example",
        "EXAMPLE.com",
        "1password.com",
        "a-b.c-d",
    ] {
        assert_eq!(validate_hostname(name.as_bytes()), Ok(name), "{name}");
    }
}

#[test]
fn rejects_without_repair() {
    let cases: &[(&[u8], GrammarError)] = &[
        (b"", GrammarError::Empty),
        (b"example.com\0.evil.com", GrammarError::InvalidByte(0)),
        (b"example.com\n", GrammarError::InvalidByte(b'\n')),
        (b" example.com", GrammarError::InvalidByte(b' ')),
        ("b\u{fc}cher.de".as_bytes(), GrammarError::InvalidByte(0xc3)),
        (b"under_score.com", GrammarError::InvalidByte(b'_')),
        (b"*.example.com", GrammarError::InvalidByte(b'*')),
        (b"example.com.", GrammarError::EmptyLabel),
        (b".example.com", GrammarError::EmptyLabel),
        (b"a..b", GrammarError::EmptyLabel),
        (b"-a.com", GrammarError::HyphenAtEdge),
        (b"a-.com", GrammarError::HyphenAtEdge),
    ];
    for (input, expected) in cases {
        assert_eq!(validate_hostname(input), Err(*expected), "{input:?}");
    }
}

#[test]
fn enforces_length_limits() {
    let label63 = "a".repeat(63);
    assert!(validate_hostname(format!("{label63}.com").as_bytes()).is_ok());
    assert_eq!(
        validate_hostname(format!("a{label63}.com").as_bytes()),
        Err(GrammarError::LabelTooLong)
    );

    // 4 labels of 63 plus 3 dots = 255 bytes.
    let long = [label63.as_str(); 4].join(".");
    assert_eq!(validate_hostname(long.as_bytes()), Err(GrammarError::TooLong));
    let max = format!("{}.{}", [label63.as_str(); 3].join("."), "a".repeat(61));
    assert_eq!(max.len(), MAX_NAME_LEN);
    assert!(validate_hostname(max.as_bytes()).is_ok());
}
