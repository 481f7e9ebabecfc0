use cloud_netconfig::ip::{ipv4_to_string, parse_ipv4_str, Ipv4};
use cloud_netconfig::text::{chars_of, contains_chars, parse_u8, push_decimal, split_chars, IntError};

fn chars(s: &str) -> Vec<char> {
    s.chars().collect()
}

fn pieces(s: &str, sep: char) -> Vec<String> {
    split_chars(&chars(s), sep).into_iter().map(|p| p.into_iter().collect()).collect()
}

#[test]
fn split_yields_pieces_like_str_split() {
    assert_eq!(pieces("10.0.0.1/24", '/'), vec!["10.0.0.1", "24"]);
    assert_eq!(pieces("", '/'), vec![""]);
    assert_eq!(pieces("a//b", '/'), vec!["a", "", "b"]);
    assert_eq!(pieces("/", '/'), vec!["", ""]);
    assert_eq!(pieces("abc", '/'), vec!["abc"]);
}

#[test]
fn chars_of_keeps_order() {
    assert_eq!(chars_of("ab/ü"), vec!['a', 'b', '/', 'ü']);
}

#[test]
fn contains_finds_substrings() {
    assert!(contains_chars(&chars("RTNETLINK: File exists"), &chars("File exists")));
    assert!(contains_chars(&chars("x"), &chars("")));
    assert!(!contains_chars(&chars("File exist"), &chars("File exists")));
    assert!(!contains_chars(&chars(""), &chars("E")));
}

#[test]
fn decimal_spelling() {
    let mut out = Vec::new();
    push_decimal(&mut out, 0);
    out.push(' ');
    push_decimal(&mut out, 4294967295);
    out.push(' ');
    push_decimal(&mut out, 10);
    assert_eq!(out.into_iter().collect::<String>(), "0 4294967295 10");
}

#[test]
fn parse_u8_follows_std() {
    for text in ["0", "24", "+7", "007", "255", "", "+", "-", "-1", "256", "2a", "999x", "99x9", "++1", " 1", "١"] {
        let expected = text.parse::<u8>();
        let got = parse_u8(&chars(text));
        match (expected, got) {
            (Ok(a), Ok(b)) => assert_eq!(a, b, "{text}"),
            (Err(e), Err(k)) => {
                let want = match e.kind() {
                    std::num::IntErrorKind::Empty => IntError::Empty,
                    std::num::IntErrorKind::InvalidDigit => IntError::InvalidDigit,
                    std::num::IntErrorKind::PosOverflow => IntError::PosOverflow,
                    other => panic!("unexpected kind {other:?}"),
                };
                assert_eq!(k, want, "{text}");
            }
            (a, b) => panic!("{text}: std {a:?}, library {b:?}"),
        }
    }
}

#[test]
fn parse_u8_exact_values() {
    assert_eq!(parse_u8(&chars("+24")), Ok(24));
    assert_eq!(parse_u8(&chars("")), Err(IntError::Empty));
    assert_eq!(parse_u8(&chars("+")), Err(IntError::InvalidDigit));
    assert_eq!(parse_u8(&chars("300")), Err(IntError::PosOverflow));
}

#[test]
fn ipv4_parse_accepts_dotted_quads() {
    assert_eq!(parse_ipv4_str("10.0.0.1"), Some(Ipv4(10, 0, 0, 1)));
    assert_eq!(parse_ipv4_str("0.0.0.0"), Some(Ipv4(0, 0, 0, 0)));
    assert_eq!(parse_ipv4_str("255.255.255.255"), Some(Ipv4(255, 255, 255, 255)));
    assert_eq!(parse_ipv4_str("1.2.3.0"), Some(Ipv4(1, 2, 3, 0)));
}

#[test]
fn ipv4_parse_refuses_other_texts() {
    for text in [
        "010.0.0.1", "1.2.3", "1.2.3.4.5", "256.1.1.1", "", "1..2.3", "1.2.3.4 ", "+1.2.3.4",
        "1.2.3.04", "a.b.c.d", "1234.1.1.1", "::1", "1.2.3.4/24", "1.2.3.-4",
    ] {
        assert_eq!(parse_ipv4_str(text), None, "{text}");
    }
}

#[test]
fn ipv4_text_is_dotted_decimal() {
    assert_eq!(ipv4_to_string(Ipv4(0, 0, 0, 0)), "0.0.0.0");
    assert_eq!(ipv4_to_string(Ipv4(10, 0, 0, 1)), "10.0.0.1");
    assert_eq!(ipv4_to_string(Ipv4(255, 255, 255, 255)), "255.255.255.255");
    assert_eq!(ipv4_to_string(Ipv4(192, 168, 100, 9)), "192.168.100.9");
}

#[test]
fn ipv4_text_reads_back() {
    for ip in [Ipv4(0, 0, 0, 0), Ipv4(10, 20, 30, 40), Ipv4(1, 99, 100, 255)] {
        assert_eq!(parse_ipv4_str(&ipv4_to_string(ip)), Some(ip));
    }
}
