use mysqlite::row::{PrepareResult, Row, EMAIL_SIZE, ROW_SIZE, USERNAME_SIZE};
use mysqlite::table::Table;

fn row(id: u32, username: &[u8], email: &[u8]) -> Row {
    let mut u = username.to_vec();
    u.resize(USERNAME_SIZE, 0);
    let mut e = email.to_vec();
    e.resize(EMAIL_SIZE, 0);
    Row { id, username: u, email: e }
}

#[test]
fn encode_then_decode_gives_the_row_back() {
    let r = row(0x01020304, b"alice", b"alice@example.com");
    let bytes = r.encode();
    assert_eq!(bytes.len(), ROW_SIZE);
    assert_eq!(&bytes[0..4], &[4, 3, 2, 1]);
    assert_eq!(&bytes[4..9], b"alice");
    assert_eq!(bytes[9], 0);
    assert_eq!(&bytes[36..53], b"alice@example.com");
    let back = Row::decode(&bytes, 0);
    assert_eq!(back.id, r.id);
    assert_eq!(back.username, r.username);
    assert_eq!(back.email, r.email);
}

#[test]
fn decode_reads_at_an_offset() {
    let r = row(9, b"u", b"e");
    let mut bytes = vec![7u8; 10];
    bytes.extend(r.encode());
    let back = Row::decode(&bytes, 10);
    assert_eq!(back.id, 9);
    assert_eq!(back.display(), b"(9 u e)".to_vec());
}

#[test]
fn username_boundary() {
    let ok = Row::from_str(" 1 abcdefghijklmnopqrstuvwxyzabcdef a@b.com").unwrap();
    assert_eq!(ok.username.len(), USERNAME_SIZE);
    assert_eq!(ok.username_str(), "abcdefghijklmnopqrstuvwxyzabcdef");
    assert_eq!(
        Row::from_str(" 1 abcdefghijklmnopqrstuvwxyzabcdefg a@b.com").err(),
        Some(PrepareResult::StringTooLong)
    );
}

#[test]
fn email_boundary() {
    let ok = format!(" 1 u {}", "a".repeat(255));
    assert_eq!(Row::from_str(&ok).unwrap().email_str().len(), 255);
    let long = format!(" 1 u {}", "a".repeat(256));
    assert_eq!(Row::from_str(&long).err(), Some(PrepareResult::StringTooLong));
}

#[test]
fn username_length_counts_bytes() {
    // sixteen two-byte characters fit, seventeen do not
    let fits = format!("1 {} e", "é".repeat(16));
    assert_eq!(Row::from_str(&fits).unwrap().username_str(), "é".repeat(16));
    let over = format!("1 {} e", "é".repeat(17));
    assert_eq!(Row::from_str(&over).err(), Some(PrepareResult::StringTooLong));
}

#[test]
fn parse_errors() {
    assert_eq!(Row::from_str("").err(), Some(PrepareResult::SyntaxError));
    assert_eq!(Row::from_str("-1 u e").err(), Some(PrepareResult::SyntaxError));
    assert_eq!(Row::from_str("+ u e").err(), Some(PrepareResult::SyntaxError));
    assert_eq!(Row::from_str("1").err(), Some(PrepareResult::SyntaxError));
    assert_eq!(Row::from_str("1 u").err(), Some(PrepareResult::SyntaxError));
    // the username is checked before the email is looked for
    let long_user = format!("1 {}", "x".repeat(33));
    assert_eq!(Row::from_str(&long_user).err(), Some(PrepareResult::StringTooLong));
}

#[test]
fn parse_accepts_plus_sign_largest_id_and_extra_words() {
    let r = Row::from_str("\t+4294967295\u{3000}bob  bob@x extra words").unwrap();
    assert_eq!(r.id, 4294967295);
    assert_eq!(r.display(), b"(4294967295 bob bob@x)".to_vec());
    assert_eq!(Row::from_str("007 a b").unwrap().id, 7);
}

#[test]
fn invalid_utf8_shows_placeholder() {
    let r = row(1, &[0xff, 0xfe], b"a@b.com");
    assert_eq!(r.username_str(), "<Invalid utf-8>");
    assert_eq!(r.display(), b"(1 <Invalid utf-8> a@b.com)".to_vec());
}

#[test]
fn field_text_stops_at_first_zero() {
    assert_eq!(Row::bytes_to_str(b"abc\0def"), "abc");
    assert_eq!(Row::bytes_to_str(b"\0abc"), "");
    assert_eq!(Row::bytes_to_str("héllo".as_bytes()), "héllo");
    assert_eq!(Row::bytes_to_str(&[b'a', 0xc3]), "<Invalid utf-8>");
    assert_eq!(Row::bytes_to_str(&[b'a', 0, 0xc3]), "a");
}

#[test]
fn corrupt_row_does_not_stop_a_scan() {
    let mut table = Table::new(Vec::new());
    table.insert(&row(1, &[0xc0, 0x80], b"x")).unwrap();
    table.insert(&row(2, b"ok", b"y")).unwrap();
    let mut out = Vec::new();
    table.select(&mut out);
    assert_eq!(
        String::from_utf8(out).unwrap(),
        "(1 <Invalid utf-8> x)\n(2 ok y)\n"
    );
}
