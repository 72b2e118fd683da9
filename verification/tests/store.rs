use secret_store::store::{AddOutcome, Data, DecodeError, RemoveOutcome};

#[test]
fn add_then_view_all() {
    let mut d = Data::default();
    assert_eq!(AddOutcome::Added, d.add("mail", "hunter2"));
    assert_eq!(AddOutcome::Added, d.add("db", "s3cr3t"));
    let all = d.view(None);
    assert_eq!(
        vec![
            ("db".to_string(), "s3cr3t".to_string()),
            ("mail".to_string(), "hunter2".to_string())
        ],
        all
    );
}

#[test]
fn add_does_not_overwrite() {
    let mut d = Data::default();
    assert_eq!(AddOutcome::Added, d.add("k", "v1"));
    assert_eq!(AddOutcome::AlreadyExists, d.add("k", "v2"));
    assert_eq!(vec![("k".to_string(), "v1".to_string())], d.view(None));
}

#[test]
fn add_rejects_reserved_characters() {
    let mut d = Data::default();
    assert_eq!(AddOutcome::Invalid, d.add("", "value"));
    assert_eq!(AddOutcome::Invalid, d.add("a\tb", "value"));
    assert_eq!(AddOutcome::Invalid, d.add("a\nb", "value"));
    assert_eq!(AddOutcome::Invalid, d.add("key", "a\tb"));
    assert_eq!(AddOutcome::Invalid, d.add("key", "a\nb"));
    assert_eq!(0, d.view(None).len());
}

#[test]
fn remove_present_and_absent() {
    let mut d = Data::default();
    assert_eq!(AddOutcome::Added, d.add("db", "s3cr3t"));
    assert_eq!(RemoveOutcome::NotFound, d.remove("mail"));
    assert_eq!(vec![("db".to_string(), "s3cr3t".to_string())], d.view(None));
    assert_eq!(RemoveOutcome::Removed, d.remove("db"));
    assert_eq!(0, d.view(None).len());
    assert_eq!(RemoveOutcome::NotFound, d.remove("db"));
}

#[test]
fn remove_of_absent_leaves_store_unchanged() {
    let mut d = Data::default();
    assert_eq!(AddOutcome::Added, d.add("db", "s3cr3t"));
    assert_eq!(AddOutcome::Added, d.add("mail", "hunter2"));
    let before = d.to_bytes();
    assert_eq!(RemoveOutcome::NotFound, d.remove("no-such-id"));
    assert_eq!(before, d.to_bytes());
}

#[test]
fn view_with_prefix() {
    let mut d = Data::default();
    assert_eq!(AddOutcome::Added, d.add("db", "s3cr3t"));
    assert_eq!(AddOutcome::Added, d.add("mail", "hunter2"));
    assert_eq!(AddOutcome::Added, d.add("mailbox", "x"));
    assert_eq!(
        vec![("db".to_string(), "s3cr3t".to_string())],
        d.view(Some("d"))
    );
    assert_eq!(
        vec![
            ("mail".to_string(), "hunter2".to_string()),
            ("mailbox".to_string(), "x".to_string())
        ],
        d.view(Some("mail"))
    );
    assert_eq!(0, d.view(Some("zz")).len());
}

#[test]
fn encoding_is_canonical_bytes() {
    let mut d = Data::default();
    assert_eq!(AddOutcome::Added, d.add("mail", "hunter2"));
    assert_eq!(AddOutcome::Added, d.add("db", "s3cr3t"));
    assert_eq!(b"db\ts3cr3t\nmail\thunter2\n".to_vec(), d.to_bytes());
}

#[test]
fn encoding_is_deterministic() {
    let mut a = Data::default();
    assert_eq!(AddOutcome::Added, a.add("db", "s3cr3t"));
    assert_eq!(AddOutcome::Added, a.add("mail", "hunter2"));
    assert_eq!(AddOutcome::Added, a.add("aaa", "zzz"));
    let mut b = Data::default();
    assert_eq!(AddOutcome::Added, b.add("mail", "hunter2"));
    assert_eq!(AddOutcome::Added, b.add("aaa", "zzz"));
    assert_eq!(AddOutcome::Added, b.add("db", "s3cr3t"));
    assert_eq!(a.to_bytes(), b.to_bytes());
    assert_eq!(a.to_bytes(), a.to_bytes());
}

#[test]
fn empty_store_encodes_to_no_bytes() {
    let d = Data::default();
    assert_eq!(Vec::<u8>::new(), d.to_bytes());
}

#[test]
fn decode_of_empty_bytes_is_empty_store() {
    let d = Data::from_bytes(b"").expect("empty bytes decode");
    assert_eq!(0, d.view(None).len());
}

#[test]
fn decode_inverts_encode() {
    let mut d = Data::default();
    assert_eq!(AddOutcome::Added, d.add("db", "s3cr3t"));
    assert_eq!(AddOutcome::Added, d.add("mail", "hunter2"));
    assert_eq!(AddOutcome::Added, d.add("with space", "and value"));
    let bytes = d.to_bytes();
    let back = Data::from_bytes(&bytes).expect("canonical bytes decode");
    assert_eq!(d.view(None), back.view(None));
    assert_eq!(bytes, back.to_bytes());
}

#[test]
fn decode_keeps_unicode_content() {
    let mut d = Data::default();
    assert_eq!(AddOutcome::Added, d.add("caf\u{e9}", "\u{6e2c}\u{8a66} \u{1f511}"));
    let bytes = d.to_bytes();
    let back = Data::from_bytes(&bytes).expect("unicode bytes decode");
    assert_eq!(d.view(None), back.view(None));
}

#[test]
fn decode_sorts_lines_and_keeps_later_duplicate() {
    let d = Data::from_bytes(b"mail\thunter2\ndb\told\ndb\tnew\n").expect("lines decode");
    assert_eq!(
        vec![
            ("db".to_string(), "new".to_string()),
            ("mail".to_string(), "hunter2".to_string())
        ],
        d.view(None)
    );
}

#[test]
fn decode_rejects_missing_final_separator() {
    assert!(matches!(Data::from_bytes(b"db\ts3cr3t"), Err(DecodeError::Malformed)));
}

#[test]
fn decode_rejects_line_without_delimiter() {
    assert!(matches!(Data::from_bytes(b"dbs3cr3t\n"), Err(DecodeError::Malformed)));
}

#[test]
fn decode_rejects_line_with_two_delimiters() {
    assert!(matches!(Data::from_bytes(b"db\ts3\tcr3t\n"), Err(DecodeError::Malformed)));
}

#[test]
fn decode_rejects_empty_identifier() {
    assert!(matches!(Data::from_bytes(b"\ts3cr3t\n"), Err(DecodeError::Malformed)));
}

#[test]
fn decode_rejects_invalid_text() {
    assert!(matches!(Data::from_bytes(&[0xff, 0xfe, b'\n']), Err(DecodeError::Malformed)));
}

#[test]
fn decode_accepts_empty_value() {
    let d = Data::from_bytes(b"db\t\n").expect("empty value decodes");
    assert_eq!(vec![("db".to_string(), "".to_string())], d.view(None));
}
