use secret_store::container::{LoadError, derive_key, seal, unseal};
use secret_store::store::{AddOutcome, Data};

#[test]
fn save_then_load_round_trip() {
    let mut d = Data::default();
    assert_eq!(AddOutcome::Added, d.add("db", "s3cr3t"));
    assert_eq!(AddOutcome::Added, d.add("mail", "hunter2"));
    let file = d.save_bytes("correct-horse");
    let back = Data::load_bytes(&file, "correct-horse").expect("same password loads");
    assert_eq!(
        vec![
            ("db".to_string(), "s3cr3t".to_string()),
            ("mail".to_string(), "hunter2".to_string())
        ],
        back.view(None)
    );
    assert_eq!(vec![("db".to_string(), "s3cr3t".to_string())], back.view(Some("d")));
}

#[test]
fn save_then_load_empty_store() {
    let d = Data::default();
    let file = d.save_bytes("pw");
    assert_eq!(56, file.len());
    let back = Data::load_bytes(&file, "pw").expect("empty store loads");
    assert_eq!(0, back.view(None).len());
}

#[test]
fn wrong_password_is_rejected() {
    let mut d = Data::default();
    assert_eq!(AddOutcome::Added, d.add("db", "s3cr3t"));
    let file = d.save_bytes("correct-horse");
    match Data::load_bytes(&file, "wrong-horse") {
        Err(LoadError::WrongPasswordOrCorrupt) => (),
        other => panic!("wrong password must be rejected, got {:?}", other.map(|_| ())),
    }
}

#[test]
fn any_single_byte_flip_is_rejected() {
    let mut d = Data::default();
    assert_eq!(AddOutcome::Added, d.add("db", "s3cr3t"));
    assert_eq!(AddOutcome::Added, d.add("mail", "hunter2"));
    let file = d.save_bytes("correct-horse");
    for i in 0..file.len() {
        let mut tampered = file.clone();
        tampered[i] ^= 0x01;
        match Data::load_bytes(&tampered, "correct-horse") {
            Err(LoadError::WrongPasswordOrCorrupt) => (),
            other => panic!(
                "flip at byte {} must be rejected, got {:?}",
                i,
                other.map(|_| ())
            ),
        }
    }
}

#[test]
fn truncated_file_is_rejected() {
    let mut d = Data::default();
    assert_eq!(AddOutcome::Added, d.add("db", "s3cr3t"));
    let file = d.save_bytes("correct-horse");
    for len in [0, 1, 24, 55, file.len() - 1] {
        match Data::load_bytes(&file[..len], "correct-horse") {
            Err(LoadError::WrongPasswordOrCorrupt) => (),
            other => panic!(
                "truncation to {} must be rejected, got {:?}",
                len,
                other.map(|_| ())
            ),
        }
    }
}

#[test]
fn undecodable_plaintext_is_an_integrity_defect() {
    let no_delimiter = seal(b"line-without-delimiter\n", "pw");
    match Data::load_bytes(&no_delimiter, "pw") {
        Err(LoadError::IntegrityDefect) => (),
        other => panic!("expected an integrity defect, got {:?}", other.map(|_| ())),
    }
    let not_text = seal(&[0xff, 0xfe], "pw");
    match Data::load_bytes(&not_text, "pw") {
        Err(LoadError::IntegrityDefect) => (),
        other => panic!("expected an integrity defect, got {:?}", other.map(|_| ())),
    }
}

#[test]
fn derived_key_is_deterministic_and_sized() {
    let a = derive_key("correct-horse");
    let b = derive_key("correct-horse");
    let c = derive_key("wrong-horse");
    assert_eq!(32, a.len());
    assert_eq!(a, b);
    assert_ne!(a, c);
}

#[test]
fn derived_key_differs_from_short_password_bytes() {
    let key = derive_key("a");
    assert_eq!(32, key.len());
    assert_ne!(key[0], b'a');
}

#[test]
fn ciphertext_differs_from_plaintext() {
    let plaintext = b"db\ts3cr3t\nmail\thunter2\n";
    let file = seal(plaintext, "correct-horse");
    assert_eq!(plaintext.len() + 56, file.len());
    assert_ne!(&file[24..24 + plaintext.len()], plaintext.as_slice());
}

#[test]
fn each_save_draws_a_fresh_nonce() {
    let mut d = Data::default();
    assert_eq!(AddOutcome::Added, d.add("db", "s3cr3t"));
    let first = d.save_bytes("pw");
    let second = d.save_bytes("pw");
    assert_ne!(first[..24], second[..24]);
}

#[test]
fn seal_then_unseal_recovers_plaintext() {
    let plaintext = b"any bytes at all, not just records";
    let file = seal(plaintext, "pw");
    let back = unseal(&file, "pw").expect("same password unseals");
    assert_eq!(plaintext.to_vec(), back);
    assert!(unseal(&file, "other").is_none());
}
