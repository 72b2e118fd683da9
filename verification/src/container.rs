//! The encrypted container: key derivation from a password, and the
//! authenticated encryption of a store's canonical bytes into a
//! self-describing byte container, `nonce || ciphertext || tag`.
//!
//! The key is the leading 32 bytes of the Blake2b-512 digest of the
//! password's UTF-8 bytes. The ciphertext is the plaintext XORed with the
//! XChaCha20 keystream for that key and a fresh 24-byte random nonce. The
//! 32-byte tag is the leading bytes of the Blake2b-512 digest of
//! `key || nonce || ciphertext`, so any change to the container is caught
//! when the tag is recomputed on opening (up to collisions of the digest).

use crate::codec::{parse_text, rows_bytes};
use crate::model::rows_map;
use crate::store::{Data, DecodeError};
use chacha20::cipher::{KeyIvInit, StreamCipher};
use rand::RngCore;
use vstd::prelude::*;
use vstd::slice::{slice_index_get, slice_subrange, slice_to_vec};
use vstd::utf8::{decode_utf8, encode_utf8, valid_utf8};

verus! {

/// The Blake2b-512 digest of a byte sequence: a name for what the blake2
/// crate computes, not defined here.
pub uninterp spec fn blake2b_of(data: Seq<u8>) -> Seq<u8>;

/// Byte `i` of the XChaCha20 keystream for a key and nonce: a name for what
/// the chacha20 crate computes, not defined here.
pub uninterp spec fn keystream_byte(key: Seq<u8>, nonce: Seq<u8>, i: int) -> u8;

/// The 32-byte key derived from a password: the leading bytes of the
/// Blake2b-512 digest of its UTF-8 encoding.
pub open spec fn key_of(password: Seq<char>) -> Seq<u8> {
    Seq::new(32, |i: int| blake2b_of(encode_utf8(password))[i])
}

/// The 32-byte authentication tag of a container: the leading bytes of the
/// Blake2b-512 digest of `key || nonce || ciphertext`.
pub open spec fn tag_of(key: Seq<u8>, nonce: Seq<u8>, ct: Seq<u8>) -> Seq<u8> {
    Seq::new(32, |i: int| blake2b_of(key + nonce + ct)[i])
}

/// The data XORed with the keystream for this key and nonce; its own
/// inverse for a fixed key and nonce.
pub open spec fn stream_xor(data: Seq<u8>, key: Seq<u8>, nonce: Seq<u8>) -> Seq<u8> {
    Seq::new(data.len(), |i: int| data[i] ^ keystream_byte(key, nonce, i))
}

/// The sealed container holding a plaintext under a password and nonce:
/// `nonce || ciphertext || tag`, with a 24-byte nonce and a 32-byte tag.
pub open spec fn sealed_bytes(plaintext: Seq<u8>, password: Seq<char>, nonce: Seq<u8>) -> Seq<u8> {
    let key = key_of(password);
    let ct = stream_xor(plaintext, key, nonce);
    nonce + ct + tag_of(key, nonce, ct)
}

/// What opening a container yields: the recovered plaintext when the file
/// holds at least a nonce and a tag and its tag matches the one recomputed
/// from the password; nothing otherwise.
pub open spec fn unsealed(file: Seq<u8>, password: Seq<char>) -> Option<Seq<u8>> {
    if file.len() < 56 {
        None
    } else {
        let nonce = file.subrange(0, 24);
        let ct = file.subrange(24, file.len() - 32);
        let tag = file.subrange(file.len() - 32, file.len() as int);
        let key = key_of(password);
        if tag == tag_of(key, nonce, ct) {
            Some(stream_xor(ct, key, nonce))
        } else {
            None
        }
    }
}

/// Relies on blake2's `Blake2b512` (`Digest::digest`): the digest is 64
/// bytes and a function of the input bytes alone.
#[verifier::external_body]
fn blake2b_digest(data: &[u8]) -> (r: Vec<u8>)
    ensures
        r@ == blake2b_of(data@),
        r@.len() == 64,
{
    let digest = <blake2::Blake2b512 as blake2::Digest>::digest(data);
    digest.to_vec()
}

/// Relies on chacha20's `XChaCha20` (`KeyIvInit::new`,
/// `StreamCipher::apply_keystream`): XORs the buffer in place with the
/// keystream that the key and nonce alone determine. The length bound keeps
/// the call inside the cipher's keystream, where it cannot panic.
#[verifier::external_body]
fn xchacha20_apply(key: &[u8], nonce: &[u8], data: &mut Vec<u8>)
    requires
        key@.len() == 32,
        nonce@.len() == 24,
        old(data)@.len() <= 0x3f_ffff_ffc0,
    ensures
        final(data)@.len() == old(data)@.len(),
        forall|i: int|
            0 <= i < old(data)@.len() ==> final(data)@[i] == old(data)@[i] ^ keystream_byte(
                key@,
                nonce@,
                i,
            ),
{
    let mut cipher = chacha20::XChaCha20::new(
        chacha20::Key::from_slice(key),
        chacha20::XNonce::from_slice(nonce),
    );
    cipher.apply_keystream(data.as_mut_slice());
}

/// Relies on rand's `OsRng` (`RngCore::fill_bytes`): bytes from the
/// operating system's randomness source, aborting the process only if that
/// source fails, as the underlying call does. Nothing is assumed of the
/// bytes' values.
#[verifier::external_body]
fn random_bytes(len: usize) -> (r: Vec<u8>)
    ensures
        r@.len() == len,
{
    let mut buf = vec![0u8; len];
    rand::rngs::OsRng.fill_bytes(&mut buf);
    buf
}

/// Byte-wise equality of two slices.
fn bytes_eq(a: &[u8], b: &[u8]) -> (r: bool)
    ensures
        r == (a@ == b@),
{
    let n = a.len();
    if n != b.len() {
        return false;
    }
    let mut i: usize = 0;
    while i < n
        invariant
            i <= n,
            n == a@.len(),
            n == b@.len(),
            forall|k: int| 0 <= k < i ==> a@[k] == b@[k],
        decreases n - i,
    {
        if *slice_index_get(a, i) != *slice_index_get(b, i) {
            return false;
        }
        i = i + 1;
    }
    proof {
        assert(a@ =~= b@);
    }
    true
}

/// Derives the encryption key from a password: deterministic and one-way,
/// the same password always yields the same key.
pub fn derive_key(password: &str) -> (r: Vec<u8>)
    ensures
        r@ == key_of(password@),
        r@.len() == 32,
{
    let mut digest = blake2b_digest(password.as_bytes());
    digest.truncate(32);
    proof {
        assert(digest@ =~= key_of(password@));
    }
    digest
}

/// Seals a plaintext under a password: a fresh random nonce, the plaintext
/// XORed with the keystream, and a tag over key, nonce and ciphertext. The
/// nonce leads the container, so it stands in the first 24 bytes of the
/// result.
pub fn seal(plaintext: &[u8], password: &str) -> (r: Vec<u8>)
    requires
        plaintext@.len() <= 0x3f_ffff_ffc0,
    ensures
        r@.len() == plaintext@.len() + 56,
        r@ == sealed_bytes(plaintext@, password@, r@.subrange(0, 24)),
{
    let nonce = random_bytes(24);
    let key = derive_key(password);
    let mut ct = slice_to_vec(plaintext);
    xchacha20_apply(key.as_slice(), nonce.as_slice(), &mut ct);
    proof {
        assert(ct@ =~= stream_xor(plaintext@, key@, nonce@));
    }
    let mut tag_input: Vec<u8> = Vec::new();
    tag_input.extend_from_slice(key.as_slice());
    tag_input.extend_from_slice(nonce.as_slice());
    tag_input.extend_from_slice(ct.as_slice());
    proof {
        assert(tag_input@ =~= key@ + nonce@ + ct@);
    }
    let mut tag = blake2b_digest(tag_input.as_slice());
    tag.truncate(32);
    proof {
        assert(tag@ =~= tag_of(key@, nonce@, ct@));
    }
    let mut out: Vec<u8> = Vec::new();
    out.extend_from_slice(nonce.as_slice());
    out.extend_from_slice(ct.as_slice());
    out.extend_from_slice(tag.as_slice());
    proof {
        assert(out@.subrange(0, 24) =~= nonce@);
        assert(out@ =~= sealed_bytes(plaintext@, password@, nonce@));
    }
    out
}

/// Opens a sealed container: recomputes the tag from the password and, only
/// when it matches, undoes the keystream. A wrong password and a corrupted
/// file fail the same way; nothing distinguishes them.
pub fn unseal(file: &[u8], password: &str) -> (r: Option<Vec<u8>>)
    requires
        file@.len() <= 0x3f_ffff_ffc0,
    ensures
        match r {
            Option::Some(pt) => unsealed(file@, password@) == Some(pt@),
            Option::None => unsealed(file@, password@) is None,
        },
{
    let n = file.len();
    if n < 56 {
        return Option::None;
    }
    let nonce = slice_to_vec(slice_subrange(file, 0, 24));
    let ct = slice_to_vec(slice_subrange(file, 24, n - 32));
    let tag = slice_subrange(file, n - 32, n);
    let key = derive_key(password);
    let mut tag_input: Vec<u8> = Vec::new();
    tag_input.extend_from_slice(key.as_slice());
    tag_input.extend_from_slice(nonce.as_slice());
    tag_input.extend_from_slice(ct.as_slice());
    proof {
        assert(tag_input@ =~= key@ + nonce@ + ct@);
    }
    let mut expect = blake2b_digest(tag_input.as_slice());
    expect.truncate(32);
    proof {
        assert(expect@ =~= tag_of(key@, nonce@, ct@));
    }
    if !bytes_eq(expect.as_slice(), tag) {
        return Option::None;
    }
    let mut pt = ct;
    xchacha20_apply(key.as_slice(), nonce.as_slice(), &mut pt);
    proof {
        assert(pt@ =~= stream_xor(file@.subrange(24, n - 32), key@, nonce@));
    }
    Option::Some(pt)
}

/// Why loading a container failed.
#[derive(Clone, Copy, Debug, PartialEq, Eq, Structural)]
pub enum LoadError {
    /// The password is wrong, or the file is truncated, modified or not a
    /// container at all; by design the two cannot be told apart.
    WrongPasswordOrCorrupt,
    /// Authentication passed but the plaintext did not decode: an internal
    /// defect, not a routine condition.
    IntegrityDefect,
}

impl Data {
    /// Encrypts the store's canonical encoding under the password into a
    /// fresh container, `nonce || ciphertext || tag`, with a fresh random
    /// nonce. Writing the container to a file is the caller's part.
    pub fn save_bytes(&self, password: &str) -> (r: Vec<u8>)
        requires
            rows_bytes(self.rows()).len() <= 0x3f_ffff_ffc0,
        ensures
            r@.len() == rows_bytes(self.rows()).len() + 56,
            r@ == sealed_bytes(rows_bytes(self.rows()), password@, r@.subrange(0, 24)),
    {
        let pt = self.to_bytes();
        seal(pt.as_slice(), password)
    }

    /// Decrypts a container and decodes the store it holds into a fresh
    /// store; a failed load hands nothing back. Reading the container from
    /// a file is the caller's part.
    pub fn load_bytes(file: &[u8], password: &str) -> (r: Result<Data, LoadError>)
        requires
            file@.len() <= 0x3f_ffff_ffc0,
        ensures
            match r {
                Result::Ok(d) => {
                    &&& unsealed(file@, password@) is Some
                    &&& valid_utf8(unsealed(file@, password@).unwrap())
                    &&& parse_text(decode_utf8(unsealed(file@, password@).unwrap())) is Some
                    &&& d.as_map() == rows_map(
                        parse_text(decode_utf8(unsealed(file@, password@).unwrap())).unwrap(),
                    )
                },
                Result::Err(e) => match e {
                    LoadError::WrongPasswordOrCorrupt => unsealed(file@, password@) is None,
                    LoadError::IntegrityDefect => {
                        &&& unsealed(file@, password@) is Some
                        &&& (!valid_utf8(unsealed(file@, password@).unwrap()) || parse_text(
                            decode_utf8(unsealed(file@, password@).unwrap()),
                        ) is None)
                    },
                },
            },
    {
        let pt = match unseal(file, password) {
            Option::Some(pt) => pt,
            Option::None => {
                return Result::Err(LoadError::WrongPasswordOrCorrupt);
            },
        };
        match Data::from_bytes(pt.as_slice()) {
            Result::Ok(d) => Result::Ok(d),
            Result::Err(e) => match e {
                DecodeError::Malformed => Result::Err(LoadError::IntegrityDefect),
            },
        }
    }
}

/// Opening a sealed container with the password that sealed it recovers
/// exactly the sealed plaintext, whatever the nonce was.
pub proof fn lemma_unseal_sealed(plaintext: Seq<u8>, password: Seq<char>, nonce: Seq<u8>)
    requires
        nonce.len() == 24,
    ensures
        unsealed(sealed_bytes(plaintext, password, nonce), password) == Some(plaintext),
{
    let key = key_of(password);
    let ct = stream_xor(plaintext, key, nonce);
    let tag = tag_of(key, nonce, ct);
    let file = sealed_bytes(plaintext, password, nonce);
    assert(file.len() == plaintext.len() + 56);
    assert(file.subrange(0, 24) =~= nonce);
    assert(file.subrange(24, file.len() - 32) =~= ct);
    assert(file.subrange(file.len() - 32, file.len() as int) =~= tag);
    assert(stream_xor(ct, key, nonce) =~= plaintext) by {
        assert forall|i: int| 0 <= i < plaintext.len() implies stream_xor(ct, key, nonce)[i]
            == plaintext[i] by {
            let p = plaintext[i];
            let k = keystream_byte(key, nonce, i);
            assert((p ^ k) ^ k == p) by (bit_vector);
        }
    }
}

/// Tamper sensitivity at the tag: changing any byte of a container's
/// authentication tag makes opening fail. (A change to the nonce or the
/// ciphertext alters the recomputed digest's input instead; that this
/// changes the digest itself is the digest function's collision resistance,
/// which is not modelled here.)
pub proof fn lemma_tag_tamper_fails(file: Seq<u8>, password: Seq<char>, i: int, b: u8)
    requires
        unsealed(file, password) is Some,
        file.len() - 32 <= i < file.len(),
        b != file[i],
    ensures
        unsealed(file.update(i, b), password) is None,
{
    let g = file.update(i, b);
    assert(g.subrange(0, 24) =~= file.subrange(0, 24));
    assert(g.subrange(24, g.len() - 32) =~= file.subrange(24, file.len() - 32));
    let told = file.subrange(file.len() - 32, file.len() as int);
    let tnew = g.subrange(g.len() - 32, g.len() as int);
    assert(tnew[i - (file.len() - 32)] == b);
    assert(told[i - (file.len() - 32)] == file[i]);
    assert(tnew != told);
}

/// Round trip: sealing a store's canonical bytes and opening with the same
/// password yields plaintext that decodes back to the same records and the
/// same mapping.
pub proof fn lemma_save_load_round_trip(d: Data, password: Seq<char>, nonce: Seq<u8>)
    requires
        d.canonical(),
        nonce.len() == 24,
    ensures
        ({
            let pt = rows_bytes(d.rows());
            &&& unsealed(sealed_bytes(pt, password, nonce), password) == Some(pt)
            &&& valid_utf8(pt)
            &&& parse_text(decode_utf8(pt)) == Some(d.rows())
            &&& rows_map(parse_text(decode_utf8(pt)).unwrap()) == d.as_map()
        }),
{
    lemma_unseal_sealed(rows_bytes(d.rows()), password, nonce);
    crate::store::lemma_decode_encode(d);
}

} // verus!
