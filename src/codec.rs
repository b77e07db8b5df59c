//! The payload's two transforms: the authenticated-encryption envelope and the
//! padding-free URL-safe base64 text.
use vstd::prelude::*;
use crate::error::Error;
use aes_gcm::aead::rand_core::RngCore;
use aes_gcm::aead::{Aead, AeadCore, KeyInit, OsRng};
use aes_gcm::{Aes256Gcm, Key, Nonce};
use base64::Engine;

verus! {

/// Length of the AES-GCM nonce carried in an envelope.
pub const NONCE_LEN: usize = 12;

/// Longest plaintext AES-GCM seals (`aes_gcm::P_MAX`).
pub const MAX_PLAIN: u64 = 0x10_0000_0000;

/// The base64 text (URL-safe alphabet, no padding) of `b`.
pub uninterp spec fn base64_text(b: Seq<u8>) -> Seq<u8>;

/// The AES-256-GCM sealing of `plain` under `key` and `nonce`, no associated data.
pub uninterp spec fn gcm_sealed(key: Seq<u8>, nonce: Seq<u8>, plain: Seq<u8>) -> Seq<u8>;

/// The plaintext AES-256-GCM recovers from `sealed`, if its tag checks.
pub uninterp spec fn gcm_opened(key: Seq<u8>, nonce: Seq<u8>, sealed: Seq<u8>) -> Option<Seq<u8>>;

/// A byte of the URL-safe base64 alphabet.
pub open spec fn url_safe(c: u8) -> bool {
    (65 <= c <= 90) || (97 <= c <= 122) || (48 <= c <= 57) || c == 45u8 || c == 95u8
}

/// Relies on base64's `URL_SAFE_NO_PAD.encode`: its output depends on the bytes
/// alone and uses only the URL-safe alphabet.
#[verifier::external_body]
fn base64_encode(b: &[u8]) -> (r: Vec<u8>)
    ensures
        r@ == base64_text(b@),
        forall|i: int| 0 <= i < r@.len() ==> url_safe(#[trigger] r@[i]),
{
    base64::engine::general_purpose::URL_SAFE_NO_PAD.encode(b).into_bytes()
}

/// Relies on base64's `URL_SAFE_NO_PAD.decode`: with padding refused and
/// trailing bits required to be zero, it accepts exactly the canonical
/// encodings and returns the bytes they encode.
#[verifier::external_body]
fn base64_decode(s: &[u8]) -> (r: Option<Vec<u8>>)
    ensures
        r matches Some(v) ==> base64_text(v@) == s@,
        forall|b: Seq<u8>| base64_text(b) == s@ ==> r is Some && r->Some_0@ == b,
{
    base64::engine::general_purpose::URL_SAFE_NO_PAD.decode(s).ok()
}

/// Relies on `Aes256Gcm::encrypt` (aes-gcm), which fails exactly on a plaintext
/// longer than `P_MAX` and appends a 16-byte tag.
#[verifier::external_body]
fn gcm_encrypt(key: &[u8; 32], nonce: &[u8; 12], plain: &[u8]) -> (r: Option<Vec<u8>>)
    ensures
        r matches Some(c) ==> c@ == gcm_sealed(key@, nonce@, plain@) && c@.len() == plain@.len() + 16,
        plain@.len() <= MAX_PLAIN ==> r is Some,
        r is Some ==> plain@.len() <= MAX_PLAIN,
{
    let cipher = Aes256Gcm::new(Key::<Aes256Gcm>::from_slice(key));
    cipher.encrypt(Nonce::from_slice(nonce), plain).ok()
}

/// Relies on `Aes256Gcm::decrypt` (aes-gcm), which returns the plaintext a
/// sealing was made from under the same key and nonce (plaintexts up to `P_MAX`,
/// the longest that encryption accepts).
#[verifier::external_body]
fn gcm_decrypt(key: &[u8; 32], nonce: &[u8], sealed: &[u8]) -> (r: Option<Vec<u8>>)
    requires
        nonce@.len() == NONCE_LEN,
    ensures
        match r {
            Some(p) => gcm_opened(key@, nonce@, sealed@) == Some(p@),
            None => gcm_opened(key@, nonce@, sealed@) is None,
        },
        forall|p: Seq<u8>| p.len() <= MAX_PLAIN && gcm_sealed(key@, nonce@, p) == sealed@ ==> r is Some && r->Some_0@ == p,
{
    let cipher = Aes256Gcm::new(Key::<Aes256Gcm>::from_slice(key));
    cipher.decrypt(Nonce::from_slice(nonce), sealed).ok()
}

/// Relies on `Aes256Gcm::generate_nonce` with the OS random source; nothing is
/// known of the value.
#[verifier::external_body]
fn random_nonce() -> (r: [u8; 12]) {
    let n = Aes256Gcm::generate_nonce(&mut OsRng);
    let mut a = [0u8; 12];
    a.copy_from_slice(n.as_slice());
    a
}

/// Relies on `OsRng::next_u32` (rand_core); nothing is known of the value.
#[verifier::external_body]
fn random_u32() -> (r: u32) {
    OsRng.next_u32()
}

/// The envelope's first byte: the nonce length in the low five bits, random filler above.
pub open spec fn control_byte(filler: u32) -> u8 {
    ((filler & 0xe0u32) as u8) | (NONCE_LEN as u8)
}

/// `[control byte][nonce][sealed text]`.
pub open spec fn envelope(control: u8, nonce: Seq<u8>, sealed: Seq<u8>) -> Seq<u8> {
    seq![control] + nonce + sealed
}

/// What opening `data` under `key` gives.
pub open spec fn open_spec(data: Seq<u8>, key: Seq<u8>) -> Result<Seq<u8>, Error> {
    if data.len() < 1 + NONCE_LEN || (data[0] & 0x1fu8) != NONCE_LEN as u8 {
        Err(Error::InvalidInput)
    } else {
        match gcm_opened(key, data.subrange(1, 1 + NONCE_LEN), data.subrange(1 + NONCE_LEN, data.len() as int)) {
            Some(p) => Ok(p),
            None => Err(Error::InvalidInput),
        }
    }
}

/// Seals `plain` under `key` with the given nonce and filler bits.
pub fn seal_with(plain: &[u8], key: &[u8; 32], nonce: &[u8; 12], filler: u32) -> (r: Result<Vec<u8>, Error>)
    ensures
        plain@.len() <= MAX_PLAIN ==> r is Ok,
        r is Ok ==> plain@.len() <= MAX_PLAIN,
        r matches Ok(v) ==> v@ == envelope(control_byte(filler), nonce@, gcm_sealed(key@, nonce@, plain@)),
        r matches Ok(v) ==> gcm_sealed(key@, nonce@, plain@).len() == plain@.len() + 16
            && v@.len() == 1 + NONCE_LEN + plain@.len() + 16,
        r matches Err(e) ==> e == Error::Crypto,
{
    let sealed = match gcm_encrypt(key, nonce, plain) {
        Some(c) => c,
        None => {
            return Err(Error::Crypto);
        },
    };
    let mut out: Vec<u8> = Vec::new();
    out.push(((filler & 0xe0u32) as u8) | (NONCE_LEN as u8));
    let mut i: usize = 0;
    while i < NONCE_LEN
        invariant
            i <= NONCE_LEN,
            nonce@.len() == NONCE_LEN,
            out@ == seq![control_byte(filler)] + nonce@.subrange(0, i as int),
        decreases NONCE_LEN - i,
    {
        out.push(nonce[i]);
        i += 1;
        assert(out@ =~= seq![control_byte(filler)] + nonce@.subrange(0, i as int));
    }
    let mut j: usize = 0;
    while j < sealed.len()
        invariant
            j <= sealed@.len(),
            nonce@.len() == NONCE_LEN,
            out@ == seq![control_byte(filler)] + nonce@ + sealed@.subrange(0, j as int),
        decreases sealed@.len() - j,
    {
        out.push(sealed[j]);
        j += 1;
        assert(out@ =~= seq![control_byte(filler)] + nonce@ + sealed@.subrange(0, j as int));
    }
    assert(nonce@.subrange(0, NONCE_LEN as int) =~= nonce@);
    assert(sealed@.subrange(0, sealed@.len() as int) =~= sealed@);
    Ok(out)
}

/// Opens an envelope made by `seal_with` under `key`.
pub fn open_envelope(data: &[u8], key: &[u8; 32]) -> (r: Result<Vec<u8>, Error>)
    ensures
        match (r, open_spec(data@, key@)) {
            (Ok(v), Ok(s)) => v@ == s,
            (Err(e), Err(e2)) => e == e2,
            _ => false,
        },
        forall|c: u8, nonce: Seq<u8>, p: Seq<u8>|
            c & 0x1fu8 == NONCE_LEN as u8 && nonce.len() == NONCE_LEN && p.len() <= MAX_PLAIN
                && data@ == #[trigger] envelope(c, nonce, gcm_sealed(key@, nonce, p))
                ==> (r matches Ok(v) && v@ == p),
{
    if data.len() < 1 + NONCE_LEN || (data[0] & 0x1fu8) != NONCE_LEN as u8 {
        return Err(Error::InvalidInput);
    }
    let nonce = crate::frame::copy_range(data, 1, 1 + NONCE_LEN);
    let sealed = crate::frame::copy_range(data, 1 + NONCE_LEN, data.len());
    let r = gcm_decrypt(key, &nonce, &sealed);
    assert forall|c: u8, n: Seq<u8>, p: Seq<u8>|
        c & 0x1fu8 == NONCE_LEN as u8 && n.len() == NONCE_LEN && p.len() <= MAX_PLAIN
            && data@ == #[trigger] envelope(c, n, gcm_sealed(key@, n, p))
        implies (r matches Some(v) && v@ == p) by {
        let e = envelope(c, n, gcm_sealed(key@, n, p));
        assert(e.subrange(1, 1 + NONCE_LEN as int) =~= n);
        assert(e.subrange(1 + NONCE_LEN as int, e.len() as int) =~= gcm_sealed(key@, n, p));
    }
    match r {
        Some(p) => Ok(p),
        None => Err(Error::InvalidInput),
    }
}

/// The envelope's control byte always gives back the nonce length.
pub proof fn lemma_control_byte(filler: u32)
    ensures
        control_byte(filler) & 0x1fu8 == NONCE_LEN as u8,
{
    let c = control_byte(filler);
    assert(((((filler & 0xe0u32) as u8) | 12u8) & 0x1fu8) == 12u8) by (bit_vector);
}

/// Seals `plain` under `key` with a fresh random nonce and filler.
pub fn seal(plain: &[u8], key: &[u8; 32]) -> (r: Result<Vec<u8>, Error>)
    ensures
        plain@.len() <= MAX_PLAIN ==> r is Ok,
        r is Ok ==> plain@.len() <= MAX_PLAIN,
        r matches Ok(v) ==> v@.len() == 1 + NONCE_LEN + plain@.len() + 16,
        r matches Ok(v) ==> exists|filler: u32, nonce: Seq<u8>|
            nonce.len() == NONCE_LEN && v@ == #[trigger] envelope(control_byte(filler), nonce, gcm_sealed(key@, nonce, plain@))
            && gcm_sealed(key@, nonce, plain@).len() == plain@.len() + 16,
        r matches Err(e) ==> e == Error::Crypto,
{
    let nonce = random_nonce();
    let filler = random_u32();
    seal_with(plain, key, &nonce, filler)
}

/// The base64 text of `b`.
pub fn to_text(b: &[u8]) -> (r: Vec<u8>)
    ensures
        r@ == base64_text(b@),
        forall|i: int| 0 <= i < r@.len() ==> url_safe(#[trigger] r@[i]),
{
    base64_encode(b)
}

/// The bytes whose base64 text is `s`.
pub fn from_text(s: &[u8]) -> (r: Result<Vec<u8>, Error>)
    ensures
        r matches Ok(v) ==> base64_text(v@) == s@,
        r matches Err(e) ==> e == Error::InvalidInput && forall|b: Seq<u8>| base64_text(b) != s@,
        forall|b: Seq<u8>| #[trigger] base64_text(b) == s@ ==> (r matches Ok(v) && v@ == b),
{
    match base64_decode(s) {
        Some(v) => Ok(v),
        None => Err(Error::InvalidInput),
    }
}

} // verus!
