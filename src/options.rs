//! The values of the command-line options: output form, error-correction level,
//! input source and key source, and the key derived from a passphrase.
use vstd::prelude::*;
use vstd::string::StringSliceAdditionalSpecFns;
use crate::error::Error;
use crate::frame::{parse_byte_spec, hex_value, hex_digit};
use crate::split::EcLevel;

verus! {

/// How encoded output is written.
#[derive(Clone, Copy, Debug, PartialEq, Eq, Structural)]
pub enum OutputFormat {
    Png,
    Txt,
}

/// Where the input comes from. Names are kept as the bytes of the option text.
#[derive(Clone, Debug)]
pub enum InputSource {
    Stdin,
    Camera,
    Env(Vec<u8>),
    File(Vec<u8>),
}

/// Where the key comes from.
#[derive(Clone, Debug)]
pub enum PasswordSource {
    Prompt,
    Env(Vec<u8>),
    Key([u8; 32]),
    Value(Vec<u8>),
}

fn equals(a: &[u8], b: &[u8]) -> (r: bool)
    ensures
        r == (a@ == b@),
{
    if a.len() != b.len() {
        return false;
    }
    let mut i: usize = 0;
    while i < a.len()
        invariant
            i <= a@.len(),
            a@.len() == b@.len(),
            forall|j: int| 0 <= j < i ==> a@[j] == b@[j],
        decreases a@.len() - i,
    {
        if a[i] != b[i] {
            return false;
        }
        i += 1;
    }
    assert(a@ =~= b@);
    true
}

fn starts_with(a: &[u8], p: &[u8]) -> (r: bool)
    ensures
        r == (p@.len() <= a@.len() && a@.subrange(0, p@.len() as int) == p@),
{
    if p.len() > a.len() {
        return false;
    }
    let mut i: usize = 0;
    while i < p.len()
        invariant
            i <= p@.len() <= a@.len(),
            forall|j: int| 0 <= j < i ==> a@[j] == p@[j],
        decreases p@.len() - i,
    {
        if a[i] != p[i] {
            assert(a@.subrange(0, p@.len() as int)[i as int] != p@[i as int]);
            return false;
        }
        i += 1;
    }
    assert(a@.subrange(0, p@.len() as int) =~= p@);
    true
}

pub open spec fn ascii(s: &str) -> Seq<u8> {
    s.spec_bytes()
}

impl OutputFormat {
    /// `png` or `txt`.
    pub fn parse(s: &str) -> (r: Result<OutputFormat, Error>)
        ensures
            ascii(s) == seq![112u8, 110u8, 103u8] ==> r == Ok::<OutputFormat, Error>(OutputFormat::Png),
            ascii(s) == seq![116u8, 120u8, 116u8] ==> r == Ok::<OutputFormat, Error>(OutputFormat::Txt),
            ascii(s) != seq![112u8, 110u8, 103u8] && ascii(s) != seq![116u8, 120u8, 116u8]
                ==> r matches Err(Error::ValueValidation),
    {
        let b = s.as_bytes();
        if equals(b, &[112u8, 110u8, 103u8]) {
            assert([112u8, 110u8, 103u8]@ =~= seq![112u8, 110u8, 103u8]);
            Ok(OutputFormat::Png)
        } else if equals(b, &[116u8, 120u8, 116u8]) {
            assert([116u8, 120u8, 116u8]@ =~= seq![116u8, 120u8, 116u8]);
            Ok(OutputFormat::Txt)
        } else {
            assert([112u8, 110u8, 103u8]@ =~= seq![112u8, 110u8, 103u8]);
            assert([116u8, 120u8, 116u8]@ =~= seq![116u8, 120u8, 116u8]);
            Err(Error::ValueValidation)
        }
    }
}

/// The level a one-letter token names: `L`, `M`, `Q` or `H`.
pub open spec fn ec_level_of(s: Seq<u8>) -> Option<EcLevel> {
    if s == seq![76u8] {
        Some(EcLevel::Low)
    } else if s == seq![77u8] {
        Some(EcLevel::Medium)
    } else if s == seq![81u8] {
        Some(EcLevel::Quartile)
    } else if s == seq![72u8] {
        Some(EcLevel::High)
    } else {
        None
    }
}

/// Reads an error-correction level token.
pub fn parse_ec_level(s: &str) -> (r: Result<EcLevel, Error>)
    ensures
        match ec_level_of(ascii(s)) {
            Some(l) => r == Ok::<EcLevel, Error>(l),
            None => r matches Err(Error::ValueValidation),
        },
{
    let b = s.as_bytes();
    if b.len() == 1 {
        assert(b@ =~= seq![b@[0]]);
        let c = b[0];
        if c == 76u8 {
            return Ok(EcLevel::Low);
        } else if c == 77u8 {
            return Ok(EcLevel::Medium);
        } else if c == 81u8 {
            return Ok(EcLevel::Quartile);
        } else if c == 72u8 {
            return Ok(EcLevel::High);
        }
    }
    Err(Error::ValueValidation)
}

/// `env:`
pub open spec fn env_prefix() -> Seq<u8> {
    seq![101u8, 110u8, 118u8, 58u8]
}

/// `key:`
pub open spec fn key_prefix() -> Seq<u8> {
    seq![107u8, 101u8, 121u8, 58u8]
}

pub open spec fn has_prefix(s: Seq<u8>, p: Seq<u8>) -> bool {
    p.len() <= s.len() && s.subrange(0, p.len() as int) == p
}

impl InputSource {
    /// `stdin`, `camera`, `env:<name>`, or the path of a file; `path_exists` says
    /// whether `s` names an existing path.
    pub fn parse(s: &str, path_exists: bool) -> (r: Result<InputSource, Error>)
        ensures
            ascii(s) == seq![115u8, 116u8, 100u8, 105u8, 110u8] ==> r matches Ok(InputSource::Stdin),
            ascii(s) == seq![99u8, 97u8, 109u8, 101u8, 114u8, 97u8] ==> r matches Ok(InputSource::Camera),
            ascii(s) != seq![115u8, 116u8, 100u8, 105u8, 110u8] && ascii(s) != seq![99u8, 97u8, 109u8, 101u8, 114u8, 97u8] ==> {
                if has_prefix(ascii(s), env_prefix()) {
                    r matches Ok(InputSource::Env(n)) && n@ == ascii(s).subrange(4, ascii(s).len() as int)
                } else if path_exists {
                    r matches Ok(InputSource::File(p)) && p@ == ascii(s)
                } else {
                    r matches Err(Error::InvalidInput)
                }
            },
    {
        let b = s.as_bytes();
        let stdin = [115u8, 116u8, 100u8, 105u8, 110u8];
        let camera = [99u8, 97u8, 109u8, 101u8, 114u8, 97u8];
        let env = [101u8, 110u8, 118u8, 58u8];
        assert(stdin@ =~= seq![115u8, 116u8, 100u8, 105u8, 110u8]);
        assert(camera@ =~= seq![99u8, 97u8, 109u8, 101u8, 114u8, 97u8]);
        assert(env@ =~= env_prefix());
        if equals(b, &stdin) {
            Ok(InputSource::Stdin)
        } else if equals(b, &camera) {
            Ok(InputSource::Camera)
        } else if starts_with(b, &env) {
            Ok(InputSource::Env(crate::frame::copy_range(b, 4, b.len())))
        } else if path_exists {
            Ok(InputSource::File(crate::frame::copy_range(b, 0, b.len())))
        } else {
            Err(Error::InvalidInput)
        }
    }
}

/// Start of the hex digits of key byte `k` in a key text of length `len`: an odd
/// length gives the first byte a single digit.
pub open spec fn chunk_start(len: nat, k: nat) -> nat {
    if k == 0 { 0 } else { (2 * k - len % 2) as nat }
}

pub open spec fn chunk_end(len: nat, k: nat) -> nat {
    (2 * k + 2 - len % 2) as nat
}

/// The key a hex text spells: 63 or 64 hex digits and nothing else, most
/// significant byte first.
pub open spec fn hex_key_spec(h: Seq<u8>) -> Option<Seq<u8>> {
    if h.len() != 63 && h.len() != 64 {
        None
    } else if exists|i: int| 0 <= i < h.len() && #[trigger] hex_value(h[i]) is None {
        None
    } else if forall|k: nat| k < 32 ==> (#[trigger] parse_byte_spec(
        h.subrange(chunk_start(h.len(), k) as int, chunk_end(h.len(), k) as int), 16)) is Some {
        Some(Seq::new(32, |k: int| parse_byte_spec(
            h.subrange(chunk_start(h.len(), k as nat) as int, chunk_end(h.len(), k as nat) as int), 16)->Some_0 as u8))
    } else {
        None
    }
}

fn parse_hex_key(h: &[u8], start: usize) -> (r: Option<[u8; 32]>)
    requires
        start <= h@.len(),
    ensures
        match hex_key_spec(h@.subrange(start as int, h@.len() as int)) {
            Some(k) => r matches Some(a) && a@ == k,
            None => r is None,
        },
{
    let hv = crate::frame::copy_range(h, start, h.len());
    let ghost hs = hv@;
    let len = hv.len();
    if len != 63 && len != 64 {
        return None;
    }
    let mut i: usize = 0;
    while i < len
        invariant
            i <= len,
            len == hv@.len(),
            hs == hv@,
            hs == h@.subrange(start as int, h@.len() as int),
            forall|j: int| 0 <= j < i ==> #[trigger] hex_value(hs[j]) is Some,
        decreases len - i,
    {
        let c = hv[i];
        if !((48 <= c && c <= 57) || (97 <= c && c <= 102) || (65 <= c && c <= 70)) {
            assert(hex_value(hs[i as int]) is None);
            return None;
        }
        i += 1;
    }
    let odd = len % 2;
    let mut key = [0u8; 32];
    let mut k: usize = 0;
    while k < 32
        invariant
            k <= 32,
            len == hs.len(),
            hs == h@.subrange(start as int, h@.len() as int),
            hs == hv@,
            forall|j: int| 0 <= j < len ==> #[trigger] hex_value(hs[j]) is Some,
            odd == len % 2,
            len == 63 || len == 64,
            forall|j: nat| j < k ==> (#[trigger] parse_byte_spec(
                hs.subrange(chunk_start(len as nat, j) as int, chunk_end(len as nat, j) as int), 16)) is Some,
            forall|j: int| 0 <= j < k ==> key@[j] as nat == parse_byte_spec(
                hs.subrange(chunk_start(len as nat, j as nat) as int, chunk_end(len as nat, j as nat) as int), 16)->Some_0,
        decreases 32 - k,
    {
        let a = if k == 0 { 0 } else { 2 * k - odd };
        let b = 2 * k + 2 - odd;
        assert(a <= b && b <= len);
        match crate::frame::parse_byte(&hv, a, b, 16) {
            None => {
                assert(!(parse_byte_spec(hs.subrange(chunk_start(len as nat, k as nat) as int,
                    chunk_end(len as nat, k as nat) as int), 16) is Some));
                return None;
            },
            Some(v) => {
                key[k] = v as u8;
            },
        }
        k += 1;
    }
    assert(key@ =~= hex_key_spec(hs)->Some_0);
    Some(key)
}

impl PasswordSource {
    /// `prompt`, `env:<name>`, `key:<hex>` for a raw 256-bit key, or the
    /// passphrase itself.
    pub fn parse(s: &str) -> (r: Result<PasswordSource, Error>)
        ensures
            ascii(s) == seq![112u8, 114u8, 111u8, 109u8, 112u8, 116u8] ==> r matches Ok(PasswordSource::Prompt),
            ascii(s) != seq![112u8, 114u8, 111u8, 109u8, 112u8, 116u8] ==> {
                if has_prefix(ascii(s), env_prefix()) {
                    r matches Ok(PasswordSource::Env(n)) && n@ == ascii(s).subrange(4, ascii(s).len() as int)
                } else if has_prefix(ascii(s), key_prefix()) {
                    match hex_key_spec(ascii(s).subrange(4, ascii(s).len() as int)) {
                        Some(k) => r matches Ok(PasswordSource::Key(a)) && a@ == k,
                        None => r matches Err(Error::InvalidInput),
                    }
                } else {
                    r matches Ok(PasswordSource::Value(v)) && v@ == ascii(s)
                }
            },
    {
        let b = s.as_bytes();
        let prompt = [112u8, 114u8, 111u8, 109u8, 112u8, 116u8];
        let env = [101u8, 110u8, 118u8, 58u8];
        let key = [107u8, 101u8, 121u8, 58u8];
        assert(prompt@ =~= seq![112u8, 114u8, 111u8, 109u8, 112u8, 116u8]);
        assert(env@ =~= env_prefix());
        assert(key@ =~= key_prefix());
        if equals(b, &prompt) {
            Ok(PasswordSource::Prompt)
        } else if starts_with(b, &env) {
            Ok(PasswordSource::Env(crate::frame::copy_range(b, 4, b.len())))
        } else if starts_with(b, &key) {
            match parse_hex_key(b, 4) {
                Some(k) => Ok(PasswordSource::Key(k)),
                None => Err(Error::InvalidInput),
            }
        } else {
            Ok(PasswordSource::Value(crate::frame::copy_range(b, 0, b.len())))
        }
    }
}

/// Rounds of PBKDF2 used to turn a passphrase into a key.
pub const KDF_ROUNDS: u32 = 600_000;

/// The PBKDF2-HMAC-SHA256 key of `password` with `salt` after `rounds` rounds.
pub uninterp spec fn pbkdf2_sha256(password: Seq<u8>, salt: Seq<u8>, rounds: nat) -> Seq<u8>;

/// Relies on `pbkdf2::pbkdf2_hmac_array::<Sha256, 32>`: the key depends on the
/// password, salt and round count alone.
#[verifier::external_body]
fn pbkdf2_key(password: &[u8], salt: &[u8], rounds: u32) -> (r: [u8; 32])
    ensures
        r@ == pbkdf2_sha256(password@, salt@, rounds as nat),
{
    pbkdf2::pbkdf2_hmac_array::<sha2::Sha256, 32>(password, salt, rounds)
}

/// The key of a passphrase: PBKDF2-HMAC-SHA256 salted with the protocol magic.
pub fn derive_key(password: &[u8]) -> (r: [u8; 32])
    ensures
        r@ == pbkdf2_sha256(password@, crate::frame::magic(), KDF_ROUNDS as nat),
{
    let salt = [81u8, 82u8, 83u8, 84u8];
    assert(salt@ =~= crate::frame::magic());
    pbkdf2_key(password, &salt, KDF_ROUNDS)
}

/// The key written as lower-case hex, two digits per byte.
pub open spec fn key_hex_spec(key: Seq<u8>) -> Seq<u8> {
    Seq::new(2 * key.len(), |i: int| if i % 2 == 0 {
        hex_digit(key[i / 2] as nat / 16)
    } else {
        hex_digit(key[i / 2] as nat % 16)
    })
}

/// The key as lower-case hex text, as shown to the user.
pub fn key_hex(key: &[u8; 32]) -> (r: Vec<u8>)
    ensures
        r@ == key_hex_spec(key@),
{
    let mut out: Vec<u8> = Vec::new();
    let mut i: usize = 0;
    while i < 32
        invariant
            i <= 32,
            key@.len() == 32,
            out@.len() == 2 * i,
            forall|j: int| 0 <= j < 2 * i ==> #[trigger] out@[j] == key_hex_spec(key@)[j],
        decreases 32 - i,
    {
        let b = key[i];
        let hi = b / 16;
        let lo = b % 16;
        out.push(if hi < 10 { 48 + hi } else { 87 + hi });
        out.push(if lo < 10 { 48 + lo } else { 87 + lo });
        i += 1;
    }
    assert(out@ =~= key_hex_spec(key@));
    out
}

} // verus!
