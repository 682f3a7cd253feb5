//! The content-addressed blob store: blobs live under the integrity
//! descriptor of their bytes, and are checked against it when read.
use crate::error::StoreError;
use vstd::prelude::*;

verus! {

#[verifier::external_type_specification]
pub struct ExAlgorithm(ssri::Algorithm);

#[verifier::external_type_specification]
pub struct ExHash(ssri::Hash);

#[verifier::external_type_specification]
pub struct ExIntegrity(ssri::Integrity);

/// The integrity descriptor (`sha256-<base64 digest>`) that the blob store
/// computes for `data`.
pub uninterp spec fn integrity_of(data: Seq<u8>) -> Seq<char>;

/// The SHA-256 integrity descriptor with digest `digest`.
pub open spec fn sha256_descriptor(digest: Seq<char>) -> Seq<char> {
    seq!['s', 'h', 'a', '2', '5', '6', '-'] + digest
}

/// `text` is one SHA-256 descriptor: `sha256-` and then a well-formed
/// digest.
pub open spec fn is_sha256_descriptor(text: Seq<char>) -> bool {
    &&& text.len() >= 7
    &&& text.subrange(0, 7) == seq!['s', 'h', 'a', '2', '5', '6', '-']
    &&& base64_ok(text.subrange(7, text.len() as int))
}

/// Whether `text` parses as an integrity descriptor.
pub uninterp spec fn integrity_parses(text: Seq<char>) -> bool;

/// Relies on `cacache::write_hash_sync`: it stores `data` under its SHA-256
/// integrity descriptor in the cache at `root` and returns that descriptor,
/// which `to_string` writes out as `sha256-` and the padded standard base64
/// of the 32-byte digest.
#[verifier::external_body]
pub(crate) fn cas_write(root: &str, data: &[u8]) -> (r: Result<String, StoreError>)
    ensures
        r matches Ok(h) ==> h@ == integrity_of(data@),
        r matches Ok(h) ==> is_sha256_descriptor(h@),
        r matches Err(e) ==> e == StoreError::Io,
{
    match cacache::write_hash_sync(root, data) {
        Ok(sri) => Ok(sri.to_string()),
        Err(_) => Err(StoreError::Io),
    }
}

/// Relies on `ssri::Integrity`'s `FromStr`: whether it accepts `text`
/// depends on the text alone. It splits the text at whitespace and each
/// part at `-` into an algorithm name and a digest, so a SHA-256 descriptor
/// gives one SHA-256 hash with the digest that follows `sha256-`.
#[verifier::external_body]
pub(crate) fn parse_integrity(text: &str) -> (r: Option<ssri::Integrity>)
    ensures
        r is Some <==> integrity_parses(text@),
        r is None ==> !is_sha256_descriptor(text@),
        r matches Some(i) ==> (is_sha256_descriptor(text@) ==> (i.hashes@.len() == 1
            && i.hashes@[0].algorithm == ssri::Algorithm::Sha256 && i.hashes@[0].digest@
            == text@.subrange(7, text@.len() as int))),
{
    text.parse::<ssri::Integrity>().ok()
}

/// Relies on `cacache::read_hash_sync`: it reads the blob stored under
/// `sri` and checks its bytes against `sri`. A missing blob is an I/O error
/// of kind `NotFound`, a failed check an integrity error. With one hash in
/// `sri` the check passes only where the digest of the bytes, computed with
/// that hash's algorithm and written in base64 as `write_hash_sync` writes
/// it, equals that hash's digest. It panics unless the first hash of `sri`
/// has a digest that decodes to two bytes or more.
#[verifier::external_body]
pub(crate) fn cas_read(root: &str, sri: &ssri::Integrity) -> (r: Result<Vec<u8>, StoreError>)
    requires
        sri.hashes@.len() == 1,
        base64_ok(sri.hashes@[0].digest@),
    ensures
        r matches Ok(d) ==> (sri.hashes@[0].algorithm == ssri::Algorithm::Sha256
            ==> sha256_descriptor(sri.hashes@[0].digest@) == integrity_of(d@)),
        r matches Err(e) ==> (e == StoreError::NotFound || e == StoreError::Integrity || e
            == StoreError::Io),
{
    match cacache::read_hash_sync(root, sri) {
        Ok(data) => Ok(data),
        Err(cacache::Error::IoError(e, _)) if e.kind() == std::io::ErrorKind::NotFound => {
            Err(StoreError::NotFound)
        },
        Err(cacache::Error::IntegrityError(_)) => Err(StoreError::Integrity),
        Err(_) => Err(StoreError::Io),
    }
}

/// Parses `text` into one integrity descriptor that the blob store can
/// look up: one hash with a well-formed digest.
pub fn parse_hash(text: &str) -> (r: Result<ssri::Integrity, StoreError>)
    ensures
        r matches Err(e) ==> e == StoreError::Parse,
        !integrity_parses(text@) ==> r is Err,
        r matches Ok(i) ==> i.hashes@.len() == 1 && base64_ok(i.hashes@[0].digest@),
        is_sha256_descriptor(text@) ==> (r matches Ok(i) && i.hashes@[0].algorithm
            == ssri::Algorithm::Sha256 && sha256_descriptor(i.hashes@[0].digest@) == text@),
{
    match parse_integrity(text) {
        None => Err(StoreError::Parse),
        Some(sri) => {
            if !integrity_usable(&sri) {
                return Err(StoreError::Parse);
            }
            proof {
                if is_sha256_descriptor(text@) {
                    assert(sha256_descriptor(text@.subrange(7, text@.len() as int)) == text@);
                }
            }
            Ok(sri)
        },
    }
}

/// A character of the standard base64 alphabet.
pub open spec fn base64_digit(c: char) -> bool {
    ('A' <= c && c <= 'Z') || ('a' <= c && c <= 'z') || ('0' <= c && c <= '9') || c == '+' || c
        == '/'
}

/// The six bits that a base64 character stands for.
pub open spec fn base64_bits(c: char) -> int {
    if 'A' <= c && c <= 'Z' {
        c as int - 'A' as int
    } else if 'a' <= c && c <= 'z' {
        c as int - 'a' as int + 26
    } else if '0' <= c && c <= '9' {
        c as int - '0' as int + 52
    } else if c == '+' {
        62
    } else {
        63
    }
}

/// How many `=` end `s`, up to two.
pub open spec fn base64_padding(s: Seq<char>) -> int {
    if s.len() >= 2 && s[s.len() - 1] == '=' && s[s.len() - 2] == '=' {
        2
    } else if s.len() >= 1 && s[s.len() - 1] == '=' {
        1
    } else {
        0
    }
}

/// `s` is padded standard base64 with no stray bits, and decodes to at least
/// two bytes.
pub open spec fn base64_ok(s: Seq<char>) -> bool {
    let n = s.len() as int;
    let p = base64_padding(s);
    &&& n >= 4
    &&& n % 4 == 0
    &&& n / 4 * 3 - p >= 2
    &&& forall|i: int| 0 <= i < n - p ==> base64_digit(#[trigger] s[i])
    &&& p == 2 ==> base64_bits(s[n - 3]) % 16 == 0
    &&& p == 1 ==> base64_bits(s[n - 2]) % 4 == 0
}

fn base64_digit_exec(c: char) -> (r: bool)
    ensures
        r == base64_digit(c),
{
    ('A' <= c && c <= 'Z') || ('a' <= c && c <= 'z') || ('0' <= c && c <= '9') || c == '+' || c
        == '/'
}

fn base64_bits_exec(c: char) -> (r: u32)
    ensures
        r == base64_bits(c),
{
    if 'A' <= c && c <= 'Z' {
        (c as u32) - ('A' as u32)
    } else if 'a' <= c && c <= 'z' {
        (c as u32) - ('a' as u32) + 26
    } else if '0' <= c && c <= '9' {
        (c as u32) - ('0' as u32) + 52
    } else if c == '+' {
        62
    } else {
        63
    }
}

/// Decides `base64_ok`.
pub fn is_base64_digest(s: &str) -> (r: bool)
    ensures
        r == base64_ok(s@),
{
    let n = s.unicode_len();
    if n < 4 || n % 4 != 0 {
        return false;
    }
    let p: usize = if s.get_char(n - 1) == '=' && s.get_char(n - 2) == '=' {
        2
    } else if s.get_char(n - 1) == '=' {
        1
    } else {
        0
    };
    assert(p == base64_padding(s@));
    if n / 4 * 3 - p < 2 {
        return false;
    }
    let mut i: usize = 0;
    while i < n - p
        invariant
            n == s@.len(),
            p == base64_padding(s@),
            n >= 4,
            n % 4 == 0,
            n / 4 * 3 - p >= 2,
            i <= n - p,
            forall|j: int| 0 <= j < i ==> base64_digit(#[trigger] s@[j]),
        decreases n - p - i,
    {
        if !base64_digit_exec(s.get_char(i)) {
            assert(!base64_digit(s@[i as int]));
            return false;
        }
        i = i + 1;
    }
    if p == 2 && base64_bits_exec(s.get_char(n - 3)) % 16 != 0 {
        return false;
    }
    if p == 1 && base64_bits_exec(s.get_char(n - 2)) % 4 != 0 {
        return false;
    }
    true
}

/// Whether `sri` names exactly one hash whose digest the blob store can
/// turn into a location.
pub fn integrity_usable(sri: &ssri::Integrity) -> (r: bool)
    ensures
        r == (sri.hashes@.len() == 1 && base64_ok(sri.hashes@[0].digest@)),
{
    sri.hashes.len() == 1 && is_base64_digest(sri.hashes[0].digest.as_str())
}

} // verus!
