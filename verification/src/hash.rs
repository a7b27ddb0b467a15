//! Content digests and their text form, `algorithm:hexdigest`.

use crate::bytes::{append_bytes, bytes_eq};
use md5::Md5;
use sha2::Digest;
use sha2::Sha256;
use vstd::prelude::*;

verus! {

/// The digest algorithms that a repository can be configured with.
#[derive(Clone, Copy, Debug, PartialEq, Eq, Structural)]
pub enum HashAlgorithm {
    Md5,
    Sha256,
}

#[derive(Clone, Copy, Debug, PartialEq, Eq, Structural)]
pub enum HashError {
    /// The text is not `algorithm:hex` with the hex length of the algorithm.
    MalformedHash,
}

/// A parsed hash: the algorithm and the lower-case hex digits of the digest.
#[derive(Debug)]
pub struct Hash {
    pub algorithm: HashAlgorithm,
    pub hex: Vec<u8>,
}

/// The name of an algorithm as it stands before the colon.
pub open spec fn algorithm_name(alg: HashAlgorithm) -> Seq<u8> {
    match alg {
        HashAlgorithm::Md5 => seq![109u8, 100u8, 53u8],
        HashAlgorithm::Sha256 => seq![115u8, 104u8, 97u8, 50u8, 53u8, 54u8],
    }
}

/// The number of hex digits in a digest of the algorithm.
pub open spec fn hex_len(alg: HashAlgorithm) -> nat {
    match alg {
        HashAlgorithm::Md5 => 32,
        HashAlgorithm::Sha256 => 64,
    }
}

/// The number of bytes in a digest of the algorithm.
pub open spec fn raw_len(alg: HashAlgorithm) -> nat {
    match alg {
        HashAlgorithm::Md5 => 16,
        HashAlgorithm::Sha256 => 32,
    }
}

pub open spec fn is_hex_digit(b: u8) -> bool {
    (48 <= b <= 57) || (97 <= b <= 102)
}

/// The lower-case hex digit of a value below 16.
pub open spec fn hex_digit(n: u8) -> u8 {
    if n < 10 {
        (48 + n) as u8
    } else {
        (87 + n) as u8
    }
}

/// Two hex digits for each byte, the high half first.
pub open spec fn hex_encode(raw: Seq<u8>) -> Seq<u8> {
    Seq::new(
        2 * raw.len(),
        |k: int|
            if k % 2 == 0 {
                hex_digit(raw[k / 2] / 16)
            } else {
                hex_digit(raw[k / 2] % 16)
            },
    )
}

pub open spec fn valid_hex(alg: HashAlgorithm, hex: Seq<u8>) -> bool {
    hex.len() == hex_len(alg) && forall|i: int| 0 <= i < hex.len() ==> is_hex_digit(#[trigger] hex[i])
}

/// The text form of a hash.
pub open spec fn format_spec(alg: HashAlgorithm, hex: Seq<u8>) -> Seq<u8> {
    algorithm_name(alg) + seq![58u8] + hex
}

/// `s` is the text form of a valid hash of algorithm `alg`.
pub open spec fn shaped(alg: HashAlgorithm, s: Seq<u8>) -> bool {
    let n = algorithm_name(alg).len() as int;
    s.len() == n + 1 + hex_len(alg) && s.take(n) == algorithm_name(alg) && s[n] == 58u8
        && valid_hex(alg, s.skip(n + 1))
}

/// What a hash string parses to, if it is well formed.
pub open spec fn parse_spec(s: Seq<u8>) -> Option<(HashAlgorithm, Seq<u8>)> {
    if shaped(HashAlgorithm::Md5, s) {
        Some((HashAlgorithm::Md5, s.skip(4)))
    } else if shaped(HashAlgorithm::Sha256, s) {
        Some((HashAlgorithm::Sha256, s.skip(7)))
    } else {
        None
    }
}

/// The SHA-256 digest of a byte string.
pub uninterp spec fn sha256_of(data: Seq<u8>) -> Seq<u8>;

/// The MD5 digest of a byte string.
pub uninterp spec fn md5_of(data: Seq<u8>) -> Seq<u8>;

/// The digest of `data` under `alg`, as raw bytes.
pub open spec fn raw_digest(alg: HashAlgorithm, data: Seq<u8>) -> Seq<u8> {
    match alg {
        HashAlgorithm::Md5 => md5_of(data),
        HashAlgorithm::Sha256 => sha256_of(data),
    }
}

/// The hash string of `data` under `alg`.
pub open spec fn digest_spec(alg: HashAlgorithm, data: Seq<u8>) -> Seq<u8> {
    format_spec(alg, hex_encode(raw_digest(alg, data)))
}

/// Calls `sha2::Sha256::digest` (the `Digest` trait's one-shot function).
/// Trusted: the result is a function of the input bytes alone, and is the
/// 32 bytes of the algorithm's output size.
#[verifier::external_body]
fn sha256_raw(data: &[u8]) -> (r: Vec<u8>)
    ensures
        r@ == sha256_of(data@),
        r@.len() == 32,
{
    Sha256::digest(data).to_vec()
}

/// Calls `md5::Md5::digest` (the `Digest` trait's one-shot function).
/// Trusted: the result is a function of the input bytes alone, and is the
/// 16 bytes of the algorithm's output size.
#[verifier::external_body]
fn md5_raw(data: &[u8]) -> (r: Vec<u8>)
    ensures
        r@ == md5_of(data@),
        r@.len() == 16,
{
    Md5::digest(data).to_vec()
}

fn hex_digit_of(n: u8) -> (r: u8)
    requires
        n < 16,
    ensures
        r == hex_digit(n),
        is_hex_digit(r),
{
    if n < 10 {
        48 + n
    } else {
        87 + n
    }
}

/// Writes bytes as lower-case hex.
pub fn to_hex(raw: &[u8]) -> (r: Vec<u8>)
    ensures
        r@ == hex_encode(raw@),
        forall|i: int| 0 <= i < r@.len() ==> is_hex_digit(#[trigger] r@[i]),
{
    let mut out: Vec<u8> = Vec::new();
    let mut i: usize = 0;
    while i < raw.len()
        invariant
            i <= raw.len(),
            out@.len() == 2 * i,
            forall|k: int| 0 <= k < out@.len() ==> #[trigger] out@[k] == hex_encode(raw@)[k],
            forall|k: int| 0 <= k < out@.len() ==> is_hex_digit(#[trigger] out@[k]),
        decreases raw.len() - i,
    {
        let b: u8 = raw[i];
        out.push(hex_digit_of(b / 16));
        out.push(hex_digit_of(b % 16));
        i += 1;
    }
    assert(out@ =~= hex_encode(raw@));
    out
}

pub fn algorithm_name_bytes(alg: HashAlgorithm) -> (r: Vec<u8>)
    ensures
        r@ == algorithm_name(alg),
{
    let mut r: Vec<u8> = Vec::new();
    match alg {
        HashAlgorithm::Md5 => {
            r.push(109u8);
            r.push(100u8);
            r.push(53u8);
        },
        HashAlgorithm::Sha256 => {
            r.push(115u8);
            r.push(104u8);
            r.push(97u8);
            r.push(50u8);
            r.push(53u8);
            r.push(54u8);
        },
    }
    assert(r@ =~= algorithm_name(alg));
    r
}

fn hex_count(alg: HashAlgorithm) -> (r: usize)
    ensures
        r == hex_len(alg),
{
    match alg {
        HashAlgorithm::Md5 => 32,
        HashAlgorithm::Sha256 => 64,
    }
}

/// Tests whether `s` is the text form of a valid hash of algorithm `alg`.
fn is_shaped(alg: HashAlgorithm, s: &[u8]) -> (r: bool)
    ensures
        r == shaped(alg, s@),
{
    let name = algorithm_name_bytes(alg);
    let n: usize = name.len();
    if s.len() != n + 1 + hex_count(alg) {
        return false;
    }
    let mut i: usize = 0;
    while i < n
        invariant
            i <= n,
            n == name@.len(),
            n < s@.len(),
            name@ == algorithm_name(alg),
            forall|j: int| 0 <= j < i ==> s@[j] == name@[j],
        decreases n - i,
    {
        if s[i] != name[i] {
            assert(s@.take(n as int)[i as int] != name@[i as int]);
            return false;
        }
        i += 1;
    }
    assert(s@.take(n as int) =~= name@);
    if s[n] != 58u8 {
        return false;
    }
    let mut k: usize = n + 1;
    while k < s.len()
        invariant
            n + 1 <= k <= s.len(),
            n == algorithm_name(alg).len(),
            forall|j: int| n + 1 <= j < k ==> is_hex_digit(#[trigger] s@[j]),
        decreases s.len() - k,
    {
        let b: u8 = s[k];
        if !((48 <= b && b <= 57) || (97 <= b && b <= 102)) {
            assert(s@.skip(n + 1)[k - (n + 1)] == b);
            return false;
        }
        k += 1;
    }
    assert forall|j: int| 0 <= j < s@.skip(n + 1).len() implies is_hex_digit(
        #[trigger] s@.skip(n + 1)[j],
    ) by {
        assert(s@.skip(n + 1)[j] == s@[j + n + 1]);
    }
    true
}

fn tail_from(s: &[u8], from: usize) -> (r: Vec<u8>)
    requires
        from <= s@.len(),
    ensures
        r@ == s@.skip(from as int),
{
    let mut r: Vec<u8> = Vec::new();
    let mut i: usize = from;
    while i < s.len()
        invariant
            from <= i <= s.len(),
            r@ == s@.subrange(from as int, i as int),
        decreases s.len() - i,
    {
        r.push(s[i]);
        assert(r@ =~= s@.subrange(from as int, i + 1));
        i += 1;
    }
    assert(s@.subrange(from as int, s@.len() as int) =~= s@.skip(from as int));
    r
}

impl Hash {
    /// The hex part has the algorithm's length and holds hex digits only.
    pub open spec fn wf(&self) -> bool {
        valid_hex(self.algorithm, self.hex@)
    }

    /// The text form, `algorithm:hex`.
    pub open spec fn text(&self) -> Seq<u8> {
        format_spec(self.algorithm, self.hex@)
    }

    /// Reads a hash string. It is accepted exactly when it is an algorithm's
    /// name, a colon, and as many lower-case hex digits as the algorithm has.
    pub fn parse(s: &[u8]) -> (r: Result<Hash, HashError>)
        ensures
            match parse_spec(s@) {
                Some((alg, hex)) => r.is_ok() && r.unwrap().algorithm == alg && r.unwrap().hex@
                    == hex && r.unwrap().wf(),
                None => r == Err::<Hash, HashError>(HashError::MalformedHash),
            },
    {
        if is_shaped(HashAlgorithm::Md5, s) {
            Ok(Hash { algorithm: HashAlgorithm::Md5, hex: tail_from(s, 4) })
        } else if is_shaped(HashAlgorithm::Sha256, s) {
            Ok(Hash { algorithm: HashAlgorithm::Sha256, hex: tail_from(s, 7) })
        } else {
            Err(HashError::MalformedHash)
        }
    }

    /// Writes the hash as `algorithm:hex`.
    pub fn format(&self) -> (r: Vec<u8>)
        ensures
            r@ == self.text(),
    {
        let mut out = algorithm_name_bytes(self.algorithm);
        out.push(58u8);
        append_bytes(&mut out, self.hex.as_slice());
        assert(out@ =~= self.text());
        out
    }

    /// The digest of `content` under `alg`.
    pub fn digest(content: &[u8], alg: HashAlgorithm) -> (r: Hash)
        ensures
            r.algorithm == alg,
            r.hex@ == hex_encode(raw_digest(alg, content@)),
            r.text() == digest_spec(alg, content@),
            r.wf(),
    {
        let raw = match alg {
            HashAlgorithm::Md5 => md5_raw(content),
            HashAlgorithm::Sha256 => sha256_raw(content),
        };
        let hex = to_hex(raw.as_slice());
        Hash { algorithm: alg, hex }
    }
}

/// The hash string of `content` under `alg`.
pub fn hash_data(content: &[u8], alg: HashAlgorithm) -> (r: Vec<u8>)
    ensures
        r@ == digest_spec(alg, content@),
        parse_spec(r@) == Some((alg, hex_encode(raw_digest(alg, content@)))),
{
    let h = Hash::digest(content, alg);
    proof {
        lemma_parse_format(alg, h.hex@);
    }
    h.format()
}

/// Tests whether `content` has the digest that `claimed` names. A claim that
/// is no well-formed hash string has no content.
pub fn matches_digest(claimed: &[u8], content: &[u8], alg: HashAlgorithm) -> (r: bool)
    ensures
        r == (claimed@ == digest_spec(alg, content@)),
{
    let actual = hash_data(content, alg);
    bytes_eq(claimed, actual.as_slice())
}

/// Round trip: the text form of a valid hash parses to that hash.
pub proof fn lemma_parse_format(alg: HashAlgorithm, hex: Seq<u8>)
    requires
        valid_hex(alg, hex),
    ensures
        parse_spec(format_spec(alg, hex)) == Some((alg, hex)),
{
    let s = format_spec(alg, hex);
    let n = algorithm_name(alg).len() as int;
    assert(s.take(n) =~= algorithm_name(alg));
    assert(s.skip(n + 1) =~= hex);
    assert(s[n] == 58u8);
    assert(shaped(alg, s));
    if alg == HashAlgorithm::Sha256 {
        assert(!shaped(HashAlgorithm::Md5, s));
    }
}

/// Round trip: a well-formed hash string is the text form of what it parses to.
pub proof fn lemma_format_parse(s: Seq<u8>)
    requires
        parse_spec(s).is_some(),
    ensures
        format_spec(parse_spec(s).unwrap().0, parse_spec(s).unwrap().1) == s,
        valid_hex(parse_spec(s).unwrap().0, parse_spec(s).unwrap().1),
{
    let alg = parse_spec(s).unwrap().0;
    let n = algorithm_name(alg).len() as int;
    assert(shaped(alg, s));
    assert(s.take(n) + seq![58u8] + s.skip(n + 1) =~= s);
}

} // verus!
