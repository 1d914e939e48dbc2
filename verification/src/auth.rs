//! Credentials of the exchange's private API and the signing of its requests.
use base64::engine::general_purpose::STANDARD;
use base64::Engine;
use hmac::digest::InvalidLength;
use hmac::{Hmac, Mac};
use sha2::Sha384;
use crate::text::{digit_char, digit_str};
use vstd::prelude::*;

verus! {

/// `digest::InvalidLength`, the error of a refused HMAC key; carried, never looked into.
#[verifier::external_type_specification]
#[verifier::external_body]
pub struct ExInvalidLength(InvalidLength);

/// The ASCII decimal digits of `n`, without leading zeros.
pub open spec fn nat_digits(n: nat) -> Seq<u8>
    decreases n,
{
    if n < 10 {
        seq![(48 + n) as u8]
    } else {
        nat_digits(n / 10).push((48 + n % 10) as u8)
    }
}

/// `n` written in decimal ASCII, with a leading `-` when negative.
pub open spec fn int_digits(n: int) -> Seq<u8> {
    if n < 0 {
        seq![45u8] + nat_digits((-n) as nat)
    } else {
        nat_digits(n as nat)
    }
}

/// Each byte as two lower-case hexadecimal digits, high digit first.
pub open spec fn hex_lower(bytes: Seq<u8>) -> Seq<char>
    decreases bytes.len(),
{
    if bytes.len() == 0 {
        Seq::empty()
    } else {
        let b = bytes.last() as int;
        hex_lower(bytes.drop_last()) + seq![digit_char(b / 16), digit_char(b % 16)]
    }
}

/// The standard, padded base64 text of some bytes.
pub uninterp spec fn base64_standard(data: Seq<u8>) -> Seq<char>;

/// The HMAC-SHA-384 tag of the UTF-8 bytes of `message` under the UTF-8 bytes of `key`.
pub uninterp spec fn hmac_sha384(key: Seq<char>, message: Seq<char>) -> Seq<u8>;

/// `chrono::Utc::now().timestamp_millis()`: the current time in milliseconds.
///
/// Nothing is claimed of the value, which depends on the clock.
#[verifier::external_body]
fn now_millis() -> i64 {
    chrono::Utc::now().timestamp_millis()
}

/// `base64::engine::general_purpose::STANDARD.encode`.
///
/// Claims only that the text is the named `base64_standard` of the bytes; the
/// length bound keeps the encoded length from overflowing, where the crate panics.
#[verifier::external_body]
fn encode_base64(data: &[u8]) -> (r: String)
    requires
        data@.len() <= usize::MAX / 2,
    ensures
        r@ == base64_standard(data@),
{
    STANDARD.encode(data)
}

/// `Hmac::<Sha384>::new_from_slice`, `update` and `finalize`.
///
/// Claims that the tag is the named `hmac_sha384` of key and message, that it is
/// 48 bytes long (the output size of SHA-384), and that the key is always accepted:
/// the crate hashes keys longer than a block and pads shorter ones, and returns
/// `Ok` for every length.
#[verifier::external_body]
fn hmac_sha384_tag(key: &str, message: &str) -> (r: Result<Vec<u8>, InvalidLength>)
    ensures
        r is Ok,
        r is Ok ==> r->Ok_0@ == hmac_sha384(key@, message@),
        r is Ok ==> r->Ok_0@.len() == 48,
{
    match Hmac::<Sha384>::new_from_slice(key.as_bytes()) {
        Ok(mut mac) => {
            mac.update(message.as_bytes());
            Ok(mac.finalize().into_bytes().to_vec())
        },
        Err(e) => Err(e),
    }
}

/// Lower-case hexadecimal, two digits per byte.
fn encode_hex(data: &[u8]) -> (r: String)
    ensures
        r@ == hex_lower(data@),
{
    let mut out = String::new();
    let n = data.len();
    let mut i: usize = 0;
    while i < n
        invariant
            n == data@.len(),
            0 <= i <= n,
            out@ == hex_lower(data@.take(i as int)),
        decreases n - i,
    {
        let b = data[i];
        out.append(digit_str((b / 16) as u64));
        out.append(digit_str((b % 16) as u64));
        proof {
            let t = data@.take(i + 1);
            assert(t.drop_last() =~= data@.take(i as int));
            assert(t.last() == b);
        }
        i = i + 1;
    }
    assert(data@.take(n as int) =~= data@);
    out
}

/// Hexadecimal text has two digits per byte.
pub proof fn lemma_hex_lower_len(bytes: Seq<u8>)
    ensures
        hex_lower(bytes).len() == 2 * bytes.len(),
    decreases bytes.len(),
{
    if bytes.len() > 0 {
        lemma_hex_lower_len(bytes.drop_last());
    }
}

/// Appends the decimal digits of `m` to `out`.
fn push_digits(m: u64, out: &mut Vec<u8>)
    ensures
        final(out)@ == old(out)@ + nat_digits(m as nat),
    decreases m,
{
    if m >= 10 {
        push_digits(m / 10, out);
    }
    let d: u8 = (m % 10) as u8;
    out.push(48 + d);
    proof {
        if m >= 10 {
            assert(old(out)@ + nat_digits(m as nat) =~= old(out)@ + nat_digits((m / 10) as nat) + seq![
                (48 + m % 10) as u8,
            ]);
        }
    }
}

/// The decimal text of `n` as ASCII bytes.
fn decimal_bytes(n: i64) -> (r: Vec<u8>)
    ensures
        r@ == int_digits(n as int),
{
    let mut out: Vec<u8> = Vec::new();
    if n < 0 {
        out.push(45u8);
        let m: u64 = (0i128 - n as i128) as u64;
        push_digits(m, &mut out);
    } else {
        push_digits(n as u64, &mut out);
    }
    out
}

/// Why a request could not be signed.
#[derive(Clone, Copy, Debug, PartialEq, Eq)]
pub enum AuthError {
    /// The secret was refused as an HMAC key.
    InvalidKeyLength,
}

/// The API key and secret.
#[derive(Debug)]
pub struct Auth {
    key: String,
    secret: String,
}

/// The payload sent with a request signed at `nonce`: the base64 of the nonce's decimal text.
pub open spec fn signed_payload(nonce: int) -> Seq<char> {
    base64_standard(int_digits(nonce))
}

/// The signature of a payload: the hexadecimal HMAC-SHA-384 of the payload under the secret.
pub open spec fn signature_of(secret: Seq<char>, payload: Seq<char>) -> Seq<char> {
    hex_lower(hmac_sha384(secret, payload))
}

impl Auth {
    pub closed spec fn spec_key(&self) -> Seq<char> {
        self.key@
    }

    pub closed spec fn spec_secret(&self) -> Seq<char> {
        self.secret@
    }

    /// Credentials from an API key and its secret.
    pub fn new(key: String, secret: String) -> (r: Auth)
        ensures
            r.spec_key() == key@,
            r.spec_secret() == secret@,
    {
        Auth { key, secret }
    }

    pub fn key(&self) -> (r: &str)
        ensures
            r@ == self.spec_key(),
    {
        self.key.as_str()
    }

    pub fn secret(&self) -> (r: &str)
        ensures
            r@ == self.spec_secret(),
    {
        self.secret.as_str()
    }

    /// Signs a request at the given nonce (milliseconds since the epoch): the
    /// payload is the base64 of the nonce's decimal text, and the signature the
    /// hexadecimal HMAC-SHA-384 of that payload under the secret.
    pub fn sign_with_nonce(&self, nonce: i64) -> (r: Result<(String, String), AuthError>)
        ensures
            r matches Ok((payload, signature)) && payload@ == signed_payload(nonce as int)
                && signature@ == signature_of(self.spec_secret(), payload@)
                && signature@.len() == 96,
    {
        let digits = decimal_bytes(nonce);
        proof {
            assert(digits@.len() <= 20) by {
                lemma_digits_len(nonce as int);
            }
        }
        let payload = encode_base64(digits.as_slice());
        let tag = match hmac_sha384_tag(self.secret(), payload.as_str()) {
            Ok(t) => t,
            Err(_) => return Err(AuthError::InvalidKeyLength),
        };
        let signature = encode_hex(tag.as_slice());
        proof {
            lemma_hex_lower_len(tag@);
        }
        Ok((payload, signature))
    }

    /// Signs a request to `path` with the current time in milliseconds as the nonce;
    /// the path is not part of the signed payload.
    pub fn sign(&self, path: &str) -> (r: Result<(String, String), AuthError>)
        ensures
            r matches Ok((payload, signature)) && exists|nonce: i64|
                #[trigger] signed_payload(nonce as int) == payload@ && signature@ == signature_of(
                    self.spec_secret(),
                    payload@,
                ) && signature@.len() == 96,
    {
        let nonce = now_millis();
        let r = self.sign_with_nonce(nonce);
        proof {
            assert(signed_payload(nonce as int) == r->Ok_0.0@);
        }
        r
    }
}

/// An `i64` has at most 20 characters in decimal.
proof fn lemma_digits_len(n: int)
    requires
        i64::MIN <= n <= i64::MAX,
    ensures
        int_digits(n).len() <= 20,
{
    let m: nat = if n < 0 { (-n) as nat } else { n as nat };
    assert(vstd::arithmetic::power::pow(10, 19) == 10_000_000_000_000_000_000) by {
        reveal(vstd::arithmetic::power::pow);
        reveal_with_fuel(vstd::arithmetic::power::pow, 20);
    }
    lemma_nat_digits_len(m, 19);
}

proof fn lemma_nat_digits_len(n: nat, k: nat)
    requires
        n < vstd::arithmetic::power::pow(10, k),
        k >= 1,
    ensures
        nat_digits(n).len() <= k,
    decreases k,
{
    vstd::arithmetic::power::lemma_pow_positive(10, (k - 1) as nat);
    if n >= 10 {
        assert(k >= 2) by {
            if k == 1 {
                vstd::arithmetic::power::lemma_pow1(10);
            }
        }
        assert(vstd::arithmetic::power::pow(10, k) == 10 * vstd::arithmetic::power::pow(
            10,
            (k - 1) as nat,
        )) by {
            vstd::arithmetic::power::lemma_pow_adds(10, 1, (k - 1) as nat);
            vstd::arithmetic::power::lemma_pow1(10);
        }
        assert(n / 10 < vstd::arithmetic::power::pow(10, (k - 1) as nat)) by (nonlinear_arith)
            requires
                n < 10 * vstd::arithmetic::power::pow(10, (k - 1) as nat),
        ;
        lemma_nat_digits_len(n / 10, (k - 1) as nat);
    }
}

} // verus!
