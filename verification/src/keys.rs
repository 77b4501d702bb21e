//! Textual form of node public keys.
//!
//! A public key is 32 raw bytes. Its textual form is the DNSCURVE base-32
//! encoding of those bytes (52 characters drawn from `a`–`z` and `0`–`9`)
//! followed by the literal suffix `.k`. This module checks the grammar of a
//! candidate string itself; only the base-32 conversion between digits and
//! raw bytes is delegated to the `data_encoding` crate.

use vstd::prelude::*;
use vstd::string::{StrSliceExecFns, StringExecFns};

verus! {

/// The reasons a textual key is rejected.
#[derive(Clone, Copy, Debug, PartialEq, Eq, Structural)]
pub enum KeyError {
    /// The string does not match the key grammar: 52 characters of `a`–`z`
    /// and `0`–`9`, then `.k`.
    CannotCreateFromString,
    /// The 52 digits do not decode to exactly 32 bytes.
    CannotDecode,
}

/// What `BASE32_DNSCURVE.decode` returns on the given digit bytes: 32 raw
/// key bytes, or nothing when the digits are no canonical encoding. The
/// result depends on the input alone.
pub uninterp spec fn dnscurve_decode(s: Seq<u8>) -> Option<Seq<u8>>;

/// What `BASE32_DNSCURVE.encode` returns on the given raw bytes. The result
/// depends on the input alone.
pub uninterp spec fn dnscurve_encode(b: Seq<u8>) -> Seq<char>;

/// Relies on `data_encoding::BASE32_DNSCURVE.decode`: decodes base-32 digit
/// bytes, returning `None` exactly on the inputs the crate rejects. The
/// length bound keeps clear of the crate's documented panic limit.
#[verifier::external_body]
fn base32_decode(input: &Vec<u8>) -> (r: Option<Vec<u8>>)
    requires
        8 * input@.len() <= usize::MAX,
    ensures
        (match r {
            Some(v) => dnscurve_decode(input@) == Some(v@),
            None => dnscurve_decode(input@) is None,
        }),
{
    data_encoding::BASE32_DNSCURVE.decode(input.as_slice()).ok()
}

/// Relies on `data_encoding::BASE32_DNSCURVE.encode`: encodes 32 raw bytes
/// as base-32 digits.
#[verifier::external_body]
fn base32_encode(input: &[u8; 32]) -> (r: String)
    ensures
        r@ == dnscurve_encode(input@),
{
    data_encoding::BASE32_DNSCURVE.encode(input.as_slice())
}

/// A character the 52-digit part of a textual key may use: `a`–`z` or
/// `0`–`9`.
pub open spec fn is_key_char(c: char) -> bool {
    ||| ('a' as u32) <= (c as u32) <= ('z' as u32)
    ||| ('0' as u32) <= (c as u32) <= ('9' as u32)
}

/// The key grammar: exactly 54 characters, 52 digits then the suffix `.k`.
pub open spec fn is_valid_key_str(s: Seq<char>) -> bool {
    &&& s.len() == 54
    &&& (forall|i: int| 0 <= i < 52 ==> is_key_char(#[trigger] s[i]))
    &&& s[52] == '.'
    &&& s[53] == 'k'
}

/// The 52 digit characters of a textual key, reread as bytes.
pub open spec fn key_body_bytes(s: Seq<char>) -> Seq<u8> {
    Seq::new(52, |i: int| (s[i] as u32) as u8)
}

/// The digits of a grammatical key decode to exactly 32 raw bytes.
pub open spec fn decodes_to_key(s: Seq<char>) -> bool {
    match dnscurve_decode(key_body_bytes(s)) {
        Some(b) => b.len() == 32,
        None => false,
    }
}

/// A node's public key: 32 raw bytes.
#[derive(Clone, Debug, PartialEq, Eq)]
pub struct CJDNSPublicKey {
    k: [u8; 32],
}

impl View for CJDNSPublicKey {
    type V = Seq<u8>;

    closed spec fn view(&self) -> Seq<u8> {
        self.k@
    }
}

impl CJDNSPublicKey {
    /// Parses the textual form of a public key.
    ///
    /// Succeeds exactly on strings that match the key grammar and whose 52
    /// digits decode to 32 raw bytes; a grammar mismatch and a decoding
    /// failure are told apart in the error.
    #[verifier::loop_isolation(false)]
    pub fn try_from(value: String) -> (res: Result<CJDNSPublicKey, KeyError>)
        ensures
            res is Ok <==> is_valid_key_str(value@) && decodes_to_key(value@),
            res matches Ok(key) ==> dnscurve_decode(key_body_bytes(value@)) == Some(key@),
            !is_valid_key_str(value@) ==> res == Err::<CJDNSPublicKey, KeyError>(
                KeyError::CannotCreateFromString,
            ),
            is_valid_key_str(value@) && res is Err ==> res == Err::<CJDNSPublicKey, KeyError>(
                KeyError::CannotDecode,
            ),
    {
        let s: &str = value.as_str();
        let n: usize = s.unicode_len();
        if n != 54 {
            return Err(KeyError::CannotCreateFromString);
        }
        let mut i: usize = 0;
        while i < 52
            invariant
                0 <= i <= 52,
                forall|t: int| 0 <= t < i ==> is_key_char(#[trigger] value@[t]),
            decreases 52 - i,
        {
            let c: char = s.get_char(i);
            let x: u32 = c as u32;
            let lower: bool = 'a' as u32 <= x && x <= 'z' as u32;
            let digit: bool = '0' as u32 <= x && x <= '9' as u32;
            if !lower && !digit {
                return Err(KeyError::CannotCreateFromString);
            }
            i = i + 1;
        }
        if s.get_char(52) != '.' {
            return Err(KeyError::CannotCreateFromString);
        }
        if s.get_char(53) != 'k' {
            return Err(KeyError::CannotCreateFromString);
        }
        let mut body: Vec<u8> = Vec::new();
        let mut t: usize = 0;
        while t < 52
            invariant
                0 <= t <= 52,
                body@.len() == t,
                forall|j: int| 0 <= j < t ==> body@[j] == (value@[j] as u32) as u8,
            decreases 52 - t,
        {
            let c: char = s.get_char(t);
            body.push((c as u32) as u8);
            t = t + 1;
        }
        proof {
            assert(body@ =~= key_body_bytes(value@));
            assert(is_valid_key_str(value@));
        }
        match base32_decode(&body) {
            None => Err(KeyError::CannotDecode),
            Some(decoded) => {
                if decoded.len() != 32 {
                    return Err(KeyError::CannotDecode);
                }
                let mut raw: [u8; 32] = [0u8; 32];
                let mut q: usize = 0;
                while q < 32
                    invariant
                        0 <= q <= 32,
                        decoded@.len() == 32,
                        forall|j: int| 0 <= j < q ==> raw@[j] == decoded@[j],
                    decreases 32 - q,
                {
                    raw[q] = decoded[q];
                    q = q + 1;
                }
                proof {
                    assert(raw@ =~= decoded@);
                }
                Ok(CJDNSPublicKey { k: raw })
            },
        }
    }

    /// Builds a public key from its 32 raw bytes.
    pub fn from_bytes(bytes: [u8; 32]) -> (res: CJDNSPublicKey)
        ensures
            res@ == bytes@,
    {
        CJDNSPublicKey { k: bytes }
    }

    /// The 32 raw bytes of the key.
    pub fn bytes(&self) -> (r: [u8; 32])
        ensures
            r@ == self@,
    {
        self.k
    }

    /// The textual form of the key: its base-32 digits with the suffix `.k`.
    pub fn to_text(&self) -> (r: String)
        ensures
            r@ == dnscurve_encode(self@) + ".k"@,
    {
        let encoded: String = base32_encode(&self.k);
        encoded.concat(".k")
    }
}

} // verus!
