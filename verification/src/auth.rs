//! Access-token handling: the shape check on the token, the Basic
//! authorization header for the credential lookup, and the
//! interpretation of the provider's credential response.

use vstd::prelude::*;
use vstd::string::StrSliceExecFns;
use vstd::string::StringExecFns;
use vstd::utf8::encode_utf8;
use base64::Engine;
use crate::errors::ConfigError;

verus! {

/// A hexadecimal digit, either case.
pub open spec fn spec_hex_char(c: char) -> bool {
    (48 <= c as u32 <= 57) || (97 <= c as u32 <= 102) || (65 <= c as u32 <= 70)
}

/// A well-formed access token: exactly 64 hexadecimal characters.
pub open spec fn spec_valid_token(s: Seq<char>) -> bool {
    s.len() == 64 && forall|i: int| 0 <= i < s.len() ==> spec_hex_char(#[trigger] s[i])
}

/// Whether the entered access token has the expected shape: a
/// 64-character hexadecimal string.
pub fn is_valid_token(token: &str) -> (r: bool)
    ensures
        r == spec_valid_token(token@),
{
    let n = token.unicode_len();
    if n != 64 {
        return false;
    }
    let mut i: usize = 0;
    while i < n
        invariant
            n == token@.len(),
            i <= n,
            forall|j: int| 0 <= j < i ==> spec_hex_char(#[trigger] token@[j]),
        decreases n - i,
    {
        let c = token.get_char(i);
        let u = c as u32;
        let ok = (48 <= u && u <= 57) || (97 <= u && u <= 102) || (65 <= u && u <= 70);
        if !ok {
            return false;
        }
        i = i + 1;
    }
    true
}

/// The standard padded base64 encoding of a byte sequence, as the
/// base64 crate's STANDARD engine computes it.
pub uninterp spec fn base64_std_of(bytes: Seq<u8>) -> Seq<char>;

/// Relies on base64's `Engine::encode` with the STANDARD engine: the
/// padded standard-alphabet encoding of the input bytes, four
/// characters for every started group of three bytes, depending on
/// the input bytes alone.
#[verifier::external_body]
fn base64_encode(bytes: &Vec<u8>) -> (r: String)
    requires
        bytes@.len() <= 0x1000_0000_0000_0000,
    ensures
        r@ == base64_std_of(bytes@),
        r@.len() == ((bytes@.len() + 2) / 3) * 4,
{
    base64::engine::general_purpose::STANDARD.encode(bytes.as_slice())
}

/// Every character encodes to at most four bytes.
proof fn lemma_encode_utf8_len(s: Seq<char>)
    ensures
        encode_utf8(s).len() <= 4 * s.len(),
    decreases s.len(),
{
    if s.len() > 0 {
        lemma_encode_utf8_len(s.drop_first());
    }
}

/// The Authorization header value of the credential lookup:
/// `Basic ` followed by the base64 encoding of `token:<token>`.
pub fn basic_auth_header(token: &str) -> (r: String)
    requires
        token@.len() <= 0x1_0000_0000,
    ensures
        r@ == "Basic "@ + base64_std_of(encode_utf8("token:"@ + token@)),
{
    let mut cred = String::new();
    cred.append("token:");
    cred.append(token);
    let bytes = cred.as_str().as_bytes_vec();
    proof {
        reveal_strlit("token:");
        assert("token:"@.len() == 6);
        assert(bytes@ == encode_utf8("token:"@ + token@));
        lemma_encode_utf8_len("token:"@ + token@);
    }
    let encoded = base64_encode(&bytes);
    let mut out = String::new();
    out.append("Basic ");
    out.append(encoded.as_str());
    out
}

/// Decide what the provider's credential response means: a 401 status
/// is a rejected token, a missing `nordlynx_private_key` field is a
/// token that cannot be used for WireGuard, and otherwise the private
/// key is returned as-is.
pub fn interpret_credentials_response(status: u16, key_field: Option<String>) -> (r: Result<
    String,
    ConfigError,
>)
    ensures
        status == 401 ==> (r matches Err(ConfigError::AccessTokenError(m)) && m@
            == "Invalid access token"@),
        status != 401 && key_field is None ==> (r matches Err(ConfigError::AccessTokenError(m))
            && m@ == "Access token is not valid for WireGuard configuration"@),
        status != 401 && key_field is Some ==> (r matches Ok(k) && k@ == key_field->0@),
{
    if status == 401 {
        Err(ConfigError::AccessTokenError(String::from_str("Invalid access token")))
    } else {
        match key_field {
            Some(k) => Ok(k),
            None => Err(
                ConfigError::AccessTokenError(
                    String::from_str("Access token is not valid for WireGuard configuration"),
                ),
            ),
        }
    }
}

} // verus!
