//! The per-sandbox SOCKS5 password: `~/.microkitchen/sandboxes/<name>/proxy-secret`.
//!
//! microsandbox reads the password from a host environment variable at every
//! sandbox start, so microkitchen exports it before starting a sandbox; the
//! broker reads the same file to verify the handshake, and to re-register
//! sandboxes after it restarts.

use vstd::prelude::*;
use vstd::utf8::encode_utf8;

use crate::digest::{hex_text, lemma_hex_len, sha256, sha256_of, to_hex};
use crate::paths::{join_paths, path_join};
use crate::state::Home;
use crate::text::{concat, starts_with, trim, trimmed};

verus! {

pub fn path(home: &Home, name: &str) -> (r: String)
    ensures
        r@ == path_join(path_join(path_join(home@, "sandboxes"@), name@), "proxy-secret"@),
{
    let dir = home.sandbox_dir(name);
    join_paths(dir.as_str(), "proxy-secret")
}

/// A hexadecimal digit in upper case.
pub open spec fn upper_hex_digit(d: nat) -> char {
    if d < 10 {
        (48 + d) as char
    } else {
        (55 + d) as char
    }
}

/// Bytes as uppercase hexadecimal digits, two for each.
pub open spec fn upper_hex_text(bytes: Seq<u8>) -> Seq<char>
    decreases bytes.len(),
{
    if bytes.len() == 0 {
        Seq::empty()
    } else {
        let byte = bytes.last() as nat;
        upper_hex_text(bytes.drop_last()).push(upper_hex_digit(byte / 16)).push(
            upper_hex_digit(byte % 16),
        )
    }
}

/// `hex::encode_upper`: two uppercase hexadecimal digits for each byte, in
/// order.
#[verifier::external_body]
fn to_upper_hex(bytes: &[u8]) -> (r: String)
    ensures
        r@ == upper_hex_text(bytes@),
{
    hex::encode_upper(bytes)
}

/// The host environment variable microsandbox reads the password from.
pub fn env_var(name: &str) -> (r: String)
    ensures
        r@ == "MK_PROXY_SECRET_"@ + upper_hex_text(
            sha256_of(encode_utf8(name@)).subrange(0, 4),
        ),
{
    let digest = sha256(name.as_bytes());
    let hash = to_upper_hex(vstd::slice::slice_subrange(digest.as_slice(), 0, 4));
    concat("MK_PROXY_SECRET_", hash.as_str())
}

/// The secret in the text of its file.
pub fn stored(text: &str) -> (r: String)
    ensures
        r@ == trim(text@),
{
    trimmed(text)
}

/// `getrandom::fill`: that many random bytes, or why the system gave none.
/// Which bytes they are is chance.
#[verifier::external_body]
pub(crate) fn random_bytes(n: usize) -> (r: Result<Vec<u8>, String>)
    ensures
        r matches Ok(bytes) ==> bytes@.len() == n,
{
    let mut bytes = vec![0u8; n];
    match getrandom::fill(&mut bytes) {
        Ok(()) => Ok(bytes),
        Err(error) => Err(error.to_string()),
    }
}

/// The text of a secret made of 256 random bits.
pub fn secret_text(bytes: &Vec<u8>) -> (r: String)
    ensures
        r@ == hex_text(bytes@),
        r@.len() == 2 * bytes@.len(),
{
    proof {
        lemma_hex_len(bytes@);
    }
    to_hex(bytes.as_slice())
}

/// A new secret: 256 random bits in hexadecimal.
pub fn generate() -> (r: Result<String, String>)
    ensures
        r matches Ok(secret) ==> secret@.len() == 64 && exists|bytes: Seq<u8>|
            bytes.len() == 32 && secret@ == #[trigger] hex_text(bytes),
        r matches Err(text) ==> starts_with(text@, "generating a proxy secret: "@),
{
    match random_bytes(32) {
        Ok(bytes) => Ok(secret_text(&bytes)),
        Err(error) => {
            let text = concat("generating a proxy secret: ", error.as_str());
            assert(text@.subrange(0, "generating a proxy secret: "@.len() as int)
                =~= "generating a proxy secret: "@);
            Err(text)
        },
    }
}

/// A secret is written as two capital hexadecimal digits for each byte.
pub proof fn law_secrets_are_hexadecimal(bytes: Seq<u8>, byte: u8)
    ensures
        upper_hex_text(Seq::empty()).len() == 0,
        upper_hex_text(bytes.push(byte)) == upper_hex_text(bytes) + seq![
            upper_hex_digit(byte as nat / 16),
            upper_hex_digit(byte as nat % 16),
        ],
        byte < 10 ==> upper_hex_digit(byte as nat) as int == 48 + byte,
        10 <= byte < 16 ==> upper_hex_digit(byte as nat) as int == 65 + (byte - 10),
{
    assert(bytes.push(byte).drop_last() =~= bytes);
    assert(upper_hex_text(bytes.push(byte)) =~= upper_hex_text(bytes) + seq![
        upper_hex_digit(byte as nat / 16),
        upper_hex_digit(byte as nat % 16),
    ]);
}

} // verus!
