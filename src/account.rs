//! What identifies this machine to a session-sharing service: the
//! credentials sent with each request and the addresses to use.
use vstd::prelude::*;
use vstd::string::StringExecFns;
use vstd::utf8::encode_utf8;

use crate::header::push_all;

verus! {

/// The character of the standard base64 alphabet for a six-bit value.
pub open spec fn base64_char(n: int) -> char {
    if n < 26 {
        ((65 + n) as u8) as char
    } else if n < 52 {
        ((71 + n) as u8) as char
    } else if n < 62 {
        ((n - 4) as u8) as char
    } else if n == 62 {
        '+'
    } else {
        '/'
    }
}

/// The standard base64 text of some bytes: each group of three bytes becomes
/// four characters, and a last group of one or two bytes is padded with `=`.
pub open spec fn base64_of(b: Seq<u8>) -> Seq<char>
    decreases b.len(),
{
    let x0 = if b.len() > 0 { b[0] as int } else { 0 };
    let x1 = if b.len() > 1 { b[1] as int } else { 0 };
    let x2 = if b.len() > 2 { b[2] as int } else { 0 };
    if b.len() == 0 {
        seq![]
    } else if b.len() == 1 {
        seq![base64_char(x0 / 4), base64_char((x0 % 4) * 16), '=', '=']
    } else if b.len() == 2 {
        seq![
            base64_char(x0 / 4),
            base64_char((x0 % 4) * 16 + x1 / 16),
            base64_char((x1 % 16) * 4),
            '=',
        ]
    } else {
        seq![
            base64_char(x0 / 4),
            base64_char((x0 % 4) * 16 + x1 / 16),
            base64_char((x1 % 16) * 4 + x2 / 64),
            base64_char(x2 % 64),
        ] + base64_of(b.skip(3))
    }
}

/// Relies on base64::encode_config with base64::STANDARD: standard alphabet,
/// with padding. Its buffer size computation panics only for lengths near
/// the top of `usize`.
#[verifier::external_body]
fn encode_standard(bytes: &[u8]) -> (r: String)
    requires
        bytes@.len() <= usize::MAX / 4,
    ensures
        r@ == base64_of(bytes@),
{
    base64::encode_config(bytes, base64::STANDARD)
}

/// The bytes of `user:`, which open the credentials.
pub open spec fn user_prefix() -> Seq<u8> {
    seq![0x75u8, 0x73, 0x65, 0x72, 0x3a]
}

/// The `Authorization` value for `user:password` credentials already
/// encoded in base64.
pub fn authorization_value(encoded: &str) -> (r: String)
    ensures
        r@ == "Basic "@ + encoded@,
{
    "Basic ".to_owned().concat(encoded)
}

/// The `Authorization` value that identifies this machine: user `user`, the
/// install id as password.
pub fn basic_authorization(install_id: &str) -> (r: String)
    requires
        encode_utf8(install_id@).len() <= usize::MAX / 8,
    ensures
        r@ == "Basic "@ + base64_of(user_prefix() + encode_utf8(install_id@)),
{
    let mut credentials: Vec<u8> = Vec::new();
    let prefix: [u8; 5] = [0x75u8, 0x73, 0x65, 0x72, 0x3a];
    push_all(&mut credentials, &prefix);
    push_all(&mut credentials, install_id.as_bytes());
    assert(prefix@ =~= user_prefix());
    let encoded = encode_standard(credentials.as_slice());
    authorization_value(encoded.as_str())
}

/// The service to use: the one configured, else asciinema.org.
pub fn api_server_or_default(api_server: Option<String>) -> (r: String)
    ensures
        r@ == (match api_server {
            Some(s) => s@,
            None => "https://asciinema.org"@,
        }),
{
    match api_server {
        Some(s) => s,
        None => "https://asciinema.org".to_owned(),
    }
}

/// Where the user links this machine to an account.
pub fn connect_url(server: &str, install_id: &str) -> (r: String)
    ensures
        r@ == server@ + "/connect/"@ + install_id@,
{
    server.to_owned().concat("/connect/").concat(install_id)
}

/// Where recordings are uploaded.
pub fn upload_url(server: &str) -> (r: String)
    ensures
        r@ == server@ + "/api/asciicasts"@,
{
    server.to_owned().concat("/api/asciicasts")
}

} // verus!
