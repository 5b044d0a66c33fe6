//! The embedded hook server's decisions: the token that authenticates
//! the coding agent, the check of a request's `X-Auth` header, the URL that is
//! registered, and the reply a request gets.

use vstd::prelude::*;
use rand::TryRngCore;
use subtle::ConstantTimeEq;
use crate::snapshots::{hex_lower, hex_of};
use crate::text::{decimal, owned, push_str, u64_to_string};

verus! {

/// Where the hook server listens, and the token it expects.
#[derive(Debug)]
pub struct HookServer {
    pub url: String,
    pub token: String,
    pub port: u16,
}

/// Whether the monitor's hooks are registered, and for which server.
#[derive(Debug)]
pub struct HooksStatus {
    pub registered: bool,
    pub url: String,
    pub port: u16,
}

#[verifier::external_type_specification]
#[verifier::external_body]
pub struct ExOsError(rand::rand_core::OsError);

/// Fills 32 bytes from the operating system's generator with
/// `rand::rngs::OsRng::try_fill_bytes`, or hands back its error. The bytes
/// are random: only their number is stated.
#[verifier::external_body]
fn os_random_32() -> (r: Result<Vec<u8>, rand::rand_core::OsError>)
    ensures
        r matches Ok(b) ==> b@.len() == 32,
{
    let mut bytes = [0u8; 32];
    rand::rngs::OsRng.try_fill_bytes(&mut bytes)?;
    Ok(bytes.to_vec())
}

/// A fresh token: 32 random bytes in lowercase hexadecimal, or the
/// generator's error.
pub fn random_token() -> (r: Result<String, rand::rand_core::OsError>)
    ensures
        r matches Ok(t) ==> t@.len() == 64 && exists|b: Seq<u8>| b.len() == 32 && t@ == hex_of(b),
{
    match os_random_32() {
        Ok(b) => {
            let t = hex_lower(b.as_slice());
            proof {
                crate::snapshots::lemma_hex_len(b@);
            }
            Ok(t)
        },
        Err(e) => Err(e),
    }
}

/// Compares two strings with `subtle::ConstantTimeEq` on their bytes, in
/// time independent of their contents when the lengths agree; true exactly
/// when the strings are equal.
#[verifier::external_body]
fn ct_str_eq(a: &str, b: &str) -> (r: bool)
    ensures
        r == (a@ == b@),
{
    a.as_bytes().ct_eq(b.as_bytes()).unwrap_u8() == 1
}

/// Whether a request is authorized: its `X-Auth` header (empty when absent)
/// equals the server's token, compared in constant time.
pub fn authorized(auth_header: Option<&str>, token: &str) -> (r: bool)
    ensures
        r == match auth_header {
            Some(h) => h@ == token@,
            None => ""@ == token@,
        },
{
    match auth_header {
        Some(h) => ct_str_eq(h, token),
        None => ct_str_eq("", token),
    }
}

/// The status and JSON body of the reply to a hook request: `401` with an
/// error for a request without the token, an empty object otherwise (the
/// server only observes; it never blocks the agent).
pub fn hook_reply(auth_header: Option<&str>, token: &str) -> (r: (u16, &'static str))
    ensures
        r == if match auth_header {
            Some(h) => h@ == token@,
            None => ""@ == token@,
        } {
            (200u16, "{}")
        } else {
            (401u16, "{\"error\":\"unauthorized\"}")
        },
{
    if authorized(auth_header, token) {
        (200, "{}")
    } else {
        (401, "{\"error\":\"unauthorized\"}")
    }
}

/// The URL hooks post to, for the port the server bound.
pub fn hook_url(port: u16) -> (r: String)
    ensures
        r@ == "http://127.0.0.1:"@ + decimal(port as nat) + "/h"@,
{
    let mut out = owned("http://127.0.0.1:");
    let p = u64_to_string(port as u64);
    push_str(&mut out, p.as_str());
    push_str(&mut out, "/h");
    out
}

/// The hooks status for a running server (registered or not for its URL),
/// or for no server: not registered, empty URL, port 0.
pub fn hooks_status(server: Option<&HookServer>, registered: bool) -> (r: HooksStatus)
    ensures
        match server {
            Some(s) => r.registered == registered && r.url@ == s.url@ && r.port == s.port,
            None => !r.registered && r.url@.len() == 0 && r.port == 0,
        },
{
    match server {
        Some(s) => HooksStatus { registered, url: owned(s.url.as_str()), port: s.port },
        None => HooksStatus { registered: false, url: String::new(), port: 0 },
    }
}

} // verus!
