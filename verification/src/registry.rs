//! The fixed registry of service-binding parameter keys: a bidirectional
//! mapping between 16-bit codes and symbolic keys, total on every code.

use vstd::prelude::*;

verus! {

/// The symbolic service-binding parameter keys. `Reserved` doubles as the
/// catch-all for every code outside the registry, so a code lookup never
/// fails.
#[derive(Debug, PartialEq, Eq, Hash, Clone)]
pub enum SVCBKey {
    Mandatory,
    Alpn,
    NoDefaultAlpn,
    Port,
    IPv4Hint,
    ECHConfig,
    IPv6Hint,
    ODoHConfig,
    Reserved,
}

/// The registered code of a key.
pub open spec fn spec_key_to_code(key: SVCBKey) -> u16 {
    match key {
        SVCBKey::Mandatory => 0,
        SVCBKey::Alpn => 1,
        SVCBKey::NoDefaultAlpn => 2,
        SVCBKey::Port => 3,
        SVCBKey::IPv4Hint => 4,
        SVCBKey::ECHConfig => 5,
        SVCBKey::IPv6Hint => 6,
        SVCBKey::ODoHConfig => 32769,
        SVCBKey::Reserved => 65535,
    }
}

/// The key registered for a code; every unregistered code falls back to
/// `Reserved`.
pub open spec fn spec_code_to_key(code: u16) -> SVCBKey {
    if code == 0 {
        SVCBKey::Mandatory
    } else if code == 1 {
        SVCBKey::Alpn
    } else if code == 2 {
        SVCBKey::NoDefaultAlpn
    } else if code == 3 {
        SVCBKey::Port
    } else if code == 4 {
        SVCBKey::IPv4Hint
    } else if code == 5 {
        SVCBKey::ECHConfig
    } else if code == 6 {
        SVCBKey::IPv6Hint
    } else if code == 32769 {
        SVCBKey::ODoHConfig
    } else {
        SVCBKey::Reserved
    }
}

/// True for the codes the registry maps to a key of their own.
pub open spec fn registered_code(code: u16) -> bool {
    code == 0 || code == 1 || code == 2 || code == 3 || code == 4 || code == 5 || code == 6
        || code == 32769 || code == 65535
}

/// The canonical lowercase hyphenated display name of a key; `Reserved`
/// displays as the empty string, a deliberate presentation gap, not an
/// error.
pub open spec fn spec_key_display_name(key: SVCBKey) -> Seq<char> {
    match key {
        SVCBKey::Mandatory => "mandatory"@,
        SVCBKey::Alpn => "alpn"@,
        SVCBKey::NoDefaultAlpn => "no-default-alpn"@,
        SVCBKey::Port => "port"@,
        SVCBKey::IPv4Hint => "ipv4hint"@,
        SVCBKey::ECHConfig => "echconfig"@,
        SVCBKey::IPv6Hint => "ipv6hint"@,
        SVCBKey::ODoHConfig => "odohconfig"@,
        SVCBKey::Reserved => ""@,
    }
}

/// The key for a 16-bit code. Total: an unregistered code yields `Reserved`
/// rather than a failure.
pub fn code_to_key(code: u16) -> (r: SVCBKey)
    ensures
        r == spec_code_to_key(code),
{
    if code == 0 {
        SVCBKey::Mandatory
    } else if code == 1 {
        SVCBKey::Alpn
    } else if code == 2 {
        SVCBKey::NoDefaultAlpn
    } else if code == 3 {
        SVCBKey::Port
    } else if code == 4 {
        SVCBKey::IPv4Hint
    } else if code == 5 {
        SVCBKey::ECHConfig
    } else if code == 6 {
        SVCBKey::IPv6Hint
    } else if code == 32769 {
        SVCBKey::ODoHConfig
    } else {
        SVCBKey::Reserved
    }
}

/// The registered code of a key; the exact inverse of `code_to_key` on
/// registered codes.
pub fn key_to_code(key: &SVCBKey) -> (r: u16)
    ensures
        r == spec_key_to_code(*key),
{
    match key {
        SVCBKey::Mandatory => 0,
        SVCBKey::Alpn => 1,
        SVCBKey::NoDefaultAlpn => 2,
        SVCBKey::Port => 3,
        SVCBKey::IPv4Hint => 4,
        SVCBKey::ECHConfig => 5,
        SVCBKey::IPv6Hint => 6,
        SVCBKey::ODoHConfig => 32769,
        SVCBKey::Reserved => 65535,
    }
}

/// The display name used in text emission.
pub fn key_display_name(key: &SVCBKey) -> (r: String)
    ensures
        r@ == spec_key_display_name(*key),
{
    match key {
        SVCBKey::Mandatory => "mandatory".to_owned(),
        SVCBKey::Alpn => "alpn".to_owned(),
        SVCBKey::NoDefaultAlpn => "no-default-alpn".to_owned(),
        SVCBKey::Port => "port".to_owned(),
        SVCBKey::IPv4Hint => "ipv4hint".to_owned(),
        SVCBKey::ECHConfig => "echconfig".to_owned(),
        SVCBKey::IPv6Hint => "ipv6hint".to_owned(),
        SVCBKey::ODoHConfig => "odohconfig".to_owned(),
        SVCBKey::Reserved => "".to_owned(),
    }
}

/// Registry totality and inversion: every 16-bit code has a key, an
/// unregistered code falls back to `Reserved`, looking a registered code's
/// key back up yields the code, and looking a key's code back up yields the
/// key.
pub proof fn lemma_registry_total_inverse()
    ensures
        forall|code: u16|
            registered_code(code) ==> spec_key_to_code(#[trigger] spec_code_to_key(code)) == code,
        forall|code: u16| !registered_code(code) ==> spec_code_to_key(code) == SVCBKey::Reserved,
        forall|key: SVCBKey| spec_code_to_key(#[trigger] spec_key_to_code(key)) == key,
{
}

} // verus!
