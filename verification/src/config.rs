//! Configuration decisions: where a configured secret comes from, and
//! which backend or frontend a configured service name denotes. Reading
//! environment variables and files happens outside; the decisions are
//! verified.

use vstd::prelude::*;
use vstd::string::{StrSliceExecFns, StringExecFns};
use crate::errors::Error;
use crate::text::{lower_seq, str_eq, to_ascii_lower};

verus! {

/// Where a configured secret comes from: the value itself, or the file
/// named after a leading `@`.
pub enum KeySource {
    Literal(String),
    File(String),
}

/// Splits a configured secret: a value beginning with `@` names a key
/// file to read; any other value is the key itself.
pub fn key_source(value: String) -> (r: KeySource)
    ensures
        match r {
            KeySource::Literal(s) => (value@.len() == 0 || value@[0] != '@') && s@ == value@,
            KeySource::File(p) => value@.len() > 0 && value@[0] == '@' && p@ == value@.skip(1),
        },
{
    let len = value.as_str().unicode_len();
    if len > 0 && value.as_str().get_char(0) == '@' {
        let path = value.as_str().substring_char(1, len);
        proof {
            assert(path@ =~= value@.skip(1));
        }
        KeySource::File(String::from_str(path))
    } else {
        KeySource::Literal(value)
    }
}

/// The backends this tool knows.
pub enum BackendKind {
    Headscale,
    Jsonfile,
    Machinectl,
}

/// The frontends this tool knows.
pub enum FrontendKind {
    Cloudflare,
}

/// Recognizes a configured backend name, case-insensitively. An unknown
/// name is a fatal configuration error naming it.
pub fn classify_backend(name: &str) -> (r: Result<BackendKind, Error>)
    ensures
        ({
            let n = lower_seq(name@);
            match r {
                Ok(k) => match k {
                    BackendKind::Headscale => n == "headscale"@,
                    BackendKind::Jsonfile => n == "jsonfile"@,
                    BackendKind::Machinectl => n == "machinectl"@,
                },
                Err(e) => n != "headscale"@ && n != "jsonfile"@ && n != "machinectl"@ && match e {
                    Error::Config { message, prefix } => prefix@ == "backends"@ && message@
                        == "Unrecognized backend "@ + n,
                    _ => false,
                },
            }
        }),
{
    let lower = to_ascii_lower(name);
    if str_eq(lower.as_str(), "headscale") {
        Ok(BackendKind::Headscale)
    } else if str_eq(lower.as_str(), "jsonfile") {
        Ok(BackendKind::Jsonfile)
    } else if str_eq(lower.as_str(), "machinectl") {
        Ok(BackendKind::Machinectl)
    } else {
        let mut msg = String::from_str("Unrecognized backend ");
        msg.append(lower.as_str());
        Err(Error::Config { message: msg, prefix: String::from_str("backends") })
    }
}

/// Recognizes a configured frontend name, case-insensitively. An
/// unknown name is a fatal configuration error naming it.
pub fn classify_frontend(name: &str) -> (r: Result<FrontendKind, Error>)
    ensures
        ({
            let n = lower_seq(name@);
            match r {
                Ok(k) => match k {
                    FrontendKind::Cloudflare => n == "cloudflare"@,
                },
                Err(e) => n != "cloudflare"@ && match e {
                    Error::Config { message, prefix } => prefix@ == "frontends"@ && message@
                        == "Unrecognized frontend "@ + n,
                    _ => false,
                },
            }
        }),
{
    let lower = to_ascii_lower(name);
    if str_eq(lower.as_str(), "cloudflare") {
        Ok(FrontendKind::Cloudflare)
    } else {
        let mut msg = String::from_str("Unrecognized frontend ");
        msg.append(lower.as_str());
        Err(Error::Config { message: msg, prefix: String::from_str("frontends") })
    }
}

} // verus!
