//! The agent's configuration: storage mode, root directory, cloud account,
//! and the local server's port and secret.  Reading and writing the
//! configuration file happens outside; this module owns the values, the
//! defaults, the readiness test, and the tokens the agent mints.

use vstd::prelude::*;

use base64::Engine;

use crate::fingerprint::{spec_radix_digits, radix_digits};
use crate::json::spec_dec;
use crate::strutil::push_char;

verus! {

/// Where the files live: the remote cloud store, or a locally served vault.
#[derive(Clone, Copy, PartialEq, Eq, Structural, Debug)]
pub enum StorageMode {
    Cloud,
    PrivateVault,
}

impl Default for StorageMode {
    /// The default mode is cloud.
    fn default() -> (r: Self)
        ensures
            r == StorageMode::Cloud,
    {
        StorageMode::Cloud
    }
}

/// The server half of the configuration: which cloud API to talk to.
pub struct ServerSettings {
    pub api_base: String,
}

impl Default for ServerSettings {
    /// The stock cloud endpoint.
    fn default() -> (r: Self)
        ensures
            r.api_base@ == "https://cloud.mdflare.com"@,
    {
        ServerSettings { api_base: crate::strutil::str_copy("https://cloud.mdflare.com") }
    }
}

/// The agent's configuration.  `local_path` is the synced root; the cloud
/// fields matter in cloud mode, the server fields in vault mode.
pub struct Config {
    pub storage_mode: StorageMode,
    pub local_path: String,
    pub api_base: String,
    pub username: String,
    pub api_token: String,
    pub server_port: u16,
    pub server_token: String,
}

/// A string of lowercase hex digits, at least one.
pub open spec fn is_hex_string(s: Seq<char>) -> bool {
    s.len() > 0 && forall|i: int|
        0 <= i < s.len() ==> ('0' <= #[trigger] s[i] && s[i] <= '9') || ('a' <= s[i] && s[i]
            <= 'f')
}

/// The hex form of `n` without padding, `0` for zero.
pub open spec fn spec_hex(n: nat) -> Seq<char> {
    if n == 0 {
        seq!['0']
    } else {
        spec_radix_digits(n, 16)
    }
}

/// Reads the wall clock as whole seconds and the nanosecond remainder since
/// the Unix epoch.
///
/// Relies on `std::time::SystemTime::now` and `duration_since(UNIX_EPOCH)`:
/// the reading depends on the clock, so nothing is promised of the values;
/// a clock before the epoch reads as zero.
#[verifier::external_body]
fn unix_now() -> (r: (u64, u32)) {
    match std::time::SystemTime::now().duration_since(std::time::UNIX_EPOCH) {
        Ok(d) => (d.as_secs(), d.subsec_nanos()),
        Err(_) => (0, 0),
    }
}

/// The server token minted from a clock reading: the seconds in hex, then
/// the nanoseconds in hex.
pub fn token_from_time(secs: u64, nanos: u32) -> (r: String)
    ensures
        r@ == spec_hex(secs as nat) + spec_hex(nanos as nat),
{
    let mut out = String::new();
    if secs == 0 {
        push_char(&mut out, '0');
        proof {
            assert(out@ =~= seq!['0']);
        }
    } else {
        let d = radix_digits(secs, 16);
        out.append(d.as_str());
    }
    if nanos == 0 {
        push_char(&mut out, '0');
    } else {
        let d = radix_digits(nanos as u64, 16);
        out.append(d.as_str());
    }
    out
}

/// Mints a fresh server token from the clock.
pub fn generate_token() -> (r: String)
    ensures
        exists|secs: u64, nanos: u32| r@ == spec_hex(secs as nat) + spec_hex(nanos as nat),
{
    let (secs, nanos) = unix_now();
    let r = token_from_time(secs, nanos);
    proof {
        assert(r@ == spec_hex(secs as nat) + spec_hex(nanos as nat));
    }
    r
}

/// What base64 over the standard alphabet yields.  The encoding depends on
/// the characters alone.
pub uninterp spec fn base64_of(s: Seq<char>) -> Seq<char>;

/// Encodes a string's bytes in base64.
///
/// Relies on base64's `STANDARD` engine: the padded standard alphabet over
/// the input's UTF-8 bytes; a function of the input characters alone, and an
/// empty input stays empty.
#[verifier::external_body]
fn base64_encode(s: &str) -> (r: String)
    ensures
        r@ == base64_of(s@),
        s@.len() == 0 ==> r@.len() == 0,
{
    base64::engine::general_purpose::STANDARD.encode(s.as_bytes())
}

/// The plain text of a local connection token: the localhost URL, a `|`,
/// then the secret.
pub open spec fn spec_connection_plain(port: u16, token: Seq<char>) -> Seq<char> {
    "http://localhost:"@ + spec_dec(port as nat) + seq!['|'] + token
}

/// The connection token a peer uses to reach this agent on localhost:
/// `base64("http://localhost:<port>|<secret>")`.
pub fn generate_connection_token(port: u16, token: &str) -> (r: String)
    ensures
        r@ == base64_of(spec_connection_plain(port, token@)),
{
    let mut plain = String::new();
    plain.append("http://localhost:");
    if port == 0 {
        push_char(&mut plain, '0');
    } else {
        let d = radix_digits(port as u64, 10);
        plain.append(d.as_str());
    }
    push_char(&mut plain, '|');
    plain.append(token);
    proof {
        assert(plain@ =~= spec_connection_plain(port, token@));
    }
    base64_encode(plain.as_str())
}

/// The connection token for an externally visible URL:
/// `base64("<url>|<secret>")`.
pub fn generate_connection_token_with_url(url: &str, token: &str) -> (r: String)
    ensures
        r@ == base64_of(url@ + seq!['|'] + token@),
{
    let mut plain = String::new();
    plain.append(url);
    push_char(&mut plain, '|');
    plain.append(token);
    proof {
        assert(plain@ =~= url@ + seq!['|'] + token@);
    }
    base64_encode(plain.as_str())
}

impl Config {
    /// The configuration can start an agent: cloud mode needs an account,
    /// a token and a root; vault mode needs only a root.
    pub fn is_configured(&self) -> (r: bool)
        ensures
            r == match self.storage_mode {
                StorageMode::Cloud => self.username@.len() > 0 && self.local_path@.len() > 0
                    && self.api_token@.len() > 0,
                StorageMode::PrivateVault => self.local_path@.len() > 0,
            },
    {
        match self.storage_mode {
            StorageMode::Cloud => !self.username.as_str().is_empty()
                && !self.local_path.as_str().is_empty() && !self.api_token.as_str().is_empty(),
            StorageMode::PrivateVault => !self.local_path.as_str().is_empty(),
        }
    }
}

impl Config {
    /// Folds the server settings into a configuration read from disk: the
    /// API base comes from the settings, and an empty server token is
    /// replaced by a freshly minted one.
    pub fn finalize_loaded(self, api_base: String) -> (r: Config)
        ensures
            r.api_base@ == api_base@,
            r.storage_mode == self.storage_mode,
            r.local_path@ == self.local_path@,
            r.username@ == self.username@,
            r.api_token@ == self.api_token@,
            r.server_port == self.server_port,
            self.server_token@.len() > 0 ==> r.server_token@ == self.server_token@,
            r.server_token@.len() > 0,
    {
        let server_token = if self.server_token.as_str().is_empty() {
            let t = generate_token();
            proof {
                let (secs, nanos) = choose|secs: u64, nanos: u32|
                    t@ == spec_hex(secs as nat) + spec_hex(nanos as nat);
            }
            t
        } else {
            self.server_token
        };
        Config {
            storage_mode: self.storage_mode,
            local_path: self.local_path,
            api_base,
            username: self.username,
            api_token: self.api_token,
            server_port: self.server_port,
            server_token,
        }
    }
}

impl Default for Config {
    /// An unconfigured agent: cloud mode, empty account, the stock port,
    /// and a freshly minted server token.
    fn default() -> (r: Self)
        ensures
            r.storage_mode == StorageMode::Cloud,
            r.local_path@.len() == 0,
            r.api_base@.len() == 0,
            r.username@.len() == 0,
            r.api_token@.len() == 0,
            r.server_port == 7779,
            r.server_token@.len() > 0,
    {
        let token = generate_token();
        proof {
            let (secs, nanos) = choose|secs: u64, nanos: u32|
                token@ == spec_hex(secs as nat) + spec_hex(nanos as nat);
            if secs > 0 {
                crate::fingerprint::lemma_radix_digits_nonzero(secs as nat, 16);
            }
        }
        Config {
            storage_mode: StorageMode::Cloud,
            local_path: String::new(),
            api_base: String::new(),
            username: String::new(),
            api_token: String::new(),
            server_port: 7779,
            server_token: token,
        }
    }
}

} // verus!
