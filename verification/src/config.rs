//! Wallet configuration: its defaults, and what is derived from it.
use crate::text::{eq_ignore_ascii_case, same_ignoring_case, trim, trim_end_char, trimmed, without_trailing};
use vstd::prelude::*;

verus! {

/// Configuration options of the wallet.
#[derive(Debug, Clone)]
pub struct Config {
    /// Remote lightwalletd server gRPC endpoint.
    pub server_url: String,
    /// Blockchain network (mainnet or testnet).
    pub network: String,
    /// TLS certificate pin: SHA-256 in hex of the leaf certificate's DER form.
    pub tls_pin_sha256: Option<String>,
    /// Whether remote lightwalletd traffic goes through the embedded Tor client.
    pub use_tor: bool,
    /// Block explorer base URL. Absent or blank means the network's default.
    pub explorer_url: Option<String>,
}

/// What was found where the configuration file should be.
pub enum ConfigFile {
    /// There is no file.
    Missing,
    /// The file cannot be read.
    Unreadable,
    /// The file does not hold a configuration.
    Malformed,
    /// The file holds this configuration.
    Parsed(Config),
}

/// The explorer origin that serves a network.
pub open spec fn network_explorer(network: Seq<char>) -> Seq<char> {
    if same_ignoring_case(network, "mainnet"@) {
        "https://explorer.dark.fi"@
    } else {
        "https://explorer.testnet.dark.fi"@
    }
}

/// A configured explorer URL without white space around it and slashes behind it.
pub open spec fn tidy_url(url: Seq<char>) -> Seq<char> {
    without_trailing(trimmed(url), '/')
}

/// Tor is on unless it is switched off.
pub fn default_use_tor() -> (on: bool)
    ensures
        on,
{
    true
}

impl Config {
    /// The values of a fresh configuration.
    pub open spec fn is_default(self) -> bool {
        &&& self.server_url@ == "http://127.0.0.1:9067"@
        &&& self.network@ == "testnet"@
        &&& self.tls_pin_sha256 is None
        &&& self.use_tor
        &&& self.explorer_url is None
    }

    /// The explorer origin for printed transaction links.
    pub open spec fn explorer_base(self) -> Seq<char> {
        match self.explorer_url {
            Some(url) if tidy_url(url@).len() > 0 => tidy_url(url@),
            _ => network_explorer(self.network@),
        }
    }

    /// The configuration in force after looking at the file, and whether it is to be written
    /// back: a missing file is created with the defaults, a broken one is left alone.
    pub fn load(file: ConfigFile) -> (loaded: (Config, bool))
        ensures
            match file {
                ConfigFile::Parsed(config) => loaded == (config, false),
                ConfigFile::Missing => loaded.0.is_default() && loaded.1,
                _ => loaded.0.is_default() && !loaded.1,
            },
    {
        match file {
            ConfigFile::Parsed(config) => (config, false),
            ConfigFile::Missing => (Config::default(), true),
            ConfigFile::Unreadable => (Config::default(), false),
            ConfigFile::Malformed => (Config::default(), false),
        }
    }

    /// Explorer origin used for printed transaction links.
    pub fn explorer_base_url(&self) -> (url: &str)
        ensures
            url@ == self.explorer_base(),
    {
        if let Some(url) = &self.explorer_url {
            let t = trim_end_char(trim(url.as_str()), '/');
            if !t.is_empty() {
                return t;
            }
        }
        if eq_ignore_ascii_case(self.network.as_str(), "mainnet") {
            "https://explorer.dark.fi"
        } else {
            "https://explorer.testnet.dark.fi"
        }
    }
}

impl Default for Config {
    fn default() -> (config: Self)
        ensures
            config.is_default(),
    {
        Config {
            server_url: "http://127.0.0.1:9067".to_owned(),
            network: "testnet".to_owned(),
            tls_pin_sha256: None,
            use_tor: default_use_tor(),
            explorer_url: None,
        }
    }
}

/// The explorer origin is never empty and never ends in a slash.
pub proof fn law_explorer_base_is_tidy(config: Config)
    ensures
        config.explorer_base().len() > 0,
        config.explorer_base().last() != '/',
{
    reveal_strlit("https://explorer.dark.fi");
    reveal_strlit("https://explorer.testnet.dark.fi");
    if let Some(url) = config.explorer_url {
        lemma_no_trailing(trimmed(url@), '/');
    }
}

proof fn lemma_no_trailing(s: Seq<char>, c: char)
    ensures
        without_trailing(s, c).len() > 0 ==> without_trailing(s, c).last() != c,
    decreases s.len(),
{
    if s.len() > 0 && s.last() == c {
        lemma_no_trailing(s.drop_last(), c);
    }
}

/// A configured explorer stands without the white space around it and the slashes behind it; an
/// absent or blank one gives way to the network's own, which is the main one for `mainnet` in any
/// case.
pub proof fn law_explorer(config: Config)
    ensures
        config.explorer_url is Some && without_trailing(
            trimmed(config.explorer_url->0@),
            '/',
        ).len() > 0 ==> config.explorer_base() == without_trailing(
            trimmed(config.explorer_url->0@),
            '/',
        ),
        config.explorer_url is None || without_trailing(
            trimmed(config.explorer_url->0@),
            '/',
        ).len() == 0 ==> config.explorer_base() == if same_ignoring_case(
            config.network@,
            "mainnet"@,
        ) {
            "https://explorer.dark.fi"@
        } else {
            "https://explorer.testnet.dark.fi"@
        },
{
}

/// A fresh configuration talks to this machine, on the test network, with Tor on, and names
/// neither a pin nor an explorer.
pub proof fn law_fresh_configuration(config: Config)
    requires
        config.is_default(),
    ensures
        config.server_url@ == "http://127.0.0.1:9067"@,
        config.network@ == "testnet"@,
        config.tls_pin_sha256 is None,
        config.explorer_url is None,
        config.use_tor,
        crate::server::host_of(config.server_url@) == "127.0.0.1"@,
{
    reveal_strlit("http://127.0.0.1:9067");
    reveal_strlit("http");
    reveal_strlit("://");
    reveal_strlit("127.0.0.1");
    reveal_strlit(":9067");
    let e = Seq::<char>::empty();
    crate::server::law_host_is_read("http"@, e, "127.0.0.1"@, ":9067"@, e);
    assert("http"@ + "://"@ + e + "127.0.0.1"@ + ":9067"@ + e =~= "http://127.0.0.1:9067"@);
}

} // verus!
