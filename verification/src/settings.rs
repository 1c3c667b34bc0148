//! Node-connection settings and chain flavors, held as plain values.
//!
//! Deciding which credentials and which paths to use is pure logic and lives
//! here; reading the environment, touching the filesystem and opening the
//! connection are left to the caller. Paths are carried as strings.

use vstd::prelude::*;
use vstd::string::*;

verus! {

/// Command-line options the settings are built from.
#[derive(Clone, Debug)]
pub struct Options {
    pub bitcoin_data_dir: Option<String>,
    pub bitcoin_rpc_password: Option<String>,
    pub bitcoin_rpc_url: Option<String>,
    pub bitcoin_rpc_username: Option<String>,
}

/// How to authenticate against the node: explicit credentials, or the
/// cookie file the node writes.
#[derive(Clone, Debug)]
pub enum Credentials {
    UserPass(String, String),
    CookieFile(String),
}

/// Connection settings for the upstream node.
#[derive(Clone, Debug)]
pub struct Settings {
    pub bitcoin_data_dir: Option<String>,
    pub bitcoin_rpc_password: Option<String>,
    pub bitcoin_rpc_url: Option<String>,
    pub bitcoin_rpc_username: Option<String>,
    pub bitcoin_last_block: Option<u32>,
    pub cookie_file: Option<String>,
}

/// The chain flavors the indexer can follow.
#[derive(Clone, Copy, Debug, PartialEq, Eq, Structural)]
pub enum Chain {
    Mainnet,
    Testnet,
    Signet,
    Regtest,
}

impl Default for Chain {
    /// The default chain is the main one.
    fn default() -> (r: Chain)
        ensures
            r == Chain::Mainnet,
    {
        Chain::Mainnet
    }
}

impl Settings {
    /// Builds settings from parsed options; nothing else is read.
    pub fn from_options(options: Options) -> (r: Settings)
        ensures
            r.bitcoin_data_dir == options.bitcoin_data_dir,
            r.bitcoin_rpc_password == options.bitcoin_rpc_password,
            r.bitcoin_rpc_url == options.bitcoin_rpc_url,
            r.bitcoin_rpc_username == options.bitcoin_rpc_username,
            r.bitcoin_last_block is None,
            r.cookie_file is None,
    {
        Settings {
            bitcoin_data_dir: options.bitcoin_data_dir,
            bitcoin_rpc_password: options.bitcoin_rpc_password,
            bitcoin_rpc_url: options.bitcoin_rpc_url,
            bitcoin_rpc_username: options.bitcoin_rpc_username,
            bitcoin_last_block: None,
            cookie_file: None,
        }
    }

    /// The node's endpoint, with the wallet path appended when a wallet is
    /// named and a trailing slash otherwise.
    pub fn bitcoin_rpc_url(&self, wallet_name: Option<String>) -> (r: String)
        requires
            self.bitcoin_rpc_url is Some,
        ensures
            r@ == (match wallet_name {
                Some(w) => self.bitcoin_rpc_url.unwrap()@ + "/wallet/"@ + w@,
                None => self.bitcoin_rpc_url.unwrap()@ + "/"@,
            }),
    {
        let mut url: String = match &self.bitcoin_rpc_url {
            Some(u) => u.clone(),
            None => {
                proof {
                    assert(false);
                }
                String::new()
            },
        };
        match wallet_name {
            Some(w) => {
                url.append("/wallet/");
                url.append(w.as_str());
            },
            None => {
                url.append("/");
            },
        }
        url
    }

    /// Which credentials to use: a username and password when both are set,
    /// else the cookie file, located by [`Settings::cookie_file`] with the
    /// platform's data directory as fallback.
    pub fn bitcoin_credentials(&self, default_data_dir: String) -> (r: Credentials)
        ensures
            (self.bitcoin_rpc_username is Some && self.bitcoin_rpc_password is Some) ==> (r matches
            Credentials::UserPass(u, p) && u@ == self.bitcoin_rpc_username.unwrap()@ && p@
                == self.bitcoin_rpc_password.unwrap()@),
            !(self.bitcoin_rpc_username is Some && self.bitcoin_rpc_password is Some) ==> (r matches
            Credentials::CookieFile(f) && f@ == self.spec_cookie_file(default_data_dir@)),
    {
        match (&self.bitcoin_rpc_username, &self.bitcoin_rpc_password) {
            (Some(user), Some(pass)) => Credentials::UserPass(user.clone(), pass.clone()),
            _ => Credentials::CookieFile(self.cookie_file(default_data_dir)),
        }
    }

    /// Where the cookie file lies: the explicit setting if present, else the
    /// chain's subdirectory of the data directory (the configured one, or
    /// the given platform fallback) joined with the cookie file name.
    pub open spec fn spec_cookie_file(&self, default_data_dir: Seq<char>) -> Seq<char> {
        match self.cookie_file {
            Some(f) => f@,
            None => {
                let base = match self.bitcoin_data_dir {
                    Some(d) => d@,
                    None => default_data_dir,
                };
                self.spec_chain().spec_join_with_data_dir(base) + "/.cookie"@
            },
        }
    }

    /// Executable twin of [`Settings::spec_cookie_file`].
    pub fn cookie_file(&self, default_data_dir: String) -> (r: String)
        ensures
            r@ == self.spec_cookie_file(default_data_dir@),
    {
        match &self.cookie_file {
            Some(f) => f.clone(),
            None => {
                let base: String = match &self.bitcoin_data_dir {
                    Some(d) => d.clone(),
                    None => default_data_dir,
                };
                let mut path = self.chain().join_with_data_dir(base);
                path.append("/.cookie");
                path
            },
        }
    }

    /// The chain this indexer follows.
    pub open spec fn spec_chain(&self) -> Chain {
        Chain::Regtest
    }

    /// Executable twin of [`Settings::spec_chain`].
    pub fn chain(&self) -> (r: Chain)
        ensures
            r == self.spec_chain(),
    {
        Chain::Regtest
    }
}

impl Chain {
    /// The node's default RPC port for this chain.
    pub fn default_rpc_port(self) -> (r: u16)
        ensures
            r == (match self {
                Chain::Mainnet => 8332u16,
                Chain::Regtest => 18443u16,
                Chain::Signet => 38332u16,
                Chain::Testnet => 18332u16,
            }),
    {
        match self {
            Chain::Mainnet => 8332,
            Chain::Regtest => 18443,
            Chain::Signet => 38332,
            Chain::Testnet => 18332,
        }
    }

    /// The inscription size cap: only the test chains have one.
    pub fn inscription_content_size_limit(self) -> (r: Option<usize>)
        ensures
            r == (match self {
                Chain::Mainnet | Chain::Regtest => None,
                Chain::Testnet | Chain::Signet => Some(1024usize),
            }),
    {
        match self {
            Chain::Mainnet | Chain::Regtest => None,
            Chain::Testnet | Chain::Signet => Some(1024),
        }
    }

    /// The height the first inscription appeared at on this chain.
    pub fn first_inscription_height(self) -> (r: u32)
        ensures
            r == (match self {
                Chain::Mainnet => 767430u32,
                Chain::Regtest => 0u32,
                Chain::Signet => 112402u32,
                Chain::Testnet => 2413343u32,
            }),
    {
        match self {
            Chain::Mainnet => 767430,
            Chain::Regtest => 0,
            Chain::Signet => 112402,
            Chain::Testnet => 2413343,
        }
    }

    /// The height of the jubilee activation on this chain.
    pub fn jubilee_height(self) -> (r: u32)
        ensures
            r == (match self {
                Chain::Mainnet => 824544u32,
                Chain::Regtest => 110u32,
                Chain::Signet => 175392u32,
                Chain::Testnet => 2544192u32,
            }),
    {
        match self {
            Chain::Mainnet => 824544,
            Chain::Regtest => 110,
            Chain::Signet => 175392,
            Chain::Testnet => 2544192,
        }
    }

    /// The chain's data subdirectory under the node's data directory; the
    /// main chain uses the directory itself.
    pub open spec fn spec_join_with_data_dir(self, data_dir: Seq<char>) -> Seq<char> {
        match self {
            Chain::Mainnet => data_dir,
            Chain::Testnet => data_dir + "/testnet3"@,
            Chain::Signet => data_dir + "/signet"@,
            Chain::Regtest => data_dir + "/regtest"@,
        }
    }

    /// Executable twin of [`Chain::spec_join_with_data_dir`].
    pub fn join_with_data_dir(self, data_dir: String) -> (r: String)
        ensures
            r@ == self.spec_join_with_data_dir(data_dir@),
    {
        let mut dir = data_dir;
        match self {
            Chain::Mainnet => {},
            Chain::Testnet => {
                dir.append("/testnet3");
            },
            Chain::Signet => {
                dir.append("/signet");
            },
            Chain::Regtest => {
                dir.append("/regtest");
            },
        }
        dir
    }
}

/// The byte form of the node's "not found" message tail.
pub open spec fn not_found_suffix() -> Seq<u8> {
    seq![0x6eu8, 0x6f, 0x74, 0x20, 0x66, 0x6f, 0x75, 0x6e, 0x64]
}

/// The node's not-yet-produced reply: RPC error code -8, or an error
/// message ending in "not found". Such a reply means "retry later", not a
/// failure.
pub open spec fn spec_rpc_not_found(code: int, message: Seq<u8>) -> bool {
    code == -8 || (message.len() >= 9 && message.subrange(
        message.len() - 9,
        message.len() as int,
    ) == not_found_suffix())
}

/// Executable twin of [`spec_rpc_not_found`].
pub fn rpc_not_found(code: i64, message: &[u8]) -> (r: bool)
    ensures
        r == spec_rpc_not_found(code as int, message@),
{
    if code == -8 {
        return true;
    }
    let n: usize = message.len();
    if n < 9 {
        return false;
    }
    let r = message[n - 9] == 0x6e && message[n - 8] == 0x6f && message[n - 7] == 0x74 && message[n
        - 6] == 0x20 && message[n - 5] == 0x66 && message[n - 4] == 0x6f && message[n - 3] == 0x75
        && message[n - 2] == 0x6e && message[n - 1] == 0x64;
    proof {
        if r {
            assert(message@.subrange(n - 9, n as int) =~= not_found_suffix());
        } else {
            if message@.subrange(n - 9, n as int) == not_found_suffix() {
                assert(forall|k: int|
                    0 <= k < 9 ==> message@.subrange(n - 9, n as int)[k] == not_found_suffix()[k]);
                assert(false);
            }
        }
    }
    r
}

} // verus!
