//! The configuration: where the PVE API is, which prefix holds the Traefik
//! configuration, and which addresses count.
use vstd::prelude::*;

use crate::address::IpNet;
use crate::text::{trim_text, trim_trailing};
use crate::text::{trimmed, without_trailing};

verus! {

/// The configuration of the service.
pub struct Config {
    pub pve: Pve,
    /// The dotted key path in each guest's metadata document that holds its
    /// Traefik dynamic configuration.
    pub prefix: String,
    /// Which guest addresses may be used, in order of preference. Empty means
    /// any global address, IPv4 first.
    pub cidrs: Vec<IpNet>,
    /// Where Traefik polls.
    pub listen: String,
    /// How long a rendered document is served before the cluster is asked
    /// again. Zero means that every poll asks the cluster.
    pub cache_ttl_seconds: u64,
}

/// How the PVE API is reached.
pub struct Pve {
    /// `https://host:8006`, any cluster node.
    pub url: String,
    /// `user@realm!tokenname`.
    pub token_id: String,
    /// The token's secret.
    pub token_secret: Option<String>,
    /// A file that holds the token's secret.
    pub token_secret_file: Option<String>,
    /// Skip TLS verification.
    pub insecure: bool,
    /// A PEM file to trust instead of the system roots.
    pub ca_file: Option<String>,
    pub timeout_seconds: u64,
}

/// Where loading a configuration has come to.
pub enum Loading {
    /// The configuration is complete.
    Done(Config),
    /// The secret is still to be read from the file.
    ReadSecret { config: Config, file: String },
    /// Nothing says what the secret is.
    NoSecret,
}

pub fn default_prefix() -> (r: String)
    ensures
        r@ == "traefik"@,
{
    "traefik".to_string()
}

pub fn default_listen() -> (r: String)
    ensures
        r@ == "127.0.0.1:8087"@,
{
    "127.0.0.1:8087".to_string()
}

pub fn default_timeout() -> (r: u64)
    ensures
        r == 10,
{
    10
}

/// Two configurations that differ at most in the URL and the secret.
pub open spec fn same_but_url_and_secret(a: Config, b: Config) -> bool {
    &&& a.prefix == b.prefix
    &&& a.cidrs == b.cidrs
    &&& a.listen == b.listen
    &&& a.cache_ttl_seconds == b.cache_ttl_seconds
    &&& a.pve.token_id == b.pve.token_id
    &&& a.pve.token_secret_file == b.pve.token_secret_file
    &&& a.pve.insecure == b.pve.insecure
    &&& a.pve.ca_file == b.pve.ca_file
    &&& a.pve.timeout_seconds == b.pve.timeout_seconds
}

impl Config {
    /// What the configuration file says, brought to what the service works
    /// with: the URL without slashes at its end, and the secret. That of the
    /// environment comes first, then the one in the file, then the one in the
    /// file that the configuration names.
    pub fn load(self, environment: Option<String>) -> (r: Loading)
        ensures
            match r {
                Loading::Done(config) => {
                    &&& environment is Some || self.pve.token_secret is Some
                    &&& config.pve.token_secret == if environment is Some {
                        environment
                    } else {
                        self.pve.token_secret
                    }
                    &&& config.pve.url@ == without_trailing(self.pve.url@, '/')
                    &&& same_but_url_and_secret(config, self)
                },
                Loading::ReadSecret { config, file } => {
                    &&& environment is None && self.pve.token_secret is None
                    &&& self.pve.token_secret_file == Some(file)
                    &&& config.pve.token_secret is None
                    &&& config.pve.url@ == without_trailing(self.pve.url@, '/')
                    &&& same_but_url_and_secret(config, self)
                },
                Loading::NoSecret => {
                    &&& environment is None && self.pve.token_secret is None
                    &&& self.pve.token_secret_file is None
                },
            },
    {
        let mut config = self;
        config.pve.url = trim_trailing(config.pve.url.as_str(), '/');
        if environment.is_some() {
            config.pve.token_secret = environment;
            return Loading::Done(config);
        }
        if config.pve.token_secret.is_some() {
            return Loading::Done(config);
        }
        let file = match &config.pve.token_secret_file {
            Some(file) => file.clone(),
            None => {
                return Loading::NoSecret;
            },
        };
        Loading::ReadSecret { config, file }
    }

    /// The configuration with the secret that was read from its file, white
    /// space around it taken off.
    pub fn with_secret(self, text: &str) -> (r: Config)
        ensures
            r.pve.token_secret is Some,
            r.pve.token_secret->0@ == trimmed(text@),
            r.pve.url == self.pve.url,
            same_but_url_and_secret(r, self),
    {
        let mut config = self;
        config.pve.token_secret = Some(trim_text(text));
        config
    }
}

} // verus!
