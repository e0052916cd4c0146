//! Configuration for the whole platform. Every field has a default, so a
//! new deployment can start with no configuration file at all.
//!
//! Reading and writing the TOML file happens outside the library; these
//! are the values it holds.

use vstd::prelude::*;

verus! {

/// An IP address to bind to.
#[derive(Debug, Clone, Copy, PartialEq, Eq, Structural)]
pub enum IpAddress {
    V4(u8, u8, u8, u8),
    V6(u16, u16, u16, u16, u16, u16, u16, u16),
}

/// The address that listens on every IPv4 interface, `0.0.0.0`.
pub open spec fn unspecified_v4() -> IpAddress {
    IpAddress::V4(0, 0, 0, 0)
}

/// Root configuration object, mirroring `unicorn.toml`.
#[derive(Debug, Clone)]
pub struct UnicornConfig {
    pub server: ServerConfig,
    pub ssh: SshConfig,
    pub storage: StorageConfig,
    pub ui: UiConfig,
    pub logging: LoggingConfig,
}

/// The HTTP server.
#[derive(Debug, Clone)]
pub struct ServerConfig {
    pub host: IpAddress,
    pub http_port: u16,
    pub data_dir: String,
}

/// The SSH front door.
#[derive(Debug, Clone)]
pub struct SshConfig {
    pub enabled: bool,
    pub host: IpAddress,
    pub port: u16,
    pub host_key_path: String,
}

/// Where repositories live.
#[derive(Debug, Clone)]
pub struct StorageConfig {
    pub repositories_dir: String,
}

/// The dashboard.
#[derive(Debug, Clone)]
pub struct UiConfig {
    pub refresh_interval_ms: u64,
    pub theme: String,
}

/// Logging.
#[derive(Debug, Clone)]
pub struct LoggingConfig {
    pub level: String,
    pub file: Option<String>,
}

impl ServerConfig {
    /// The default server settings hold.
    pub open spec fn is_default(self) -> bool {
        &&& self.host == unspecified_v4()
        &&& self.http_port == 3000
        &&& self.data_dir@ == "./data"@
    }
}

impl SshConfig {
    /// The default SSH settings hold.
    pub open spec fn is_default(self) -> bool {
        &&& self.enabled
        &&& self.host == unspecified_v4()
        &&& self.port == 2222
        &&& self.host_key_path@ == "./data/ssh/host_ed25519"@
    }
}

impl StorageConfig {
    /// The default storage settings hold.
    pub open spec fn is_default(self) -> bool {
        self.repositories_dir@ == "./data/repositories"@
    }
}

impl UiConfig {
    /// The default dashboard settings hold.
    pub open spec fn is_default(self) -> bool {
        &&& self.refresh_interval_ms == 1000
        &&& self.theme@ == "unicorn-dark"@
    }
}

impl LoggingConfig {
    /// The default logging settings hold.
    pub open spec fn is_default(self) -> bool {
        &&& self.level@ == "info"@
        &&& self.file matches Some(f) && f@ == "./data/logs/unicorn.log"@
    }
}

impl UnicornConfig {
    /// Every section holds its defaults.
    pub open spec fn is_default(self) -> bool {
        &&& self.server.is_default()
        &&& self.ssh.is_default()
        &&& self.storage.is_default()
        &&& self.ui.is_default()
        &&& self.logging.is_default()
    }
}

impl Default for ServerConfig {
    /// Listen on `0.0.0.0:3000`, data in `./data`.
    fn default() -> (config: Self)
        ensures
            config.is_default(),
    {
        ServerConfig { host: IpAddress::V4(0, 0, 0, 0), http_port: 3000, data_dir: "./data".to_owned() }
    }
}

impl Default for SshConfig {
    /// Enabled, on `0.0.0.0:2222`, host key in `./data/ssh/host_ed25519`.
    fn default() -> (config: Self)
        ensures
            config.is_default(),
    {
        SshConfig {
            enabled: true,
            host: IpAddress::V4(0, 0, 0, 0),
            port: 2222,
            host_key_path: "./data/ssh/host_ed25519".to_owned(),
        }
    }
}

impl Default for StorageConfig {
    /// Repositories in `./data/repositories`.
    fn default() -> (config: Self)
        ensures
            config.is_default(),
    {
        StorageConfig { repositories_dir: "./data/repositories".to_owned() }
    }
}

impl Default for UiConfig {
    /// Refresh every second, `unicorn-dark` theme.
    fn default() -> (config: Self)
        ensures
            config.is_default(),
    {
        UiConfig { refresh_interval_ms: 1000, theme: "unicorn-dark".to_owned() }
    }
}

impl Default for LoggingConfig {
    /// Level `info`, written to `./data/logs/unicorn.log`.
    fn default() -> (config: Self)
        ensures
            config.is_default(),
    {
        LoggingConfig { level: "info".to_owned(), file: Some("./data/logs/unicorn.log".to_owned()) }
    }
}

impl Default for UnicornConfig {
    /// Every section at its defaults.
    fn default() -> (config: Self)
        ensures
            config.is_default(),
    {
        UnicornConfig {
            server: ServerConfig::default(),
            ssh: SshConfig::default(),
            storage: StorageConfig::default(),
            ui: UiConfig::default(),
            logging: LoggingConfig::default(),
        }
    }
}

} // verus!
