//! The configuration of the server and of its libraries.
use vstd::prelude::*;

use crate::paths;
use crate::text;

verus! {

/// The configuration file: one host and token, and the libraries to serve.
#[derive(Debug)]
pub struct Config {
    pub host: String,
    pub api_token: String,
    pub libraries: Vec<LibraryConfig>,
}

/// The directory of a library and the port that serves it.
#[derive(Debug)]
pub struct LibraryConfig {
    pub library_path: String,
    pub port: u16,
}

/// The host to listen on where the configuration names none.
pub fn default_host() -> (r: String)
    ensures
        r@ == "127.0.0.1"@,
{
    "127.0.0.1".to_owned()
}

/// The configuration of the server of one library: the shared host and token
/// with the library's own path and port.
#[derive(Debug)]
pub struct ServerConfig {
    pub host: String,
    pub port: u16,
    pub api_token: String,
    pub library_path: String,
}

impl ServerConfig {
    /// The address to listen on.
    pub fn address(&self) -> (r: String)
        ensures
            r@ == self.host@ + ":"@ + text::decimal(self.port as nat),
    {
        let mut out = self.host.clone();
        out.append(":");
        let port = text::decimal_of(self.port as u64);
        out.append(port.as_str());
        out
    }
}

/// Why a configuration is refused.
#[derive(Debug)]
pub enum ConfigError {
    NoLibraries,
    RelativePath,
    DuplicatePort(u16),
}

impl ConfigError {
    /// The message for the operator.
    pub open spec fn text(&self) -> Seq<char> {
        match self {
            ConfigError::NoLibraries => "config must define at least one [[libraries]] entry"@,
            ConfigError::RelativePath => "library_path in config must be an absolute path"@,
            ConfigError::DuplicatePort(port) => "duplicate port "@ + text::decimal(*port as nat)
                + " across libraries in config"@,
        }
    }

    /// The message for the operator.
    pub fn message(&self) -> (r: String)
        ensures
            r@ == self.text(),
    {
        match self {
            ConfigError::NoLibraries => "config must define at least one [[libraries]] entry".to_owned(),
            ConfigError::RelativePath => "library_path in config must be an absolute path".to_owned(),
            ConfigError::DuplicatePort(port) => {
                let mut out = "duplicate port ".to_owned();
                let p = text::decimal_of(*port as u64);
                out.append(p.as_str());
                out.append(" across libraries in config");
                out
            },
        }
    }
}

/// The configuration file below a home directory.
pub open spec fn config_file(home: Seq<char>) -> Seq<char> {
    paths::joined(paths::joined(paths::joined(home, ".config"@), "phoserv"@), "config.toml"@)
}

impl Config {
    /// Whether library `i` comes with the port of a library before it.
    pub open spec fn repeats_port(&self, i: int) -> bool {
        exists|j: int| 0 <= j < i && #[trigger] self.libraries@[j].port == self.libraries@[i].port
    }

    /// What is wrong with library `i`: first its path, then its port.
    pub open spec fn library_fault(&self, i: int) -> Option<ConfigError> {
        if !paths::rooted(self.libraries@[i].library_path@) {
            Some(ConfigError::RelativePath)
        } else if self.repeats_port(i) {
            Some(ConfigError::DuplicatePort(self.libraries@[i].port))
        } else {
            None
        }
    }

    /// Whether the configuration can be served.
    pub open spec fn valid(&self) -> bool {
        &&& self.libraries.len() > 0
        &&& forall|i: int| 0 <= i < self.libraries.len() ==> paths::rooted(#[trigger] self.libraries@[i].library_path@)
        &&& forall|i: int, j: int|
            0 <= i < j < self.libraries.len() ==> #[trigger] self.libraries@[i].port != #[trigger] self.libraries@[j].port
    }

    /// Where the configuration file of the user with this home directory is.
    pub fn config_path(home: &str) -> (r: String)
        ensures
            r@ == config_file(home@),
    {
        let a = paths::join(home, ".config");
        let b = paths::join(a.as_str(), "phoserv");
        paths::join(b.as_str(), "config.toml")
    }

    /// Refuses a configuration without libraries.
    pub fn check_count(&self) -> (r: Result<(), ConfigError>)
        ensures
            r == (if self.libraries.len() == 0 {
                Err::<(), ConfigError>(ConfigError::NoLibraries)
            } else {
                Ok(())
            }),
    {
        if self.libraries.is_empty() {
            Err(ConfigError::NoLibraries)
        } else {
            Ok(())
        }
    }

    /// Checks library `i` against those before it.
    pub fn check_library(&self, i: usize) -> (r: Result<(), ConfigError>)
        requires
            i < self.libraries.len(),
        ensures
            r == (match self.library_fault(i as int) {
                Some(e) => Err::<(), ConfigError>(e),
                None => Ok(()),
            }),
    {
        if !paths::is_absolute(self.libraries[i].library_path.as_str()) {
            return Err(ConfigError::RelativePath);
        }
        let port: u16 = self.libraries[i].port;
        let mut j: usize = 0;
        while j < i
            invariant
                j <= i < self.libraries.len(),
                paths::rooted(self.libraries@[i as int].library_path@),
                port == self.libraries@[i as int].port,
                forall|k: int| 0 <= k < j ==> #[trigger] self.libraries@[k].port != port,
            decreases i - j,
        {
            if self.libraries[j].port == port {
                assert(self.libraries@[j as int].port == self.libraries@[i as int].port);
                return Err(ConfigError::DuplicatePort(port));
            }
            j = j + 1;
        }
        Ok(())
    }

    /// The servers to run, one for each library.
    pub fn into_servers(self) -> (r: Vec<ServerConfig>)
        ensures
            r.len() == self.libraries.len(),
            forall|i: int| 0 <= i < r.len() ==> {
                &&& (#[trigger] r@[i]).host == self.host
                &&& r@[i].api_token == self.api_token
                &&& r@[i].port == self.libraries@[i].port
                &&& r@[i].library_path == self.libraries@[i].library_path
            },
    {
        let mut out: Vec<ServerConfig> = Vec::new();
        let mut i: usize = 0;
        while i < self.libraries.len()
            invariant
                i <= self.libraries.len(),
                out.len() == i,
                forall|k: int| 0 <= k < out.len() ==> {
                    &&& (#[trigger] out@[k]).host == self.host
                    &&& out@[k].api_token == self.api_token
                    &&& out@[k].port == self.libraries@[k].port
                    &&& out@[k].library_path == self.libraries@[k].library_path
                },
            decreases self.libraries.len() - i,
        {
            out.push(
                ServerConfig {
                    host: self.host.clone(),
                    port: self.libraries[i].port,
                    api_token: self.api_token.clone(),
                    library_path: self.libraries[i].library_path.clone(),
                },
            );
            i = i + 1;
        }
        out
    }
}

/// A configuration with libraries, each of which passes its check, can be
/// served: all paths are absolute, and no two libraries share a port.
pub proof fn law_checked_config_is_valid(config: Config)
    requires
        config.libraries.len() > 0,
        forall|i: int| 0 <= i < config.libraries.len() ==> #[trigger] config.library_fault(i) is None,
    ensures
        config.valid(),
{
    assert forall|k: int| 0 <= k < config.libraries.len() implies paths::rooted(
        #[trigger] config.libraries@[k].library_path@,
    ) by {
        assert(config.library_fault(k) is None);
    }
    assert forall|a: int, b: int| 0 <= a < b < config.libraries.len() implies #[trigger] config.libraries@[a].port
        != #[trigger] config.libraries@[b].port by {
        assert(config.library_fault(b) is None);
    }
}

/// A configuration can be served exactly if it has libraries, each with a path
/// that begins with a slash and a port of its own; and then no library is at
/// fault.
pub proof fn law_valid_config(config: Config)
    ensures
        config.valid() <==> {
            &&& config.libraries@.len() > 0
            &&& forall|i: int|
                0 <= i < config.libraries@.len() ==> (#[trigger] config.libraries@[i]).library_path@.len() > 0
                    && config.libraries@[i].library_path@[0] == '/'
            &&& forall|i: int, j: int|
                0 <= i < j < config.libraries@.len() ==> (#[trigger] config.libraries@[i]).port != (
                #[trigger] config.libraries@[j]).port
        },
        config.valid() ==> forall|i: int|
            0 <= i < config.libraries@.len() ==> #[trigger] config.library_fault(i) is None,
{
    let all = config.libraries@;
    if config.valid() {
        assert forall|i: int| 0 <= i < all.len() implies (#[trigger] all[i]).library_path@.len() > 0
            && all[i].library_path@[0] == '/' by {
            assert(paths::rooted(config.libraries@[i].library_path@));
        }
        assert forall|i: int, j: int| 0 <= i < j < all.len() implies (#[trigger] all[i]).port != (
        #[trigger] all[j]).port by {
            assert(config.libraries@[i].port != config.libraries@[j].port);
        }
        assert forall|i: int| 0 <= i < all.len() implies #[trigger] config.library_fault(i) is None by {
            assert(paths::rooted(config.libraries@[i].library_path@));
            if config.repeats_port(i) {
                let j = choose|j: int| 0 <= j < i && #[trigger] config.libraries@[j].port == config.libraries@[i].port;
                assert(config.libraries@[j].port != config.libraries@[i].port);
            }
        }
    }
    if all.len() > 0 && (forall|i: int|
        0 <= i < all.len() ==> (#[trigger] all[i]).library_path@.len() > 0 && all[i].library_path@[0] == '/') && (
    forall|i: int, j: int| 0 <= i < j < all.len() ==> (#[trigger] all[i]).port != (#[trigger] all[j]).port) {
        assert forall|i: int| 0 <= i < config.libraries.len() implies paths::rooted(
            #[trigger] config.libraries@[i].library_path@,
        ) by {
            assert(all[i].library_path@[0] == '/');
        }
        assert forall|i: int, j: int| 0 <= i < j < config.libraries.len() implies #[trigger] config.libraries@[i].port
            != #[trigger] config.libraries@[j].port by {
            assert(all[i].port != all[j].port);
        }
    }
}

/// A library is at fault for its path if that does not begin with a slash, and
/// else for its port if a library before it has the same; the fault names the
/// port.
pub proof fn law_library_fault(config: Config, i: int)
    requires
        0 <= i < config.libraries@.len(),
    ensures
        ({
            let path = config.libraries@[i].library_path@;
            let port = config.libraries@[i].port;
            let absolute = path.len() > 0 && path[0] == '/';
            let repeated = exists|j: int| 0 <= j < i && (#[trigger] config.libraries@[j]).port == port;
            config.library_fault(i) == (if !absolute {
                Some(ConfigError::RelativePath)
            } else if repeated {
                Some(ConfigError::DuplicatePort(port))
            } else {
                None
            })
        }),
{
    let port = config.libraries@[i].port;
    if config.repeats_port(i) {
        let j = choose|j: int| 0 <= j < i && #[trigger] config.libraries@[j].port == config.libraries@[i].port;
        assert(config.libraries@[j].port == port);
    }
    if exists|j: int| 0 <= j < i && (#[trigger] config.libraries@[j]).port == port {
        let j = choose|j: int| 0 <= j < i && (#[trigger] config.libraries@[j]).port == port;
        assert(config.libraries@[j].port == config.libraries@[i].port);
    }
}

/// What the operator is told.
pub proof fn law_config_errors_are_told(port: u16)
    ensures
        ConfigError::NoLibraries.text() == "config must define at least one [[libraries]] entry"@,
        ConfigError::RelativePath.text() == "library_path in config must be an absolute path"@,
        ConfigError::DuplicatePort(port).text() == "duplicate port "@ + text::decimal(port as nat)
            + " across libraries in config"@,
{
}

/// The configuration file lies below the home directory, in a directory of the
/// program's own.
pub proof fn law_config_file_lies_at_home(home: Seq<char>)
    ensures
        paths::components(config_file(home)) == paths::components(home) + seq![
            ".config"@,
            "phoserv"@,
            "config.toml"@,
        ],
{
    reveal_strlit(".config");
    reveal_strlit("phoserv");
    reveal_strlit("config.toml");
    reveal_strlit(".");
    assert("."@.len() == 1);
    assert(".config"@.len() == 7 && "phoserv"@.len() == 7 && "config.toml"@.len() == 11);
    let a = paths::joined(home, ".config"@);
    let b = paths::joined(a, "phoserv"@);
    paths::law_joined_name_is_child(home, ".config"@);
    paths::law_joined_name_is_child(a, "phoserv"@);
    paths::law_joined_name_is_child(b, "config.toml"@);
    assert(paths::components(config_file(home)) =~= paths::components(home) + seq![
        ".config"@,
        "phoserv"@,
        "config.toml"@,
    ]);
}

} // verus!
