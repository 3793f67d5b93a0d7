//! The validated configuration that selects and sizes a backend, with the
//! datastore, network and logging sections' validation rules.

use vstd::prelude::*;

use crate::config_utils::{ci_eq, expand_home_dir, str_eq_ci, ByteSize};
use crate::errors::{ConfigError, StoreError};
use crate::store::{Datastore, StoreKind};
use crate::strutil::{split_char, split_seq, str_eq, joined_with, join_with, lemma_split_len};

verus! {

/// Relies on `Multiaddr::from_str` (through `str::parse`): whether a
/// string is a well-formed multiaddress depends on the string alone; the
/// error is carried as text.
#[verifier::external_body]
fn parse_multiaddr(s: &str) -> (r: Result<(), String>)
    ensures
        r is Ok <==> multiaddr_parses(s@),
{
    match s.parse::<multiaddr::Multiaddr>() {
        Ok(_) => Ok(()),
        Err(e) => Err(e.to_string()),
    }
}

/// Whether a string is a well-formed multiaddress, as the multiaddr
/// grammar defines it.
pub uninterp spec fn multiaddr_parses(s: Seq<char>) -> bool;

/// Relies on `idna::Config::to_ascii` with transitional processing off
/// and STD3 ASCII rules on: the result depends on the domain string
/// alone.
#[verifier::external_body]
fn idna_to_ascii_opt(domain: &str) -> (r: Option<String>)
    ensures
        match r {
            Some(a) => idna_to_ascii(domain@) == Some(a@),
            None => idna_to_ascii(domain@) is None,
        },
{
    let config = idna::Config::default().transitional_processing(false).use_std3_ascii_rules(
        true,
    );
    config.to_ascii(domain).ok()
}

/// What idna's ASCII conversion yields for a domain, under the fixed
/// flags above, if it succeeds.
pub uninterp spec fn idna_to_ascii(domain: Seq<char>) -> Option<Seq<char>>;

/// A domain name is valid when idna maps it to itself.
pub open spec fn valid_domain(domain: Seq<char>) -> bool {
    idna_to_ascii(domain) == Some(domain)
}

/// Capacity hint for the in-memory backend.
#[derive(Debug, Clone)]
pub struct MemoryConfig {
    pub size: u64,
}

/// Location and tuning of the on-disk backend.
#[derive(Debug, Clone)]
pub struct BadgerConfig {
    pub path: String,
    pub value_log_file_size: ByteSize,
}

/// Selects and sizes the backing store, and bounds commit retries.
#[derive(Debug, Clone)]
pub struct DatastoreConfig {
    pub store: String,
    pub memory: MemoryConfig,
    pub badger: BadgerConfig,
    pub max_txn_retries: u32,
}

impl DatastoreConfig {
    /// The store type names a known backend.
    pub open spec fn valid_store(&self) -> bool {
        self.store@ == "badger"@ || self.store@ == "memory"@
    }

    /// Accepts exactly the known backend names.
    pub fn validate(&self) -> (r: Result<(), ConfigError>)
        ensures
            self.valid_store() ==> r == Ok::<(), ConfigError>(()),
            !self.valid_store() ==> (r matches Err(e) && (
            e matches ConfigError::InvalidDatastoreType(t) && t@ == self.store@)),
    {
        if str_eq(self.store.as_str(), "badger") || str_eq(self.store.as_str(), "memory") {
            Ok(())
        } else {
            Err(ConfigError::InvalidDatastoreType(self.store.clone()))
        }
    }
}

/// The HTTP API endpoint's settings.
#[derive(Debug, Clone)]
pub struct APIConfig {
    pub address: String,
    pub tls: bool,
    pub allowed_origins: Vec<String>,
    pub pub_key_path: String,
    pub priv_key_path: String,
    pub email: String,
}

impl APIConfig {
    /// The endpoint settings a fresh configuration starts from.
    pub fn default_api_config() -> (r: APIConfig)
        ensures
            r.address@ == "localhost:9181"@,
            r.tls == false,
            r.allowed_origins@.len() == 0,
            r.pub_key_path@ == "certs/server.key"@,
            r.priv_key_path@ == "certs/server.crt"@,
            r.email@ == "example@example.com"@,
    {
        APIConfig {
            address: "localhost:9181".to_owned(),
            tls: false,
            allowed_origins: Vec::new(),
            pub_key_path: "certs/server.key".to_owned(),
            priv_key_path: "certs/server.crt".to_owned(),
            email: "example@example.com".to_owned(),
        }
    }

    /// Whether idna, under strict ASCII rules, maps the domain to itself.
    pub fn is_valid_domain_name(domain: &str) -> (r: bool)
        ensures
            r == valid_domain(domain@),
    {
        match idna_to_ascii_opt(domain) {
            Some(a) => str_eq(a.as_str(), domain),
            None => false,
        }
    }

    /// The endpoint as a URL, with the scheme the TLS flag selects.
    pub fn address_to_url(&self) -> (r: String)
        ensures
            self.tls ==> r@ == "https://"@ + self.address@,
            !self.tls ==> r@ == "http://"@ + self.address@,
    {
        let mut s: String = if self.tls {
            "https://".to_owned()
        } else {
            "http://".to_owned()
        };
        s.append(self.address.as_str());
        s
    }
}

/// The peer-to-peer networking settings.
#[derive(Debug, Clone)]
pub struct NetConfig {
    pub p2p_address: String,
    pub p2p_disabled: bool,
    pub peers: String,
    pub pub_sub_enabled: bool,
    pub relay_enabled: bool,
}

/// Every comma-separated peer entry is a well-formed multiaddress.
pub open spec fn peers_valid(peers: Seq<char>) -> bool {
    forall|t: int|
        0 <= t < split_seq(peers, ',').len() ==> multiaddr_parses(
            #[trigger] split_seq(peers, ',')[t],
        )
}

impl NetConfig {
    /// The networking settings a fresh configuration starts from.
    pub fn default_net_config() -> (r: NetConfig)
        ensures
            r.p2p_address@ == "/ip4/0.0.0.0/tcp/9171"@,
            r.p2p_disabled == false,
            r.peers@.len() == 0,
            r.pub_sub_enabled == true,
            r.relay_enabled == false,
    {
        proof {
            reveal_strlit("");
        }
        NetConfig {
            p2p_address: "/ip4/0.0.0.0/tcp/9171".to_owned(),
            p2p_disabled: false,
            peers: "".to_owned(),
            pub_sub_enabled: true,
            relay_enabled: false,
        }
    }

    /// Accepts the settings when the own address, and every bootstrap
    /// peer entry if any are given, are well-formed multiaddresses.
    pub fn validate(&self) -> (r: Result<(), ConfigError>)
        ensures
            !multiaddr_parses(self.p2p_address@) ==> (r matches Err(e) && (
            e matches ConfigError::InvalidP2PAddress(_, a) && a@ == self.p2p_address@)),
            multiaddr_parses(self.p2p_address@) && (self.peers@.len() == 0
                || peers_valid(self.peers@)) ==> r == Ok::<(), ConfigError>(()),
            multiaddr_parses(self.p2p_address@) && self.peers@.len() != 0
                && !peers_valid(self.peers@) ==> (r matches Err(e) && (
            e matches ConfigError::InvalidBootstrapPeers(_, l) && l@ == joined_with(
                split_seq(self.peers@, ','),
                ", "@,
            ))),
    {
        match parse_multiaddr(self.p2p_address.as_str()) {
            Err(m) => {
                return Err(ConfigError::InvalidP2PAddress(m, self.p2p_address.clone()));
            },
            Ok(()) => {},
        }
        if !self.peers.as_str().is_empty() {
            let parts = split_char(self.peers.as_str(), ',');
            let mut t: usize = 0;
            while t < parts.len()
                invariant
                    0 <= t <= parts@.len(),
                    multiaddr_parses(self.p2p_address@),
                    self.peers@.len() != 0,
                    parts@.map_values(|p: String| p@) == split_seq(self.peers@, ','),
                    parts@.len() == split_seq(self.peers@, ',').len(),
                    forall|j: int|
                        0 <= j < t ==> multiaddr_parses(
                            #[trigger] split_seq(self.peers@, ',')[j],
                        ),
                decreases parts@.len() - t,
            {
                match parse_multiaddr(parts[t].as_str()) {
                    Err(m) => {
                        proof {
                            assert(!multiaddr_parses(split_seq(self.peers@, ',')[t as int]));
                            assert(!peers_valid(self.peers@));
                        }
                        let joined = join_with(&parts, ", ");
                        return Err(ConfigError::InvalidBootstrapPeers(m, joined));
                    },
                    Ok(()) => {},
                }
                t = t + 1;
            }
        } else {
            proof {
                assert(self.peers@.len() == 0);
            }
        }
        Ok(())
    }
}

/// Opens the datastore a validated configuration selects: the in-memory
/// backend for `memory`, the on-disk backend for `badger`, and a fail-fast
/// error for anything else, before any transaction exists.
pub fn open(cfg: &DatastoreConfig) -> (r: Result<Datastore, StoreError>)
    ensures
        cfg.store@ == "memory"@ ==> (r matches Ok(ds) && ({
            &&& ds.store_kind() == (StoreKind::Memory { size: cfg.memory.size })
            &&& ds@ == Map::<Seq<u8>, Seq<u8>>::empty()
            &&& ds.versions_map() == Map::<Seq<u8>, nat>::empty()
            &&& ds.commit_counter() == 0
            &&& ds.max_txn_retries() == cfg.max_txn_retries
        })),
        cfg.store@ == "badger"@ ==> (r matches Ok(ds) && ({
            &&& ds.store_kind() == (StoreKind::Badger {
                path: cfg.badger.path,
                value_log_file_size: cfg.badger.value_log_file_size.0,
            })
            &&& ds@ == Map::<Seq<u8>, Seq<u8>>::empty()
            &&& ds.versions_map() == Map::<Seq<u8>, nat>::empty()
            &&& ds.commit_counter() == 0
            &&& ds.max_txn_retries() == cfg.max_txn_retries
        })),
        cfg.store@ != "memory"@ && cfg.store@ != "badger"@ ==> r == Err::<Datastore, StoreError>(
            StoreError::InvalidDatastoreType,
        ),
{
    proof {
        reveal_strlit("memory");
        reveal_strlit("badger");
        assert("memory"@[0] == 'm');
        assert("badger"@[0] == 'b');
        assert("memory"@ != "badger"@) by {
            if "memory"@ == "badger"@ {
                assert("memory"@[0] == "badger"@[0]);
            }
        }
    }
    if str_eq(cfg.store.as_str(), "memory") {
        Ok(Datastore::new(StoreKind::Memory { size: cfg.memory.size }, cfg.max_txn_retries))
    } else if str_eq(cfg.store.as_str(), "badger") {
        let path = cfg.badger.path.clone();
        proof {
            assert(path == cfg.badger.path);
        }
        Ok(
            Datastore::new(
                StoreKind::Badger {
                    path,
                    value_log_file_size: cfg.badger.value_log_file_size.0,
                },
                cfg.max_txn_retries,
            ),
        )
    } else {
        Err(StoreError::InvalidDatastoreType)
    }
}

/// A recognized top-level log level name.
pub open spec fn valid_level_name(s: Seq<char>) -> bool {
    ||| s == "logLevelDebug"@
    ||| s == "logLevelInfo"@
    ||| s == "logLevelError"@
    ||| s == "logLevelFatal"@
}

/// A `key=value` pair with exactly one `=` and nothing empty.
pub open spec fn kv_pair_ok(s: Seq<char>) -> bool {
    &&& split_seq(s, '=').len() == 2
    &&& split_seq(s, '=')[0].len() > 0
    &&& split_seq(s, '=')[1].len() > 0
}

/// A parameter a named-logger override may set, with a recognized value
/// where one is required.
pub open spec fn logger_param_ok(s: Seq<char>) -> bool {
    &&& kv_pair_ok(s)
    &&& ({
        let key = split_seq(s, '=')[0];
        let val = split_seq(s, '=')[1];
        ||| key == "format"@
        ||| key == "output"@
        ||| key == "nocolor"@
        ||| key == "stacktrace"@
        ||| key == "caller"@
        ||| (key == "level"@ && valid_level_name(val))
    })
}

/// One `module,key=value,...` entry of the logger override string.
pub open spec fn logger_entry_ok(s: Seq<char>) -> bool {
    let ps = split_seq(s, ',');
    &&& ps.len() >= 2
    &&& ps[0].len() > 0
    &&& forall|t: int| 1 <= t < ps.len() ==> logger_param_ok(#[trigger] ps[t])
}

/// The whole logging section validates: a recognized first level part,
/// well-formed `key=value` parts after it, and well-formed logger
/// override entries if any are given.
pub open spec fn logging_valid(level: Seq<char>, logger: Seq<char>) -> bool {
    let parts = split_seq(level, ',');
    &&& valid_level_name(parts[0])
    &&& forall|t: int| 1 <= t < parts.len() ==> kv_pair_ok(#[trigger] parts[t])
    &&& (logger.len() == 0 || forall|t: int|
        0 <= t < split_seq(logger, ';').len() ==> logger_entry_ok(
            #[trigger] split_seq(logger, ';')[t],
        ))
}

/// The logging settings, with per-module named overrides.
#[derive(Debug)]
pub struct LoggingConfig {
    pub level: String,
    pub stacktrace: bool,
    pub format: String,
    pub output: String,
    pub caller: bool,
    pub no_color: bool,
    pub logger: String,
    pub named_overrides: Vec<NamedLoggingConfig>,
}

/// One named override: a module name and the settings it overrides.
#[derive(Debug)]
pub struct NamedLoggingConfig {
    pub name: String,
    pub logging_config: LoggingConfig,
}

impl LoggingConfig {
    /// The logging settings a fresh configuration starts from.  The
    /// default level is the bare word `info`, which the validator does
    /// not accept: validating an untouched default section fails.
    pub fn default_log_config() -> (r: LoggingConfig)
        ensures
            r.level@ == "info"@,
            r.stacktrace == false,
            r.format@ == "csv"@,
            r.output@ == "stderr"@,
            r.caller == false,
            r.no_color == false,
            r.logger@.len() == 0,
            r.named_overrides@.len() == 0,
    {
        proof {
            reveal_strlit("");
        }
        LoggingConfig {
            level: "info".to_owned(),
            stacktrace: false,
            format: "csv".to_owned(),
            output: "stderr".to_owned(),
            caller: false,
            no_color: false,
            logger: "".to_owned(),
            named_overrides: Vec::new(),
        }
    }

    /// Accepts the section exactly when it validates; an unrecognized
    /// first level part is reported as that part.
    pub fn validate(&self) -> (r: Result<(), ConfigError>)
        ensures
            r is Ok <==> logging_valid(self.level@, self.logger@),
            !valid_level_name(split_seq(self.level@, ',')[0]) ==> (r matches Err(e) && (
            e matches ConfigError::InvalidLogLevel(m) && m@ == split_seq(self.level@, ',')[0])),
    {
        proof {
            lemma_split_len(self.level@, ',');
        }
        let parts = split_char(self.level.as_str(), ',');
        let first_ok = str_eq(parts[0].as_str(), "logLevelDebug") || str_eq(
            parts[0].as_str(),
            "logLevelInfo",
        ) || str_eq(parts[0].as_str(), "logLevelError") || str_eq(
            parts[0].as_str(),
            "logLevelFatal",
        );
        if !first_ok {
            return Err(ConfigError::InvalidLogLevel(parts[0].clone()));
        }
        let mut t: usize = 1;
        while t < parts.len()
            invariant
                1 <= t,
                t <= parts@.len() || t == 1,
                parts@.map_values(|p: String| p@) == split_seq(self.level@, ','),
                parts@.len() == split_seq(self.level@, ',').len(),
                valid_level_name(split_seq(self.level@, ',')[0]),
                forall|j: int|
                    1 <= j < t ==> kv_pair_ok(#[trigger] split_seq(self.level@, ',')[j]),
            decreases parts@.len() - t,
        {
            let kvp = split_char(parts[t].as_str(), '=');
            let ok = kvp.len() == 2 && !kvp[0].as_str().is_empty() && !kvp[1].as_str().is_empty();
            if !ok {
                proof {
                    assert(!kv_pair_ok(split_seq(self.level@, ',')[t as int]));
                }
                return Err(ConfigError::NotProvidedAsKV(parts[t].clone()));
            }
            proof {
                assert(kv_pair_ok(split_seq(self.level@, ',')[t as int]));
            }
            t = t + 1;
        }
        if !self.logger.as_str().is_empty() {
            let entries = split_char(self.logger.as_str(), ';');
            let mut e: usize = 0;
            while e < entries.len()
                invariant
                    0 <= e <= entries@.len(),
                    self.logger@.len() != 0,
                    entries@.map_values(|p: String| p@) == split_seq(self.logger@, ';'),
                    entries@.len() == split_seq(self.logger@, ';').len(),
                    valid_level_name(split_seq(self.level@, ',')[0]),
                    forall|j: int|
                        1 <= j < split_seq(self.level@, ',').len() ==> kv_pair_ok(
                            #[trigger] split_seq(self.level@, ',')[j],
                        ),
                    forall|j: int|
                        0 <= j < e ==> logger_entry_ok(#[trigger] split_seq(self.logger@, ';')[j]),
                decreases entries@.len() - e,
            {
                let ps = split_char(entries[e].as_str(), ',');
                if ps.len() < 2 {
                    proof {
                        assert(!logger_entry_ok(split_seq(self.logger@, ';')[e as int]));
                    }
                    return Err(
                        ConfigError::InvalidLoggerConfig(
                            "unexpected format (expected: `module,key=value;module,key=value;...`".to_owned(),
                        ),
                    );
                }
                if ps[0].as_str().is_empty() {
                    proof {
                        assert(!logger_entry_ok(split_seq(self.logger@, ';')[e as int]));
                    }
                    return Err(ConfigError::InvalidLoggerName("".to_owned()));
                }
                let ghost entry = split_seq(self.logger@, ';')[e as int];
                let mut q: usize = 1;
                while q < ps.len()
                    invariant
                        1 <= q,
                        q <= ps@.len() || q == 1,
                        entry == split_seq(self.logger@, ';')[e as int],
                        0 <= e < split_seq(self.logger@, ';').len(),
                        valid_level_name(split_seq(self.level@, ',')[0]),
                        entries@.map_values(|p: String| p@) == split_seq(self.logger@, ';'),
                        entries@.len() == split_seq(self.logger@, ';').len(),
                        ps@.map_values(|p: String| p@) == split_seq(entry, ','),
                        ps@.len() == split_seq(entry, ',').len(),
                        ps@.len() >= 2,
                        split_seq(entry, ',')[0].len() > 0,
                        forall|j: int|
                            1 <= j < q ==> logger_param_ok(#[trigger] split_seq(entry, ',')[j]),
                    decreases ps@.len() - q,
                {
                    let kvp = split_char(ps[q].as_str(), '=');
                    let shape_ok = kvp.len() == 2 && !kvp[0].as_str().is_empty()
                        && !kvp[1].as_str().is_empty();
                    if !shape_ok {
                        proof {
                            assert(!logger_param_ok(split_seq(entry, ',')[q as int]));
                            assert(!logger_entry_ok(entry));
                        }
                        return Err(ConfigError::NotProvidedAsKV(ps[q].clone()));
                    }
                    let key_plain_ok = str_eq(kvp[0].as_str(), "format") || str_eq(
                        kvp[0].as_str(),
                        "output",
                    ) || str_eq(kvp[0].as_str(), "nocolor") || str_eq(kvp[0].as_str(), "stacktrace")
                        || str_eq(kvp[0].as_str(), "caller");
                    let key_level_ok = str_eq(kvp[0].as_str(), "level") && (str_eq(
                        kvp[1].as_str(),
                        "logLevelDebug",
                    ) || str_eq(kvp[1].as_str(), "logLevelInfo") || str_eq(
                        kvp[1].as_str(),
                        "logLevelError",
                    ) || str_eq(kvp[1].as_str(), "logLevelFatal"));
                    if !key_plain_ok && !key_level_ok {
                        proof {
                            assert(!logger_param_ok(split_seq(entry, ',')[q as int]));
                            assert(!logger_entry_ok(entry));
                        }
                        return Err(ConfigError::UnknownLoggerParameter(kvp[0].clone()));
                    }
                    proof {
                        assert(logger_param_ok(split_seq(entry, ',')[q as int]));
                    }
                    q = q + 1;
                }
                proof {
                    assert(logger_entry_ok(split_seq(self.logger@, ';')[e as int]));
                }
                e = e + 1;
            }
        }
        Ok(())
    }

    /// Position of the override named `name`.  An existing name leaves
    /// the settings untouched; an absent one appends an override carrying
    /// a copy of the current settings (with no nested overrides of its
    /// own).  Distinct names stay distinct.
    pub fn get_or_create_named_logger(&mut self, name: &str) -> (idx: usize)
        ensures
            idx < final(self).named_overrides@.len(),
            final(self).named_overrides@[idx as int].name@ == name@,
            has_override(old(self).named_overrides@, name@) ==> *final(self) == *old(self),
            !has_override(old(self).named_overrides@, name@) ==> ({
                &&& idx as int == old(self).named_overrides@.len()
                &&& final(self).named_overrides@.len() == old(self).named_overrides@.len() + 1
                &&& final(self).named_overrides@[idx as int].logging_config.level@
                    == old(self).level@
                &&& final(self).named_overrides@[idx as int].logging_config.format@
                    == old(self).format@
                &&& final(self).named_overrides@[idx as int].logging_config.output@
                    == old(self).output@
                &&& final(self).named_overrides@[idx as int].logging_config.logger@
                    == old(self).logger@
                &&& final(self).named_overrides@[idx as int].logging_config.stacktrace
                    == old(self).stacktrace
                &&& final(self).named_overrides@[idx as int].logging_config.caller
                    == old(self).caller
                &&& final(self).named_overrides@[idx as int].logging_config.no_color
                    == old(self).no_color
                &&& final(self).named_overrides@[
                    idx as int
                ].logging_config.named_overrides@.len() == 0
            }),
            forall|j: int|
                0 <= j < old(self).named_overrides@.len() ==> final(self).named_overrides@[j]
                    == old(self).named_overrides@[j],
            overrides_unique(old(self).named_overrides@) ==> overrides_unique(
                final(self).named_overrides@,
            ),
            final(self).level@ == old(self).level@,
            final(self).logger@ == old(self).logger@,
            final(self).format@ == old(self).format@,
            final(self).output@ == old(self).output@,
            final(self).stacktrace == old(self).stacktrace,
            final(self).caller == old(self).caller,
            final(self).no_color == old(self).no_color,
    {
        let mut i: usize = 0;
        while i < self.named_overrides.len()
            invariant
                0 <= i <= self.named_overrides@.len(),
                forall|j: int|
                    0 <= j < i ==> (#[trigger] self.named_overrides@[j].name@) != name@,
            decreases self.named_overrides@.len() - i,
        {
            if str_eq(self.named_overrides[i].name.as_str(), name) {
                return i;
            }
            i = i + 1;
        }
        proof {
            assert(!has_override(self.named_overrides@, name@));
        }
        let named = NamedLoggingConfig {
            name: name.to_owned(),
            logging_config: LoggingConfig {
                level: self.level.clone(),
                stacktrace: self.stacktrace,
                format: self.format.clone(),
                output: self.output.clone(),
                caller: self.caller,
                no_color: self.no_color,
                logger: self.logger.clone(),
                named_overrides: Vec::new(),
            },
        };
        let ghost before = old(self).named_overrides@;
        self.named_overrides.push(named);
        proof {
            if overrides_unique(before) {
                assert forall|i: int, j: int|
                    0 <= i < j < self.named_overrides@.len() implies (
                #[trigger] self.named_overrides@[i].name@) != (
                #[trigger] self.named_overrides@[j].name@) by {
                    if j == self.named_overrides@.len() - 1 {
                        assert(self.named_overrides@[i] == before[i]);
                    }
                }
            }
        }
        self.named_overrides.len() - 1
    }
}

/// A string `str::parse::<bool>` accepts.
pub open spec fn bool_word(s: Seq<char>) -> bool {
    s == "true"@ || s == "false"@
}

/// A key the loader stores as text: the level, format, or output.
pub open spec fn loader_string_key(k: Seq<char>) -> bool {
    ci_eq(k, "level"@) || ci_eq(k, "format"@) || ci_eq(k, "output"@)
}

/// A key the loader stores as a boolean.
pub open spec fn loader_bool_key(k: Seq<char>) -> bool {
    ci_eq(k, "stacktrace"@) || ci_eq(k, "nocolor"@) || ci_eq(k, "caller"@)
}

/// A parameter the loader applies: one `=`, a key it knows up to ASCII
/// case, and a boolean word where one is needed.
pub open spec fn load_param_ok(s: Seq<char>) -> bool {
    let kv = split_seq(s, '=');
    &&& kv.len() == 2
    &&& (loader_string_key(kv[0]) || (loader_bool_key(kv[0]) && bool_word(kv[1])))
}

/// The level string's override parts each hold exactly one `=`.
pub open spec fn load_level_ok(level: Seq<char>) -> bool {
    forall|t: int|
        1 <= t < split_seq(level, ',').len() ==> split_seq(
            #[trigger] split_seq(level, ',')[t],
            '=',
        ).len() == 2
}

/// Every parameter of one logger entry is one the loader applies.
pub open spec fn load_entry_ok(s: Seq<char>) -> bool {
    forall|u: int|
        1 <= u < split_seq(s, ',').len() ==> load_param_ok(#[trigger] split_seq(s, ',')[u])
}

/// Every logger entry's parameters are ones the loader applies.
pub open spec fn load_logger_ok(logger: Seq<char>) -> bool {
    logger.len() == 0 || forall|e: int|
        0 <= e < split_seq(logger, ';').len() ==> load_entry_ok(
            #[trigger] split_seq(logger, ';')[e],
        )
}

/// The parameter at position `q` of logger entry `e`.
pub open spec fn logger_param_at(logger: Seq<char>, e: int, q: int) -> Seq<char> {
    split_seq(split_seq(logger, ';')[e], ',')[q]
}

/// The loader, walking entries and their parameters in order, reaches
/// position `(e, q)`: everything before it was applied.
pub open spec fn loader_reaches(logger: Seq<char>, e: int, q: int) -> bool {
    &&& 0 <= e < split_seq(logger, ';').len()
    &&& 1 <= q < split_seq(split_seq(logger, ';')[e], ',').len()
    &&& forall|j: int| 0 <= j < e ==> load_entry_ok(#[trigger] split_seq(logger, ';')[j])
    &&& forall|u: int| 1 <= u < q ==> load_param_ok(#[trigger] logger_param_at(logger, e, u))
}

/// The loader reaches at most one parameter it cannot apply.
proof fn lemma_first_fault_unique(logger: Seq<char>, e: int, q: int, e2: int, q2: int)
    requires
        loader_reaches(logger, e, q),
        !load_param_ok(logger_param_at(logger, e, q)),
        loader_reaches(logger, e2, q2),
        !load_param_ok(logger_param_at(logger, e2, q2)),
    ensures
        e2 == e && q2 == q,
{
    if e2 < e {
        assert(load_entry_ok(split_seq(logger, ';')[e2]));
        assert(load_param_ok(split_seq(split_seq(logger, ';')[e2], ',')[q2]));
        assert(false);
    } else if e < e2 {
        assert(load_entry_ok(split_seq(logger, ';')[e]));
        assert(load_param_ok(split_seq(split_seq(logger, ';')[e], ',')[q]));
        assert(false);
    } else if q2 < q {
        assert(load_param_ok(logger_param_at(logger, e, q2)));
        assert(false);
    } else if q < q2 {
        assert(load_param_ok(logger_param_at(logger, e2, q)));
        assert(false);
    }
}

/// An override with the given module name exists.
pub open spec fn has_override(s: Seq<NamedLoggingConfig>, name: Seq<char>) -> bool {
    exists|i: int| 0 <= i < s.len() && s[i].name@ == name
}

/// No two overrides bear the same module name (what keying the overrides
/// by name gives).
pub open spec fn overrides_unique(s: Seq<NamedLoggingConfig>) -> bool {
    forall|i: int, j: int|
        0 <= i < j < s.len() ==> #[trigger] s[i].name@ != #[trigger] s[j].name@
}

/// The first `upto` level-override parts each have a named override.
pub open spec fn level_names_upto(s: Seq<NamedLoggingConfig>, level: Seq<char>, upto: int) -> bool {
    forall|t: int|
        1 <= t < upto ==> has_override(
            s,
            split_seq(#[trigger] split_seq(level, ',')[t], '=')[0],
        )
}

/// The first `upto` logger entries each have a named override.
pub open spec fn entry_names_upto(s: Seq<NamedLoggingConfig>, logger: Seq<char>, upto: int) -> bool {
    forall|j: int|
        0 <= j < upto ==> has_override(
            s,
            split_seq(#[trigger] split_seq(logger, ';')[j], ',')[0],
        )
}

/// Taking one override out, and putting it back with its name kept,
/// keeps every name present.
proof fn lemma_names_preserved(
    pre: Seq<NamedLoggingConfig>,
    fin: Seq<NamedLoggingConfig>,
    idx: int,
    e: NamedLoggingConfig,
)
    requires
        0 <= idx < pre.len(),
        fin == pre.update(idx, pre.last()).drop_last().push(e),
        e.name@ == pre[idx].name@,
    ensures
        forall|n: Seq<char>| has_override(pre, n) ==> has_override(fin, n),
{
    assert forall|n: Seq<char>| has_override(pre, n) implies has_override(fin, n) by {
        let j = choose|j: int| 0 <= j < pre.len() && pre[j].name@ == n;
        if j == idx {
            assert(fin[fin.len() - 1].name@ == n);
        } else if j == pre.len() - 1 {
            assert(fin[idx].name@ == n);
        } else {
            assert(fin[j].name@ == n);
        }
    }
}


/// The settings of one override, as plain values.
pub struct OverrideView {
    pub level: Seq<char>,
    pub format: Seq<char>,
    pub output: Seq<char>,
    pub stacktrace: bool,
    pub no_color: bool,
    pub caller: bool,
}

/// The settings an override holds.
pub open spec fn override_view(n: NamedLoggingConfig) -> OverrideView {
    OverrideView {
        level: n.logging_config.level@,
        format: n.logging_config.format@,
        output: n.logging_config.output@,
        stacktrace: n.logging_config.stacktrace,
        no_color: n.logging_config.no_color,
        caller: n.logging_config.caller,
    }
}

/// The position of the override named `n`.
pub open spec fn override_index(s: Seq<NamedLoggingConfig>, n: Seq<char>) -> int {
    choose|i: int| 0 <= i < s.len() && s[i].name@ == n
}

/// The named overrides as a map from module name to settings
/// (well-defined when names are distinct).
pub open spec fn overrides_map(s: Seq<NamedLoggingConfig>) -> Map<Seq<char>, OverrideView> {
    Map::new(
        |n: Seq<char>| has_override(s, n),
        |n: Seq<char>| override_view(s[override_index(s, n)]),
    )
}

/// With distinct names, the override at `i` is the one `overrides_map`
/// speaks of.
proof fn lemma_override_at(s: Seq<NamedLoggingConfig>, i: int)
    requires
        overrides_unique(s),
        0 <= i < s.len(),
    ensures
        has_override(s, s[i].name@),
        override_index(s, s[i].name@) == i,
        overrides_map(s).contains_key(s[i].name@),
        overrides_map(s)[s[i].name@] == override_view(s[i]),
{
    assert(has_override(s, s[i].name@));
    let j = override_index(s, s[i].name@);
    if i != j {
        assert(false);
    }
}

/// Appending an override with a fresh name inserts its settings.
proof fn lemma_overrides_map_append(
    pre: Seq<NamedLoggingConfig>,
    fin: Seq<NamedLoggingConfig>,
    e: NamedLoggingConfig,
)
    requires
        overrides_unique(pre),
        !has_override(pre, e.name@),
        fin == pre.push(e),
    ensures
        overrides_unique(fin),
        overrides_map(fin) == overrides_map(pre).insert(e.name@, override_view(e)),
{
    assert forall|i: int, j: int|
        0 <= i < j < fin.len() implies (#[trigger] fin[i].name@) != (#[trigger] fin[j].name@) by {
        if j == fin.len() - 1 {
            assert(fin[i] == pre[i]);
        }
    }
    assert forall|n: Seq<char>|
        #![all_triggers]
        true implies {
        &&& has_override(fin, n) == overrides_map(pre).insert(e.name@, override_view(e)).contains_key(
            n,
        )
        &&& (has_override(fin, n) ==> override_view(fin[override_index(fin, n)])
            == overrides_map(pre).insert(e.name@, override_view(e))[n])
    } by {
        if n == e.name@ {
            lemma_override_at(fin, fin.len() - 1);
        } else {
            if has_override(fin, n) {
                let i = override_index(fin, n);
                lemma_override_at(fin, i);
                assert(fin[i] == pre[i]);
                lemma_override_at(pre, i);
            }
            if has_override(pre, n) {
                let i = override_index(pre, n);
                lemma_override_at(pre, i);
                assert(fin[i] == pre[i]);
                lemma_override_at(fin, i);
            }
        }
    }
    assert(overrides_map(fin) =~= overrides_map(pre).insert(e.name@, override_view(e)));
}

/// Taking one override out and putting it back, its name kept, replaces
/// its settings in the map.
proof fn lemma_overrides_map_replace(
    pre: Seq<NamedLoggingConfig>,
    fin: Seq<NamedLoggingConfig>,
    idx: int,
    e: NamedLoggingConfig,
)
    requires
        overrides_unique(pre),
        0 <= idx < pre.len(),
        fin == pre.update(idx, pre.last()).drop_last().push(e),
        e.name@ == pre[idx].name@,
    ensures
        overrides_unique(fin),
        overrides_map(fin) == overrides_map(pre).insert(e.name@, override_view(e)),
{
    let n0 = pre.len() as int;
    assert(fin.len() == n0);
    let mid = pre.update(idx, pre.last()).drop_last();
    assert forall|i: int, j: int|
        0 <= i < j < fin.len() implies (#[trigger] fin[i].name@) != (#[trigger] fin[j].name@) by {
        let pi = if i == idx && idx < n0 - 1 {
            n0 - 1
        } else {
            i
        };
        let pj = if j == n0 - 1 {
            idx
        } else if j == idx {
            n0 - 1
        } else {
            j
        };
        assert(fin[i].name@ == pre[pi].name@);
        assert(fin[j].name@ == pre[pj].name@);
    }
    assert forall|n: Seq<char>|
        #![all_triggers]
        true implies {
        &&& has_override(fin, n) == overrides_map(pre).insert(e.name@, override_view(e)).contains_key(
            n,
        )
        &&& (has_override(fin, n) ==> override_view(fin[override_index(fin, n)])
            == overrides_map(pre).insert(e.name@, override_view(e))[n])
    } by {
        if n == e.name@ {
            lemma_override_at(fin, n0 - 1);
        } else {
            if has_override(fin, n) {
                let i = override_index(fin, n);
                lemma_override_at(fin, i);
                let pi = if i == idx && idx < n0 - 1 {
                    n0 - 1
                } else {
                    i
                };
                assert(fin[i] == pre[pi]);
                lemma_override_at(pre, pi);
            }
            if has_override(pre, n) {
                let i = override_index(pre, n);
                lemma_override_at(pre, i);
                if i == idx {
                    assert(false);
                } else if i == n0 - 1 && idx < n0 - 1 {
                    assert(fin[idx] == pre[i]);
                    lemma_override_at(fin, idx);
                } else {
                    assert(fin[i] == pre[i]);
                    lemma_override_at(fin, i);
                }
            }
        }
    }
    assert(overrides_map(fin) =~= overrides_map(pre).insert(e.name@, override_view(e)));
}

/// One `key=value` parameter applied to settings, as the loader does.
pub open spec fn apply_param(v: OverrideView, p: Seq<char>) -> OverrideView {
    let kv = split_seq(p, '=');
    let key = kv[0];
    let val = kv[1];
    if ci_eq(key, "level"@) {
        OverrideView { level: val, ..v }
    } else if ci_eq(key, "format"@) {
        OverrideView { format: val, ..v }
    } else if ci_eq(key, "output"@) {
        OverrideView { output: val, ..v }
    } else if ci_eq(key, "stacktrace"@) {
        OverrideView { stacktrace: val == "true"@, ..v }
    } else if ci_eq(key, "nocolor"@) {
        OverrideView { no_color: val == "true"@, ..v }
    } else {
        OverrideView { caller: val == "true"@, ..v }
    }
}

/// The parameters of one entry from position `q` on, applied in order.
pub open spec fn apply_params(v: OverrideView, ps: Seq<Seq<char>>, q: int) -> OverrideView
    decreases ps.len() - q,
{
    if 0 <= q < ps.len() {
        apply_params(apply_param(v, ps[q]), ps, q + 1)
    } else {
        v
    }
}

/// The `name=level` parts of the level string from position `t` on,
/// applied in order: each sets the named override's level, creating the
/// override from `base` when absent.
pub open spec fn apply_level_kvs(
    m: Map<Seq<char>, OverrideView>,
    base: OverrideView,
    parts: Seq<Seq<char>>,
    t: int,
) -> Map<Seq<char>, OverrideView>
    decreases parts.len() - t,
{
    if 0 <= t < parts.len() {
        let kv = split_seq(parts[t], '=');
        let prev = if m.contains_key(kv[0]) {
            m[kv[0]]
        } else {
            base
        };
        apply_level_kvs(
            m.insert(kv[0], OverrideView { level: kv[1], ..prev }),
            base,
            parts,
            t + 1,
        )
    } else {
        m
    }
}

/// One logger entry applied: its parameters update the named override,
/// created from `base` when absent.
pub open spec fn apply_entry(
    m: Map<Seq<char>, OverrideView>,
    base: OverrideView,
    entry: Seq<char>,
) -> Map<Seq<char>, OverrideView> {
    let ps = split_seq(entry, ',');
    let prev = if m.contains_key(ps[0]) {
        m[ps[0]]
    } else {
        base
    };
    m.insert(ps[0], apply_params(prev, ps, 1))
}

/// The logger entries from position `e` on, applied in order.
pub open spec fn apply_entries(
    m: Map<Seq<char>, OverrideView>,
    base: OverrideView,
    entries: Seq<Seq<char>>,
    e: int,
) -> Map<Seq<char>, OverrideView>
    decreases entries.len() - e,
{
    if 0 <= e < entries.len() {
        apply_entries(apply_entry(m, base, entries[e]), base, entries, e + 1)
    } else {
        m
    }
}

/// What the loader leaves in the overrides: the starting overrides, the
/// level overrides applied, then the logger entries applied, all against
/// the base settings (whose level is already the first level part).
pub open spec fn loaded_overrides(lc: LoggingConfig) -> Map<Seq<char>, OverrideView> {
    let base = OverrideView {
        level: split_seq(lc.level@, ',')[0],
        format: lc.format@,
        output: lc.output@,
        stacktrace: lc.stacktrace,
        no_color: lc.no_color,
        caller: lc.caller,
    };
    let after_level = apply_level_kvs(
        overrides_map(lc.named_overrides@),
        base,
        split_seq(lc.level@, ','),
        1,
    );
    if lc.logger@.len() == 0 {
        after_level
    } else {
        apply_entries(after_level, base, split_seq(lc.logger@, ';'), 0)
    }
}

impl LoggingConfig {
    /// Applies the level string and the logger override string to these
    /// settings: the first level part becomes the level, later
    /// `name=level` parts and `module,key=value,...` entries update (or
    /// create) the named overrides.
    pub fn load(&mut self) -> (r: Result<(), ConfigError>)
        ensures
            final(self).level@ == split_seq(old(self).level@, ',')[0],
            final(self).logger@ == old(self).logger@,
            final(self).format@ == old(self).format@,
            final(self).output@ == old(self).output@,
            final(self).stacktrace == old(self).stacktrace,
            final(self).caller == old(self).caller,
            final(self).no_color == old(self).no_color,
            r is Ok <==> load_level_ok(old(self).level@) && load_logger_ok(old(self).logger@),
            forall|t: int|
                (1 <= t < split_seq(old(self).level@, ',').len() && split_seq(
                    #[trigger] split_seq(old(self).level@, ',')[t],
                    '=',
                ).len() != 2 && (forall|j: int|
                    1 <= j < t ==> split_seq(split_seq(old(self).level@, ',')[j], '=').len()
                        == 2)) ==> (r matches Err(er) && (
                er matches ConfigError::InvalidLogLevel(m) && m@ == split_seq(
                    old(self).level@,
                    ',',
                )[t])),
            forall|e: int, q: int|
                (load_level_ok(old(self).level@) && old(self).logger@.len() != 0
                    && loader_reaches(old(self).logger@, e, q) && split_seq(
                    #[trigger] logger_param_at(old(self).logger@, e, q),
                    '=',
                ).len() != 2) ==> (r matches Err(er) && (
                er matches ConfigError::NotProvidedAsKV(m) && m@ == logger_param_at(
                    old(self).logger@,
                    e,
                    q,
                ))),
            forall|e: int, q: int|
                (load_level_ok(old(self).level@) && old(self).logger@.len() != 0
                    && loader_reaches(old(self).logger@, e, q) && split_seq(
                    #[trigger] logger_param_at(old(self).logger@, e, q),
                    '=',
                ).len() == 2 && !loader_string_key(
                    split_seq(logger_param_at(old(self).logger@, e, q), '=')[0],
                ) && !loader_bool_key(
                    split_seq(logger_param_at(old(self).logger@, e, q), '=')[0],
                )) ==> (r matches Err(er) && (
                er matches ConfigError::UnknownLoggerParameter(m) && m@ == split_seq(
                    logger_param_at(old(self).logger@, e, q),
                    '=',
                )[0])),
            forall|e: int, q: int|
                (load_level_ok(old(self).level@) && old(self).logger@.len() != 0
                    && loader_reaches(old(self).logger@, e, q) && split_seq(
                    #[trigger] logger_param_at(old(self).logger@, e, q),
                    '=',
                ).len() == 2 && !loader_string_key(
                    split_seq(logger_param_at(old(self).logger@, e, q), '=')[0],
                ) && loader_bool_key(
                    split_seq(logger_param_at(old(self).logger@, e, q), '=')[0],
                ) && !bool_word(split_seq(logger_param_at(old(self).logger@, e, q), '=')[1]))
                ==> (r matches Err(er) && (er matches ConfigError::CouldNotParseType(m) && m@
                == "bool"@)),
            r is Ok ==> level_names_upto(
                final(self).named_overrides@,
                old(self).level@,
                split_seq(old(self).level@, ',').len() as int,
            ),
            r is Ok && old(self).logger@.len() != 0 ==> entry_names_upto(
                final(self).named_overrides@,
                old(self).logger@,
                split_seq(old(self).logger@, ';').len() as int,
            ),
            r is Ok && overrides_unique(old(self).named_overrides@) ==> ({
                &&& overrides_unique(final(self).named_overrides@)
                &&& overrides_map(final(self).named_overrides@) == loaded_overrides(*old(self))
            }),
    {
        let ghost level0 = self.level@;
        let ghost logger0 = self.logger@;
        proof {
            lemma_split_len(level0, ',');
        }
        let parts = split_char(self.level.as_str(), ',');
        self.level = parts[0].clone();
        proof {
            assert(parts@[0]@ == split_seq(level0, ',')[0]);
        }
        let ghost uniq0 = overrides_unique(self.named_overrides@);
        let ghost m0 = overrides_map(self.named_overrides@);
        let ghost base0 = OverrideView {
            level: split_seq(level0, ',')[0],
            format: self.format@,
            output: self.output@,
            stacktrace: self.stacktrace,
            no_color: self.no_color,
            caller: self.caller,
        };
        let mut t: usize = 1;
        while t < parts.len()
            invariant
                1 <= t,
                t <= parts@.len() || t == 1,
                level0 == old(self).level@,
                logger0 == old(self).logger@,
                parts@.map_values(|p: String| p@) == split_seq(level0, ','),
                parts@.len() == split_seq(level0, ',').len(),
                self.level@ == split_seq(level0, ',')[0],
                self.logger@ == logger0,
                self.format@ == old(self).format@,
                self.output@ == old(self).output@,
                self.stacktrace == old(self).stacktrace,
                self.caller == old(self).caller,
                self.no_color == old(self).no_color,
                forall|j: int|
                    1 <= j < t ==> split_seq(#[trigger] split_seq(level0, ',')[j], '=').len()
                        == 2,
                level_names_upto(self.named_overrides@, level0, t as int),
                base0 == (OverrideView {
                    level: split_seq(level0, ',')[0],
                    format: old(self).format@,
                    output: old(self).output@,
                    stacktrace: old(self).stacktrace,
                    no_color: old(self).no_color,
                    caller: old(self).caller,
                }),
                uniq0 ==> overrides_unique(self.named_overrides@),
                uniq0 ==> apply_level_kvs(
                    overrides_map(self.named_overrides@),
                    base0,
                    split_seq(level0, ','),
                    t as int,
                ) == apply_level_kvs(m0, base0, split_seq(level0, ','), 1),
            decreases parts@.len() - t,
        {
            proof {
                assert(parts@[t as int]@ == split_seq(level0, ',')[t as int]);
            }
            let kvp = split_char(parts[t].as_str(), '=');
            if kvp.len() != 2 {
                proof {
                    assert(split_seq(split_seq(level0, ',')[t as int], '=').len() != 2);
                    assert(!load_level_ok(level0));
                    assert forall|t2: int|
                        (1 <= t2 < split_seq(level0, ',').len() && split_seq(
                            #[trigger] split_seq(level0, ',')[t2],
                            '=',
                        ).len() != 2 && (forall|j: int|
                            1 <= j < t2 ==> split_seq(split_seq(level0, ',')[j], '=').len()
                                == 2)) implies t2 == t as int by {
                        if t2 < t {
                            assert(split_seq(split_seq(level0, ',')[t2], '=').len() == 2);
                        } else if t < t2 {
                            assert(split_seq(split_seq(level0, ',')[t as int], '=').len() == 2);
                        }
                    }
                }
                return Err(ConfigError::InvalidLogLevel(parts[t].clone()));
            }
            proof {
                assert(split_seq(split_seq(level0, ',')[t as int], '=').len() == 2);
                assert(kvp@[0]@ == split_seq(split_seq(level0, ',')[t as int], '=')[0]);
                assert(kvp@[1]@ == split_seq(split_seq(level0, ',')[t as int], '=')[1]);
            }
            let ghost before = self.named_overrides@;
            let idx = self.get_or_create_named_logger(kvp[0].as_str());
            let ghost pre = self.named_overrides@;
            proof {
                assert forall|n: Seq<char>| has_override(before, n) implies has_override(
                    pre,
                    n,
                ) by {
                    let j = choose|j: int| 0 <= j < before.len() && before[j].name@ == n;
                    assert(pre[j].name@ == n);
                }
            }
            let mut entry = self.named_overrides.swap_remove(idx);
            entry.logging_config.level = kvp[1].clone();
            self.named_overrides.push(entry);
            proof {
                lemma_names_preserved(
                    pre,
                    self.named_overrides@,
                    idx as int,
                    self.named_overrides@.last(),
                );
                assert(has_override(pre, kvp@[0]@));
                assert(level_names_upto(self.named_overrides@, level0, t + 1));
                if uniq0 {
                    let partsv = split_seq(level0, ',');
                    let kv = split_seq(partsv[t as int], '=');
                    let name = kv[0];
                    let fin = self.named_overrides@;
                    let en = fin.last();
                    let mcur = overrides_map(before);
                    assert(fin == pre.update(idx as int, pre.last()).drop_last().push(en));
                    if has_override(before, name) {
                        assert(pre == before);
                        lemma_override_at(before, idx as int);
                        lemma_overrides_map_replace(pre, fin, idx as int, en);
                        assert(override_view(en) == (OverrideView {
                            level: kv[1],
                            ..mcur[name]
                        }));
                        assert(overrides_map(fin) == mcur.insert(
                            name,
                            OverrideView { level: kv[1], ..mcur[name] },
                        ));
                    } else {
                        assert(pre =~= before.push(pre[idx as int]));
                        assert(override_view(pre[idx as int]) == base0);
                        lemma_overrides_map_append(before, pre, pre[idx as int]);
                        lemma_overrides_map_replace(pre, fin, idx as int, en);
                        assert(override_view(en) == (OverrideView { level: kv[1], ..base0 }));
                        assert(overrides_map(fin) =~= mcur.insert(
                            name,
                            OverrideView { level: kv[1], ..base0 },
                        ));
                    }
                    assert(apply_level_kvs(mcur, base0, partsv, t as int) == apply_level_kvs(
                        overrides_map(fin),
                        base0,
                        partsv,
                        t as int + 1,
                    ));
                }
            }
            t = t + 1;
        }
        let ghost after_level0 = apply_level_kvs(m0, base0, split_seq(level0, ','), 1);
        proof {
            if uniq0 {
                assert(overrides_map(self.named_overrides@) == after_level0);
            }
        }
        if !self.logger.as_str().is_empty() {
            let entries = split_char(self.logger.as_str(), ';');
            let mut e: usize = 0;
            while e < entries.len()
                invariant
                    0 <= e <= entries@.len(),
                    level0 == old(self).level@,
                    logger0 == old(self).logger@,
                    logger0.len() != 0,
                    entries@.map_values(|p: String| p@) == split_seq(logger0, ';'),
                    entries@.len() == split_seq(logger0, ';').len(),
                    self.level@ == split_seq(level0, ',')[0],
                    self.logger@ == logger0,
                    self.format@ == old(self).format@,
                    self.output@ == old(self).output@,
                    self.stacktrace == old(self).stacktrace,
                    self.caller == old(self).caller,
                    self.no_color == old(self).no_color,
                    load_level_ok(level0),
                    forall|j: int|
                        0 <= j < e ==> load_entry_ok(#[trigger] split_seq(logger0, ';')[j]),
                    level_names_upto(
                        self.named_overrides@,
                        level0,
                        split_seq(level0, ',').len() as int,
                    ),
                    entry_names_upto(self.named_overrides@, logger0, e as int),
                    base0 == (OverrideView {
                        level: split_seq(level0, ',')[0],
                        format: old(self).format@,
                        output: old(self).output@,
                        stacktrace: old(self).stacktrace,
                        no_color: old(self).no_color,
                        caller: old(self).caller,
                    }),
                    uniq0 ==> overrides_unique(self.named_overrides@),
                    uniq0 ==> apply_entries(
                        overrides_map(self.named_overrides@),
                        base0,
                        split_seq(logger0, ';'),
                        e as int,
                    ) == apply_entries(after_level0, base0, split_seq(logger0, ';'), 0),
                decreases entries@.len() - e,
            {
                let ghost entry_s = split_seq(logger0, ';')[e as int];
                let vs = split_char(entries[e].as_str(), ',');
                proof {
                    lemma_split_len(entry_s, ',');
                    assert(vs@[0]@ == split_seq(entry_s, ',')[0]);
                }
                let ghost before = self.named_overrides@;
                let idx = self.get_or_create_named_logger(vs[0].as_str());
                let ghost pre = self.named_overrides@;
                proof {
                    assert forall|n: Seq<char>| has_override(before, n) implies has_override(
                        pre,
                        n,
                    ) by {
                        let j = choose|j: int| 0 <= j < before.len() && before[j].name@ == n;
                        assert(pre[j].name@ == n);
                    }
                }
                let mut over = self.named_overrides.swap_remove(idx);
                over.name = vs[0].clone();
                let ghost prevv = override_view(pre[idx as int]);
                proof {
                    assert(over.name@ == split_seq(entry_s, ',')[0]);
                    assert(override_view(over) == prevv);
                    assert(self.named_overrides@.push(over) == pre.update(
                        idx as int,
                        pre.last(),
                    ).drop_last().push(over));
                    lemma_names_preserved(pre, self.named_overrides@.push(over), idx as int, over);
                }
                let mut q: usize = 1;
                while q < vs.len()
                    invariant
                        1 <= q,
                        q <= vs@.len() || q == 1,
                        level0 == old(self).level@,
                        logger0 == old(self).logger@,
                        self.level@ == split_seq(level0, ',')[0],
                        self.logger@ == logger0,
                        self.format@ == old(self).format@,
                        self.output@ == old(self).output@,
                        self.stacktrace == old(self).stacktrace,
                        self.caller == old(self).caller,
                        self.no_color == old(self).no_color,
                        load_level_ok(level0),
                        logger0.len() != 0,
                        entries@.map_values(|p: String| p@) == split_seq(logger0, ';'),
                        entries@.len() == split_seq(logger0, ';').len(),
                        forall|j: int|
                            0 <= j < e ==> load_entry_ok(#[trigger] split_seq(logger0, ';')[j]),
                        entry_s == split_seq(logger0, ';')[e as int],
                        0 <= e < split_seq(logger0, ';').len(),
                        vs@.map_values(|p: String| p@) == split_seq(entry_s, ','),
                        vs@.len() == split_seq(entry_s, ',').len(),
                        forall|u: int|
                            1 <= u < q ==> load_param_ok(#[trigger] split_seq(entry_s, ',')[u]),
                        over.name@ == split_seq(entry_s, ',')[0],
                        apply_params(override_view(over), split_seq(entry_s, ','), q as int)
                            == apply_params(prevv, split_seq(entry_s, ','), 1),
                        level_names_upto(
                            self.named_overrides@.push(over),
                            level0,
                            split_seq(level0, ',').len() as int,
                        ),
                        entry_names_upto(self.named_overrides@.push(over), logger0, e as int),
                    decreases vs@.len() - q,
                {
                    let ghost over0 = over;
                    proof {
                        assert(vs@[q as int]@ == split_seq(entry_s, ',')[q as int]);
                    }
                    let kvp = split_char(vs[q].as_str(), '=');
                    if kvp.len() != 2 {
                        proof {
                            assert(split_seq(logger_param_at(logger0, e as int, q as int), '=').len()
                                != 2);
                            assert(!load_param_ok(split_seq(entry_s, ',')[q as int]));
                            assert(!load_entry_ok(entry_s));
                            assert(!load_logger_ok(logger0));
                            assert forall|u: int| 1 <= u < q implies load_param_ok(
                                #[trigger] logger_param_at(logger0, e as int, u),
                            ) by {
                                assert(load_param_ok(split_seq(entry_s, ',')[u]));
                            }
                            assert(loader_reaches(logger0, e as int, q as int));
                            assert forall|e2: int, q2: int|
                                (loader_reaches(logger0, e2, q2) && !load_param_ok(
                                    #[trigger] logger_param_at(logger0, e2, q2),
                                )) implies (e2 == e as int && q2 == q as int) by {
                                lemma_first_fault_unique(logger0, e as int, q as int, e2, q2);
                            }
                        }
                        return Err(ConfigError::NotProvidedAsKV(vs[q].clone()));
                    }
                    proof {
                        assert(kvp@[0]@ == split_seq(split_seq(entry_s, ',')[q as int], '=')[0]);
                        assert(kvp@[1]@ == split_seq(split_seq(entry_s, ',')[q as int], '=')[1]);
                    }
                    let key = &kvp[0];
                    let val = &kvp[1];
                    if str_eq_ci(key.as_str(), "level") {
                        over.logging_config.level = val.clone();
                    } else if str_eq_ci(key.as_str(), "format") {
                        over.logging_config.format = val.clone();
                    } else if str_eq_ci(key.as_str(), "output") {
                        over.logging_config.output = val.clone();
                    } else if str_eq_ci(key.as_str(), "stacktrace") {
                        if str_eq(val.as_str(), "true") {
                            over.logging_config.stacktrace = true;
                        } else if str_eq(val.as_str(), "false") {
                            over.logging_config.stacktrace = false;
                        } else {
                            proof {
                                assert(!bool_word(
                                    split_seq(logger_param_at(logger0, e as int, q as int), '=')[1],
                                ));
                                assert(!load_param_ok(split_seq(entry_s, ',')[q as int]));
                                assert(!load_entry_ok(entry_s));
                                assert(!load_logger_ok(logger0));
                                assert forall|u: int| 1 <= u < q implies load_param_ok(
                                    #[trigger] logger_param_at(logger0, e as int, u),
                                ) by {
                                    assert(load_param_ok(split_seq(entry_s, ',')[u]));
                                }
                                assert(loader_reaches(logger0, e as int, q as int));
                                assert forall|e2: int, q2: int|
                                    (loader_reaches(logger0, e2, q2) && !load_param_ok(
                                        #[trigger] logger_param_at(logger0, e2, q2),
                                    )) implies (e2 == e as int && q2 == q as int) by {
                                    lemma_first_fault_unique(logger0, e as int, q as int, e2, q2);
                                }
                            }
                            return Err(ConfigError::CouldNotParseType("bool".to_owned()));
                        }
                    } else if str_eq_ci(key.as_str(), "nocolor") {
                        if str_eq(val.as_str(), "true") {
                            over.logging_config.no_color = true;
                        } else if str_eq(val.as_str(), "false") {
                            over.logging_config.no_color = false;
                        } else {
                            proof {
                                assert(!bool_word(
                                    split_seq(logger_param_at(logger0, e as int, q as int), '=')[1],
                                ));
                                assert(!load_param_ok(split_seq(entry_s, ',')[q as int]));
                                assert(!load_entry_ok(entry_s));
                                assert(!load_logger_ok(logger0));
                                assert forall|u: int| 1 <= u < q implies load_param_ok(
                                    #[trigger] logger_param_at(logger0, e as int, u),
                                ) by {
                                    assert(load_param_ok(split_seq(entry_s, ',')[u]));
                                }
                                assert(loader_reaches(logger0, e as int, q as int));
                                assert forall|e2: int, q2: int|
                                    (loader_reaches(logger0, e2, q2) && !load_param_ok(
                                        #[trigger] logger_param_at(logger0, e2, q2),
                                    )) implies (e2 == e as int && q2 == q as int) by {
                                    lemma_first_fault_unique(logger0, e as int, q as int, e2, q2);
                                }
                            }
                            return Err(ConfigError::CouldNotParseType("bool".to_owned()));
                        }
                    } else if str_eq_ci(key.as_str(), "caller") {
                        if str_eq(val.as_str(), "true") {
                            over.logging_config.caller = true;
                        } else if str_eq(val.as_str(), "false") {
                            over.logging_config.caller = false;
                        } else {
                            proof {
                                assert(!bool_word(
                                    split_seq(logger_param_at(logger0, e as int, q as int), '=')[1],
                                ));
                                assert(!load_param_ok(split_seq(entry_s, ',')[q as int]));
                                assert(!load_entry_ok(entry_s));
                                assert(!load_logger_ok(logger0));
                                assert forall|u: int| 1 <= u < q implies load_param_ok(
                                    #[trigger] logger_param_at(logger0, e as int, u),
                                ) by {
                                    assert(load_param_ok(split_seq(entry_s, ',')[u]));
                                }
                                assert(loader_reaches(logger0, e as int, q as int));
                                assert forall|e2: int, q2: int|
                                    (loader_reaches(logger0, e2, q2) && !load_param_ok(
                                        #[trigger] logger_param_at(logger0, e2, q2),
                                    )) implies (e2 == e as int && q2 == q as int) by {
                                    lemma_first_fault_unique(logger0, e as int, q as int, e2, q2);
                                }
                            }
                            return Err(ConfigError::CouldNotParseType("bool".to_owned()));
                        }
                    } else {
                        proof {
                            assert(!loader_string_key(
                                split_seq(logger_param_at(logger0, e as int, q as int), '=')[0],
                            ));
                            assert(!loader_bool_key(
                                split_seq(logger_param_at(logger0, e as int, q as int), '=')[0],
                            ));
                            assert(!load_param_ok(split_seq(entry_s, ',')[q as int]));
                            assert(!load_entry_ok(entry_s));
                            assert(!load_logger_ok(logger0));
                            assert forall|u: int| 1 <= u < q implies load_param_ok(
                                #[trigger] logger_param_at(logger0, e as int, u),
                            ) by {
                                assert(load_param_ok(split_seq(entry_s, ',')[u]));
                            }
                            assert(loader_reaches(logger0, e as int, q as int));
                            assert forall|e2: int, q2: int|
                                (loader_reaches(logger0, e2, q2) && !load_param_ok(
                                    #[trigger] logger_param_at(logger0, e2, q2),
                                )) implies (e2 == e as int && q2 == q as int) by {
                                lemma_first_fault_unique(logger0, e as int, q as int, e2, q2);
                            }
                        }
                        return Err(ConfigError::UnknownLoggerParameter(kvp[0].clone()));
                    }
                    proof {
                        assert(load_param_ok(split_seq(entry_s, ',')[q as int]));
                        reveal_strlit("true");
                        reveal_strlit("false");
                        assert("true"@.len() == 4 && "false"@.len() == 5);
                        assert(override_view(over) == apply_param(
                            override_view(over0),
                            split_seq(entry_s, ',')[q as int],
                        ));
                        assert(over.name@ == over0.name@);
                        assert forall|n: Seq<char>|
                            has_override(self.named_overrides@.push(over0), n) implies has_override(
                            self.named_overrides@.push(over),
                            n,
                        ) by {
                            let lst = self.named_overrides@;
                            let j = choose|j: int|
                                0 <= j < lst.push(over0).len() && lst.push(over0)[j].name@ == n;
                            if j == lst.len() {
                                assert(lst.push(over)[j].name@ == n);
                            } else {
                                assert(lst.push(over)[j].name@ == n);
                            }
                        }
                    }
                    q = q + 1;
                }
                proof {
                    assert(load_entry_ok(entry_s));
                }
                self.named_overrides.push(over);
                proof {
                    assert(self.named_overrides@.last().name@ == split_seq(entry_s, ',')[0]);
                    assert(has_override(self.named_overrides@, split_seq(entry_s, ',')[0]));
                    assert(entry_names_upto(self.named_overrides@, logger0, e + 1));
                    if uniq0 {
                        let entriesv = split_seq(logger0, ';');
                        let ps = split_seq(entry_s, ',');
                        let name = ps[0];
                        let fin = self.named_overrides@;
                        let en = fin.last();
                        let mcur = overrides_map(before);
                        assert(fin == pre.update(idx as int, pre.last()).drop_last().push(en));
                        assert(apply_params(override_view(en), ps, vs@.len() as int)
                            == apply_params(prevv, ps, 1));
                        assert(override_view(en) == apply_params(prevv, ps, 1));
                        if has_override(before, name) {
                            assert(pre == before);
                            lemma_override_at(before, idx as int);
                            lemma_overrides_map_replace(pre, fin, idx as int, en);
                            assert(prevv == mcur[name]);
                            assert(overrides_map(fin) == apply_entry(mcur, base0, entry_s));
                        } else {
                            assert(pre =~= before.push(pre[idx as int]));
                            assert(override_view(pre[idx as int]) == base0);
                            lemma_overrides_map_append(before, pre, pre[idx as int]);
                            lemma_overrides_map_replace(pre, fin, idx as int, en);
                            assert(prevv == base0);
                            assert(overrides_map(fin) =~= mcur.insert(
                                name,
                                apply_params(base0, ps, 1),
                            ));
                            assert(overrides_map(fin) == apply_entry(mcur, base0, entry_s));
                        }
                        assert(apply_entries(mcur, base0, entriesv, e as int) == apply_entries(
                            overrides_map(fin),
                            base0,
                            entriesv,
                            e as int + 1,
                        ));
                    }
                }
                e = e + 1;
            }
            proof {
                if uniq0 {
                    assert(overrides_map(self.named_overrides@) == apply_entries(
                        after_level0,
                        base0,
                        split_seq(logger0, ';'),
                        0,
                    ));
                }
            }
        }
        proof {
            if uniq0 {
                assert(overrides_map(self.named_overrides@) == loaded_overrides(*old(self)));
            }
        }
        Ok(())
    }
}

/// The network section validates.
pub open spec fn net_valid(net: NetConfig) -> bool {
    multiaddr_parses(net.p2p_address@) && (net.peers@.len() == 0 || peers_valid(net.peers@))
}

/// A relative path anchored at `root`; an absolute path stands as it is.
pub open spec fn absolutize(root: Seq<char>, p: Seq<char>) -> Seq<char> {
    if p.len() > 0 && p[0] == '/' {
        p
    } else {
        root + p
    }
}

/// Anchors a relative path at `root`.
fn absolutize_path(root: &str, path: &str) -> (r: String)
    ensures
        r@ == absolutize(root@, path@),
{
    let n = path.unicode_len();
    if n > 0 && path.get_char(0) == '/' {
        path.to_owned()
    } else {
        let mut s = root.to_owned();
        s.append(path);
        s
    }
}

/// A path that home expansion provably passes through or rewrites from
/// plain values: not `~` and not `~/`-prefixed.
pub open spec fn no_tilde(p: Seq<char>) -> bool {
    p != "~"@ && !(p.len() >= 2 && p.subrange(0, 2) == "~/"@)
}

/// The whole validated configuration of one process: the datastore
/// selection, the API endpoint, networking, logging, and the root
/// directory everything relative is anchored at.
#[derive(Debug)]
pub struct Config {
    pub datastore: DatastoreConfig,
    pub api: APIConfig,
    pub net: NetConfig,
    pub log: LoggingConfig,
    pub rootdir: String,
}

impl Config {
    /// Where this configuration's file lives: directly under the root
    /// directory.
    pub fn config_file_path(&self) -> (r: String)
        ensures
            r@ == self.rootdir@ + "config.yaml"@,
    {
        let mut s = self.rootdir.clone();
        s.append("config.yaml");
        s
    }

    /// Validates the datastore, network and logging sections.  The API
    /// address check resolves host names, so it stands in the
    /// application shell beside this.
    pub fn validate(&self) -> (r: Result<(), ConfigError>)
        ensures
            r is Ok <==> (self.datastore.valid_store() && net_valid(self.net) && logging_valid(
                self.log.level@,
                self.log.logger@,
            )),
            !self.datastore.valid_store() ==> (r matches Err(e) && (
            e matches ConfigError::InvalidDatastoreType(t) && t@ == self.datastore.store@)),
            self.datastore.valid_store() && !multiaddr_parses(self.net.p2p_address@) ==> (
            r matches Err(e) && (e matches ConfigError::InvalidP2PAddress(_, a) && a@
                == self.net.p2p_address@)),
            self.datastore.valid_store() && multiaddr_parses(self.net.p2p_address@)
                && self.net.peers@.len() != 0 && !peers_valid(self.net.peers@) ==> (r matches Err(
                e,
            ) && (e matches ConfigError::InvalidBootstrapPeers(_, l) && l@ == joined_with(
                split_seq(self.net.peers@, ','),
                ", "@,
            ))),
            self.datastore.valid_store() && net_valid(self.net) && !valid_level_name(
                split_seq(self.log.level@, ',')[0],
            ) ==> (r matches Err(e) && (e matches ConfigError::InvalidLogLevel(m) && m@
                == split_seq(self.log.level@, ',')[0])),
    {
        match self.datastore.validate() {
            Err(e) => {
                return Err(e);
            },
            Ok(()) => {},
        }
        match self.net.validate() {
            Err(e) => {
                return Err(e);
            },
            Ok(()) => {},
        }
        match self.log.validate() {
            Err(e) => {
                return Err(e);
            },
            Ok(()) => {},
        }
        Ok(())
    }

    /// Anchors the backend and key paths at the root directory and
    /// expands a leading `~/` in the key paths against the home
    /// directory (what that is depends on the environment).
    fn params_preprocessing(&mut self) -> (r: Result<(), ConfigError>)
        ensures
            final(self).datastore.badger.path@ == absolutize(
                old(self).rootdir@,
                old(self).datastore.badger.path@,
            ),
            final(self).rootdir@ == old(self).rootdir@,
            final(self).datastore.store@ == old(self).datastore.store@,
            final(self).datastore.max_txn_retries == old(self).datastore.max_txn_retries,
            final(self).datastore.memory.size == old(self).datastore.memory.size,
            final(self).datastore.badger.value_log_file_size
                == old(self).datastore.badger.value_log_file_size,
            final(self).net == old(self).net,
            final(self).log == old(self).log,
            final(self).api.address@ == old(self).api.address@,
            final(self).api.tls == old(self).api.tls,
            no_tilde(absolutize(old(self).rootdir@, old(self).api.priv_key_path@)) && no_tilde(
                absolutize(old(self).rootdir@, old(self).api.pub_key_path@),
            ) ==> ({
                &&& r is Ok
                &&& final(self).api.priv_key_path@ == absolutize(
                    old(self).rootdir@,
                    old(self).api.priv_key_path@,
                )
                &&& final(self).api.pub_key_path@ == absolutize(
                    old(self).rootdir@,
                    old(self).api.pub_key_path@,
                )
            }),
    {
        let new_badger = absolutize_path(
            self.rootdir.as_str(),
            self.datastore.badger.path.as_str(),
        );
        self.datastore.badger.path = new_badger;
        let new_priv = absolutize_path(self.rootdir.as_str(), self.api.priv_key_path.as_str());
        let new_pub = absolutize_path(self.rootdir.as_str(), self.api.pub_key_path.as_str());
        match expand_home_dir(new_priv.as_str()) {
            Ok(p) => {
                self.api.priv_key_path = p;
            },
            Err(e) => {
                let mut m = "Unable to expand home directory: ".to_owned();
                m.append(e.as_str());
                return Err(ConfigError::Custom(m));
            },
        }
        match expand_home_dir(new_pub.as_str()) {
            Ok(p) => {
                self.api.pub_key_path = p;
            },
            Err(e) => {
                let mut m = "Unable to expand home directory: ".to_owned();
                m.append(e.as_str());
                return Err(ConfigError::Custom(m));
            },
        }
        Ok(())
    }

    /// Validates the already-merged settings, anchors paths, and applies
    /// the logging overrides.  Merging the configuration file named by
    /// the root-directory flag happens in the application shell before
    /// this runs; the flag is kept for that caller.
    pub fn load_with_rootdir(&mut self, with_rootdir: bool) -> (r: Result<(), ConfigError>)
        ensures
            old(self).datastore.valid_store() && net_valid(old(self).net) && logging_valid(
                old(self).log.level@,
                old(self).log.logger@,
            ) && load_level_ok(old(self).log.level@) && load_logger_ok(old(self).log.logger@)
                && no_tilde(absolutize(old(self).rootdir@, old(self).api.priv_key_path@))
                && no_tilde(absolutize(old(self).rootdir@, old(self).api.pub_key_path@)) ==> r
                is Ok,
            !old(self).datastore.valid_store() ==> (r matches Err(e) && (
            e matches ConfigError::InvalidDatastoreType(t) && t@
                == old(self).datastore.store@)),
            old(self).datastore.valid_store() && !multiaddr_parses(old(self).net.p2p_address@)
                ==> (r matches Err(e) && (e matches ConfigError::InvalidP2PAddress(_, a) && a@
                == old(self).net.p2p_address@)),
            old(self).datastore.valid_store() && multiaddr_parses(old(self).net.p2p_address@)
                && old(self).net.peers@.len() != 0 && !peers_valid(old(self).net.peers@) ==> (
            r matches Err(e) && (e matches ConfigError::InvalidBootstrapPeers(_, l) && l@
                == joined_with(split_seq(old(self).net.peers@, ','), ", "@))),
            old(self).datastore.valid_store() && net_valid(old(self).net) && !valid_level_name(
                split_seq(old(self).log.level@, ',')[0],
            ) ==> (r matches Err(e) && (e matches ConfigError::InvalidLogLevel(m) && m@
                == split_seq(old(self).log.level@, ',')[0])),
            r is Ok ==> ({
                &&& old(self).datastore.valid_store()
                &&& net_valid(old(self).net)
                &&& logging_valid(old(self).log.level@, old(self).log.logger@)
                &&& load_level_ok(old(self).log.level@)
                &&& load_logger_ok(old(self).log.logger@)
                &&& final(self).log.level@ == split_seq(old(self).log.level@, ',')[0]
                &&& final(self).datastore.badger.path@ == absolutize(
                    old(self).rootdir@,
                    old(self).datastore.badger.path@,
                )
                &&& final(self).datastore.store@ == old(self).datastore.store@
                &&& final(self).rootdir@ == old(self).rootdir@
            }),
            !(old(self).datastore.valid_store() && net_valid(old(self).net) && logging_valid(
                old(self).log.level@,
                old(self).log.logger@,
            )) ==> r is Err,
    {
        let _ = with_rootdir;
        match self.validate() {
            Err(e) => {
                return Err(e);
            },
            Ok(()) => {},
        }
        match self.params_preprocessing() {
            Err(e) => {
                return Err(e);
            },
            Ok(()) => {},
        }
        match self.log.load() {
            Err(e) => {
                return Err(e);
            },
            Ok(()) => {},
        }
        Ok(())
    }
}

impl NamedLoggingConfig {
    /// A named override validates as its settings do.
    pub fn validate(&self) -> (r: Result<(), ConfigError>)
        ensures
            r is Ok <==> logging_valid(
                self.logging_config.level@,
                self.logging_config.logger@,
            ),
    {
        self.logging_config.validate()
    }
}

} // verus!
