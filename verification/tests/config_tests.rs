use defradb::{
    expand_home_dir, expand_home_dir_with, open, APIConfig, BadgerConfig, ByteSize, Config,
    ConfigError, DatastoreConfig, LoggingConfig, MemoryConfig, NetConfig, StoreError, StoreKind,
};

fn datastore_config(store: &str) -> DatastoreConfig {
    DatastoreConfig {
        store: store.to_string(),
        memory: MemoryConfig { size: 1024 },
        badger: BadgerConfig { path: "data".to_string(), value_log_file_size: ByteSize(0) },
        max_txn_retries: 3,
    }
}

fn full_config(store: &str) -> Config {
    let mut log = LoggingConfig::default_log_config();
    log.level = "logLevelInfo".to_string();
    Config {
        datastore: datastore_config(store),
        api: APIConfig::default_api_config(),
        net: NetConfig::default_net_config(),
        log,
        rootdir: "/root-dir/".to_string(),
    }
}

#[test]
fn datastore_config_accepts_known_backends() {
    assert!(datastore_config("memory").validate().is_ok());
    assert!(datastore_config("badger").validate().is_ok());
}

#[test]
fn datastore_config_rejects_unknown_backend() {
    assert_eq!(
        datastore_config("postgres").validate().unwrap_err(),
        ConfigError::InvalidDatastoreType("postgres".to_string())
    );
}

#[test]
fn open_builds_memory_backend() {
    let mut ds = open(&datastore_config("memory")).unwrap();
    assert_eq!(ds.retry_bound(), 3);
    let mut txn = ds.new_transaction(false);
    txn.put(&b"k".to_vec(), &b"v".to_vec()).unwrap();
    txn.commit(&mut ds).unwrap();
    let txn2 = ds.new_transaction(true);
    assert_eq!(txn2.get(&b"k".to_vec()).unwrap().value, b"v".to_vec());
}

#[test]
fn open_builds_badger_backend() {
    let ds = open(&datastore_config("badger")).unwrap();
    assert_eq!(ds.retry_bound(), 3);
}

#[test]
fn open_rejects_unknown_backend_before_any_transaction() {
    match open(&datastore_config("postgres")) {
        Err(e) => assert_eq!(e, StoreError::InvalidDatastoreType),
        Ok(_) => panic!("unknown backend was accepted"),
    }
}

#[test]
fn store_kind_carries_sizing() {
    let kind = StoreKind::Badger { path: "/p".to_string(), value_log_file_size: 42 };
    match kind {
        StoreKind::Badger { path, value_log_file_size } => {
            assert_eq!(path, "/p");
            assert_eq!(value_log_file_size, 42);
        },
        _ => unreachable!(),
    }
}

#[test]
fn address_to_url_picks_scheme_from_tls() {
    let mut api = APIConfig::default_api_config();
    assert_eq!(api.address_to_url(), "http://localhost:9181");
    api.tls = true;
    assert_eq!(api.address_to_url(), "https://localhost:9181");
}

#[test]
fn domain_name_validation_goes_through_idna() {
    assert!(APIConfig::is_valid_domain_name("example.com"));
    assert!(!APIConfig::is_valid_domain_name("exa mple.com"));
    assert!(!APIConfig::is_valid_domain_name("EXAMPLE.com"));
}

#[test]
fn net_config_default_validates() {
    assert!(NetConfig::default_net_config().validate().is_ok());
}

#[test]
fn net_config_rejects_bad_p2p_address() {
    let mut net = NetConfig::default_net_config();
    net.p2p_address = "not-a-multiaddr".to_string();
    match net.validate().unwrap_err() {
        ConfigError::InvalidP2PAddress(_, addr) => assert_eq!(addr, "not-a-multiaddr"),
        e => panic!("unexpected error: {:?}", e),
    }
}

#[test]
fn net_config_accepts_good_peers() {
    let mut net = NetConfig::default_net_config();
    net.peers = "/ip4/1.2.3.4/tcp/9171,/ip4/5.6.7.8/tcp/9171".to_string();
    assert!(net.validate().is_ok());
}

#[test]
fn net_config_rejects_bad_peer_with_joined_list() {
    let mut net = NetConfig::default_net_config();
    net.peers = "/ip4/1.2.3.4/tcp/9171,bogus".to_string();
    match net.validate().unwrap_err() {
        ConfigError::InvalidBootstrapPeers(_, list) => {
            assert_eq!(list, "/ip4/1.2.3.4/tcp/9171, bogus");
        },
        e => panic!("unexpected error: {:?}", e),
    }
}

#[test]
fn logging_default_level_is_rejected_by_validate() {
    let log = LoggingConfig::default_log_config();
    assert_eq!(log.level, "info");
    assert_eq!(
        log.validate().unwrap_err(),
        ConfigError::InvalidLogLevel("info".to_string())
    );
}

#[test]
fn logging_rejects_unknown_level() {
    let mut log = LoggingConfig::default_log_config();
    log.level = "chatty".to_string();
    assert_eq!(
        log.validate().unwrap_err(),
        ConfigError::InvalidLogLevel("chatty".to_string())
    );
}

#[test]
fn logging_level_overrides_must_be_pairs() {
    let mut log = LoggingConfig::default_log_config();
    log.level = "logLevelDebug,net=logLevelError".to_string();
    assert!(log.validate().is_ok());
    log.level = "logLevelDebug,net=".to_string();
    assert_eq!(
        log.validate().unwrap_err(),
        ConfigError::NotProvidedAsKV("net=".to_string())
    );
}

#[test]
fn logger_entries_validate() {
    let mut log = LoggingConfig::default_log_config();
    log.level = "logLevelInfo".to_string();
    log.logger = "net,level=logLevelDebug;db,output=stderr".to_string();
    assert!(log.validate().is_ok());
}

#[test]
fn logger_entry_needs_module_and_pair() {
    let mut log = LoggingConfig::default_log_config();
    log.level = "logLevelInfo".to_string();
    log.logger = "net".to_string();
    assert!(matches!(
        log.validate().unwrap_err(),
        ConfigError::InvalidLoggerConfig(_)
    ));
}

#[test]
fn logger_entry_needs_nonempty_name() {
    let mut log = LoggingConfig::default_log_config();
    log.level = "logLevelInfo".to_string();
    log.logger = ",level=logLevelDebug".to_string();
    assert_eq!(
        log.validate().unwrap_err(),
        ConfigError::InvalidLoggerName("".to_string())
    );
}

#[test]
fn logger_rejects_unknown_parameter() {
    let mut log = LoggingConfig::default_log_config();
    log.level = "logLevelInfo".to_string();
    log.logger = "net,verbosity=high".to_string();
    assert_eq!(
        log.validate().unwrap_err(),
        ConfigError::UnknownLoggerParameter("verbosity".to_string())
    );
}

#[test]
fn logger_level_with_bad_value_is_unknown_parameter() {
    let mut log = LoggingConfig::default_log_config();
    log.level = "logLevelInfo".to_string();
    log.logger = "net,level=chatty".to_string();
    assert_eq!(
        log.validate().unwrap_err(),
        ConfigError::UnknownLoggerParameter("level".to_string())
    );
}

#[test]
fn load_sets_level_and_named_overrides() {
    let mut log = LoggingConfig::default_log_config();
    log.level = "logLevelDebug,net=logLevelError".to_string();
    log.load().unwrap();
    assert_eq!(log.level, "logLevelDebug");
    let over = log.named_overrides.iter().find(|n| n.name == "net").unwrap();
    assert_eq!(over.logging_config.level, "logLevelError");
}

#[test]
fn load_applies_logger_entries() {
    let mut log = LoggingConfig::default_log_config();
    log.logger = "net,level=logLevelError,output=somewhere,caller=true".to_string();
    log.load().unwrap();
    let over = log.named_overrides.iter().find(|n| n.name == "net").unwrap();
    assert_eq!(over.logging_config.level, "logLevelError");
    assert_eq!(over.logging_config.output, "somewhere");
    assert!(over.logging_config.caller);
}

#[test]
fn load_rejects_bad_bool() {
    let mut log = LoggingConfig::default_log_config();
    log.logger = "net,caller=sometimes".to_string();
    assert_eq!(
        log.load().unwrap_err(),
        ConfigError::CouldNotParseType("bool".to_string())
    );
}

#[test]
fn load_rejects_unknown_logger_key() {
    let mut log = LoggingConfig::default_log_config();
    log.logger = "net,verbosity=high".to_string();
    assert_eq!(
        log.load().unwrap_err(),
        ConfigError::UnknownLoggerParameter("verbosity".to_string())
    );
}

#[test]
fn get_or_create_reuses_existing_override() {
    let mut log = LoggingConfig::default_log_config();
    let a = log.get_or_create_named_logger("net");
    let b = log.get_or_create_named_logger("net");
    assert_eq!(a, b);
    assert_eq!(log.named_overrides.len(), 1);
    let c = log.get_or_create_named_logger("db");
    assert_ne!(a, c);
    assert_eq!(log.named_overrides.len(), 2);
}

#[test]
fn expand_home_dir_rejects_bare_tilde() {
    assert_eq!(expand_home_dir("~").unwrap_err(), "Path cannot be home directory.");
}

#[test]
fn expand_home_dir_passes_plain_paths_through() {
    assert_eq!(expand_home_dir("/etc/defra").unwrap(), "/etc/defra");
    assert_eq!(expand_home_dir("relative/p").unwrap(), "relative/p");
}

#[test]
fn expand_home_dir_with_joins_home() {
    assert_eq!(expand_home_dir_with(Some("/home/u"), "~/x/y").unwrap(), "/home/u/x/y");
    assert_eq!(
        expand_home_dir_with(None, "~/x").unwrap_err(),
        "Unable to get home directory."
    );
    assert_eq!(expand_home_dir_with(Some("/home/u"), "plain").unwrap(), "plain");
}

#[test]
fn config_file_path_is_under_rootdir() {
    let cfg = full_config("memory");
    assert_eq!(cfg.config_file_path(), "/root-dir/config.yaml");
}

#[test]
fn config_validate_checks_sections() {
    assert!(full_config("memory").validate().is_ok());
    assert!(full_config("redis").validate().is_err());
}

#[test]
fn load_with_rootdir_anchors_paths_and_applies_logging() {
    let mut cfg = full_config("memory");
    cfg.log.level = "logLevelDebug".to_string();
    cfg.load_with_rootdir(false).unwrap();
    assert_eq!(cfg.datastore.badger.path, "/root-dir/data");
    assert_eq!(cfg.api.priv_key_path, "/root-dir/certs/server.crt");
    assert_eq!(cfg.api.pub_key_path, "/root-dir/certs/server.key");
    assert_eq!(cfg.log.level, "logLevelDebug");
}

#[test]
fn load_with_rootdir_keeps_absolute_paths() {
    let mut cfg = full_config("memory");
    cfg.datastore.badger.path = "/var/data".to_string();
    cfg.load_with_rootdir(true).unwrap();
    assert_eq!(cfg.datastore.badger.path, "/var/data");
}

#[test]
fn load_with_rootdir_rejects_invalid_sections() {
    let mut cfg = full_config("memory");
    cfg.net.p2p_address = "bogus".to_string();
    assert!(cfg.load_with_rootdir(false).is_err());
}

#[test]
fn parse_kv_splits_at_first_equals() {
    let (k, v) = defradb::parse_kv("key=val=ue").unwrap();
    assert_eq!(k, "key");
    assert_eq!(v, "val=ue");
}

#[test]
fn parse_kv_rejects_empty_sides() {
    assert_eq!(
        defradb::parse_kv("=v").unwrap_err(),
        "Invalid key-value pair: =v"
    );
    assert_eq!(
        defradb::parse_kv("k=").unwrap_err(),
        "Invalid key-value pair: k="
    );
    assert_eq!(
        defradb::parse_kv("plain").unwrap_err(),
        "Invalid key-value pair: plain"
    );
}

#[test]
fn lowercase_alpha_check() {
    assert!(defradb::is_lowercase_alpha("abc"));
    assert!(defradb::is_lowercase_alpha(""));
    assert!(!defradb::is_lowercase_alpha("aBc"));
    assert!(!defradb::is_lowercase_alpha("a1"));
}
