use filehunter::config::{
    normalize_prefix, parse_byte_size, ByteSize, Config, LocationConfig, SearchMode, SearchPath,
    ServerConfig,
};

/// Reads `size = ...` from TOML text the way the configuration loader does.
fn size_from_toml(text: &str) -> Result<ByteSize, String> {
    let table: toml::Table = toml::from_str(text).map_err(|e| e.to_string())?;
    match &table["size"] {
        toml::Value::Integer(i) => ByteSize::from_signed(*i),
        toml::Value::String(s) => parse_byte_size(s),
        other => Err(format!("not a byte size: {other}")),
    }
}

#[test]
fn bytesize_from_integer() {
    let size = size_from_toml("size = 65536").unwrap();
    assert_eq!(size.0, 65536);
}

#[test]
fn bytesize_from_kb() {
    let size = size_from_toml(r#"size = "64KB""#).unwrap();
    assert_eq!(size.0, 65536);
}

#[test]
fn bytesize_from_mb() {
    let size = size_from_toml(r#"size = "1MB""#).unwrap();
    assert_eq!(size.0, 1_048_576);
}

#[test]
fn bytesize_from_gb() {
    let size = size_from_toml(r#"size = "2GB""#).unwrap();
    assert_eq!(size.0, 2_147_483_648);
}

#[test]
fn bytesize_case_insensitive() {
    let size = size_from_toml(r#"size = "1kb""#).unwrap();
    assert_eq!(size.0, 1024);
}

#[test]
fn bytesize_rejects_negative() {
    let msg = size_from_toml("size = -1").unwrap_err();
    assert!(msg.contains("negative"), "expected 'negative' in: {msg}");
}

#[test]
fn bytesize_rejects_unknown_unit() {
    let msg = size_from_toml(r#"size = "10TB""#).unwrap_err();
    assert!(msg.contains("unknown unit"), "expected 'unknown unit' in: {msg}");
}

#[test]
fn bytesize_parse_messages() {
    assert_eq!(parse_byte_size("").unwrap_err(), "empty byte size");
    assert_eq!(parse_byte_size("   ").unwrap_err(), "empty byte size");
    assert_eq!(parse_byte_size("KB").unwrap_err(), "invalid number in byte size: KB");
    assert_eq!(
        parse_byte_size("99999999999999999999").unwrap_err(),
        "invalid number in byte size: 99999999999999999999"
    );
    assert_eq!(
        parse_byte_size("10TB").unwrap_err(),
        "unknown unit: TB (use B, KB, MB, or GB)"
    );
    assert_eq!(
        parse_byte_size("17179869184GB").unwrap_err(),
        "byte size overflow: 17179869184GB"
    );
}

#[test]
fn bytesize_parse_units_and_spaces() {
    assert_eq!(parse_byte_size(" 12 ").unwrap().0, 12);
    assert_eq!(parse_byte_size("12 b").unwrap().0, 12);
    assert_eq!(parse_byte_size("3k").unwrap().0, 3072);
    assert_eq!(parse_byte_size("2 Mb").unwrap().0, 2_097_152);
    assert_eq!(parse_byte_size("1g").unwrap().0, 1_073_741_824);
    assert_eq!(parse_byte_size("0").unwrap().0, 0);
    assert_eq!(parse_byte_size("18446744073709551615").unwrap().0, u64::MAX);
}

#[test]
fn bytesize_conversions() {
    let b = ByteSize(0x1_0000_0005);
    assert_eq!(b.as_u64(), 0x1_0000_0005);
    assert_eq!(b.as_u32(), 5);
    assert_eq!(b.as_usize(), 0x1_0000_0005usize);
    assert!(ByteSize::from_signed(7).unwrap().0 == 7);
}

#[test]
fn display_zero() {
    assert_eq!(ByteSize(0).to_string(), "0");
}

#[test]
fn display_kb() {
    assert_eq!(ByteSize(65536).to_string(), "64KB");
}

#[test]
fn display_mb() {
    assert_eq!(ByteSize(1_048_576).to_string(), "1MB");
}

#[test]
fn display_non_aligned() {
    assert_eq!(ByteSize(1025).to_string(), "1025B");
}

#[test]
fn display_gb() {
    assert_eq!(ByteSize(3 * 1024 * 1024 * 1024).to_string(), "3GB");
}

#[test]
fn prefix_adds_leading_slash() {
    assert_eq!(normalize_prefix("imgs"), "/imgs");
}

#[test]
fn prefix_strips_trailing_slash() {
    assert_eq!(normalize_prefix("/imgs/"), "/imgs");
}

#[test]
fn prefix_root_preserved() {
    assert_eq!(normalize_prefix("/"), "/");
}

#[test]
fn prefix_multi_segment() {
    assert_eq!(normalize_prefix("/data/images"), "/data/images");
}

#[test]
fn prefix_edge_cases() {
    assert_eq!(normalize_prefix(""), "/");
    assert_eq!(normalize_prefix("///"), "/");
    assert_eq!(normalize_prefix("a//"), "/a");
}

#[test]
fn extension_set_empty_returns_none() {
    let sp = SearchPath {
        root: "/tmp".to_string(),
        extensions: vec![],
    };
    assert!(sp.extension_set().is_none());
}

#[test]
fn extension_set_strips_dots_lowercases() {
    let sp = SearchPath {
        root: "/tmp".to_string(),
        extensions: vec![".JPG".into(), "Png".into()],
    };
    let set = sp.extension_set().unwrap();
    assert!(set.contains("jpg"));
    assert!(set.contains("png"));
    assert_eq!(set.len(), 2);
}

#[test]
fn extension_set_deduplicates() {
    let sp = SearchPath {
        root: "/tmp".to_string(),
        extensions: vec!["jpg".into(), "JPG".into()],
    };
    let set = sp.extension_set().unwrap();
    assert_eq!(set.len(), 1);
}

/// A minimal valid configuration for mutation-based tests.
fn valid_config() -> Config {
    Config {
        server: ServerConfig::default(),
        locations: vec![LocationConfig {
            prefix: "/".into(),
            mode: SearchMode::Sequential,
            max_file_size: None,
            paths: vec![SearchPath {
                root: "/tmp".to_string(),
                extensions: vec![],
            }],
        }],
    }
}

#[test]
fn validate_accepts_valid_config() {
    assert!(valid_config().validate().is_ok());
}

#[test]
fn validate_rejects_small_header_size() {
    let mut cfg = valid_config();
    cfg.server.max_header_size = ByteSize(4096);
    let err = cfg.validate().unwrap_err();
    assert!(err.contains("must be >= 8KB"), "error: {err}");
    assert_eq!(err, "max_header_size must be >= 8KB (got 4KB)");
}

#[test]
fn validate_rejects_zero_stream_buffer() {
    let mut cfg = valid_config();
    cfg.server.stream_buffer_size = ByteSize(0);
    let err = cfg.validate().unwrap_err();
    assert!(err.contains("must be > 0"), "error: {err}");
}

#[test]
fn validate_rejects_no_locations() {
    let mut cfg = valid_config();
    cfg.locations = vec![];
    let err = cfg.validate().unwrap_err();
    assert!(err.contains("at least one"), "error: {err}");
}

#[test]
fn validate_rejects_cors_cred_wildcard() {
    let mut cfg = valid_config();
    cfg.server.cors.enabled = true;
    cfg.server.cors.allow_credentials = true;
    cfg.server.cors.allow_origins = vec!["*".into()];
    let err = cfg.validate().unwrap_err();
    assert!(err.contains("incompatible"), "error: {err}");
}

#[test]
fn validate_rejects_ratelimit_zero_rps() {
    let mut cfg = valid_config();
    cfg.server.rate_limit.enabled = true;
    cfg.server.rate_limit.requests_per_second = 0;
    let err = cfg.validate().unwrap_err();
    assert!(err.contains("requests_per_second"), "error: {err}");
}

#[test]
fn validate_rejects_ratelimit_zero_burst() {
    let mut cfg = valid_config();
    cfg.server.rate_limit.enabled = true;
    cfg.server.rate_limit.burst_size = 0;
    let err = cfg.validate().unwrap_err();
    assert_eq!(err, "rate_limit.burst_size must be > 0");
}

#[test]
fn validate_rejects_unknown_compression() {
    let mut cfg = valid_config();
    cfg.server.compression.enabled = true;
    cfg.server.compression.algorithms = vec!["gzip".into(), "lzma".into()];
    let err = cfg.validate().unwrap_err();
    assert_eq!(
        err,
        "unknown compression algorithm: \"lzma\" (valid: gzip, deflate, br, zstd)"
    );
    cfg.server.compression.algorithms = vec![];
    let err = cfg.validate().unwrap_err();
    assert!(err.contains("must not be empty"), "error: {err}");
}

#[test]
fn validate_rejects_pathless_and_forbidden_prefix() {
    let mut cfg = valid_config();
    cfg.locations[0].paths = vec![];
    assert_eq!(
        cfg.validate().unwrap_err(),
        "location prefix=\"/\" must have at least one path"
    );
    let mut cfg = valid_config();
    cfg.locations[0].prefix = "/a/../b".into();
    assert!(cfg.validate().unwrap_err().contains("forbidden characters"));
}

#[test]
fn validate_rejects_duplicate_prefix() {
    let mut cfg = valid_config();
    cfg.locations.push(LocationConfig {
        prefix: "/".into(),
        mode: SearchMode::Sequential,
        max_file_size: None,
        paths: vec![SearchPath {
            root: "/tmp".to_string(),
            extensions: vec![],
        }],
    });
    let err = cfg.validate().unwrap_err();
    assert!(err.contains("duplicate"), "error: {err}");
}

#[test]
fn defaults_match_documented_values() {
    let s = ServerConfig::default();
    assert_eq!(s.bind, "0.0.0.0:8080");
    assert_eq!(s.max_body_size.0, 1_048_576);
    assert_eq!(s.max_file_size.0, 10 * 1024 * 1024);
    assert_eq!(s.stream_buffer_size.0, 65536);
    assert_eq!(s.rate_limit.requests_per_second, 10);
    assert_eq!(s.cors.allow_methods, vec!["GET", "HEAD", "OPTIONS"]);
    assert_eq!(s.compression.algorithms, vec!["gzip", "br"]);
    assert_eq!(SearchMode::default(), SearchMode::Sequential);
}
