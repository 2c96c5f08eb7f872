use kotori::cli::Cli;
use kotori::config::{
    default_interval, default_weight, Config, ConfigError, HashConfig, IpAddress, LbConfig, LbMode, Protocol,
    RealIp, StatConfig, StatFormat, StatOutputConfig, Vip,
};

fn v4(a: u8, b: u8, c: u8, d: u8) -> IpAddress {
    IpAddress::V4(((a as u32) << 24) | ((b as u32) << 16) | ((c as u32) << 8) | (d as u32))
}

fn create_mock_vip(addr: IpAddress, port: u16) -> Vip {
    Vip {
        name: "test".to_string(),
        addr,
        port,
        proto: Protocol::Tcp,
        lb: LbConfig { mode: LbMode::RoundRobin, hash: None },
        rip: vec![RealIp { addr: v4(192, 168, 1, 1), port: 8080, weight: 1 }],
        stat: StatConfig { enable: false, out: None },
    }
}

#[test]
fn test_duplicate_vip_conflict() {
    let config = Config {
        vip: vec![create_mock_vip(v4(10, 0, 0, 1), 80), create_mock_vip(v4(10, 0, 0, 1), 80)],
    };
    assert!(config.validate().is_err());
}

#[test]
fn test_invalid_weight() {
    let mut vip = create_mock_vip(v4(10, 0, 0, 1), 80);
    vip.rip[0].weight = 0;
    let config = Config { vip: vec![vip] };
    assert!(config.validate().is_err());
}

#[test]
fn duplicate_is_identified_among_unique_entries() {
    let config = Config {
        vip: vec![
            create_mock_vip(v4(10, 0, 0, 1), 80),
            create_mock_vip(v4(10, 0, 0, 2), 80),
            create_mock_vip(v4(10, 0, 0, 1), 443),
            create_mock_vip(v4(10, 0, 0, 2), 80),
        ],
    };
    assert_eq!(
        config.validate(),
        Err(ConfigError::DuplicateVip { addr: v4(10, 0, 0, 2), port: 80 })
    );
}

#[test]
fn same_address_on_other_ports_is_accepted() {
    let config = Config {
        vip: vec![create_mock_vip(v4(10, 0, 0, 1), 80), create_mock_vip(v4(10, 0, 0, 1), 81)],
    };
    assert_eq!(config.validate(), Ok(()));
}

#[test]
fn zero_weight_names_the_backend() {
    let mut vip = create_mock_vip(v4(10, 0, 0, 1), 80);
    vip.rip.push(RealIp { addr: v4(192, 168, 1, 2), port: 9090, weight: 0 });
    vip.rip.push(RealIp { addr: v4(192, 168, 1, 3), port: 9091, weight: 0 });
    let config = Config { vip: vec![vip] };
    assert_eq!(
        config.validate(),
        Err(ConfigError::ZeroWeight { addr: v4(192, 168, 1, 2), port: 9090 })
    );
}

#[test]
fn first_failing_service_decides_the_error() {
    let mut bad = create_mock_vip(v4(10, 0, 0, 1), 80);
    bad.rip[0].weight = 0;
    let config = Config {
        vip: vec![bad, create_mock_vip(v4(10, 0, 0, 1), 80)],
    };
    assert_eq!(
        config.validate(),
        Err(ConfigError::ZeroWeight { addr: v4(192, 168, 1, 1), port: 8080 })
    );
}

#[test]
fn enabled_stats_need_an_output() {
    let mut vip = create_mock_vip(v4(10, 0, 0, 1), 80);
    vip.stat.enable = true;
    let config = Config { vip: vec![vip] };
    assert_eq!(
        config.validate(),
        Err(ConfigError::MissingStatOutput { addr: v4(10, 0, 0, 1), port: 80 })
    );

    let mut vip = create_mock_vip(v4(10, 0, 0, 1), 80);
    vip.stat = StatConfig {
        enable: true,
        out: Some(StatOutputConfig {
            fmt: StatFormat::Json,
            path: "/tmp/test.log".to_string(),
            interval: default_interval(),
        }),
    };
    let config = Config { vip: vec![vip] };
    assert_eq!(config.validate(), Ok(()));
}

#[test]
fn empty_configuration_is_valid() {
    let config = Config { vip: vec![] };
    assert_eq!(config.validate(), Ok(()));
}

#[test]
fn defaults_are_one() {
    assert_eq!(default_weight(), 1);
    assert_eq!(default_interval(), 1);
}

#[test]
fn cli_requires_existing_files() {
    let cli = Cli { config: "lb.toml".to_string(), stats: false, path: None };
    assert_eq!(cli.validate_args(true, false), Ok(()));
    assert_eq!(cli.validate_args(false, false), Err(ConfigError::ConfigFileNotFound));
    let cli = Cli {
        config: "lb.toml".to_string(),
        stats: true,
        path: Some("/var/log".to_string()),
    };
    assert_eq!(cli.validate_args(true, true), Ok(()));
    assert_eq!(cli.validate_args(true, false), Err(ConfigError::OutputPathNotFound));
    assert_eq!(cli.validate_args(false, true), Err(ConfigError::ConfigFileNotFound));
}

#[test]
fn hash_mode_needs_a_hash_key() {
    let mut vip = create_mock_vip(v4(10, 0, 0, 1), 80);
    vip.lb.mode = LbMode::Hash;
    let config = Config { vip: vec![vip] };
    assert_eq!(
        config.validate(),
        Err(ConfigError::MissingHashKey { addr: v4(10, 0, 0, 1), port: 80 })
    );
}

#[test]
fn any_hash_key_name_passes_validation() {
    for key in ["src_ip", "src_port", "dst_mac"] {
        let mut vip = create_mock_vip(v4(10, 0, 0, 1), 80);
        vip.lb = LbConfig { mode: LbMode::Hash, hash: Some(HashConfig { key: key.to_string() }) };
        let config = Config { vip: vec![vip] };
        assert_eq!(config.validate(), Ok(()));
    }
}

#[test]
fn each_service_is_checked_against_earlier_ones() {
    let mut hashed = create_mock_vip(v4(10, 0, 0, 2), 80);
    hashed.lb.mode = LbMode::Hash;
    let config = Config {
        vip: vec![create_mock_vip(v4(10, 0, 0, 1), 80), hashed, create_mock_vip(v4(10, 0, 0, 1), 80)],
    };
    assert_eq!(config.validate_vip(0), Ok(()));
    assert_eq!(
        config.validate_vip(1),
        Err(ConfigError::MissingHashKey { addr: v4(10, 0, 0, 2), port: 80 })
    );
    assert_eq!(
        config.validate_vip(2),
        Err(ConfigError::DuplicateVip { addr: v4(10, 0, 0, 1), port: 80 })
    );
    assert_eq!(config.validate(), config.validate_vip(1));
}
