use kotori::config::{Config, HashConfig, IpAddress, LbConfig, LbMode, Protocol, RealIp, StatConfig, Vip};
use kotori::engine::{Connection, Engine, HashField, Policy, Verdict};
use kotori::sync::{build_rules, map_updates, SyncError};
use kotori::table::{key_bytes, Backend, RECORD_LEN};

fn v4(a: u8, b: u8, c: u8, d: u8) -> IpAddress {
    IpAddress::V4(((a as u32) << 24) | ((b as u32) << 16) | ((c as u32) << 8) | (d as u32))
}

fn vip(addr: IpAddress, port: u16, mode: LbMode, rip: Vec<RealIp>) -> Vip {
    Vip {
        name: "web-80".to_string(),
        addr,
        port,
        proto: Protocol::Tcp,
        lb: LbConfig { mode, hash: None },
        rip,
        stat: StatConfig { enable: false, out: None },
    }
}

#[test]
fn end_to_end_round_robin_service() {
    let web = vip(
        v4(10, 0, 0, 100),
        80,
        LbMode::RoundRobin,
        vec![
            RealIp { addr: v4(192, 168, 1, 10), port: 8080, weight: 5 },
            RealIp { addr: v4(192, 168, 1, 11), port: 8080, weight: 1 },
        ],
    );
    let empty = vip(v4(10, 0, 0, 101), 80, LbMode::RoundRobin, vec![]);
    let config = Config { vip: vec![web, empty] };
    assert_eq!(config.validate(), Ok(()));

    let rules = build_rules(&config).unwrap();
    assert_eq!(rules.len(), 2);
    assert_eq!(rules[0].table.size, 2);
    assert!(!rules[0].truncated);
    assert_eq!(rules[1].table.size, 0);

    let updates = map_updates(&rules);
    assert_eq!(updates[0].key, vec![10, 0, 0, 100]);
    assert_eq!(updates[0].value.len(), RECORD_LEN);
    assert_eq!(&updates[0].value[0..4], &[2, 0, 0, 0]);

    let mut engine = Engine::new();
    engine.synchronize(rules);

    let key = u32::from_be_bytes([10, 0, 0, 100]);
    assert_eq!(key_bytes(key), vec![10, 0, 0, 100]);
    let t = engine.table(key).unwrap();
    assert_eq!(t.size, 2);
    assert_eq!(
        t.entries,
        vec![
            Backend { addr: 0xC0A8_010A, port: 8080, weight: 5 },
            Backend { addr: 0xC0A8_010B, port: 8080, weight: 1 },
        ]
    );

    let c = Connection { src_addr: 0x7F00_0001, src_port: 40000, dst_addr: key, dst_port: 80 };
    let picks: Vec<Verdict> = (0..6).map(|_| engine.connect(c)).collect();
    let to_first = Verdict::Redirect { index: 0, addr: 0xC0A8_010A, port: 8080 };
    let to_second = Verdict::Redirect { index: 1, addr: 0xC0A8_010B, port: 8080 };
    assert_eq!(picks, vec![to_first, to_first, to_first, to_first, to_first, to_second]);

    let empty_key = u32::from_be_bytes([10, 0, 0, 101]);
    assert_eq!(engine.table(empty_key).unwrap().size, 0);
    let c = Connection { dst_addr: empty_key, ..c };
    assert_eq!(engine.connect(c), Verdict::Refuse);
}

#[test]
fn later_service_on_same_address_replaces_earlier() {
    let a = vip(v4(10, 0, 0, 1), 80, LbMode::RoundRobin, vec![RealIp { addr: v4(1, 1, 1, 1), port: 1, weight: 1 }]);
    let b = vip(v4(10, 0, 0, 1), 443, LbMode::LeastConn, vec![]);
    let rules = build_rules(&Config { vip: vec![a, b] }).unwrap();
    let mut engine = Engine::new();
    engine.synchronize(rules);
    let t = engine.table(0x0A00_0001).unwrap();
    assert_eq!(t.size, 0);
    assert_eq!(engine.pools.len(), 1);
}

#[test]
fn hash_policy_needs_a_known_key() {
    let mut h = vip(v4(10, 0, 0, 1), 80, LbMode::Hash, vec![]);
    let config = Config { vip: vec![h] };
    assert_eq!(build_rules(&config).unwrap_err(), SyncError::MissingHashKey { vip: 0 });

    h = vip(v4(10, 0, 0, 1), 80, LbMode::Hash, vec![]);
    h.lb.hash = Some(HashConfig { key: "dst_mac".to_string() });
    let ok = vip(v4(10, 0, 0, 2), 80, LbMode::LeastConn, vec![]);
    let config = Config { vip: vec![ok, h] };
    assert_eq!(build_rules(&config).unwrap_err(), SyncError::UnknownHashKey { vip: 1 });

    let mut h = vip(v4(10, 0, 0, 1), 80, LbMode::Hash, vec![]);
    h.lb.hash = Some(HashConfig { key: "src_ip".to_string() });
    let mut p = vip(v4(10, 0, 0, 2), 80, LbMode::Hash, vec![]);
    p.lb.hash = Some(HashConfig { key: "src_port".to_string() });
    let rules = build_rules(&Config { vip: vec![h, p] }).unwrap();
    assert_eq!(rules[0].policy, Policy::Hash(HashField::SrcIp));
    assert_eq!(rules[1].policy, Policy::Hash(HashField::SrcPort));
}

#[test]
fn ipv6_is_rejected_before_anything_is_written() {
    let ok = vip(v4(10, 0, 0, 1), 80, LbMode::RoundRobin, vec![]);
    let v6 = vip(IpAddress::V6(1), 80, LbMode::RoundRobin, vec![]);
    let config = Config { vip: vec![ok, v6] };
    assert_eq!(build_rules(&config).unwrap_err(), SyncError::Ipv6Vip { vip: 1 });

    let bad_rip = vip(
        v4(10, 0, 0, 3),
        80,
        LbMode::RoundRobin,
        vec![
            RealIp { addr: v4(1, 1, 1, 1), port: 1, weight: 1 },
            RealIp { addr: IpAddress::V6(5), port: 1, weight: 1 },
        ],
    );
    let config = Config { vip: vec![bad_rip] };
    assert_eq!(build_rules(&config).unwrap_err(), SyncError::Ipv6Backend { vip: 0, index: 1 });
}

#[test]
fn oversized_pool_is_flagged_as_truncated() {
    let rip: Vec<RealIp> = (0..520u32)
        .map(|i| RealIp { addr: IpAddress::V4(i), port: 80, weight: 1 })
        .collect();
    let config = Config { vip: vec![vip(v4(10, 0, 0, 1), 80, LbMode::RoundRobin, rip)] };
    let rules = build_rules(&config).unwrap();
    assert!(rules[0].truncated);
    assert_eq!(rules[0].table.size, 512);
}
