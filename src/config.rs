use vstd::prelude::*;

verus! {

/// An IP address as written in the configuration.
///
/// An IPv4 address is held as its numeric value: `a.b.c.d` is
/// `a * 2^24 + b * 2^16 + c * 2^8 + d`, so its network-order bytes are the
/// big-endian bytes of that number. IPv6 is kept only so that it can be
/// rejected with a precise error.
#[derive(Clone, Copy, Debug, PartialEq, Eq, Structural)]
pub enum IpAddress {
    V4(u32),
    V6(u128),
}

/// Transport protocol of a virtual service.
#[derive(Clone, Copy, Debug, PartialEq, Eq, Structural)]
pub enum Protocol {
    Tcp,
    Udp,
    Sctp,
}

/// Load-balancing policy of a virtual service.
#[derive(Clone, Copy, Debug, PartialEq, Eq, Structural)]
pub enum LbMode {
    Hash,
    RoundRobin,
    LeastConn,
}

/// Settings of the hash policy: `key` names the connection field that seeds the hash.
#[derive(Debug)]
pub struct HashConfig {
    pub key: String,
}

/// The policy block of a virtual service.
#[derive(Debug)]
pub struct LbConfig {
    pub mode: LbMode,
    pub hash: Option<HashConfig>,
}

/// One real backend of a virtual service.
#[derive(Clone, Copy, Debug, PartialEq, Eq, Structural)]
pub struct RealIp {
    pub addr: IpAddress,
    pub port: u16,
    pub weight: u32,
}

/// Output format of the statistics log.
#[derive(Clone, Copy, Debug, PartialEq, Eq, Structural)]
pub enum StatFormat {
    Json,
    Prometheus,
    Text,
}

/// Where and how often statistics are written.
#[derive(Debug)]
pub struct StatOutputConfig {
    pub fmt: StatFormat,
    pub path: String,
    pub interval: u64,
}

/// The statistics block of a virtual service.
#[derive(Debug)]
pub struct StatConfig {
    pub enable: bool,
    pub out: Option<StatOutputConfig>,
}

/// A virtual service: the endpoint clients connect to and its backend pool.
#[derive(Debug)]
pub struct Vip {
    pub name: String,
    pub addr: IpAddress,
    pub port: u16,
    pub proto: Protocol,
    pub lb: LbConfig,
    pub rip: Vec<RealIp>,
    pub stat: StatConfig,
}

/// The whole configuration: every virtual service, in file order.
#[derive(Debug)]
pub struct Config {
    pub vip: Vec<Vip>,
}

/// Why a configuration was refused.
#[derive(Clone, Copy, Debug, PartialEq, Eq, Structural)]
pub enum ConfigError {
    /// The configuration file named on the command line does not exist.
    ConfigFileNotFound,
    /// The output path named on the command line does not exist.
    OutputPathNotFound,
    /// A second virtual service uses this address and port.
    DuplicateVip { addr: IpAddress, port: u16 },
    /// This backend has weight 0.
    ZeroWeight { addr: IpAddress, port: u16 },
    /// Statistics are enabled for this virtual service but no output is given.
    MissingStatOutput { addr: IpAddress, port: u16 },
    /// The hash policy is chosen for this virtual service but no hash key is given.
    MissingHashKey { addr: IpAddress, port: u16 },
}

/// Weight given to a backend whose configuration leaves it out.
pub fn default_weight() -> (r: u32)
    ensures
        r == 1,
{
    1
}

/// Statistics interval, in seconds, when the configuration leaves it out.
pub fn default_interval() -> (r: u64)
    ensures
        r == 1,
{
    1
}

/// Two virtual services listen on the same endpoint.
pub open spec fn same_endpoint(a: Vip, b: Vip) -> bool {
    a.addr == b.addr && a.port == b.port
}

/// The outcome of the weight check on a backend list: the first backend of
/// weight 0, if any, is reported.
pub open spec fn weights_check(rips: Seq<RealIp>) -> Result<(), ConfigError>
    decreases rips.len(),
{
    if rips.len() == 0 {
        Ok(())
    } else if rips[0].weight == 0 {
        Err(ConfigError::ZeroWeight { addr: rips[0].addr, port: rips[0].port })
    } else {
        weights_check(rips.drop_first())
    }
}

/// A policy block is complete: the hash policy comes with a hash key.
pub open spec fn lb_ok(lb: LbConfig) -> bool {
    lb.mode == LbMode::Hash ==> lb.hash is Some
}

/// The outcome of checking the `j`-th virtual service against the ones
/// before it: endpoint, then weights, then hash key, then statistics.
pub open spec fn vip_check(vips: Seq<Vip>, j: int) -> Result<(), ConfigError> {
    let v = vips[j];
    if exists|i: int| 0 <= i < j && #[trigger] same_endpoint(vips[i], v) {
        Err(ConfigError::DuplicateVip { addr: v.addr, port: v.port })
    } else if weights_check(v.rip@) is Err {
        weights_check(v.rip@)
    } else if !lb_ok(v.lb) {
        Err(ConfigError::MissingHashKey { addr: v.addr, port: v.port })
    } else if v.stat.enable && v.stat.out is None {
        Err(ConfigError::MissingStatOutput { addr: v.addr, port: v.port })
    } else {
        Ok(())
    }
}

/// The outcome of validating the first `n` virtual services: the first
/// failing one decides the error.
pub open spec fn config_check(vips: Seq<Vip>, n: nat) -> Result<(), ConfigError>
    decreases n,
{
    if n == 0 {
        Ok(())
    } else {
        match config_check(vips, (n - 1) as nat) {
            Ok(()) => vip_check(vips, n - 1),
            Err(e) => Err(e),
        }
    }
}

/// A backend list with no weight of 0 passes the weight check, and one with
/// a weight of 0 fails it.
pub proof fn lemma_weights_check(rips: Seq<RealIp>)
    ensures
        weights_check(rips) is Ok <==> forall|k: int| 0 <= k < rips.len() ==> rips[k].weight != 0,
    decreases rips.len(),
{
    if rips.len() > 0 {
        lemma_weights_check(rips.drop_first());
        if weights_check(rips.drop_first()) is Ok && rips[0].weight != 0 {
            assert forall|k: int| 0 <= k < rips.len() implies rips[k].weight != 0 by {
                if k > 0 {
                    assert(rips[k] == rips.drop_first()[k - 1]);
                }
            }
        }
        if forall|k: int| 0 <= k < rips.len() ==> rips[k].weight != 0 {
            assert forall|k: int| 0 <= k < rips.len() - 1 implies rips.drop_first()[k].weight
                != 0 by {
                assert(rips.drop_first()[k] == rips[k + 1]);
            }
        }
    }
}

/// Once a prefix of the services fails, every longer prefix fails the same way.
proof fn lemma_config_check_sticks(vips: Seq<Vip>, n: nat, m: nat)
    requires
        n <= m,
        config_check(vips, n) is Err,
    ensures
        config_check(vips, m) == config_check(vips, n),
    decreases m - n,
{
    if n < m {
        lemma_config_check_sticks(vips, n, (m - 1) as nat);
    }
}

/// If every one of the first `n` services passes its own check, the prefix passes.
proof fn lemma_config_check_prefix_ok(vips: Seq<Vip>, n: nat)
    requires
        n <= vips.len(),
        forall|k: int| 0 <= k < n ==> #[trigger] vip_check(vips, k) is Ok,
    ensures
        config_check(vips, n) is Ok,
    decreases n,
{
    if n > 0 {
        lemma_config_check_prefix_ok(vips, (n - 1) as nat);
        assert(vip_check(vips, n - 1) is Ok);
    }
}

/// If the `j`-th service fails its own check, the whole list fails.
proof fn lemma_config_check_fails_at(vips: Seq<Vip>, j: int)
    requires
        0 <= j < vips.len(),
        vip_check(vips, j) is Err,
    ensures
        config_check(vips, vips.len()) is Err,
{
    if config_check(vips, j as nat) is Err {
        lemma_config_check_sticks(vips, j as nat, (j + 1) as nat);
    }
    lemma_config_check_sticks(vips, (j + 1) as nat, vips.len());
}

/// Two virtual services on the same address and port make validation fail.
pub proof fn lemma_duplicate_rejected(vips: Seq<Vip>, i: int, j: int)
    requires
        0 <= i < j < vips.len(),
        same_endpoint(vips[i], vips[j]),
    ensures
        config_check(vips, vips.len()) is Err,
{
    assert(vip_check(vips, j) is Err);
    lemma_config_check_fails_at(vips, j);
}

/// In a list whose services are otherwise valid and whose endpoints are
/// unique but for one pair, validation fails and names that endpoint as the
/// duplicate.
pub proof fn lemma_single_duplicate_identified(vips: Seq<Vip>, i: int, j: int)
    requires
        0 <= i < j < vips.len(),
        same_endpoint(vips[i], vips[j]),
        forall|a: int, b: int|
            0 <= a < b < vips.len() && !(a == i && b == j) ==> !same_endpoint(vips[a], vips[b]),
        forall|k: int| 0 <= k < vips.len() ==> #[trigger] weights_check(vips[k].rip@) is Ok,
        forall|k: int| 0 <= k < vips.len() ==> lb_ok(#[trigger] vips[k].lb),
        forall|k: int|
            0 <= k < vips.len() ==> !(#[trigger] vips[k].stat.enable && vips[k].stat.out is None),
    ensures
        config_check(vips, vips.len()) == Err::<(), ConfigError>(
            ConfigError::DuplicateVip { addr: vips[j].addr, port: vips[j].port },
        ),
{
    assert forall|k: int| 0 <= k < j implies #[trigger] vip_check(vips, k) is Ok by {
        assert(weights_check(vips[k].rip@) is Ok);
        assert(lb_ok(vips[k].lb));
        assert(!(vips[k].stat.enable && vips[k].stat.out is None));
        assert forall|a: int| 0 <= a < k implies !(#[trigger] same_endpoint(vips[a], vips[k])) by {
        }
    }
    lemma_config_check_prefix_ok(vips, j as nat);
    assert(same_endpoint(vips[i], vips[j]));
    lemma_config_check_sticks(vips, (j + 1) as nat, vips.len());
}

/// A backend of weight 0 anywhere in the configuration makes validation fail.
pub proof fn lemma_zero_weight_rejected(vips: Seq<Vip>, j: int, k: int)
    requires
        0 <= j < vips.len(),
        0 <= k < vips[j].rip@.len(),
        vips[j].rip@[k].weight == 0,
    ensures
        config_check(vips, vips.len()) is Err,
{
    lemma_weights_check(vips[j].rip@);
    assert(vip_check(vips, j) is Err);
    lemma_config_check_fails_at(vips, j);
}

impl Config {
    /// Checks the `j`-th virtual service: its endpoint must not repeat an
    /// earlier one, no backend may have weight 0, the hash policy needs a
    /// hash key, and enabled statistics need an output.
    pub fn validate_vip(&self, j: usize) -> (r: Result<(), ConfigError>)
        requires
            j < self.vip@.len(),
        ensures
            r == vip_check(self.vip@, j as int),
    {
        let v = &self.vip[j];
        let mut i: usize = 0;
        while i < j
            invariant
                i <= j < self.vip@.len(),
                v == self.vip@[j as int],
                forall|k: int| 0 <= k < i ==> !same_endpoint(self.vip@[k], *v),
            decreases j - i,
        {
            if self.vip[i].addr == v.addr && self.vip[i].port == v.port {
                assert(same_endpoint(self.vip@[i as int], self.vip@[j as int]));
                return Err(ConfigError::DuplicateVip { addr: v.addr, port: v.port });
            }
            i = i + 1;
        }
        match check_weights(&v.rip) {
            Err(e) => {
                return Err(e);
            },
            Ok(()) => {},
        }
        if v.lb.mode == LbMode::Hash && v.lb.hash.is_none() {
            return Err(ConfigError::MissingHashKey { addr: v.addr, port: v.port });
        }
        if v.stat.enable && v.stat.out.is_none() {
            return Err(ConfigError::MissingStatOutput { addr: v.addr, port: v.port });
        }
        Ok(())
    }

    /// Checks every virtual service in order (see [`Config::validate_vip`])
    /// and reports the first problem.
    pub fn validate(&self) -> (r: Result<(), ConfigError>)
        ensures
            r == config_check(self.vip@, self.vip@.len()),
    {
        let n = self.vip.len();
        let mut j: usize = 0;
        while j < n
            invariant
                n == self.vip@.len(),
                j <= n,
                config_check(self.vip@, j as nat) == Ok::<(), ConfigError>(()),
            decreases n - j,
        {
            let r = self.validate_vip(j);
            if r.is_err() {
                proof {
                    lemma_config_check_sticks(self.vip@, (j + 1) as nat, n as nat);
                }
                return r;
            }
            j = j + 1;
        }
        Ok(())
    }
}

/// Reports the first backend of weight 0, if any.
fn check_weights(rips: &Vec<RealIp>) -> (r: Result<(), ConfigError>)
    ensures
        r == weights_check(rips@),
{
    let n = rips.len();
    let mut k: usize = 0;
    assert(rips@.subrange(0, n as int) =~= rips@);
    while k < n
        invariant
            n == rips@.len(),
            k <= n,
            weights_check(rips@) == weights_check(rips@.subrange(k as int, n as int)),
        decreases n - k,
    {
        assert(rips@.subrange(k as int, n as int).drop_first() =~= rips@.subrange(
            k + 1,
            n as int,
        ));
        if rips[k].weight == 0 {
            return Err(ConfigError::ZeroWeight { addr: rips[k].addr, port: rips[k].port });
        }
        k = k + 1;
    }
    assert(rips@.subrange(n as int, n as int).len() == 0);
    Ok(())
}

} // verus!
