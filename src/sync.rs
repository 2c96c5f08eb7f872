use vstd::prelude::*;
use crate::config::{Config, IpAddress, LbConfig, LbMode, Vip};
use crate::engine::{fresh_pool, Engine, HashField, Policy, PoolView};
use crate::table::{
    all_v4, encode_backends, endpoints_of, key_bytes, key_bytes_spec, record_bytes, table_of, v4_value,
    BackendTable, EncodeError, MAX_BACKENDS,
};

verus! {

/// What the control plane writes for one virtual service: the store key
/// (the service's numeric IPv4 address), its policy and its backend table.
/// `truncated` says that backends past the capacity were dropped.
#[derive(Debug)]
pub struct Rule {
    pub key: u32,
    pub policy: Policy,
    pub table: BackendTable,
    pub truncated: bool,
}

/// Why a configuration could not be turned into store records. `vip` is
/// the position of the offending virtual service.
#[derive(Clone, Copy, Debug, PartialEq, Eq, Structural)]
pub enum SyncError {
    /// The virtual service has an IPv6 address.
    Ipv6Vip { vip: usize },
    /// The backend at `index` has an IPv6 address.
    Ipv6Backend { vip: usize, index: usize },
    /// The hash policy is chosen but no hash key is given.
    MissingHashKey { vip: usize },
    /// The hash key names no connection field that the engine knows.
    UnknownHashKey { vip: usize },
}

/// The policy that a policy block asks for: `src_ip` and `src_port` are the
/// hash keys that the engine knows.
pub open spec fn policy_of(lb: LbConfig) -> Option<Policy> {
    match lb.mode {
        LbMode::RoundRobin => Some(Policy::RoundRobin),
        LbMode::LeastConn => Some(Policy::LeastConn),
        LbMode::Hash => match lb.hash {
            None => None,
            Some(h) => if h.key@ == "src_ip"@ {
                Some(Policy::Hash(HashField::SrcIp))
            } else if h.key@ == "src_port"@ {
                Some(Policy::Hash(HashField::SrcPort))
            } else {
                None
            },
        },
    }
}

/// A virtual service can be written to the store.
pub open spec fn vip_ok(v: Vip) -> bool {
    v.addr is V4 && all_v4(v.rip@) && policy_of(v.lb) is Some
}

/// `e` is the error reported for the `j`-th service `v`: the service's
/// address is checked first, then its backends, then its policy.
pub open spec fn describes(e: SyncError, v: Vip, j: int) -> bool {
    match e {
        SyncError::Ipv6Vip { vip } => vip == j && v.addr is V6,
        SyncError::Ipv6Backend { vip, index } => {
            &&& vip == j
            &&& v.addr is V4
            &&& index < v.rip@.len()
            &&& v.rip@[index as int].addr is V6
            &&& forall|k: int| 0 <= k < index ==> (#[trigger] v.rip@[k]).addr is V4
        },
        SyncError::MissingHashKey { vip } => {
            &&& vip == j
            &&& v.addr is V4
            &&& all_v4(v.rip@)
            &&& v.lb.mode == LbMode::Hash
            &&& v.lb.hash is None
        },
        SyncError::UnknownHashKey { vip } => {
            &&& vip == j
            &&& v.addr is V4
            &&& all_v4(v.rip@)
            &&& v.lb.hash is Some
            &&& policy_of(v.lb) is None
        },
    }
}

/// `r` is the record of service `v`.
pub open spec fn rule_matches(r: Rule, v: Vip) -> bool {
    &&& r.key == v4_value(v.addr)
    &&& policy_of(v.lb) == Some(r.policy)
    &&& r.table.wf()
    &&& r.table.entries@ == table_of(v.rip@)
    &&& r.truncated == (v.rip@.len() > MAX_BACKENDS)
}

/// The policy that a policy block asks for.
fn build_policy(lb: &LbConfig, vip: usize) -> (r: Result<Policy, SyncError>)
    ensures
        r matches Ok(p) ==> policy_of(*lb) == Some(p),
        r is Err ==> policy_of(*lb) is None,
        r matches Err(SyncError::MissingHashKey { vip: j }) ==> j == vip && lb.mode == LbMode::Hash
            && lb.hash is None,
        r matches Err(SyncError::UnknownHashKey { vip: j }) ==> j == vip && lb.hash is Some,
        r matches Err(e) ==> e is MissingHashKey || e is UnknownHashKey,
{
    match lb.mode {
        LbMode::RoundRobin => Ok(Policy::RoundRobin),
        LbMode::LeastConn => Ok(Policy::LeastConn),
        LbMode::Hash => match &lb.hash {
            None => Err(SyncError::MissingHashKey { vip }),
            Some(h) => {
                if h.key == "src_ip".to_owned() {
                    Ok(Policy::Hash(HashField::SrcIp))
                } else if h.key == "src_port".to_owned() {
                    Ok(Policy::Hash(HashField::SrcPort))
                } else {
                    Err(SyncError::UnknownHashKey { vip })
                }
            },
        },
    }
}

/// Turns every virtual service into its store record, in order. Nothing is
/// returned unless every service can be written: the first one that cannot
/// is reported.
pub fn build_rules(config: &Config) -> (r: Result<Vec<Rule>, SyncError>)
    ensures
        r is Ok <==> forall|j: int| 0 <= j < config.vip@.len() ==> vip_ok(#[trigger] config.vip@[j]),
        r matches Ok(rules) ==> rules@.len() == config.vip@.len() && forall|j: int|
            0 <= j < config.vip@.len() ==> rule_matches(#[trigger] rules@[j], config.vip@[j]),
        r matches Err(e) ==> exists|j: int|
            0 <= j < config.vip@.len() && (forall|k: int| 0 <= k < j ==> vip_ok(#[trigger] config.vip@[k]))
                && describes(e, config.vip@[j], j),
{
    let n = config.vip.len();
    let mut rules: Vec<Rule> = Vec::new();
    let mut j: usize = 0;
    while j < n
        invariant
            n == config.vip@.len(),
            j <= n,
            rules@.len() == j,
            forall|k: int| 0 <= k < j ==> vip_ok(#[trigger] config.vip@[k]),
            forall|k: int| 0 <= k < j ==> rule_matches(#[trigger] rules@[k], config.vip@[k]),
        decreases n - j,
    {
        let v = &config.vip[j];
        let key: u32 = match v.addr {
            IpAddress::V4(x) => x,
            IpAddress::V6(_) => {
                assert(describes(SyncError::Ipv6Vip { vip: j }, *v, j as int));
                return Err(SyncError::Ipv6Vip { vip: j });
            },
        };
        let table = match encode_backends(&v.rip) {
            Ok(t) => t,
            Err(EncodeError::Ipv6Backend { index }) => {
                assert(describes(SyncError::Ipv6Backend { vip: j, index }, *v, j as int));
                return Err(SyncError::Ipv6Backend { vip: j, index });
            },
        };
        let policy = match build_policy(&v.lb, j) {
            Ok(p) => p,
            Err(e) => {
                assert(describes(e, *v, j as int));
                return Err(e);
            },
        };
        let truncated = v.rip.len() > MAX_BACKENDS;
        rules.push(Rule { key, policy, table, truncated });
        j = j + 1;
    }
    Ok(rules)
}

/// One write into the kernel store: the key bytes and the record bytes.
#[derive(Debug)]
pub struct MapUpdate {
    pub key: Vec<u8>,
    pub value: Vec<u8>,
}

/// The kernel-store writes for a list of records, one per record, in order:
/// each key is the service's address in network order and each value the
/// record of its table.
pub fn map_updates(rules: &Vec<Rule>) -> (r: Vec<MapUpdate>)
    requires
        forall|j: int| 0 <= j < rules@.len() ==> (#[trigger] rules@[j]).table.wf(),
    ensures
        r@.len() == rules@.len(),
        forall|j: int|
            0 <= j < rules@.len() ==> {
                &&& (#[trigger] r@[j]).key@ == key_bytes_spec(rules@[j].key)
                &&& r@[j].value@ == record_bytes(endpoints_of(rules@[j].table.entries@))
            },
{
    let n = rules.len();
    let mut out: Vec<MapUpdate> = Vec::new();
    let mut j: usize = 0;
    while j < n
        invariant
            n == rules@.len(),
            j <= n,
            out@.len() == j,
            forall|k: int| 0 <= k < n ==> (#[trigger] rules@[k]).table.wf(),
            forall|k: int|
                0 <= k < j ==> {
                    &&& (#[trigger] out@[k]).key@ == key_bytes_spec(rules@[k].key)
                    &&& out@[k].value@ == record_bytes(endpoints_of(rules@[k].table.entries@))
                },
        decreases n - j,
    {
        let rule = &rules[j];
        let key = key_bytes(rule.key);
        let value = rule.table.to_record();
        out.push(MapUpdate { key, value });
        j = j + 1;
    }
    out
}

/// The store after writing `rules` in order: each replaces the whole pool
/// under its key.
pub open spec fn installed(m: Map<u32, PoolView>, rules: Seq<Rule>) -> Map<u32, PoolView>
    decreases rules.len(),
{
    if rules.len() == 0 {
        m
    } else {
        installed(
            m.insert(rules[0].key, fresh_pool(rules[0].policy, rules[0].table.entries@)),
            rules.drop_first(),
        )
    }
}

impl Engine {
    /// Writes every record into the store, in order.
    pub fn synchronize(&mut self, rules: Vec<Rule>)
        requires
            old(self).wf(),
            forall|j: int| 0 <= j < rules@.len() ==> (#[trigger] rules@[j]).table.wf(),
        ensures
            final(self).wf(),
            final(self)@ == installed(old(self)@, rules@),
    {
        let mut rest = rules;
        while rest.len() > 0
            invariant
                self.wf(),
                forall|j: int| 0 <= j < rest@.len() ==> (#[trigger] rest@[j]).table.wf(),
                installed(self@, rest@) == installed(old(self)@, rules@),
            decreases rest@.len(),
        {
            let ghost before = rest@;
            let r = rest.remove(0);
            assert(rest@ =~= before.drop_first());
            assert(before[0] == r);
            self.install(r.key, r.policy, r.table);
        }
    }
}

proof fn lemma_installed_untouched(m: Map<u32, PoolView>, rules: Seq<Rule>, key: u32)
    requires
        forall|k: int| 0 <= k < rules.len() ==> (#[trigger] rules[k]).key != key,
    ensures
        installed(m, rules).contains_key(key) == m.contains_key(key),
        m.contains_key(key) ==> installed(m, rules)[key] == m[key],
    decreases rules.len(),
{
    if rules.len() > 0 {
        let m2 = m.insert(rules[0].key, fresh_pool(rules[0].policy, rules[0].table.entries@));
        assert(rules[0].key != key);
        assert forall|k: int| 0 <= k < rules.drop_first().len() implies (
        #[trigger] rules.drop_first()[k]).key != key by {
            assert(rules.drop_first()[k] == rules[k + 1]);
        }
        lemma_installed_untouched(m2, rules.drop_first(), key);
    }
}

/// After a synchronisation pass, the store holds under a rule's key the
/// pool built from the last rule with that key: a lookup by that key sees
/// exactly its table, with fresh selection state.
pub proof fn lemma_sync_then_lookup(m: Map<u32, PoolView>, rules: Seq<Rule>, j: int)
    requires
        0 <= j < rules.len(),
        forall|k: int| j < k < rules.len() ==> (#[trigger] rules[k]).key != rules[j].key,
    ensures
        installed(m, rules).contains_key(rules[j].key),
        installed(m, rules)[rules[j].key] == fresh_pool(rules[j].policy, rules[j].table.entries@),
    decreases rules.len(),
{
    let m2 = m.insert(rules[0].key, fresh_pool(rules[0].policy, rules[0].table.entries@));
    let rest = rules.drop_first();
    if j == 0 {
        assert forall|k: int| 0 <= k < rest.len() implies (#[trigger] rest[k]).key
            != rules[0].key by {
            assert(rest[k] == rules[k + 1]);
        }
        lemma_installed_untouched(m2, rest, rules[0].key);
    } else {
        assert forall|k: int| j - 1 < k < rest.len() implies (#[trigger] rest[k]).key
            != rest[j - 1].key by {
            assert(rest[k] == rules[k + 1]);
        }
        lemma_sync_then_lookup(m2, rest, j - 1);
    }
}

} // verus!
