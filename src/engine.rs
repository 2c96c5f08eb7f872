use vstd::prelude::*;
use std::collections::HashMap;
use vstd::std_specs::hash::group_hash_axioms;
use crate::table::{Backend, BackendTable, MAX_BACKENDS};

verus! {

/// Multiplier of the affinity hash (Knuth's multiplicative constant).
pub const HASH_MULTIPLIER: u64 = 2654435761;

/// The connection field that seeds the hash policy.
#[derive(Clone, Copy, Debug, PartialEq, Eq, Structural)]
pub enum HashField {
    SrcIp,
    SrcPort,
}

/// How a virtual service picks a backend for a new connection.
#[derive(Clone, Copy, Debug, PartialEq, Eq, Structural)]
pub enum Policy {
    Hash(HashField),
    RoundRobin,
    LeastConn,
}

/// A new outbound connection attempt, as seen at the connect hook.
#[derive(Clone, Copy, Debug, PartialEq, Eq, Structural)]
pub struct Connection {
    pub src_addr: u32,
    pub src_port: u16,
    pub dst_addr: u32,
    pub dst_port: u16,
}

/// What happens to a connection attempt.
#[derive(Clone, Copy, Debug, PartialEq, Eq, Structural)]
pub enum Verdict {
    /// The destination is not a virtual service: connect as asked.
    Pass,
    /// Connect to the backend at `index` of the pool instead.
    Redirect { index: usize, addr: u32, port: u16 },
    /// The virtual service has no backend to offer: the attempt fails.
    Refuse,
}

/// Sum of the weights of the first `i` backends.
pub open spec fn weight_prefix(t: Seq<Backend>, i: int) -> int
    decreases i,
{
    if i <= 0 {
        0
    } else {
        weight_prefix(t, i - 1) + t[i - 1].weight
    }
}

/// Sum of all weights of a pool.
pub open spec fn weight_total(t: Seq<Backend>) -> int {
    weight_prefix(t, t.len() as int)
}

/// Backend `i` owns point `p` of the weighted rotation `[0, total)`: the
/// points of backend `i` follow those of backends `0..i`, and it has as many
/// as its weight.
pub open spec fn owns_point(t: Seq<Backend>, p: int, i: int) -> bool {
    0 <= i < t.len() && weight_prefix(t, i) <= p < weight_prefix(t, i + 1)
}

/// The backend that owns point `p`.
pub open spec fn owner(t: Seq<Backend>, p: int) -> int {
    choose|i: int| owns_point(t, p, i)
}

/// Backend `i` has the fewest active connections, and every backend before
/// it has more.
pub open spec fn least_loaded(c: Seq<u32>, i: int) -> bool {
    &&& 0 <= i < c.len()
    &&& forall|j: int| 0 <= j < c.len() ==> c[i] <= #[trigger] c[j]
    &&& forall|j: int| 0 <= j < i ==> c[i] < #[trigger] c[j]
}

/// The first backend with the fewest active connections.
pub open spec fn least_index(c: Seq<u32>) -> int {
    choose|i: int| least_loaded(c, i)
}

/// The affinity hash of a key.
pub open spec fn hash_spec(x: u32) -> u64 {
    ((x as int * HASH_MULTIPLIER) / 0x10000) as u64
}

proof fn lemma_prefix_monotone(t: Seq<Backend>, i: int, j: int)
    requires
        0 <= i <= j <= t.len(),
    ensures
        weight_prefix(t, i) <= weight_prefix(t, j),
    decreases j - i,
{
    if i < j {
        lemma_prefix_monotone(t, i, j - 1);
    }
}

proof fn lemma_prefix_bound(t: Seq<Backend>, i: int)
    requires
        0 <= i <= t.len(),
    ensures
        0 <= weight_prefix(t, i) <= i * 0xffff_ffff,
    decreases i,
{
    if i > 0 {
        lemma_prefix_bound(t, i - 1);
    }
}

/// Every point of the rotation has exactly one owner.
pub proof fn lemma_owner_unique(t: Seq<Backend>, p: int, i: int)
    requires
        0 <= p < weight_total(t),
    ensures
        owns_point(t, p, owner(t, p)),
        owns_point(t, p, i) ==> i == owner(t, p),
{
    lemma_owner_exists(t, p, t.len() as int);
    let o = owner(t, p);
    if owns_point(t, p, i) && i != o {
        if i < o {
            lemma_prefix_monotone(t, i + 1, o);
        } else {
            lemma_prefix_monotone(t, o + 1, i);
        }
    }
}

proof fn lemma_owner_exists(t: Seq<Backend>, p: int, n: int)
    requires
        0 <= n <= t.len(),
        0 <= p < weight_prefix(t, n),
    ensures
        exists|i: int| owns_point(t, p, i),
    decreases n,
{
    if p >= weight_prefix(t, n - 1) {
        assert(owns_point(t, p, n - 1));
    } else {
        lemma_owner_exists(t, p, n - 1);
    }
}

/// The first backend with the fewest connections is one and only one.
pub proof fn lemma_least_unique(c: Seq<u32>, i: int)
    requires
        least_loaded(c, i),
    ensures
        least_index(c) == i,
{
    let k = least_index(c);
    assert(least_loaded(c, k));
    if k < i {
        assert(c[i] < c[k]);
    } else if i < k {
        assert(c[k] < c[i]);
    }
}

/// Sum of the weights of a pool.
pub fn total_weight(t: &Vec<Backend>) -> (r: u64)
    requires
        t@.len() <= MAX_BACKENDS,
    ensures
        r == weight_total(t@),
{
    let n = t.len();
    let mut sum: u64 = 0;
    let mut i: usize = 0;
    while i < n
        invariant
            n == t@.len(),
            n <= MAX_BACKENDS,
            i <= n,
            sum == weight_prefix(t@, i as int),
        decreases n - i,
    {
        proof {
            lemma_prefix_bound(t@, i as int);
            assert(i * 0xffff_ffff <= 512 * 0xffff_ffff) by (nonlinear_arith)
                requires
                    i <= 512,
            ;
        }
        sum = sum + t[i].weight as u64;
        i = i + 1;
    }
    sum
}

/// The backend that owns point `p` of the weighted rotation.
pub fn pick_weighted(t: &Vec<Backend>, p: u64) -> (r: usize)
    requires
        t@.len() <= MAX_BACKENDS,
        p < weight_total(t@),
    ensures
        owns_point(t@, p as int, r as int),
        r == owner(t@, p as int),
{
    let n = t.len();
    let mut acc: u64 = 0;
    let mut i: usize = 0;
    proof {
        lemma_prefix_monotone(t@, 0, n as int);
    }
    while i < n
        invariant
            n == t@.len(),
            n <= MAX_BACKENDS,
            i <= n,
            acc == weight_prefix(t@, i as int),
            acc <= p,
            p < weight_total(t@),
        decreases n - i,
    {
        proof {
            lemma_prefix_bound(t@, (i + 1) as int);
            assert((i + 1) * 0xffff_ffff <= 512 * 0xffff_ffff) by (nonlinear_arith)
                requires
                    i + 1 <= 512,
            ;
        }
        let next: u64 = acc + t[i].weight as u64;
        if p < next {
            proof {
                lemma_owner_unique(t@, p as int, i as int);
            }
            return i;
        }
        acc = next;
        i = i + 1;
    }
    proof {
        assert(false);
    }
    0
}

/// The first backend with the fewest active connections.
pub fn pick_least(c: &Vec<u32>) -> (r: usize)
    requires
        c@.len() > 0,
    ensures
        least_loaded(c@, r as int),
        r == least_index(c@),
{
    let n = c.len();
    let mut best: usize = 0;
    let mut i: usize = 1;
    while i < n
        invariant
            n == c@.len(),
            1 <= i <= n,
            best < i,
            forall|j: int| 0 <= j < i ==> c@[best as int] <= #[trigger] c@[j],
            forall|j: int| 0 <= j < best ==> c@[best as int] < #[trigger] c@[j],
        decreases n - i,
    {
        if c[i] < c[best] {
            best = i;
        }
        i = i + 1;
    }
    proof {
        lemma_least_unique(c@, best as int);
    }
    best
}

/// The affinity hash of a key.
pub fn hash_key(x: u32) -> (r: u64)
    ensures
        r == hash_spec(x),
{
    assert(x as int * HASH_MULTIPLIER <= 0xffff_ffff * HASH_MULTIPLIER) by (nonlinear_arith);
    (x as u64 * HASH_MULTIPLIER) / 0x10000
}

/// The selection state of one virtual service: its policy, its backend
/// table, the round-robin cursor and a count of active connections per
/// backend.
#[derive(Debug)]
pub struct VipState {
    pub policy: Policy,
    pub table: BackendTable,
    pub cursor: u64,
    pub conns: Vec<u32>,
}

/// The abstract value of a [`VipState`].
pub struct PoolView {
    pub policy: Policy,
    pub entries: Seq<Backend>,
    pub cursor: u64,
    pub conns: Seq<u32>,
}

impl View for VipState {
    type V = PoolView;

    open spec fn view(&self) -> PoolView {
        PoolView {
            policy: self.policy,
            entries: self.table.entries@,
            cursor: self.cursor,
            conns: self.conns@,
        }
    }
}

/// The value of `field` in a connection, as a hash key.
pub open spec fn key_of(c: Connection, field: HashField) -> u32 {
    match field {
        HashField::SrcIp => c.src_addr,
        HashField::SrcPort => c.src_port as u32,
    }
}

/// Redirect to backend `i` of the pool.
pub open spec fn redirect_to(t: Seq<Backend>, i: int) -> Verdict {
    Verdict::Redirect { index: i as usize, addr: t[i].addr, port: t[i].port }
}

/// One more active connection, saturating at the largest count.
pub open spec fn bump(n: u32) -> u32 {
    if n < u32::MAX {
        (n + 1) as u32
    } else {
        n
    }
}

/// The selection made for a connection to a virtual service, and the state
/// it leaves behind.
///
/// A pool without backends, or whose weights are all 0 under a weighted
/// policy, refuses. The hash policy redirects to the owner of
/// `hash(key) mod total` and changes nothing. Round-robin redirects to the
/// owner of `cursor mod total` and moves the cursor one point on.
/// Least-connections redirects to the first backend with the fewest active
/// connections and counts one more for it.
pub open spec fn select(p: PoolView, c: Connection) -> (PoolView, Verdict) {
    let t = p.entries;
    let total = weight_total(t);
    if t.len() == 0 {
        (p, Verdict::Refuse)
    } else {
        match p.policy {
            Policy::Hash(f) => {
                if total == 0 {
                    (p, Verdict::Refuse)
                } else {
                    (p, redirect_to(t, owner(t, hash_spec(key_of(c, f)) as int % total)))
                }
            },
            Policy::RoundRobin => {
                if total == 0 {
                    (p, Verdict::Refuse)
                } else {
                    let pos = p.cursor as int % total;
                    (
                        PoolView { cursor: ((pos + 1) % total) as u64, ..p },
                        redirect_to(t, owner(t, pos)),
                    )
                }
            },
            Policy::LeastConn => {
                let i = least_index(p.conns);
                (
                    PoolView { conns: p.conns.update(i, bump(p.conns[i])), ..p },
                    redirect_to(t, i),
                )
            },
        }
    }
}

/// The state after a connection to backend `i` is torn down: its count
/// drops by one, unless it is already 0 or `i` is out of range.
pub open spec fn release_spec(p: PoolView, i: int) -> PoolView {
    if 0 <= i < p.conns.len() && p.conns[i] > 0 {
        PoolView { conns: p.conns.update(i, (p.conns[i] - 1) as u32), ..p }
    } else {
        p
    }
}

/// The state of a pool freshly installed from a table.
pub open spec fn fresh_pool(policy: Policy, t: Seq<Backend>) -> PoolView {
    PoolView { policy, entries: t, cursor: 0, conns: Seq::new(t.len(), |i: int| 0u32) }
}

impl VipState {
    /// The table is well formed and has one connection count per backend.
    pub open spec fn wf(&self) -> bool {
        &&& self.table.wf()
        &&& self.conns@.len() == self.table.entries@.len()
    }

    /// The state of a freshly installed pool.
    pub fn new(policy: Policy, table: BackendTable) -> (r: VipState)
        requires
            table.wf(),
        ensures
            r.wf(),
            r@ == fresh_pool(policy, table.entries@),
    {
        let n = table.entries.len();
        let mut conns: Vec<u32> = Vec::new();
        let mut i: usize = 0;
        while i < n
            invariant
                i <= n,
                conns@ == Seq::new(i as nat, |k: int| 0u32),
            decreases n - i,
        {
            conns.push(0u32);
            assert(conns@ =~= Seq::new((i + 1) as nat, |k: int| 0u32));
            i = i + 1;
        }
        VipState { policy, table, cursor: 0, conns }
    }

    fn redirect(&self, i: usize) -> (r: Verdict)
        requires
            i < self.table.entries@.len(),
        ensures
            r == redirect_to(self.table.entries@, i as int),
    {
        let b = self.table.entries[i];
        Verdict::Redirect { index: i, addr: b.addr, port: b.port }
    }

    /// Picks a backend for a connection under this pool's policy.
    pub fn select(&mut self, c: Connection) -> (r: Verdict)
        requires
            old(self).wf(),
        ensures
            final(self).wf(),
            (final(self)@, r) == select(old(self)@, c),
    {
        let n = self.table.entries.len();
        if n == 0 {
            return Verdict::Refuse;
        }
        match self.policy {
            Policy::Hash(f) => {
                let total = total_weight(&self.table.entries);
                if total == 0 {
                    return Verdict::Refuse;
                }
                let key: u32 = match f {
                    HashField::SrcIp => c.src_addr,
                    HashField::SrcPort => c.src_port as u32,
                };
                let i = pick_weighted(&self.table.entries, hash_key(key) % total);
                self.redirect(i)
            },
            Policy::RoundRobin => {
                let total = total_weight(&self.table.entries);
                if total == 0 {
                    return Verdict::Refuse;
                }
                let pos = self.cursor % total;
                let i = pick_weighted(&self.table.entries, pos);
                self.cursor = (pos + 1) % total;
                self.redirect(i)
            },
            Policy::LeastConn => {
                let i = pick_least(&self.conns);
                let cur = self.conns[i];
                let next: u32 = if cur < u32::MAX {
                    cur + 1
                } else {
                    cur
                };
                self.conns.set(i, next);
                self.redirect(i)
            },
        }
    }

    /// Records that a connection to backend `i` was torn down.
    pub fn release(&mut self, i: usize)
        requires
            old(self).wf(),
        ensures
            final(self).wf(),
            final(self)@ == release_spec(old(self)@, i as int),
    {
        if i < self.conns.len() && self.conns[i] > 0 {
            let cur = self.conns[i];
            self.conns.set(i, cur - 1);
        }
    }
}

/// A model of the kernel-resident selection program and the store it reads:
/// one pool per virtual service, keyed by the numeric IPv4 address of the
/// service. A write replaces a whole pool under one key, so a reader sees
/// either the old pool or the new one. The loader writes only the kernel
/// record (addresses and ports); the policy and the weights held here are
/// what the model selects by.
#[derive(Debug)]
pub struct Engine {
    pub pools: HashMap<u32, VipState>,
}

/// The engine after a connection attempt, and the verdict on it. A
/// destination that is not a key of the store passes unchanged.
pub open spec fn connect_spec(m: Map<u32, PoolView>, c: Connection) -> (Map<u32, PoolView>, Verdict) {
    if m.contains_key(c.dst_addr) {
        let (p, v) = select(m[c.dst_addr], c);
        (m.insert(c.dst_addr, p), v)
    } else {
        (m, Verdict::Pass)
    }
}

/// The engine after a connection to backend `i` of service `key` is torn down.
pub open spec fn release_at(m: Map<u32, PoolView>, key: u32, i: int) -> Map<u32, PoolView> {
    if m.contains_key(key) {
        m.insert(key, release_spec(m[key], i))
    } else {
        m
    }
}

impl View for Engine {
    type V = Map<u32, PoolView>;

    open spec fn view(&self) -> Map<u32, PoolView> {
        self.pools@.map_values(|s: VipState| s@)
    }
}

impl Engine {
    /// Every pool is well formed.
    pub open spec fn wf(&self) -> bool {
        forall|k: u32| #[trigger] self.pools@.contains_key(k) ==> self.pools@[k].wf()
    }

    /// An engine that manages no virtual service.
    pub fn new() -> (r: Engine)
        ensures
            r.wf(),
            r@ == Map::<u32, PoolView>::empty(),
    {
        broadcast use group_hash_axioms;

        let r = Engine { pools: HashMap::new() };
        assert(r@ =~= Map::<u32, PoolView>::empty());
        r
    }

    /// Replaces the whole pool of the service at `key` (inserting it if it
    /// is new) with a fresh one built from `table`.
    pub fn install(&mut self, key: u32, policy: Policy, table: BackendTable)
        requires
            old(self).wf(),
            table.wf(),
        ensures
            final(self).wf(),
            final(self)@ == old(self)@.insert(key, fresh_pool(policy, table.entries@)),
    {
        broadcast use group_hash_axioms;

        let st = VipState::new(policy, table);
        let ghost sv = st@;
        self.pools.insert(key, st);
        assert(self@ =~= old(self)@.insert(key, sv));
    }

    /// The backend table of the service at `key`, if the store has one.
    pub fn table(&self, key: u32) -> (r: Option<&BackendTable>)
        requires
            self.wf(),
        ensures
            r is None <==> !self@.contains_key(key),
            r matches Some(t) ==> t.wf() && t.entries@ == self@[key].entries,
    {
        broadcast use group_hash_axioms;

        match self.pools.get(&key) {
            Some(st) => Some(&st.table),
            None => None,
        }
    }

    /// Decides a connection attempt: look the destination up, pick a
    /// backend under the service's policy, and say where to connect.
    pub fn connect(&mut self, c: Connection) -> (r: Verdict)
        requires
            old(self).wf(),
        ensures
            final(self).wf(),
            (final(self)@, r) == connect_spec(old(self)@, c),
    {
        broadcast use group_hash_axioms;

        match self.pools.remove(&c.dst_addr) {
            None => {
                assert(self.pools@ =~= old(self).pools@);
                Verdict::Pass
            },
            Some(mut st) => {
                let v = st.select(c);
                let ghost sv = st@;
                self.pools.insert(c.dst_addr, st);
                assert(self@ =~= old(self)@.insert(c.dst_addr, sv));
                v
            },
        }
    }

    /// Records that a connection to backend `i` of the service at `key` was
    /// torn down.
    pub fn release(&mut self, key: u32, i: usize)
        requires
            old(self).wf(),
        ensures
            final(self).wf(),
            final(self)@ == release_at(old(self)@, key, i as int),
    {
        broadcast use group_hash_axioms;

        match self.pools.remove(&key) {
            None => {
                assert(self.pools@ =~= old(self).pools@);
            },
            Some(mut st) => {
                st.release(i);
                let ghost sv = st@;
                self.pools.insert(key, st);
                assert(self@ =~= old(self)@.insert(key, sv));
            },
        }
    }
}

/// The first smallest count among the first `n`.
proof fn lemma_least_in_prefix(c: Seq<u32>, n: int) -> (i: int)
    requires
        0 < n <= c.len(),
    ensures
        0 <= i < n,
        forall|j: int| 0 <= j < n ==> c[i] <= #[trigger] c[j],
        forall|j: int| 0 <= j < i ==> c[i] < #[trigger] c[j],
    decreases n,
{
    if n == 1 {
        0
    } else {
        let b = lemma_least_in_prefix(c, n - 1);
        if c[n - 1] < c[b] {
            n - 1
        } else {
            b
        }
    }
}

/// Under the hash policy a selection leaves the store as it was, so a second
/// connection whose key field has the same value goes to the same backend,
/// and so on for any number of them, for as long as the table is unchanged.
pub proof fn lemma_hash_affinity(m: Map<u32, PoolView>, c1: Connection, c2: Connection, f: HashField)
    requires
        m.contains_key(c1.dst_addr),
        c2.dst_addr == c1.dst_addr,
        m[c1.dst_addr].policy == Policy::Hash(f),
        key_of(c1, f) == key_of(c2, f),
    ensures
        connect_spec(m, c1).0 == m,
        connect_spec(connect_spec(m, c1).0, c2).1 == connect_spec(m, c1).1,
{
    assert(m.insert(c1.dst_addr, m[c1.dst_addr]) =~= m);
}

/// The engine after a sequence of connection attempts, and the verdict on
/// each, in order.
pub open spec fn connect_all(m: Map<u32, PoolView>, cs: Seq<Connection>) -> (
    Map<u32, PoolView>,
    Seq<Verdict>,
)
    decreases cs.len(),
{
    if cs.len() == 0 {
        (m, Seq::empty())
    } else {
        let (m2, v) = connect_spec(m, cs[0]);
        let (m3, vs) = connect_all(m2, cs.drop_first());
        (m3, seq![v] + vs)
    }
}

/// Any number of connections in a row to a hash-policy service whose key
/// field has one value all get the verdict of the first, and the store is
/// left as it was: with the table unchanged, 1000 such connections all go
/// to one backend.
pub proof fn lemma_hash_affinity_many(m: Map<u32, PoolView>, cs: Seq<Connection>, f: HashField)
    requires
        cs.len() > 0,
        m.contains_key(cs[0].dst_addr),
        m[cs[0].dst_addr].policy == Policy::Hash(f),
        forall|i: int|
            0 <= i < cs.len() ==> (#[trigger] cs[i]).dst_addr == cs[0].dst_addr && key_of(cs[i], f)
                == key_of(cs[0], f),
    ensures
        connect_all(m, cs).0 == m,
        connect_all(m, cs).1.len() == cs.len(),
        forall|i: int|
            0 <= i < cs.len() ==> #[trigger] connect_all(m, cs).1[i] == connect_spec(m, cs[0]).1,
    decreases cs.len(),
{
    lemma_hash_affinity(m, cs[0], cs[0], f);
    let rest = cs.drop_first();
    let v = connect_spec(m, cs[0]).1;
    assert(connect_spec(m, cs[0]).0 == m);
    assert(connect_all(m, cs) == (connect_all(m, rest).0, seq![v] + connect_all(m, rest).1));
    if rest.len() == 0 {
        assert(connect_all(m, rest) == (m, Seq::<Verdict>::empty()));
        assert(connect_all(m, cs).1 =~= seq![v]);
    } else {
        assert(rest[0] == cs[1]);
        assert forall|i: int| 0 <= i < rest.len() implies (#[trigger] rest[i]).dst_addr
            == rest[0].dst_addr && key_of(rest[i], f) == key_of(rest[0], f) by {
            assert(rest[i] == cs[i + 1]);
        }
        lemma_hash_affinity(m, cs[0], cs[1], f);
        lemma_hash_affinity_many(m, rest, f);
        let vs = connect_all(m, cs).1;
        assert forall|i: int| 0 <= i < cs.len() implies #[trigger] vs[i] == connect_spec(
            m,
            cs[0],
        ).1 by {
            if i > 0 {
                assert(vs[i] == connect_all(m, rest).1[i - 1]);
            }
        }
    }
}

/// Under the hash policy, on a pool whose weights are all at least 1, a
/// connection goes to the backend whose weight range holds
/// `hash(key) mod total`, and the pool is left as it was. The choice depends
/// on the table and the key value alone, so another table may choose
/// otherwise for the same key.
pub proof fn lemma_hash_selects_weight_range(p: PoolView, c: Connection, f: HashField)
    requires
        p.policy == Policy::Hash(f),
        0 < p.entries.len() <= MAX_BACKENDS,
        forall|i: int| 0 <= i < p.entries.len() ==> (#[trigger] p.entries[i]).weight >= 1,
    ensures
        weight_total(p.entries) > 0,
        ({
            let h = hash_spec(key_of(c, f)) as int % weight_total(p.entries);
            exists|i: int|
                owns_point(p.entries, h, i) && select(p, c) == (p, redirect_to(p.entries, i))
        }),
{
    let t = p.entries;
    assert(weight_prefix(t, 0) == 0);
    assert(weight_prefix(t, 1) == t[0].weight);
    lemma_prefix_monotone(t, 1, t.len() as int);
    let total = weight_total(t);
    let h = hash_spec(key_of(c, f)) as int % total;
    assert(0 <= h < total) by (nonlinear_arith)
        requires
            total > 0,
            h == hash_spec(key_of(c, f)) as int % total,
    ;
    lemma_owner_unique(t, h, 0);
    assert(owns_point(t, h, owner(t, h)));
}

/// Least-connections picks a backend whose count is the smallest (the first
/// of those, in table order) and counts one more connection for it.
pub proof fn lemma_least_conn_picks_minimum(p: PoolView, c: Connection)
    requires
        p.policy == Policy::LeastConn,
        p.entries.len() > 0,
        p.conns.len() == p.entries.len(),
        p.entries.len() <= MAX_BACKENDS,
    ensures
        ({
            let (q, v) = select(p, c);
            exists|i: int|
                {
                    &&& least_loaded(p.conns, i)
                    &&& v == redirect_to(p.entries, i)
                    &&& q.conns == p.conns.update(i, bump(p.conns[i]))
                    &&& forall|j: int| 0 <= j < p.conns.len() ==> p.conns[i] <= #[trigger] p.conns[j]
                }
        }),
{
    let best = lemma_least_in_prefix(p.conns, p.conns.len() as int);
    lemma_least_unique(p.conns, best);
    let (q, v) = select(p, c);
    assert(v == redirect_to(p.entries, best));
    assert(q.conns == p.conns.update(best, bump(p.conns[best])));
}

/// The verdicts on `n` connection attempts in a row to a pool, with no
/// other traffic and no teardown in between.
pub open spec fn run(p: PoolView, c: Connection, n: nat) -> Seq<Verdict>
    decreases n,
{
    if n == 0 {
        Seq::empty()
    } else {
        seq![select(p, c).1] + run(select(p, c).0, c, (n - 1) as nat)
    }
}

/// How many times `v` occurs in `s`.
pub open spec fn count_of(s: Seq<Verdict>, v: Verdict) -> nat
    decreases s.len(),
{
    if s.len() == 0 {
        0
    } else {
        (if s[0] == v {
            1nat
        } else {
            0nat
        }) + count_of(s.drop_first(), v)
    }
}

/// How many integers `[a, b)` and `[lo, hi)` have in common.
pub open spec fn overlap(a: int, b: int, lo: int, hi: int) -> int {
    let l = if a < lo {
        lo
    } else {
        a
    };
    let h = if b < hi {
        b
    } else {
        hi
    };
    if h < l {
        0
    } else {
        h - l
    }
}

proof fn lemma_round_robin_window(p: PoolView, c: Connection, i: int, n: nat)
    requires
        p.policy == Policy::RoundRobin,
        0 <= i < p.entries.len(),
        p.entries.len() <= MAX_BACKENDS,
        p.cursor + n <= weight_total(p.entries),
    ensures
        count_of(run(p, c, n), redirect_to(p.entries, i)) == overlap(
            p.cursor as int,
            p.cursor + n,
            weight_prefix(p.entries, i),
            weight_prefix(p.entries, i + 1),
        ),
    decreases n,
{
    let t = p.entries;
    if n > 0 {
        let total = weight_total(t);
        let (q, v) = select(p, c);
        let pos = p.cursor as int;
        assert(pos % total == pos) by (nonlinear_arith)
            requires
                0 <= pos < total,
        ;
        lemma_owner_unique(t, pos, i);
        let o = owner(t, pos);
        assert(v == redirect_to(t, o));
        assert(0 <= o < MAX_BACKENDS);
        assert((v == redirect_to(t, i)) <==> (o == i));
        let s = run(p, c, n);
        assert(s[0] == v);
        assert(s.drop_first() =~= run(q, c, (n - 1) as nat));
        assert(count_of(s, redirect_to(t, i)) == (if o == i {
            1nat
        } else {
            0nat
        }) + count_of(run(q, c, (n - 1) as nat), redirect_to(t, i)));
        assert((o == i) <==> (weight_prefix(t, i) <= pos < weight_prefix(t, i + 1)));
        if pos + 1 < total {
            assert((pos + 1) % total == pos + 1) by (nonlinear_arith)
                requires
                    0 <= pos + 1 < total,
            ;
            lemma_prefix_bound(t, t.len() as int);
            assert(q.cursor == pos + 1);
            assert(weight_prefix(t, i) <= weight_prefix(t, i + 1));
            lemma_round_robin_window(q, c, i, (n - 1) as nat);
        } else {
            assert(run(q, c, 0) == Seq::<Verdict>::empty());
        }
    }
}

/// The pool after `n` connection attempts in a row.
pub open spec fn after(p: PoolView, c: Connection, n: nat) -> PoolView
    decreases n,
{
    if n == 0 {
        p
    } else {
        after(select(p, c).0, c, (n - 1) as nat)
    }
}

proof fn lemma_run_split(p: PoolView, c: Connection, a: nat, b: nat)
    ensures
        run(p, c, a + b) == run(p, c, a) + run(after(p, c, a), c, b),
    decreases a,
{
    if a == 0 {
        assert(run(p, c, a) + run(p, c, b) =~= run(p, c, b));
    } else {
        let q = select(p, c).0;
        lemma_run_split(q, c, (a - 1) as nat, b);
        assert(run(p, c, a + b) == seq![select(p, c).1] + run(q, c, (a + b - 1) as nat));
        assert(run(p, c, a + b) =~= run(p, c, a) + run(after(p, c, a), c, b));
    }
}

proof fn lemma_count_concat(s1: Seq<Verdict>, s2: Seq<Verdict>, v: Verdict)
    ensures
        count_of(s1 + s2, v) == count_of(s1, v) + count_of(s2, v),
    decreases s1.len(),
{
    if s1.len() == 0 {
        assert(s1 + s2 =~= s2);
    } else {
        assert((s1 + s2).drop_first() =~= s1.drop_first() + s2);
        assert((s1 + s2)[0] == s1[0]);
        lemma_count_concat(s1.drop_first(), s2, v);
    }
}

proof fn lemma_round_robin_cursor(p: PoolView, c: Connection, n: nat)
    requires
        p.policy == Policy::RoundRobin,
        0 < p.entries.len() <= MAX_BACKENDS,
        p.cursor < weight_total(p.entries),
        p.cursor + n <= weight_total(p.entries),
    ensures
        after(p, c, n) == (PoolView {
            cursor: ((p.cursor + n) % weight_total(p.entries)) as u64,
            ..p
        }),
    decreases n,
{
    let t = p.entries;
    let total = weight_total(t);
    lemma_prefix_bound(t, t.len() as int);
    if n == 0 {
        let pos = p.cursor as int;
        assert(pos % total == pos) by (nonlinear_arith)
            requires
                0 <= pos < total,
        ;
    } else {
        let q = select(p, c).0;
        let pos = p.cursor as int;
        assert(pos % total == pos) by (nonlinear_arith)
            requires
                0 <= pos < total,
        ;
        if pos + 1 < total {
            assert((pos + 1) % total == pos + 1) by (nonlinear_arith)
                requires
                    0 <= pos + 1 < total,
            ;
            lemma_round_robin_cursor(q, c, (n - 1) as nat);
        } else {
            assert(after(q, c, 0) == q);
        }
    }
}

/// Over `k` full rotations from a cursor at 0, round-robin sends each
/// backend exactly `k` times as many connections as its weight: with
/// weights `[1, 1, 2]`, 4000 attempts split 1000, 1000, 2000.
pub proof fn lemma_round_robin_shares(p: PoolView, c: Connection, i: int, k: nat)
    requires
        p.policy == Policy::RoundRobin,
        p.cursor == 0,
        0 <= i < p.entries.len(),
        p.entries.len() <= MAX_BACKENDS,
    ensures
        count_of(run(p, c, k * weight_total(p.entries) as nat), redirect_to(p.entries, i)) == k
            * p.entries[i].weight,
    decreases k,
{
    let t = p.entries;
    let total = weight_total(t);
    let v = redirect_to(t, i);
    lemma_prefix_monotone(t, 0, i);
    lemma_prefix_monotone(t, i + 1, t.len() as int);
    if total == 0 {
        assert(k * total == 0) by (nonlinear_arith)
            requires
                total == 0,
        ;
        assert(k * t[i].weight == 0) by (nonlinear_arith)
            requires
                t[i].weight == 0,
        ;
        assert(run(p, c, 0) =~= Seq::<Verdict>::empty());
    } else if k > 0 {
        let rest = ((k - 1) * total) as nat;
        assert(k * total == total + (k - 1) * total) by (nonlinear_arith);
        assert((k - 1) * total >= 0) by (nonlinear_arith)
            requires
                k >= 1,
                total >= 0,
        ;
        lemma_run_split(p, c, total as nat, rest);
        lemma_count_concat(run(p, c, total as nat), run(after(p, c, total as nat), c, rest), v);
        lemma_round_robin_window(p, c, i, total as nat);
        lemma_round_robin_cursor(p, c, total as nat);
        assert(total % total == 0) by (nonlinear_arith)
            requires
                total > 0,
        ;
        assert(after(p, c, total as nat) =~= p);
        lemma_round_robin_shares(p, c, i, (k - 1) as nat);
        assert(weight_prefix(t, i + 1) == weight_prefix(t, i) + t[i].weight);
        assert(k * t[i].weight == t[i].weight + (k - 1) * t[i].weight) by (nonlinear_arith);
    } else {
        assert(k * total == 0 && k * t[i].weight == 0) by (nonlinear_arith)
            requires
                k == 0,
        ;
        assert(run(p, c, 0) =~= Seq::<Verdict>::empty());
    }
}

} // verus!
