use vstd::prelude::*;
use crate::config::{IpAddress, RealIp};

verus! {

/// Capacity of a backend table: backends past this many are dropped.
pub const MAX_BACKENDS: usize = 512;

/// Bytes taken by one entry of the kernel record: address, port, padding.
pub const ENTRY_LEN: usize = 8;

/// Bytes of the whole kernel record: the 4-byte size, then every entry slot.
pub const RECORD_LEN: usize = 4100;

/// One backend as the selection engine sees it. `addr` is the numeric IPv4
/// address (see [`IpAddress`]).
#[derive(Clone, Copy, Debug, PartialEq, Eq, Structural)]
pub struct Backend {
    pub addr: u32,
    pub port: u16,
    pub weight: u32,
}

/// The address and port of a backend: what the kernel record carries.
#[derive(Clone, Copy, Debug, PartialEq, Eq, Structural)]
pub struct Endpoint {
    pub addr: u32,
    pub port: u16,
}

/// The backend pool of one virtual service, at most [`MAX_BACKENDS`] long,
/// in configuration order.
#[derive(Debug)]
pub struct BackendTable {
    pub size: u32,
    pub entries: Vec<Backend>,
}

/// Why a backend list could not be encoded.
#[derive(Clone, Copy, Debug, PartialEq, Eq, Structural)]
pub enum EncodeError {
    /// The backend at this position has an IPv6 address.
    Ipv6Backend { index: usize },
}

impl Backend {
    pub open spec fn endpoint_spec(self) -> Endpoint {
        Endpoint { addr: self.addr, port: self.port }
    }

    /// The address and port of this backend.
    pub fn endpoint(&self) -> (r: Endpoint)
        ensures
            r == self.endpoint_spec(),
    {
        Endpoint { addr: self.addr, port: self.port }
    }
}

impl BackendTable {
    /// `size` counts the entries, and there are no more than the capacity.
    pub open spec fn wf(&self) -> bool {
        &&& self.entries@.len() == self.size as nat
        &&& self.size <= MAX_BACKENDS
    }

    /// A table with no backends.
    pub fn empty() -> (r: BackendTable)
        ensures
            r.wf(),
            r.size == 0,
    {
        BackendTable { size: 0, entries: Vec::new() }
    }
}

/// Every backend in the list has an IPv4 address.
pub open spec fn all_v4(rips: Seq<RealIp>) -> bool {
    forall|k: int| 0 <= k < rips.len() ==> (#[trigger] rips[k]).addr is V4
}

/// The numeric IPv4 address of a backend (0 for IPv6, which is never encoded).
pub open spec fn v4_value(a: IpAddress) -> u32 {
    match a {
        IpAddress::V4(x) => x,
        IpAddress::V6(_) => 0,
    }
}

/// The table entry for one configured backend.
pub open spec fn backend_of(r: RealIp) -> Backend {
    Backend { addr: v4_value(r.addr), port: r.port, weight: r.weight }
}

/// How many of `n` configured backends fit in a table.
pub open spec fn capped(n: nat) -> nat {
    if n < MAX_BACKENDS {
        n
    } else {
        MAX_BACKENDS as nat
    }
}

/// The entries of the table built from a backend list: the first
/// `min(n, 512)` backends, in order.
pub open spec fn table_of(rips: Seq<RealIp>) -> Seq<Backend> {
    rips.take(capped(rips.len()) as int).map_values(|r: RealIp| backend_of(r))
}

/// Builds the table of a virtual service from its configured backends.
/// Every backend must be IPv4; the first IPv6 one is reported. Backends past
/// the capacity are dropped, which a caller sees as `size < rips.len()`.
pub fn encode_backends(rips: &Vec<RealIp>) -> (r: Result<BackendTable, EncodeError>)
    ensures
        r is Ok <==> all_v4(rips@),
        r matches Ok(t) ==> t.wf() && t.size == capped(rips@.len()) && t.entries@ == table_of(
            rips@,
        ),
        r matches Err(EncodeError::Ipv6Backend { index }) ==> index < rips@.len()
            && rips@[index as int].addr is V6 && forall|k: int|
            0 <= k < index ==> (#[trigger] rips@[k]).addr is V4,
{
    let n = rips.len();
    let mut k: usize = 0;
    while k < n
        invariant
            n == rips@.len(),
            k <= n,
            forall|m: int| 0 <= m < k ==> (#[trigger] rips@[m]).addr is V4,
        decreases n - k,
    {
        if let IpAddress::V6(_) = rips[k].addr {
            return Err(EncodeError::Ipv6Backend { index: k });
        }
        k = k + 1;
    }
    let size: usize = if n < MAX_BACKENDS {
        n
    } else {
        MAX_BACKENDS
    };
    let mut entries: Vec<Backend> = Vec::new();
    let mut i: usize = 0;
    while i < size
        invariant
            n == rips@.len(),
            size == capped(n as nat),
            i <= size,
            entries@ == table_of(rips@).take(i as int),
        decreases size - i,
    {
        let r = rips[i];
        let addr: u32 = match r.addr {
            IpAddress::V4(x) => x,
            IpAddress::V6(_) => 0,
        };
        entries.push(Backend { addr, port: r.port, weight: r.weight });
        assert(entries@ =~= table_of(rips@).take(i + 1));
        i = i + 1;
    }
    assert(entries@ =~= table_of(rips@));
    Ok(BackendTable { size: size as u32, entries })
}

/// The four bytes of `x`, most significant first (network order).
pub open spec fn u32_be(x: u32) -> Seq<u8> {
    seq![(x >> 24u32) as u8, (x >> 16u32) as u8, (x >> 8u32) as u8, x as u8]
}

/// The four bytes of `x`, least significant first.
pub open spec fn u32_le(x: u32) -> Seq<u8> {
    seq![x as u8, (x >> 8u32) as u8, (x >> 16u32) as u8, (x >> 24u32) as u8]
}

/// The two bytes of `x`, least significant first.
pub open spec fn u16_le(x: u16) -> Seq<u8> {
    seq![x as u8, (x >> 8u16) as u8]
}

/// The number whose big-endian bytes start at `at`.
pub open spec fn read_u32_be(b: Seq<u8>, at: int) -> u32 {
    ((b[at] as u32) << 24u32) | ((b[at + 1] as u32) << 16u32) | ((b[at + 2] as u32) << 8u32) | (
    b[at + 3] as u32)
}

/// The number whose little-endian bytes start at `at`.
pub open spec fn read_u32_le(b: Seq<u8>, at: int) -> u32 {
    (b[at] as u32) | ((b[at + 1] as u32) << 8u32) | ((b[at + 2] as u32) << 16u32) | ((
    b[at + 3] as u32) << 24u32)
}

/// The number whose little-endian bytes start at `at`.
pub open spec fn read_u16_le(b: Seq<u8>, at: int) -> u16 {
    (b[at] as u16) | ((b[at + 1] as u16) << 8u16)
}

/// The kernel key of a virtual service: its IPv4 address in network order.
pub open spec fn key_bytes_spec(addr: u32) -> Seq<u8> {
    u32_be(addr)
}

/// The record bytes of one entry: address in network order, port
/// little-endian, two bytes of padding.
pub open spec fn entry_bytes(e: Endpoint) -> Seq<u8> {
    u32_be(e.addr) + u16_le(e.port) + seq![0u8, 0u8]
}

/// Byte `k` of the kernel record of a table.
pub open spec fn record_byte(t: Seq<Endpoint>, k: int) -> u8 {
    if k < 4 {
        u32_le(t.len() as u32)[k]
    } else if (k - 4) / (ENTRY_LEN as int) < t.len() {
        entry_bytes(t[(k - 4) / (ENTRY_LEN as int)])[(k - 4) % (ENTRY_LEN as int)]
    } else {
        0
    }
}

/// The kernel record of a table of endpoints: the entry count as a
/// little-endian 32-bit number, then [`MAX_BACKENDS`] entry slots of
/// [`ENTRY_LEN`] bytes, the unused ones zero.
pub open spec fn record_bytes(t: Seq<Endpoint>) -> Seq<u8> {
    Seq::new(RECORD_LEN as nat, |k: int| record_byte(t, k))
}

/// The endpoints that a kernel record holds, if it is one: the right length
/// and a count within the capacity.
pub open spec fn decode_spec(b: Seq<u8>) -> Option<Seq<Endpoint>> {
    if b.len() != RECORD_LEN || read_u32_le(b, 0) > MAX_BACKENDS {
        None
    } else {
        Some(
            Seq::new(
                read_u32_le(b, 0) as nat,
                |i: int|
                    Endpoint {
                        addr: read_u32_be(b, 4 + ENTRY_LEN * i),
                        port: read_u16_le(b, 4 + ENTRY_LEN * i + 4),
                    },
            ),
        )
    }
}

/// The endpoints of a table, in order.
pub open spec fn endpoints_of(t: Seq<Backend>) -> Seq<Endpoint> {
    t.map_values(|b: Backend| b.endpoint_spec())
}

proof fn lemma_u32_be_round_trip(x: u32)
    ensures
        read_u32_be(u32_be(x), 0) == x,
{
    let b = u32_be(x);
    let (b0, b1, b2, b3) = (b[0], b[1], b[2], b[3]);
    assert(b0 == (x >> 24u32) as u8 && b1 == (x >> 16u32) as u8 && b2 == (x >> 8u32) as u8 && b3
        == x as u8);
    assert(((((x >> 24u32) as u8) as u32) << 24u32) | ((((x >> 16u32) as u8) as u32) << 16u32) | ((
    ((x >> 8u32) as u8) as u32) << 8u32) | ((x as u8) as u32) == x) by (bit_vector);
}

proof fn lemma_u32_le_round_trip(x: u32)
    ensures
        read_u32_le(u32_le(x), 0) == x,
{
    let b = u32_le(x);
    assert(b[0] == x as u8 && b[1] == (x >> 8u32) as u8 && b[2] == (x >> 16u32) as u8 && b[3] == (x
        >> 24u32) as u8);
    assert(((x as u8) as u32) | ((((x >> 8u32) as u8) as u32) << 8u32) | ((((x >> 16u32) as u8)
        as u32) << 16u32) | ((((x >> 24u32) as u8) as u32) << 24u32) == x) by (bit_vector);
}

proof fn lemma_u16_le_round_trip(x: u16)
    ensures
        read_u16_le(u16_le(x), 0) == x,
{
    let b = u16_le(x);
    assert(b[0] == x as u8 && b[1] == (x >> 8u16) as u8);
    assert(((x as u8) as u16) | ((((x >> 8u16) as u8) as u16) << 8u16) == x) by (bit_vector);
}

/// Where byte `j` of entry `i` stands in the record.
proof fn lemma_entry_position(i: int, j: int)
    requires
        0 <= i,
        0 <= j < ENTRY_LEN,
    ensures
        ((4 + ENTRY_LEN * i + j) - 4) / (ENTRY_LEN as int) == i,
        ((4 + ENTRY_LEN * i + j) - 4) % (ENTRY_LEN as int) == j,
{
    assert((8 * i + j) / 8 == i && (8 * i + j) % 8 == j) by (nonlinear_arith)
        requires
            0 <= i,
            0 <= j < 8,
    ;
}

/// Reading the bytes at `at` in a sequence that holds `piece` there.
proof fn lemma_read_at(b: Seq<u8>, at: int, piece: Seq<u8>)
    requires
        0 <= at,
        at + piece.len() <= b.len(),
        forall|j: int| 0 <= j < piece.len() ==> b[at + j] == #[trigger] piece[j],
    ensures
        piece.len() >= 4 ==> read_u32_be(b, at) == read_u32_be(piece, 0),
        piece.len() >= 4 ==> read_u32_le(b, at) == read_u32_le(piece, 0),
        piece.len() >= 2 ==> read_u16_le(b, at) == read_u16_le(piece, 0),
{
    if piece.len() >= 2 {
        assert(b[at] == piece[0] && b[at + 1] == piece[1]);
    }
    if piece.len() >= 4 {
        assert(b[at + 2] == piece[2] && b[at + 3] == piece[3]);
    }
}

/// Decoding the record of a table gives back the table's addresses and
/// ports, in order, and nothing more.
pub proof fn lemma_record_round_trip(t: Seq<Endpoint>)
    requires
        t.len() <= MAX_BACKENDS,
    ensures
        decode_spec(record_bytes(t)) == Some(t),
{
    let b = record_bytes(t);
    lemma_read_at(b, 0, u32_le(t.len() as u32));
    lemma_u32_le_round_trip(t.len() as u32);
    let d = Seq::new(
        read_u32_le(b, 0) as nat,
        |i: int|
            Endpoint {
                addr: read_u32_be(b, 4 + ENTRY_LEN * i),
                port: read_u16_le(b, 4 + ENTRY_LEN * i + 4),
            },
    );
    assert forall|i: int| 0 <= i < t.len() implies d[i] == t[i] by {
        let e = entry_bytes(t[i]);
        assert(4 + ENTRY_LEN * i + 8 <= RECORD_LEN) by (nonlinear_arith)
            requires
                0 <= i < 512,
        ;
        assert forall|j: int| 0 <= j < 8 implies b[4 + ENTRY_LEN * i + j] == #[trigger] e[j] by {
            lemma_entry_position(i, j);
        }
        lemma_read_at(b, 4 + ENTRY_LEN * i, e);
        assert(u32_be(t[i].addr) =~= e.take(4));
        lemma_read_at(e, 0, u32_be(t[i].addr));
        lemma_u32_be_round_trip(t[i].addr);
        assert forall|j: int| 0 <= j < 2 implies e[4 + j] == #[trigger] u16_le(t[i].port)[j] by {}
        lemma_read_at(e, 4, u16_le(t[i].port));
        lemma_read_at(b, 4 + ENTRY_LEN * i + 4, u16_le(t[i].port));
        lemma_u16_le_round_trip(t[i].port);
    }
    assert(d =~= t);
}

fn push_u32_le(out: &mut Vec<u8>, x: u32)
    ensures
        final(out)@ == old(out)@ + u32_le(x),
{
    out.push(x as u8);
    out.push((x >> 8u32) as u8);
    out.push((x >> 16u32) as u8);
    out.push((x >> 24u32) as u8);
    assert(final(out)@ =~= old(out)@ + u32_le(x));
}

fn push_entry(out: &mut Vec<u8>, e: Endpoint)
    ensures
        final(out)@ == old(out)@ + entry_bytes(e),
{
    out.push((e.addr >> 24u32) as u8);
    out.push((e.addr >> 16u32) as u8);
    out.push((e.addr >> 8u32) as u8);
    out.push(e.addr as u8);
    out.push(e.port as u8);
    out.push((e.port >> 8u16) as u8);
    out.push(0u8);
    out.push(0u8);
    assert(final(out)@ =~= old(out)@ + entry_bytes(e));
}

/// The kernel key of a virtual service with this IPv4 address: the
/// address in network order.
pub fn key_bytes(addr: u32) -> (r: Vec<u8>)
    ensures
        r@ == key_bytes_spec(addr),
{
    let mut out: Vec<u8> = Vec::new();
    out.push((addr >> 24u32) as u8);
    out.push((addr >> 16u32) as u8);
    out.push((addr >> 8u32) as u8);
    out.push(addr as u8);
    assert(out@ =~= key_bytes_spec(addr));
    out
}

impl BackendTable {
    /// The kernel record of this table (see [`record_bytes`]).
    pub fn to_record(&self) -> (r: Vec<u8>)
        requires
            self.wf(),
        ensures
            r@ == record_bytes(endpoints_of(self.entries@)),
            r@.len() == RECORD_LEN,
    {
        let ghost eps = endpoints_of(self.entries@);
        let ghost full = record_bytes(eps);
        let mut out: Vec<u8> = Vec::new();
        push_u32_le(&mut out, self.size);
        assert(out@ =~= full.take(4));
        let mut i: usize = 0;
        while i < MAX_BACKENDS
            invariant
                self.wf(),
                eps == endpoints_of(self.entries@),
                full == record_bytes(eps),
                i <= MAX_BACKENDS,
                out@ == full.take(4 + ENTRY_LEN * i),
            decreases MAX_BACKENDS - i,
        {
            let ghost before = out@;
            if i < self.size as usize {
                let e = self.entries[i].endpoint();
                push_entry(&mut out, e);
            } else {
                let mut j: usize = 0;
                while j < ENTRY_LEN
                    invariant
                        j <= ENTRY_LEN,
                        out@ == before + Seq::new(j as nat, |m: int| 0u8),
                    decreases ENTRY_LEN - j,
                {
                    out.push(0u8);
                    assert(out@ =~= before + Seq::new((j + 1) as nat, |m: int| 0u8));
                    j = j + 1;
                }
            }
            assert(4 + ENTRY_LEN * i + 8 <= RECORD_LEN) by (nonlinear_arith)
                requires
                    i < 512,
            ;
            assert forall|k: int| 0 <= k < 4 + ENTRY_LEN * (i + 1) implies out@[k] == full[k] by {
                if k >= 4 + ENTRY_LEN * i {
                    lemma_entry_position(i as int, k - 4 - ENTRY_LEN * i);
                }
            }
            assert(out@ =~= full.take(4 + ENTRY_LEN * (i + 1)));
            i = i + 1;
        }
        assert(out@ =~= full);
        out
    }
}

/// Reads the endpoints back out of a kernel record. A record of the wrong
/// length, or whose count is over the capacity, is refused.
pub fn decode_record(b: &Vec<u8>) -> (r: Option<Vec<Endpoint>>)
    ensures
        r is None <==> decode_spec(b@) is None,
        r matches Some(v) ==> decode_spec(b@) == Some(v@),
{
    if b.len() != RECORD_LEN {
        return None;
    }
    let size: u32 = (b[0] as u32) | ((b[1] as u32) << 8u32) | ((b[2] as u32) << 16u32) | ((
    b[3] as u32) << 24u32);
    if size as usize > MAX_BACKENDS {
        return None;
    }
    let ghost want = decode_spec(b@)->Some_0;
    let mut out: Vec<Endpoint> = Vec::new();
    let mut i: usize = 0;
    while i < size as usize
        invariant
            b@.len() == RECORD_LEN,
            size == read_u32_le(b@, 0),
            size <= MAX_BACKENDS,
            want == decode_spec(b@)->Some_0,
            i <= size,
            out@ == want.take(i as int),
        decreases size - i,
    {
        assert(4 + ENTRY_LEN * i + 8 <= RECORD_LEN) by (nonlinear_arith)
            requires
                i < 512,
        ;
        let at: usize = 4 + ENTRY_LEN * i;
        let addr: u32 = ((b[at] as u32) << 24u32) | ((b[at + 1] as u32) << 16u32) | ((b[at + 2]
            as u32) << 8u32) | (b[at + 3] as u32);
        let port: u16 = (b[at + 4] as u16) | ((b[at + 5] as u16) << 8u16);
        out.push(Endpoint { addr, port });
        assert(out@ =~= want.take(i + 1));
        i = i + 1;
    }
    assert(out@ =~= want);
    Some(out)
}

/// For every list of IPv4 backends, the table holds `min(n, 512)` entries
/// that repeat the address, port and weight of the first backends in order,
/// and its kernel record decodes to exactly those addresses and ports.
pub proof fn lemma_encoding_preserves_backends(rips: Seq<RealIp>)
    requires
        all_v4(rips),
    ensures
        table_of(rips).len() == capped(rips.len()),
        forall|i: int|
            0 <= i < table_of(rips).len() ==> {
                &&& rips[i].addr == IpAddress::V4(#[trigger] table_of(rips)[i].addr)
                &&& rips[i].port == table_of(rips)[i].port
                &&& rips[i].weight == table_of(rips)[i].weight
            },
        decode_spec(record_bytes(endpoints_of(table_of(rips)))) == Some(
            endpoints_of(table_of(rips)),
        ),
{
    let t = table_of(rips);
    assert forall|i: int| 0 <= i < t.len() implies rips[i].addr == IpAddress::V4(
        #[trigger] t[i].addr,
    ) by {
        assert(rips[i].addr is V4);
    }
    lemma_record_round_trip(endpoints_of(t));
}

} // verus!
