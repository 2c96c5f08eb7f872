use vstd::prelude::*;

verus! {

/// Number of slots in a [`RealIpMap`].
pub const MAX_IP_SIZE: usize = 1024;

/// An IPv4 address in network byte order, as the kernel side stores it.
#[derive(Clone, Copy, Debug, PartialEq, Eq, Structural, Hash)]
pub struct IpAddr(pub u32);

impl IpAddr {
    /// The unset address, 0.0.0.0.
    pub fn empty() -> (r: IpAddr)
        ensures
            r.0 == 0,
    {
        IpAddr(0)
    }
}

/// A fixed array of backend addresses, unset slots holding
/// the unset address.
#[derive(Debug)]
pub struct RealIpMap(pub [IpAddr; MAX_IP_SIZE]);

impl RealIpMap {
    /// A map whose every slot is unset.
    pub fn new() -> (r: RealIpMap)
        ensures
            forall|i: int| 0 <= i < MAX_IP_SIZE ==> #[trigger] r.0@[i] == IpAddr(0),
    {
        let empty_ip = IpAddr::empty();
        let empty_array: [IpAddr; MAX_IP_SIZE] = [empty_ip; MAX_IP_SIZE];
        RealIpMap(empty_array)
    }
}

} // verus!
