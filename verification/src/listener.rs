//! Where the gateway may listen: IPv4 loopback and nowhere else.
use vstd::prelude::*;

verus! {

/// The only host the gateway binds. A local gateway that answered on a routable address would
/// hand every machine on the network a way to spend the user's quota.
pub const BIND_HOST: [u8; 4] = [127, 0, 0, 1];

/// A host that a caller may ask for.
#[derive(Debug, Clone, Copy, PartialEq, Eq)]
pub enum Host {
    /// An IPv4 address, octet by octet.
    V4([u8; 4]),
    /// An IPv6 address, group by group.
    V6([u16; 8]),
}

/// An address to listen on.
#[derive(Debug, Clone, Copy, PartialEq, Eq)]
pub struct BindAddress {
    pub host: [u8; 4],
    pub port: u16,
}

/// Why an address was refused.
#[derive(Debug, Clone, Copy, PartialEq, Eq, Structural)]
pub enum BindError {
    /// Anything that is not IPv4 loopback.
    NotLoopback,
}

impl BindError {
    /// The error in words.
    pub fn message(&self) -> (message: &'static str)
        ensures
            message@ == "the codex gateway only binds 127.0.0.1"@,
    {
        "the codex gateway only binds 127.0.0.1"
    }
}

/// Whether a requested host may be bound: none was named, or the one that was is IPv4 loopback.
pub open spec fn may_bind(requested: Option<Host>) -> bool {
    match requested {
        None => true,
        Some(Host::V4(octets)) => octets@ == BIND_HOST@,
        Some(Host::V6(_)) => false,
    }
}

/// Resolve the address the gateway may listen on. Only the port is configurable: an explicitly
/// requested host other than loopback is refused, not silently corrected.
pub fn bind_address(requested_host: Option<Host>, port: u16) -> (address: Result<
    BindAddress,
    BindError,
>)
    ensures
        match address {
            Ok(address) => may_bind(requested_host) && address.host@ == BIND_HOST@ && address.port
                == port,
            Err(error) => !may_bind(requested_host) && error == BindError::NotLoopback,
        },
{
    match requested_host {
        None => Ok(BindAddress { host: BIND_HOST, port }),
        Some(Host::V4(octets)) => {
            let mut i: usize = 0;
            while i < 4
                invariant
                    i <= 4,
                    requested_host == Some(Host::V4(octets)),
                    forall|k: int| 0 <= k < i ==> octets@[k] == BIND_HOST@[k],
                decreases 4 - i,
            {
                if octets[i] != BIND_HOST[i] {
                    return Err(BindError::NotLoopback);
                }
                i += 1;
            }
            assert(octets@ =~= BIND_HOST@);
            Ok(BindAddress { host: BIND_HOST, port })
        },
        Some(Host::V6(_)) => Err(BindError::NotLoopback),
    }
}

} // verus!
