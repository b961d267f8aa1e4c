//! The traffic event that the kernel probe reports for each socket send or receive,
//! and the decision that turns a probe's raw readings into such an event.
use vstd::prelude::*;

verus! {

/// Whether bytes left or reached this machine.
#[derive(Clone, Copy, Debug, PartialEq, Eq, Structural)]
pub enum Direction {
    Send,
    Recv,
}

/// The remote address of a socket: the four octets of an IPv4 address or the 16
/// octets of an IPv6 address, in network order (as the kernel stores them).
#[derive(Clone, Copy, Debug)]
pub enum Addr {
    Addr4([u8; 4]),
    Addr6([u8; 16]),
}

/// One completed send or receive of `bytes` bytes by process `pid` with a remote peer.
#[derive(Clone, Copy, Debug)]
pub struct Event {
    pub direction: Direction,
    pub raddr: Addr,
    pub pid: u32,
    pub bytes: usize,
}

/// Address family number of IPv4 sockets.
pub const AF_INET: u16 = 2;

/// Address family number of IPv6 sockets.
pub const AF_INET6: u16 = 10;

/// The event that a probe on a finished `inet_*msg` call reports, if any.
pub open spec fn probe_event(
    retval: i32,
    family: u16,
    daddr4: [u8; 4],
    daddr6: [u8; 16],
    pid_tgid: u64,
    direction: Direction,
) -> Option<Event> {
    if !(0 < retval && retval < i32::MAX) {
        None
    } else if family == AF_INET {
        Some(Event { direction, raddr: Addr::Addr4(daddr4), pid: (pid_tgid / 0x1_0000_0000) as u32, bytes: retval as usize })
    } else if family == AF_INET6 {
        Some(Event { direction, raddr: Addr::Addr6(daddr6), pid: (pid_tgid / 0x1_0000_0000) as u32, bytes: retval as usize })
    } else {
        None
    }
}

/// Decides what a probe on a finished send or receive reports: nothing when the call
/// moved no bytes (or failed), nothing for sockets that are neither IPv4 nor IPv6, and
/// otherwise an event carrying the byte count, the peer address and the process id
/// (the upper half of the kernel's pid/tgid word).
pub fn try_handle_event(
    retval: i32,
    family: u16,
    daddr4: [u8; 4],
    daddr6: [u8; 16],
    pid_tgid: u64,
    direction: Direction,
) -> (ev: Option<Event>)
    ensures
        ev == probe_event(retval, family, daddr4, daddr6, pid_tgid, direction),
{
    if !(retval > 0 && retval < i32::MAX) {
        return None;
    }
    let raddr = if family == AF_INET {
        Addr::Addr4(daddr4)
    } else if family == AF_INET6 {
        Addr::Addr6(daddr6)
    } else {
        return None;
    };
    let pid = (pid_tgid >> 32) as u32;
    assert(pid_tgid >> 32 == pid_tgid / 0x1_0000_0000) by (bit_vector);
    Some(Event { direction, raddr, pid, bytes: retval as usize })
}

} // verus!
