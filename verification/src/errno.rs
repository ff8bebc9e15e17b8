//! The Linux error numbers and poll flags that decide what happens next.
//!
//! The numbers are those that x86, ARM and RISC-V share. USB/IP carries error
//! numbers over the wire as they are.
use vstd::prelude::*;

verus! {

pub const EINTR: i32 = 4;

pub const EAGAIN: i32 = 11;

pub const EBUSY: i32 = 16;

pub const ENODEV: i32 = 19;

pub const EINVAL: i32 = 22;

pub const ENOTTY: i32 = 25;

pub const EPIPE: i32 = 32;

pub const ENODATA: i32 = 61;

pub const EOPNOTSUPP: i32 = 95;

pub const ECONNRESET: i32 = 104;

pub const ESHUTDOWN: i32 = 108;

pub const POLLIN: i16 = 0x01;

pub const POLLOUT: i16 = 0x04;

pub const POLLERR: i16 = 0x08;

pub const POLLHUP: i16 = 0x10;

pub const POLLNVAL: i16 = 0x20;

/// Reads `libc::EINTR`. Claimed: its value in the generic Linux numbering.
#[verifier::external_body]
pub(crate) fn eintr() -> (r: i32)
    ensures
        r == EINTR,
{
    libc::EINTR
}

/// Reads `libc::EAGAIN`. Claimed: its value in the generic Linux numbering.
#[verifier::external_body]
pub(crate) fn eagain() -> (r: i32)
    ensures
        r == EAGAIN,
{
    libc::EAGAIN
}

/// Reads `libc::EBUSY`. Claimed: its value in the generic Linux numbering.
#[verifier::external_body]
pub(crate) fn ebusy() -> (r: i32)
    ensures
        r == EBUSY,
{
    libc::EBUSY
}

/// Reads `libc::ENODEV`. Claimed: its value in the generic Linux numbering.
#[verifier::external_body]
pub(crate) fn enodev() -> (r: i32)
    ensures
        r == ENODEV,
{
    libc::ENODEV
}

/// Reads `libc::EINVAL`. Claimed: its value in the generic Linux numbering.
#[verifier::external_body]
pub(crate) fn einval() -> (r: i32)
    ensures
        r == EINVAL,
{
    libc::EINVAL
}

/// Reads `libc::ENOTTY`. Claimed: its value in the generic Linux numbering.
#[verifier::external_body]
pub(crate) fn enotty() -> (r: i32)
    ensures
        r == ENOTTY,
{
    libc::ENOTTY
}

/// Reads `libc::EPIPE`. Claimed: its value in the generic Linux numbering.
#[verifier::external_body]
pub(crate) fn epipe() -> (r: i32)
    ensures
        r == EPIPE,
{
    libc::EPIPE
}

/// Reads `libc::ENODATA`. Claimed: its value in the generic Linux numbering.
#[verifier::external_body]
pub(crate) fn enodata() -> (r: i32)
    ensures
        r == ENODATA,
{
    libc::ENODATA
}

/// Reads `libc::EOPNOTSUPP`. Claimed: its value in the generic Linux numbering.
#[verifier::external_body]
pub(crate) fn eopnotsupp() -> (r: i32)
    ensures
        r == EOPNOTSUPP,
{
    libc::EOPNOTSUPP
}

/// Reads `libc::ECONNRESET`. Claimed: its value in the generic Linux numbering.
#[verifier::external_body]
pub(crate) fn econnreset() -> (r: i32)
    ensures
        r == ECONNRESET,
{
    libc::ECONNRESET
}

/// Reads `libc::ESHUTDOWN`. Claimed: its value in the generic Linux numbering.
#[verifier::external_body]
pub(crate) fn eshutdown() -> (r: i32)
    ensures
        r == ESHUTDOWN,
{
    libc::ESHUTDOWN
}

/// Reads `libc::POLLIN`. Claimed: its value on Linux.
#[verifier::external_body]
pub(crate) fn pollin() -> (r: i16)
    ensures
        r == POLLIN,
{
    libc::POLLIN
}

/// Reads `libc::POLLOUT`. Claimed: its value on Linux.
#[verifier::external_body]
pub(crate) fn pollout() -> (r: i16)
    ensures
        r == POLLOUT,
{
    libc::POLLOUT
}

/// Reads `libc::POLLERR`. Claimed: its value on Linux.
#[verifier::external_body]
pub(crate) fn pollerr() -> (r: i16)
    ensures
        r == POLLERR,
{
    libc::POLLERR
}

/// Reads `libc::POLLHUP`. Claimed: its value on Linux.
#[verifier::external_body]
pub(crate) fn pollhup() -> (r: i16)
    ensures
        r == POLLHUP,
{
    libc::POLLHUP
}

/// Reads `libc::POLLNVAL`. Claimed: its value on Linux.
#[verifier::external_body]
pub(crate) fn pollnval() -> (r: i16)
    ensures
        r == POLLNVAL,
{
    libc::POLLNVAL
}

} // verus!
