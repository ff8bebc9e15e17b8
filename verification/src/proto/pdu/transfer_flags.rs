//! Kernel URB flags that USB/IP passes through in `transfer_flags`.
use vstd::prelude::*;

verus! {

pub const SHORT_NOT_OK: u32 = 0x0000_0001;

pub const ISO_ASAP: u32 = 0x0000_0002;

pub const ZERO_PACKET: u32 = 0x0000_0040;

pub const NO_INTERRUPT: u32 = 0x0000_0080;

} // verus!
