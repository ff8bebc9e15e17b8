//! USB/IP 1.1.1 wire format.
//!
//! Encode and decode only: nothing in here opens a socket or a device. The [`io`]
//! module adds framing over a stream of bytes but still makes no policy decisions.
//!
//! Layout reference: `Documentation/usb/usbip_protocol.rst` in the kernel tree,
//! cross-checked against `drivers/usb/usbip/{stub_tx,stub_rx,vhci_tx,vhci_rx}.c`.
//! Everything is big-endian.
pub mod device;
pub mod io;
pub mod op;
pub mod pdu;
pub mod wire;

use crate::text::{dec, dec_int, hex, push_dec, push_dec_int, push_hex};
use vstd::prelude::*;
use vstd::string::*;

verus! {

/// Protocol revision 1.1.1, the only one the in-tree tools speak.
pub const USBIP_VERSION: u16 = 0x0111;

/// `OP_REQ_*` / `OP_REP_*` common header.
pub const SIZE_OP_HEADER: usize = 8;

/// `struct usbip_usb_device`.
pub const SIZE_USB_DEVICE: usize = 312;

/// `struct usbip_usb_interface`.
pub const SIZE_USB_INTERFACE: usize = 4;

/// 20-byte `usbip_header_basic` + 28-byte command block.
pub const SIZE_CMD_HEADER: usize = 48;

/// `struct usbip_iso_packet_descriptor`.
pub const SIZE_ISO_DESC: usize = 16;

pub const BUSID_LEN: usize = 32;

pub const PATH_LEN: usize = 256;

pub const USBIP_PORT: u16 = 3240;

/// What can be wrong with bytes that came from a peer.
#[derive(Debug, Clone, PartialEq, Eq)]
pub enum ProtoError {
    /// A field wanted `need` bytes where only `have` were left.
    Truncated { need: usize, have: usize },
    BadVersion(u16),
    BadCommand(u32),
    TooLarge { field: &'static str, value: i64, max: i64 },
    Utf8,
}

impl ProtoError {
    /// What a user is told of the error.
    pub open spec fn message(self) -> Seq<char> {
        match self {
            ProtoError::Truncated { need, have } => "truncated message: needed "@ + dec(
                need as nat,
            ) + " more bytes, had "@ + dec(have as nat),
            ProtoError::BadVersion(v) => "peer speaks USB/IP version 0x"@ + hex(v as nat, 4)
                + ", expected 0x"@ + hex(USBIP_VERSION as nat, 4),
            ProtoError::BadCommand(c) => "unknown USB/IP command 0x"@ + hex(c as nat, 8),
            ProtoError::TooLarge { field, value, max } => field@ + " = "@ + dec_int(value as int)
                + " exceeds the limit of "@ + dec_int(max as int),
            ProtoError::Utf8 => "text field is not valid UTF-8"@,
        }
    }

    pub fn to_string(&self) -> (s: String)
        ensures
            s@ == self.message(),
    {
        let mut s = String::new();
        match self {
            ProtoError::Truncated { need, have } => {
                s.append("truncated message: needed ");
                push_dec(&mut s, *need as u64);
                s.append(" more bytes, had ");
                push_dec(&mut s, *have as u64);
            },
            ProtoError::BadVersion(v) => {
                s.append("peer speaks USB/IP version 0x");
                push_hex(&mut s, *v as u64, 4);
                s.append(", expected 0x");
                push_hex(&mut s, USBIP_VERSION as u64, 4);
            },
            ProtoError::BadCommand(c) => {
                s.append("unknown USB/IP command 0x");
                push_hex(&mut s, *c as u64, 8);
            },
            ProtoError::TooLarge { field, value, max } => {
                s.append(field);
                s.append(" = ");
                push_dec_int(&mut s, *value);
                s.append(" exceeds the limit of ");
                push_dec_int(&mut s, *max);
            },
            ProtoError::Utf8 => {
                s.append("text field is not valid UTF-8");
            },
        }
        assert(s@ =~= self.message());
        s
    }
}

} // verus!
