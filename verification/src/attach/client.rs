//! The client half of the USB/IP handshake.
//!
//! Only `OP_REQ_DEVLIST` is needed: the daemon uses it to find out what an
//! exporter has before deciding whether to attach, and `usbip attach` does the
//! import itself. Speaking the protocol directly here, rather than parsing
//! `usbip list -r`, means device matching happens on structured data.
use crate::proto::device::{DeviceRecord, UsbDevice};
use crate::text::{
    dec, digits_value, hex, lemma_four_digits, lemma_numeral_value, push_dec, push_hex,
};
use vstd::prelude::*;
use vstd::string::*;

verus! {

/// How the daemon refers to a device.
pub open spec fn device_text(d: DeviceRecord) -> Seq<char> {
    d.busid + " ("@ + hex(d.id_vendor as nat, 4) + ":"@ + hex(d.id_product as nat, 4) + ", "@ + dec(
        d.b_num_interfaces as nat,
    ) + " interfaces)"@
}

/// Format a device the way the rest of the daemon refers to it.
pub fn describe(d: &UsbDevice) -> (s: String)
    ensures
        s@ == device_text(d@),
{
    let mut s = String::new();
    s.append(d.busid.as_str());
    s.append(" (");
    push_hex(&mut s, d.id_vendor as u64, 4);
    s.append(":");
    push_hex(&mut s, d.id_product as u64, 4);
    s.append(", ");
    push_dec(&mut s, d.b_num_interfaces as u64);
    s.append(" interfaces)");
    assert(s@ =~= device_text(d@));
    s
}

/// A device is referred to by its bus id and, in brackets behind it, the vendor and the
/// product in four hexadecimal digits each and the number of its interfaces.
pub proof fn lemma_how_a_device_is_referred_to(d: DeviceRecord)
    ensures
        ({
            let t = device_text(d);
            let n = d.busid.len() as int;
            let m = dec(d.b_num_interfaces as nat).len() as int;
            &&& t.take(n) == d.busid
            &&& t[n] == ' ' && t[n + 1] == '(' && t[n + 6] == ':' && t[n + 11] == ','
            &&& digits_value(t.subrange(n + 2, n + 6), 16) == d.id_vendor
            &&& digits_value(t.subrange(n + 7, n + 11), 16) == d.id_product
            &&& digits_value(t.subrange(n + 13, n + 13 + m), 10) == d.b_num_interfaces
            &&& t.last() == ')'
        }),
{
    reveal_strlit(" (");
    reveal_strlit(":");
    reveal_strlit(", ");
    reveal_strlit(" interfaces)");
    lemma_four_digits(d.id_vendor);
    lemma_four_digits(d.id_product);
    lemma_numeral_value(d.b_num_interfaces as nat, 10);
    let t = device_text(d);
    let n = d.busid.len() as int;
    let m = dec(d.b_num_interfaces as nat).len() as int;
    assert(t.take(n) =~= d.busid);
    assert(t.subrange(n + 2, n + 6) =~= hex(d.id_vendor as nat, 4));
    assert(t.subrange(n + 7, n + 11) =~= hex(d.id_product as nat, 4));
    assert(t.subrange(n + 13, n + 13 + m) =~= dec(d.b_num_interfaces as nat));
}

} // verus!
