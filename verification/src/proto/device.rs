//! `struct usbip_usb_device` / `struct usbip_usb_interface` as they appear in
//! `OP_REP_DEVLIST` and `OP_REP_IMPORT`.
use crate::proto::wire::{
    be16, be32, field_text, fits, lemma_be16_reads_back, lemma_be32_reads_back,
    lemma_network_byte_order, lemma_read_in_network_byte_order, lemma_text_reads_back,
    network_value, text_bytes, truncated, u16_at, u32_at, Reader, Writer,
};
use crate::proto::{ProtoError, BUSID_LEN, PATH_LEN, SIZE_USB_DEVICE, SIZE_USB_INTERFACE};
use crate::text::{chars, same_chars, trim, trimmed};
use vstd::prelude::*;
use vstd::string::*;
use vstd::utf8::*;

verus! {

/// `enum usb_device_speed` from the kernel. `OP_REP_IMPORT` carries this value
/// verbatim and `vhci-hcd` uses it to decide what kind of port to fake, so it
/// has to be the enum, not a bit rate.
#[derive(Debug, Clone, Copy, PartialEq, Eq, Structural)]
pub enum Speed {
    Unknown,
    Low,
    Full,
    High,
    Wireless,
    Super,
    SuperPlus,
}

impl Speed {
    /// The kernel's number for the speed.
    pub open spec fn raw(self) -> u32 {
        match self {
            Speed::Unknown => 0,
            Speed::Low => 1,
            Speed::Full => 2,
            Speed::High => 3,
            Speed::Wireless => 4,
            Speed::Super => 5,
            Speed::SuperPlus => 6,
        }
    }

    pub fn as_raw(self) -> (v: u32)
        ensures
            v == self.raw(),
    {
        match self {
            Speed::Unknown => 0,
            Speed::Low => 1,
            Speed::Full => 2,
            Speed::High => 3,
            Speed::Wireless => 4,
            Speed::Super => 5,
            Speed::SuperPlus => 6,
        }
    }

    pub fn from_raw(v: u32) -> (s: Speed)
        ensures
            v <= 6 ==> s.raw() == v,
            v > 6 ==> s == Speed::Unknown,
    {
        match v {
            1 => Speed::Low,
            2 => Speed::Full,
            3 => Speed::High,
            4 => Speed::Wireless,
            5 => Speed::Super,
            6 => Speed::SuperPlus,
            _ => Speed::Unknown,
        }
    }

    /// The speed that a bit rate in Mbit/s stands for.
    pub open spec fn of_rate(s: Seq<char>) -> Speed {
        if s == "1.5"@ {
            Speed::Low
        } else if s == "12"@ {
            Speed::Full
        } else if s == "480"@ {
            Speed::High
        } else if s == "5000"@ {
            Speed::Super
        } else if s == "10000"@ || s == "20000"@ {
            Speed::SuperPlus
        } else {
            Speed::Unknown
        }
    }

    /// Parse the sysfs `speed` attribute, which is a bit rate in Mbit/s.
    pub fn from_sysfs(s: &str) -> (r: Speed)
        ensures
            r == Speed::of_rate(trimmed(s@)),
    {
        let cs = chars(s);
        let t = trim(&cs);
        if same_chars(t, &chars("1.5")) {
            Speed::Low
        } else if same_chars(t, &chars("12")) {
            Speed::Full
        } else if same_chars(t, &chars("480")) {
            Speed::High
        } else if same_chars(t, &chars("5000")) {
            Speed::Super
        } else if same_chars(t, &chars("10000")) || same_chars(t, &chars("20000")) {
            Speed::SuperPlus
        } else {
            Speed::Unknown
        }
    }
}

#[derive(Debug, Clone, Copy, PartialEq, Eq, Structural)]
pub struct UsbInterface {
    pub class: u8,
    pub subclass: u8,
    pub protocol: u8,
}

impl Default for UsbInterface {
    fn default() -> (i: Self)
        ensures
            i == (UsbInterface { class: 0, subclass: 0, protocol: 0 }),
    {
        UsbInterface { class: 0, subclass: 0, protocol: 0 }
    }
}

#[derive(Debug, Clone, PartialEq, Eq)]
pub struct UsbDevice {
    /// Informational sysfs path, e.g. `/sys/bus/usb/devices/1-2`.
    pub path: String,
    /// The key a client passes back in `OP_REQ_IMPORT`, e.g. `1-2`.
    pub busid: String,
    pub busnum: u32,
    pub devnum: u32,
    pub speed: u32,
    pub id_vendor: u16,
    pub id_product: u16,
    pub bcd_device: u16,
    pub b_device_class: u8,
    pub b_device_sub_class: u8,
    pub b_device_protocol: u8,
    pub b_configuration_value: u8,
    pub b_num_configurations: u8,
    pub b_num_interfaces: u8,
    /// Only present in `OP_REP_DEVLIST`; `OP_REP_IMPORT` omits the interface array.
    pub interfaces: Vec<UsbInterface>,
}

/// A device record with its texts as characters and its interfaces as a sequence.
pub struct DeviceRecord {
    pub path: Seq<char>,
    pub busid: Seq<char>,
    pub busnum: u32,
    pub devnum: u32,
    pub speed: u32,
    pub id_vendor: u16,
    pub id_product: u16,
    pub bcd_device: u16,
    pub b_device_class: u8,
    pub b_device_sub_class: u8,
    pub b_device_protocol: u8,
    pub b_configuration_value: u8,
    pub b_num_configurations: u8,
    pub b_num_interfaces: u8,
    pub interfaces: Seq<UsbInterface>,
}

impl View for UsbDevice {
    type V = DeviceRecord;

    open spec fn view(&self) -> DeviceRecord {
        DeviceRecord {
            path: self.path@,
            busid: self.busid@,
            busnum: self.busnum,
            devnum: self.devnum,
            speed: self.speed,
            id_vendor: self.id_vendor,
            id_product: self.id_product,
            bcd_device: self.bcd_device,
            b_device_class: self.b_device_class,
            b_device_sub_class: self.b_device_sub_class,
            b_device_protocol: self.b_device_protocol,
            b_configuration_value: self.b_configuration_value,
            b_num_configurations: self.b_num_configurations,
            b_num_interfaces: self.b_num_interfaces,
            interfaces: self.interfaces@,
        }
    }
}

/// How long the record at the head of `b` is, interfaces and all. The number of
/// interfaces is the last byte of the fixed part.
pub open spec fn record_len(b: Seq<u8>) -> int {
    SIZE_USB_DEVICE + SIZE_USB_INTERFACE * b[SIZE_USB_DEVICE - 1]
}

/// What stops the reading of a record at the head of `b`, and after how many
/// bytes: `b` ends inside a field, or one of the two texts is not UTF-8.
pub open spec fn record_error(b: Seq<u8>, with_interfaces: bool) -> Option<(ProtoError, int)> {
    let n = b.len() as int;
    if n < 256 {
        Some((truncated(256, n), 0))
    } else if !valid_utf8(field_text(b.take(256))) {
        Some((ProtoError::Utf8, 256))
    } else if n < 288 {
        Some((truncated(32, n - 256), 256))
    } else if !valid_utf8(field_text(b.subrange(256, 288))) {
        Some((ProtoError::Utf8, 288))
    } else if n < 300 {
        Some((truncated(4, n % 4), n - n % 4))
    } else if n < 306 {
        Some((truncated(2, n % 2), n - n % 2))
    } else if n < SIZE_USB_DEVICE || (with_interfaces && n < record_len(b)) {
        Some((truncated(1, 0), n))
    } else {
        None
    }
}

impl DeviceRecord {
    /// The interface with number `i`, or an all-zero one where none is given.
    pub open spec fn interface(self, i: int) -> UsbInterface {
        if 0 <= i < self.interfaces.len() {
            self.interfaces[i]
        } else {
            UsbInterface { class: 0, subclass: 0, protocol: 0 }
        }
    }

    /// The fixed part, 312 bytes.
    pub open spec fn fixed_bytes(self) -> Seq<u8> {
        text_bytes(self.path, 256) + text_bytes(self.busid, 32) + be32(self.busnum) + be32(
            self.devnum,
        ) + be32(self.speed) + be16(self.id_vendor) + be16(self.id_product) + be16(self.bcd_device)
            + seq![
            self.b_device_class,
            self.b_device_sub_class,
            self.b_device_protocol,
            self.b_configuration_value,
            self.b_num_configurations,
            self.b_num_interfaces,
        ]
    }

    /// The first `n` interfaces, four bytes each.
    pub open spec fn interface_bytes(self, n: nat) -> Seq<u8> {
        Seq::new(
            4 * n,
            |k: int|
                {
                    let i = self.interface(k / 4);
                    if k % 4 == 0 {
                        i.class
                    } else if k % 4 == 1 {
                        i.subclass
                    } else if k % 4 == 2 {
                        i.protocol
                    } else {
                        0u8
                    }
                },
        )
    }

    pub open spec fn bytes(self, with_interfaces: bool) -> Seq<u8> {
        if with_interfaces {
            self.fixed_bytes() + self.interface_bytes(self.b_num_interfaces as nat)
        } else {
            self.fixed_bytes()
        }
    }

    /// What a reader makes of the record: as many interfaces as it announces, or
    /// none where they are not sent.
    pub open spec fn as_received(self, with_interfaces: bool) -> DeviceRecord {
        DeviceRecord {
            interfaces: if with_interfaces {
                Seq::new(self.b_num_interfaces as nat, |i: int| self.interface(i))
            } else {
                Seq::empty()
            },
            ..self
        }
    }

    /// The record at the head of `b`.
    pub open spec fn at(b: Seq<u8>, with_interfaces: bool) -> DeviceRecord {
        DeviceRecord {
            path: decode_utf8(field_text(b.take(256))),
            busid: decode_utf8(field_text(b.subrange(256, 288))),
            busnum: u32_at(b, 288),
            devnum: u32_at(b, 292),
            speed: u32_at(b, 296),
            id_vendor: u16_at(b, 300),
            id_product: u16_at(b, 302),
            bcd_device: u16_at(b, 304),
            b_device_class: b[306],
            b_device_sub_class: b[307],
            b_device_protocol: b[308],
            b_configuration_value: b[309],
            b_num_configurations: b[310],
            b_num_interfaces: b[311],
            interfaces: if with_interfaces {
                Seq::new(
                    b[311] as nat,
                    |i: int|
                        UsbInterface {
                            class: b[312 + 4 * i],
                            subclass: b[313 + 4 * i],
                            protocol: b[314 + 4 * i],
                        },
                )
            } else {
                Seq::empty()
            },
        }
    }
}

proof fn lemma_devid(bus: u32, dev: u32)
    by (bit_vector)
    ensures
        ((bus << 16) | (dev & 0xffff)) == ((bus & 0xffff) * 0x1_0000 + (dev & 0xffff)) as u32,
        bus & 0xffff == bus % 0x1_0000,
        dev & 0xffff == dev % 0x1_0000,
{
}

impl Default for UsbDevice {
    fn default() -> (d: Self)
        ensures
            d@ == (DeviceRecord {
                path: Seq::empty(),
                busid: Seq::empty(),
                busnum: 0,
                devnum: 0,
                speed: 0,
                id_vendor: 0,
                id_product: 0,
                bcd_device: 0,
                b_device_class: 0,
                b_device_sub_class: 0,
                b_device_protocol: 0,
                b_configuration_value: 0,
                b_num_configurations: 0,
                b_num_interfaces: 0,
                interfaces: Seq::empty(),
            }),
    {
        UsbDevice {
            path: String::new(),
            busid: String::new(),
            busnum: 0,
            devnum: 0,
            speed: 0,
            id_vendor: 0,
            id_product: 0,
            bcd_device: 0,
            b_device_class: 0,
            b_device_sub_class: 0,
            b_device_protocol: 0,
            b_configuration_value: 0,
            b_num_configurations: 0,
            b_num_interfaces: 0,
            interfaces: Vec::new(),
        }
    }
}

impl UsbDevice {
    /// The `devid` that `USBIP_CMD_SUBMIT` headers carry: the low halves of the
    /// bus number and the device number.
    pub fn devid(&self) -> (r: u32)
        ensures
            r == (self.busnum % 0x1_0000) * 0x1_0000 + self.devnum % 0x1_0000,
    {
        proof {
            lemma_devid(self.busnum, self.devnum);
        }
        (self.busnum << 16) | (self.devnum & 0xffff)
    }

    /// Encode the fixed 312-byte device record, optionally followed by the
    /// 4-byte-per-interface array (`OP_REP_DEVLIST` only).
    pub fn encode(&self, w: &mut Writer, with_interfaces: bool)
        ensures
            final(w)@ == old(w)@ + self@.bytes(with_interfaces),
    {
        w.text_field(&self.path, PATH_LEN);
        w.text_field(&self.busid, BUSID_LEN);
        w.u32(self.busnum);
        w.u32(self.devnum);
        w.u32(self.speed);
        w.u16(self.id_vendor);
        w.u16(self.id_product);
        w.u16(self.bcd_device);
        w.u8(self.b_device_class);
        w.u8(self.b_device_sub_class);
        w.u8(self.b_device_protocol);
        w.u8(self.b_configuration_value);
        w.u8(self.b_num_configurations);
        w.u8(self.b_num_interfaces);
        assert(w@ =~= old(w)@ + self@.fixed_bytes());
        if with_interfaces {
            let n: usize = self.b_num_interfaces as usize;
            let ghost head = w@;
            let mut i: usize = 0;
            assert(w@ =~= head + self@.interface_bytes(0));
            while i < n
                invariant
                    i <= n,
                    w@ == head + self@.interface_bytes(i as nat),
                decreases n - i,
            {
                let intf = if i < self.interfaces.len() {
                    self.interfaces[i]
                } else {
                    UsbInterface::default()
                };
                assert(intf == self@.interface(i as int));
                w.u8(intf.class);
                w.u8(intf.subclass);
                w.u8(intf.protocol);
                w.u8(0);  // padding
                i = i + 1;
                assert(w@ =~= head + self@.interface_bytes(i as nat));
            }
            assert(w@ =~= old(w)@ + self@.bytes(true));
        }
    }

    pub fn decode(r: &mut Reader, with_interfaces: bool) -> (res: Result<UsbDevice, ProtoError>)
        ensures
            match res {
                Ok(d) => {
                    &&& record_error(old(r)@, with_interfaces) is None
                    &&& d@ == DeviceRecord::at(old(r)@, with_interfaces)
                    &&& final(r)@ == old(r)@.skip(
                        if with_interfaces {
                            record_len(old(r)@)
                        } else {
                            SIZE_USB_DEVICE as int
                        },
                    )
                },
                Err(e) => record_error(old(r)@, with_interfaces) matches Some((why, at)) && e == why
                    && final(r)@ == old(r)@.skip(at),
            },
    {
        let ghost b = r@;
        assert(b.skip(0) =~= b);
        let path = r.text_field(PATH_LEN)?;
        assert(r@.take(32) =~= b.subrange(256, 288) || b.len() < 288);
        let busid = r.text_field(BUSID_LEN)?;
        assert(r@ =~= b.skip(288));
        let busnum: u32 = r.u32()?;
        assert(r@ =~= b.skip(292));
        let devnum: u32 = r.u32()?;
        assert(r@ =~= b.skip(296));
        let speed: u32 = r.u32()?;
        assert(r@ =~= b.skip(300));
        let id_vendor: u16 = r.u16()?;
        assert(r@ =~= b.skip(302));
        let id_product: u16 = r.u16()?;
        assert(r@ =~= b.skip(304));
        let bcd_device: u16 = r.u16()?;
        assert(r@ =~= b.skip(306));
        let b_device_class: u8 = r.u8()?;
        assert(r@ =~= b.skip(307));
        let b_device_sub_class: u8 = r.u8()?;
        assert(r@ =~= b.skip(308));
        let b_device_protocol: u8 = r.u8()?;
        assert(r@ =~= b.skip(309));
        let b_configuration_value: u8 = r.u8()?;
        assert(r@ =~= b.skip(310));
        let b_num_configurations: u8 = r.u8()?;
        assert(r@ =~= b.skip(311));
        let b_num_interfaces: u8 = r.u8()?;
        assert(r@ =~= b.skip(312));
        let mut interfaces: Vec<UsbInterface> = Vec::new();
        if with_interfaces {
            let mut i: u8 = 0;
            while i < b_num_interfaces
                invariant
                    i <= b_num_interfaces,
                    with_interfaces,
                    b == old(r)@,
                    b.len() >= 312 + 4 * i,
                    b_num_interfaces == b[311],
                    b.len() >= 312 + 4 * b_num_interfaces ==> record_error(b, true) is None,
                    b.len() < 312 + 4 * b_num_interfaces ==> record_error(b, true) == Some(
                        (truncated(1, 0), b.len() as int),
                    ),
                    r@ == b.skip(312 + 4 * i),
                    interfaces@ == DeviceRecord::at(b, true).interfaces.take(i as int),
                decreases b_num_interfaces - i,
            {
                let class: u8 = r.u8()?;
                assert(r@ =~= b.skip(313 + 4 * i));
                let subclass: u8 = r.u8()?;
                assert(r@ =~= b.skip(314 + 4 * i));
                let protocol: u8 = r.u8()?;
                assert(r@ =~= b.skip(315 + 4 * i));
                r.skip(1)?;  // padding
                assert(r@ =~= b.skip(316 + 4 * i));
                interfaces.push(UsbInterface { class, subclass, protocol });
                i = i + 1;
                assert(interfaces@ =~= DeviceRecord::at(b, true).interfaces.take(i as int));
            }
            assert(interfaces@ =~= DeviceRecord::at(b, true).interfaces);
        } else {
            assert(interfaces@ =~= DeviceRecord::at(b, false).interfaces);
        }
        Ok(
            UsbDevice {
                path,
                busid,
                busnum,
                devnum,
                speed,
                id_vendor,
                id_product,
                bcd_device,
                b_device_class,
                b_device_sub_class,
                b_device_protocol,
                b_configuration_value,
                b_num_configurations,
                b_num_interfaces,
                interfaces,
            },
        )
    }

    /// Wire size of this record, for sizing a read buffer before decoding.
    pub fn encoded_len(&self, with_interfaces: bool) -> (n: usize)
        ensures
            n == self@.bytes(with_interfaces).len(),
            n == SIZE_USB_DEVICE + (if with_interfaces {
                SIZE_USB_INTERFACE * self.b_num_interfaces
            } else {
                0
            }),
    {
        if with_interfaces {
            SIZE_USB_DEVICE + self.b_num_interfaces as usize * SIZE_USB_INTERFACE
        } else {
            SIZE_USB_DEVICE
        }
    }
}

/// A device record is 312 bytes, and four more for each interface it announces
/// where interfaces are sent, however many it was given.
pub proof fn lemma_record_size(d: DeviceRecord)
    ensures
        d.bytes(false).len() == SIZE_USB_DEVICE,
        d.bytes(true).len() == SIZE_USB_DEVICE + SIZE_USB_INTERFACE * d.b_num_interfaces,
{
}

/// A record whose texts fit is read back from its own bytes, whatever follows
/// them. Interfaces it announced without giving them come back all zero.
pub proof fn lemma_record_reads_back(d: DeviceRecord, b: Seq<u8>, with_interfaces: bool)
    requires
        fits(d.path, PATH_LEN as nat),
        fits(d.busid, BUSID_LEN as nat),
        d.bytes(with_interfaces).len() <= b.len(),
        b.take(d.bytes(with_interfaces).len() as int) == d.bytes(with_interfaces),
    ensures
        record_error(b, with_interfaces) is None,
        DeviceRecord::at(b, with_interfaces) == d.as_received(with_interfaces),
        with_interfaces ==> record_len(b) == d.bytes(with_interfaces).len(),
{
    let s = d.bytes(with_interfaces);
    let n = s.len() as int;
    assert forall|i: int, j: int| 0 <= i <= j <= n implies #[trigger] b.subrange(i, j)
        == s.subrange(i, j) by {
        assert(b.subrange(i, j) =~= b.take(n).subrange(i, j));
    }
    assert forall|i: int| 0 <= i < n implies #[trigger] b[i] == s[i] by {
        assert(b[i] == b.take(n)[i]);
    }
    lemma_text_reads_back(d.path, 256);
    lemma_text_reads_back(d.busid, 32);
    assert(b.take(256) =~= b.subrange(0, 256));
    assert(s.subrange(0, 256) =~= text_bytes(d.path, 256));
    assert(s.subrange(256, 288) =~= text_bytes(d.busid, 32));
    assert(s.subrange(288, 292) =~= be32(d.busnum));
    lemma_be32_reads_back(b, 288, d.busnum);
    assert(s.subrange(292, 296) =~= be32(d.devnum));
    lemma_be32_reads_back(b, 292, d.devnum);
    assert(s.subrange(296, 300) =~= be32(d.speed));
    lemma_be32_reads_back(b, 296, d.speed);
    assert(s.subrange(300, 302) =~= be16(d.id_vendor));
    lemma_be16_reads_back(b, 300, d.id_vendor);
    assert(s.subrange(302, 304) =~= be16(d.id_product));
    lemma_be16_reads_back(b, 302, d.id_product);
    assert(s.subrange(304, 306) =~= be16(d.bcd_device));
    lemma_be16_reads_back(b, 304, d.bcd_device);
    let got = DeviceRecord::at(b, with_interfaces);
    let want = d.as_received(with_interfaces);
    if with_interfaces {
        assert forall|i: int| 0 <= i < d.b_num_interfaces implies got.interfaces[i]
            == want.interfaces[i] by {
            let t = d.interface_bytes(d.b_num_interfaces as nat);
            assert(b[312 + 4 * i] == t[4 * i]);
            assert(b[313 + 4 * i] == t[4 * i + 1]);
            assert(b[314 + 4 * i] == t[4 * i + 2]);
        }
    }
    assert(got.interfaces =~= want.interfaces);
}

/// Where everything in a device record stands: the path in 256 bytes, the bus id in 32,
/// three numbers of four bytes, three of two, six of one, and of each interface that is
/// announced its class, its subclass and its protocol, and a zero.
pub proof fn lemma_record_layout(d: DeviceRecord, k: int)
    ensures
        ({
            let b = d.bytes(true);
            &&& d.bytes(false) == b.take(312)
            &&& b.len() == 312 + 4 * d.b_num_interfaces
            &&& b.subrange(0, 256) == text_bytes(d.path, 256)
            &&& b.subrange(256, 288) == text_bytes(d.busid, 32)
            &&& network_value(b.subrange(288, 292)) == d.busnum
            &&& network_value(b.subrange(292, 296)) == d.devnum
            &&& network_value(b.subrange(296, 300)) == d.speed
            &&& network_value(b.subrange(300, 302)) == d.id_vendor
            &&& network_value(b.subrange(302, 304)) == d.id_product
            &&& network_value(b.subrange(304, 306)) == d.bcd_device
            &&& b.subrange(306, 312) == seq![
                d.b_device_class,
                d.b_device_sub_class,
                d.b_device_protocol,
                d.b_configuration_value,
                d.b_num_configurations,
                d.b_num_interfaces,
            ]
            &&& 0 <= k < d.b_num_interfaces && k < d.interfaces.len() ==> {
                &&& b[312 + 4 * k] == d.interfaces[k].class
                &&& b[313 + 4 * k] == d.interfaces[k].subclass
                &&& b[314 + 4 * k] == d.interfaces[k].protocol
                &&& b[315 + 4 * k] == 0
            }
        }),
{
    let b = d.bytes(true);
    let fixed = d.fixed_bytes();
    assert(fixed =~= b.take(312));
    lemma_network_byte_order(d.id_vendor, d.busnum, 0);
    lemma_network_byte_order(d.id_product, d.devnum, 0);
    lemma_network_byte_order(d.bcd_device, d.speed, 0);
    assert(b.subrange(0, 256) =~= text_bytes(d.path, 256));
    assert(b.subrange(256, 288) =~= text_bytes(d.busid, 32));
    assert(b.subrange(288, 292) =~= be32(d.busnum));
    assert(b.subrange(292, 296) =~= be32(d.devnum));
    assert(b.subrange(296, 300) =~= be32(d.speed));
    assert(b.subrange(300, 302) =~= be16(d.id_vendor));
    assert(b.subrange(302, 304) =~= be16(d.id_product));
    assert(b.subrange(304, 306) =~= be16(d.bcd_device));
    assert(b.subrange(306, 312) =~= seq![
        d.b_device_class,
        d.b_device_sub_class,
        d.b_device_protocol,
        d.b_configuration_value,
        d.b_num_configurations,
        d.b_num_interfaces,
    ]);
    if 0 <= k < d.b_num_interfaces && k < d.interfaces.len() {
        let t = d.interface_bytes(d.b_num_interfaces as nat);
        assert((4 * k) / 4 == k && (4 * k) % 4 == 0);
        assert((4 * k + 1) / 4 == k && (4 * k + 1) % 4 == 1);
        assert((4 * k + 2) / 4 == k && (4 * k + 2) % 4 == 2);
        assert((4 * k + 3) / 4 == k && (4 * k + 3) % 4 == 3);
        assert(b[312 + 4 * k] == t[4 * k]);
        assert(b[313 + 4 * k] == t[4 * k + 1]);
        assert(b[314 + 4 * k] == t[4 * k + 2]);
        assert(b[315 + 4 * k] == t[4 * k + 3]);
    }
}

/// The speeds by the kernel's numbers, and by the bit rates that sysfs gives.
pub proof fn lemma_speeds()
    ensures
        Speed::Unknown.raw() == 0 && Speed::Low.raw() == 1 && Speed::Full.raw() == 2
            && Speed::High.raw() == 3 && Speed::Wireless.raw() == 4 && Speed::Super.raw() == 5
            && Speed::SuperPlus.raw() == 6,
        Speed::of_rate("1.5"@) == Speed::Low,
        Speed::of_rate("12"@) == Speed::Full,
        Speed::of_rate("480"@) == Speed::High,
        Speed::of_rate("5000"@) == Speed::Super,
        Speed::of_rate("10000"@) == Speed::SuperPlus,
        Speed::of_rate("20000"@) == Speed::SuperPlus,
{
    reveal_strlit("1.5");
    reveal_strlit("12");
    reveal_strlit("480");
    reveal_strlit("5000");
    reveal_strlit("10000");
    reveal_strlit("20000");
    assert("1.5"@.len() == 3 && "480"@.len() == 3 && "1.5"@[0] == '1' && "480"@[0] == '4');
    assert("12"@.len() == 2 && "5000"@.len() == 4 && "10000"@.len() == 5 && "20000"@.len() == 5);
}

/// What a reader finds where in a record, and what arrives of a device: all that was sent,
/// with its interfaces where they are sent and without them where they are not.
pub proof fn lemma_what_a_reader_finds(b: Seq<u8>, d: DeviceRecord, k: int)
    requires
        b.len() >= 312,
    ensures
        ({
            let r = DeviceRecord::at(b, true);
            &&& r.busnum == network_value(b.subrange(288, 292))
            &&& r.devnum == network_value(b.subrange(292, 296))
            &&& r.speed == network_value(b.subrange(296, 300))
            &&& r.id_vendor == network_value(b.subrange(300, 302))
            &&& r.id_product == network_value(b.subrange(302, 304))
            &&& r.bcd_device == network_value(b.subrange(304, 306))
            &&& r.b_device_class == b[306] && r.b_device_sub_class == b[307]
            &&& r.b_device_protocol == b[308] && r.b_configuration_value == b[309]
            &&& r.b_num_configurations == b[310] && r.b_num_interfaces == b[311]
            &&& r.interfaces.len() == b[311]
            &&& record_len(b) == 312 + 4 * b[311]
            &&& 0 <= k < b[311] ==> {
                &&& r.interfaces[k].class == b[312 + 4 * k]
                &&& r.interfaces[k].subclass == b[313 + 4 * k]
                &&& r.interfaces[k].protocol == b[314 + 4 * k]
            }
            &&& DeviceRecord::at(b, false) == (DeviceRecord { interfaces: Seq::empty(), ..r })
        }),
        d.interfaces.len() == d.b_num_interfaces ==> d.as_received(true) == d,
        d.as_received(false) == (DeviceRecord { interfaces: Seq::empty(), ..d }),
{
    lemma_read_in_network_byte_order(b, 288);
    lemma_read_in_network_byte_order(b, 292);
    lemma_read_in_network_byte_order(b, 296);
    lemma_read_in_network_byte_order(b, 300);
    lemma_read_in_network_byte_order(b, 302);
    lemma_read_in_network_byte_order(b, 304);
    if d.interfaces.len() == d.b_num_interfaces {
        assert(d.as_received(true).interfaces =~= d.interfaces);
    }
}

/// Which rates are which speeds, in megabits per second: 1.5 is low, 12 is full, 480 is
/// high, 5000 is super, and 10000 and 20000 are more than that; nothing else is known.
pub proof fn lemma_which_rates_are_which_speeds(s: Seq<char>)
    ensures
        Speed::of_rate(s) is Low <==> s == "1.5"@,
        Speed::of_rate(s) is Full <==> s == "12"@,
        Speed::of_rate(s) is High <==> s == "480"@,
        Speed::of_rate(s) is Super <==> s == "5000"@,
        Speed::of_rate(s) is SuperPlus <==> s == "10000"@ || s == "20000"@,
        !(Speed::of_rate(s) is Wireless),
{
    reveal_strlit("1.5");
    reveal_strlit("12");
    reveal_strlit("480");
    reveal_strlit("5000");
    reveal_strlit("10000");
    reveal_strlit("20000");
    assert("1.5"@.len() == 3 && "480"@.len() == 3 && "1.5"@[0] == '1' && "480"@[0] == '4');
    assert("12"@.len() == 2 && "5000"@.len() == 4 && "10000"@.len() == 5 && "20000"@.len() == 5);
}

} // verus!
