//! The machine that the devices are plugged into: what is on its bus, what of it
//! may be exported, and how transfers are carried out on it.
pub mod descriptors;
pub mod enumerate;
pub mod filter;
pub mod hidraw;
pub mod sys;
pub mod usbfs;

use crate::backend::descriptors::{Alt, ConfigDescriptor, Configuration, DeviceDescriptor};
use crate::proto::device::{DeviceRecord, Speed, UsbDevice, UsbInterface};
use crate::proto::pdu::Direction;
use vstd::prelude::*;
use vstd::string::*;

verus! {

/// An interface as `OP_REP_DEVLIST` advertises it.
#[derive(Debug, Clone, Copy, PartialEq, Eq, Structural)]
pub struct InterfaceSummary {
    pub number: u8,
    pub class: u8,
    pub sub_class: u8,
    pub protocol: u8,
}

impl InterfaceSummary {
    /// What is advertised of an alternate setting.
    pub open spec fn of(a: Alt) -> InterfaceSummary {
        InterfaceSummary {
            number: a.interface_number,
            class: a.class,
            sub_class: a.sub_class,
            protocol: a.protocol,
        }
    }

    /// Whether `self` is what `config` advertises of the interface with its number.
    pub open spec fn is_advertised(self, config: Configuration) -> bool {
        exists|k: int|
            config.is_primary(k, self.number) && self == InterfaceSummary::of(
                #[trigger] config.alts[k],
            )
    }

    /// Whether `list` is what `config` advertises: one entry for each of its
    /// interfaces, by ascending number.
    pub open spec fn advertises(list: Seq<InterfaceSummary>, config: Configuration) -> bool {
        &&& forall|i: int, j: int|
            0 <= i < j < list.len() ==> (#[trigger] list[i]).number < (#[trigger] list[j]).number
        &&& forall|i: int| 0 <= i < list.len() ==> (#[trigger] list[i]).is_advertised(config)
        &&& forall|n: u8| #[trigger]
            config.has_interface(n) ==> exists|i: int|
                0 <= i < list.len() && (#[trigger] list[i]).number == n
    }

    /// Alt setting 0 of each interface, in `bInterfaceNumber` order. This is
    /// exactly what `usbip` reports out of sysfs and what `OP_REP_DEVLIST`
    /// carries.
    pub fn list_from(config: &ConfigDescriptor) -> (r: Vec<InterfaceSummary>)
        ensures
            InterfaceSummary::advertises(r@, config@),
    {
        let alts = config.primary_alt_settings();
        let mut out: Vec<InterfaceSummary> = Vec::new();
        let mut i: usize = 0;
        while i < alts.len()
            invariant
                i <= alts@.len(),
                out@.len() == i,
                forall|j: int|
                    0 <= j < alts@.len() ==> config.stands_for_interface(
                        *(#[trigger] alts@[j]),
                        alts@[j].interface_number,
                    ),
                forall|j: int|
                    0 <= j < i ==> (#[trigger] out@[j]).number == alts@[j].interface_number
                        && out@[j].is_advertised(config@),
            decreases alts@.len() - i,
        {
            let a = alts[i];
            let s = InterfaceSummary {
                number: a.interface_number,
                class: a.class,
                sub_class: a.sub_class,
                protocol: a.protocol,
            };
            proof {
                assert(config.stands_for_interface(*alts@[i as int], alts@[i as int].interface_number));
                let k = choose|k: int|
                    config@.is_primary(k, a.interface_number) && *a
                        == #[trigger] config.alt_settings@[k];
                assert(config@.alts[k] == a@);
                assert(s == InterfaceSummary::of(config@.alts[k]));
            }
            out.push(s);
            i = i + 1;
        }
        assert forall|a: int, b: int| 0 <= a < b < out@.len() implies (#[trigger] out@[a]).number < (
        #[trigger] out@[b]).number by {
            assert(alts@[a].interface_number < alts@[b].interface_number);
        }
        assert forall|n: u8| #[trigger] config@.has_interface(n) implies exists|i: int|
            0 <= i < out@.len() && (#[trigger] out@[i]).number == n by {
            let i = choose|i: int|
                0 <= i < alts@.len() && (#[trigger] alts@[i]).interface_number == n;
            assert(out@[i].number == n);
        }
        out
    }
}

/// Everything a client needs to see about a device before importing it.
#[derive(Debug, Clone, PartialEq, Eq)]
pub struct DeviceSummary {
    pub busnum: u32,
    pub devnum: u32,
    /// The sysfs-style key a client passes back in `OP_REQ_IMPORT`, e.g. `1-2`.
    pub busid: String,
    /// Informational. Falls back to the device node when sysfs is unreadable.
    pub sys_path: String,
    /// `/dev/bus/usb/BBB/DDD`.
    pub node_path: String,
    pub speed: Speed,
    pub device: DeviceDescriptor,
    /// `bConfigurationValue` of the configuration currently in effect.
    pub config_value: u8,
    /// Alt setting 0 of each interface in the active configuration.
    pub interfaces: Vec<InterfaceSummary>,
}

/// The interface as a device record carries it.
pub open spec fn wire_interface(i: InterfaceSummary) -> UsbInterface {
    UsbInterface { class: i.class, subclass: i.sub_class, protocol: i.protocol }
}

impl DeviceSummary {
    pub fn vid_pid(&self) -> (r: (u16, u16))
        ensures
            r == (self.device.id_vendor, self.device.id_product),
    {
        (self.device.id_vendor, self.device.id_product)
    }

    /// The record that advertises the device. The number of interfaces is that
    /// of the interfaces actually parsed rather than `bNumInterfaces`, so the
    /// record cannot disagree with the array that follows it.
    pub open spec fn record(self) -> DeviceRecord {
        DeviceRecord {
            path: self.sys_path@,
            busid: self.busid@,
            busnum: self.busnum,
            devnum: self.devnum,
            speed: self.speed.raw(),
            id_vendor: self.device.id_vendor,
            id_product: self.device.id_product,
            bcd_device: self.device.bcd_device,
            b_device_class: self.device.b_device_class,
            b_device_sub_class: self.device.b_device_sub_class,
            b_device_protocol: self.device.b_device_protocol,
            b_configuration_value: self.config_value,
            b_num_configurations: self.device.b_num_configurations,
            b_num_interfaces: self.interfaces.len() as u8,
            interfaces: self.interfaces@.map_values(|i: InterfaceSummary| wire_interface(i)),
        }
    }

    pub fn to_usbip(&self) -> (d: UsbDevice)
        ensures
            d@ == self.record(),
            self.interfaces@.len() <= 255 ==> d@.interfaces.len() == d@.b_num_interfaces,
    {
        let mut interfaces: Vec<UsbInterface> = Vec::new();
        let ghost want = self.record().interfaces;
        let mut k: usize = 0;
        while k < self.interfaces.len()
            invariant
                k <= self.interfaces@.len(),
                want == self.record().interfaces,
                interfaces@ == want.take(k as int),
            decreases self.interfaces@.len() - k,
        {
            let i = self.interfaces[k];
            interfaces.push(
                UsbInterface { class: i.class, subclass: i.sub_class, protocol: i.protocol },
            );
            k = k + 1;
            assert(interfaces@ =~= want.take(k as int));
        }
        assert(interfaces@ =~= want);
        UsbDevice {
            path: self.sys_path.clone(),
            busid: self.busid.clone(),
            busnum: self.busnum,
            devnum: self.devnum,
            speed: self.speed.as_raw(),
            id_vendor: self.device.id_vendor,
            id_product: self.device.id_product,
            bcd_device: self.device.bcd_device,
            b_device_class: self.device.b_device_class,
            b_device_sub_class: self.device.b_device_sub_class,
            b_device_protocol: self.device.b_device_protocol,
            b_configuration_value: self.config_value,
            b_num_configurations: self.device.b_num_configurations,
            b_num_interfaces: #[verifier::truncate]
            (self.interfaces.len() as u8),
            interfaces,
        }
    }
}

/// One `USBIP_CMD_SUBMIT` translated into backend terms.
#[derive(Debug, Clone, PartialEq, Eq)]
pub struct UrbRequest {
    pub seqnum: u32,
    /// Endpoint number without the direction bit. 0 means the control endpoint.
    pub ep: u8,
    pub dir: Direction,
    /// Kernel URB flags as they arrived in `transfer_flags`.
    pub transfer_flags: u32,
    /// Only meaningful when `ep == 0`.
    pub setup: [u8; 8],
    /// For IN, how many bytes to ask for. For OUT, equals `data.len()`.
    pub buffer_length: usize,
    /// OUT payload; empty for IN.
    pub data: Vec<u8>,
}

/// One reaped URB, ready to become a `USBIP_RET_SUBMIT`.
#[derive(Debug, Clone, PartialEq, Eq)]
pub struct UrbCompletion {
    pub seqnum: u32,
    /// Negative Linux errno, or 0. USB/IP carries the same values.
    pub status: i32,
    pub actual_length: usize,
    /// IN data only.
    pub data: Vec<u8>,
    /// True if this URB was cancelled by a `USBIP_CMD_UNLINK`. The client has
    /// already had its `USBIP_RET_UNLINK` and must not also get a
    /// `USBIP_RET_SUBMIT`, so the caller drops these.
    pub unlinked: bool,
}

/// A submit can fail two ways, and conflating them kills sessions needlessly.
#[derive(Debug, Clone, Copy, PartialEq, Eq, Structural)]
pub enum SubmitError {
    /// The device refused this URB. Report it to the client as a
    /// `USBIP_RET_SUBMIT` carrying this negative errno and carry on.
    Urb(i32),
    /// Carried out directly instead of being submitted as a URB, because it
    /// changes state the kernel tracks for itself. No completion will be reaped,
    /// so the caller owes the client a `USBIP_RET_SUBMIT` with this status — 0 on
    /// success.
    Handled(i32),
    /// The session cannot continue; the errno says why.
    Fatal(i32),
}

/// Result of waiting for URB completions.
#[derive(Debug, Clone, Copy, PartialEq, Eq, Structural)]
pub struct Wake {
    /// At least one URB is ready to reap.
    pub ready: bool,
    /// The device is gone. Drain any remaining completions first — usbfs
    /// keeps them reapable after disconnect — then tear the session down.
    pub gone: bool,
}

impl Default for Wake {
    fn default() -> (w: Self)
        ensures
            w == (Wake { ready: false, gone: false }),
    {
        Wake { ready: false, gone: false }
    }
}

/// What is advertised of an interface are the class, the subclass and the protocol of its
/// first alternate setting with number zero, or of its first setting where it has no such.
pub proof fn lemma_what_is_advertised(
    list: Seq<InterfaceSummary>,
    config: Configuration,
    i: int,
)
    requires
        InterfaceSummary::advertises(list, config),
        0 <= i < list.len(),
    ensures
        exists|k: int|
            {
                let a = #[trigger] config.alts[k];
                &&& 0 <= k < config.alts.len()
                &&& a.interface_number == list[i].number
                &&& a.class == list[i].class
                &&& a.sub_class == list[i].sub_class
                &&& a.protocol == list[i].protocol
                &&& forall|j: int|
                    0 <= j < k && (#[trigger] config.alts[j]).interface_number == list[i].number
                        ==> config.alts[j].alternate_setting != 0 && a.alternate_setting == 0
                &&& a.alternate_setting != 0 ==> forall|j: int|
                    0 <= j < config.alts.len() && (#[trigger] config.alts[j]).interface_number
                        == list[i].number ==> config.alts[j].alternate_setting != 0
            },
{
    let s = list[i];
    assert(s.is_advertised(config));
    let k = choose|k: int|
        config.is_primary(k, s.number) && s == InterfaceSummary::of(#[trigger] config.alts[k]);
    let a = config.alts[k];
    assert(a.interface_number == s.number);
    assert forall|j: int|
        0 <= j < k && (#[trigger] config.alts[j]).interface_number
            == s.number implies config.alts[j].alternate_setting != 0 && a.alternate_setting
        == 0 by {}
}

} // verus!
