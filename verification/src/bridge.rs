//! The Android bridge: what starting and stopping an exporter from an app decides.
//!
//! The app hands over a descriptor and numbers, and gets a number back. Everything
//! else the exporter needs to know about the device it learns from the descriptor
//! itself.
use crate::backend::filter::{DeviceFilter, Pattern, VALVE_VID};
use crate::backend::usbfs::{OpenError, DEFAULT_MAX_TRANSFER};
use crate::common::log::Level;
use crate::common::netif::{tailscale_addrs, Interface, Ip};
use crate::proto::USBIP_PORT;
use crate::server::config::{tailnet_of, Bind, Config};
use crate::text::chars;
use vstd::prelude::*;
use vstd::string::*;

verus! {

broadcast use {vstd::slice::group_slice_axioms, vstd::array::group_array_axioms};

/// Negative results of a start. A success gives the bound port, which is always
/// positive.
pub const ERR_ALREADY_RUNNING: i32 = -1;

pub const ERR_BAD_DESCRIPTOR: i32 = -2;

pub const ERR_NOT_A_USB_DEVICE: i32 = -3;

pub const ERR_BIND_FAILED: i32 = -4;

pub const ERR_INTERNAL: i32 = -5;

/// What came of taking over the descriptor.
#[derive(Debug, Clone, Copy, PartialEq, Eq, Structural)]
pub enum Adopted {
    Device,
    /// It can be read, but what it gives are not a device's descriptors.
    NotADevice,
    /// It cannot be used at all.
    Unusable,
}

/// Why a descriptor could not be taken over.
#[derive(Debug, Clone, Copy, PartialEq, Eq, Structural)]
pub enum AdoptError {
    /// It could not be duplicated or read.
    Io,
    /// It could be read, but what it gave does not make a device.
    Open(OpenError),
}

impl Adopted {
    /// What taking over a descriptor came to.
    pub fn from_outcome(outcome: Result<(), AdoptError>) -> (a: Adopted)
        ensures
            a == (match outcome {
                Ok(_) => Adopted::Device,
                Err(AdoptError::Open(_)) => Adopted::NotADevice,
                Err(AdoptError::Io) => Adopted::Unusable,
            }),
    {
        match outcome {
            Ok(()) => Adopted::Device,
            Err(AdoptError::Open(_)) => Adopted::NotADevice,
            Err(AdoptError::Io) => Adopted::Unusable,
        }
    }
}

/// What came of going into service.
#[derive(Debug, Clone, Copy, PartialEq, Eq, Structural)]
pub enum Launch {
    BindFailed,
    /// The sockets were there, but no thread to serve them.
    SpawnFailed,
    /// Serving, on this port as far as the first socket could tell it.
    Serving(Option<u16>),
}

pub open spec fn loopback_v4() -> Ip {
    Ip::V4([127u8, 0u8, 0u8, 1u8])
}

pub open spec fn loopback_v6() -> Ip {
    Ip::V6([0u8, 0u8, 0u8, 0u8, 0u8, 0u8, 0u8, 0u8, 0u8, 0u8, 0u8, 0u8, 0u8, 0u8, 0u8, 1u8])
}

/// Where to listen, given whether there is a tailnet: on it and on loopback, or,
/// where that is allowed, everywhere.
///
/// On Android loopback is not redundant with the tailnet address. Tailscale there is
/// a VpnService running its network stack in userspace: an inbound tailnet connection
/// is terminated inside the Tailscale app and re-dialled to 127.0.0.1, so it never
/// reaches a socket bound to the address that the interface list shows.
pub open spec fn binds_for(tailnet: bool, bind_any: bool) -> Option<Seq<Bind>> {
    if tailnet {
        Some(seq![Bind::Tailscale, Bind::Addr(loopback_v4()), Bind::Addr(loopback_v6())])
    } else if bind_any {
        Some(seq![Bind::Any])
    } else {
        None
    }
}

/// The port to listen on: the one asked for if it is one.
pub open spec fn port_for(port: i32) -> u16 {
    if 0 < port <= 0xffff {
        port as u16
    } else {
        USBIP_PORT
    }
}

/// Whether the interfaces, as far as they could be listed, hold a tailnet address.
pub open spec fn on_tailnet(interfaces: Option<Vec<Interface>>) -> bool {
    match interfaces {
        Some(v) => tailnet_of(v@).len() > 0,
        None => false,
    }
}

/// The exporter that an app runs, if it runs one.
pub struct Bridge {
    running: Option<u16>,
}

impl View for Bridge {
    type V = Option<u16>;

    closed spec fn view(&self) -> Option<u16> {
        self.running
    }
}

impl Bridge {
    pub fn new() -> (b: Bridge)
        ensures
            b@ is None,
    {
        Bridge { running: None }
    }

    /// Whether a start would be refused before the descriptor is looked at.
    pub fn refuses(&self) -> (r: Option<i32>)
        ensures
            r == (if self@ is Some {
                Some(ERR_ALREADY_RUNNING)
            } else {
                None
            }),
    {
        if self.running.is_some() {
            Some(ERR_ALREADY_RUNNING)
        } else {
            None
        }
    }

    /// How to export the device behind a descriptor, or the number that says why not.
    pub fn start(
        &self,
        adopted: Adopted,
        interfaces: &Option<Vec<Interface>>,
        port: i32,
        bind_any: bool,
        prefetch: bool,
    ) -> (r: Result<Config, i32>)
        ensures
            match r {
                Ok(c) => {
                    &&& self@ is None
                    &&& adopted is Device
                    &&& binds_for(on_tailnet(*interfaces), bind_any) == Some(c.binds@)
                    &&& c.port == port_for(port)
                    &&& c.prefetch == prefetch
                    &&& c.filter@ == seq![Pattern { vendor: Some(VALVE_VID), product: None }]
                    &&& c.max_transfer == DEFAULT_MAX_TRANSFER
                    &&& !c.mdns
                    &&& c.name is None
                    &&& c.toggle_chord is None
                },
                Err(e) => e == (if self@ is Some {
                    ERR_ALREADY_RUNNING
                } else if adopted is NotADevice {
                    ERR_NOT_A_USB_DEVICE
                } else if adopted is Unusable {
                    ERR_BAD_DESCRIPTOR
                } else {
                    ERR_BIND_FAILED
                }) && (self@ is None && adopted is Device ==> binds_for(
                    on_tailnet(*interfaces),
                    bind_any,
                ) is None),
            },
    {
        match self.refuses() {
            Some(e) => {
                return Err(e);
            },
            None => {},
        }
        match adopted {
            Adopted::Device => {},
            Adopted::NotADevice => {
                return Err(ERR_NOT_A_USB_DEVICE);
            },
            Adopted::Unusable => {
                return Err(ERR_BAD_DESCRIPTOR);
            },
        }
        let tailnet = match interfaces {
            Some(v) => tailscale_addrs(v.as_slice()).len() > 0,
            None => false,
        };
        let mut binds: Vec<Bind> = Vec::new();
        if tailnet {
            let v4: [u8; 4] = [127u8, 0u8, 0u8, 1u8];
            let v6: [u8; 16] = [
                0u8, 0u8, 0u8, 0u8, 0u8, 0u8, 0u8, 0u8, 0u8, 0u8, 0u8, 0u8, 0u8, 0u8, 0u8, 1u8,
            ];
            binds.push(Bind::Tailscale);
            binds.push(Bind::Addr(Ip::V4(v4)));
            binds.push(Bind::Addr(Ip::V6(v6)));
            assert(binds@ =~= binds_for(true, bind_any)->Some_0);
        } else if bind_any {
            binds.push(Bind::Any);
            assert(binds@ =~= binds_for(false, true)->Some_0);
        } else {
            // Refusing to expose USB traffic.
            return Err(ERR_BIND_FAILED);
        }
        let port: u16 = if 0 < port && port <= 0xffff {
            port as u16
        } else {
            USBIP_PORT
        };
        Ok(
            Config {
                binds,
                port,
                filter: DeviceFilter::default(),
                max_transfer: DEFAULT_MAX_TRANSFER,
                mdns: false,
                name: None,
                prefetch,
                toggle_chord: None,
            },
        )
    }

    /// Takes what came of a start with that port, and gives the number to answer: the
    /// port, or why there is none. Only a start that succeeded leaves anything behind.
    pub fn started(&mut self, port: u16, launch: Launch) -> (r: i32)
        ensures
            match launch {
                Launch::BindFailed => r == ERR_BIND_FAILED && final(self)@ == old(self)@,
                Launch::SpawnFailed => r == ERR_INTERNAL && final(self)@ == old(self)@,
                Launch::Serving(Some(p)) => r == p && final(self)@ == Some(p),
                Launch::Serving(None) => r == port && final(self)@ == Some(port),
            },
    {
        match launch {
            Launch::BindFailed => ERR_BIND_FAILED,
            Launch::SpawnFailed => ERR_INTERNAL,
            Launch::Serving(bound) => {
                let p: u16 = match bound {
                    Some(p) => p,
                    None => port,
                };
                self.running = Some(p);
                p as i32
            },
        }
    }

    /// Forgets the exporter. The result says whether there is one to stop.
    pub fn stop(&mut self) -> (was: bool)
        ensures
            final(self)@ is None,
            was == (old(self)@ is Some),
    {
        let was = self.running.is_some();
        self.running = None;
        was
    }

    pub fn running_port(&self) -> (r: Option<u16>)
        ensures
            r == self@,
    {
        self.running
    }

    /// The number that tells an app whether an exporter runs: its port, or nothing.
    pub fn is_running(&self) -> (r: i32)
        ensures
            r == (match self@ {
                Some(p) => p as i32,
                None => 0,
            }),
    {
        match self.running {
            Some(p) => p as i32,
            None => 0,
        }
    }
}

// ---------------------------------------------------------------------------
// Logging

/// The number by which logcat knows a level.
pub fn logcat_priority(level: Level) -> (n: i32)
    ensures
        n == (match level {
            Level::Error => 6i32,
            Level::Warn => 5,
            Level::Info => 4,
            Level::Debug => 3,
            Level::Trace => 2,
        }),
{
    // ANDROID_LOG_{ERROR,WARN,INFO,DEBUG,VERBOSE}
    match level {
        Level::Error => 6,
        Level::Warn => 5,
        Level::Info => 4,
        Level::Debug => 3,
        Level::Trace => 2,
    }
}

/// A character that can stand inside a text that ends in a NUL.
pub open spec fn no_nul(c: char) -> char {
    if c == '\0' {
        '?'
    } else {
        c
    }
}

/// A message as logcat takes it: with a NUL at its end, and none before. A NUL inside
/// would cut it short; replacing it is better than dropping the message.
pub fn logcat_text(message: &str) -> (s: String)
    ensures
        s@ == message@.map_values(|c: char| no_nul(c)).push('\0'),
{
    let cs = chars(message);
    let ghost want = message@.map_values(|c: char| no_nul(c));
    let mut s = String::new();
    let mut i: usize = 0;
    assert(s@ =~= want.take(0));
    while i < cs.len()
        invariant
            i <= cs@.len(),
            cs@ == message@,
            want == message@.map_values(|c: char| no_nul(c)),
            s@ == want.take(i as int),
        decreases cs@.len() - i,
    {
        if cs[i] == '\0' {
            s.push('?');
        } else {
            s.push(cs[i]);
        }
        i = i + 1;
        assert(s@ =~= want.take(i as int));
    }
    assert(want.take(i as int) =~= want);
    s.push('\0');
    s
}

/// The port of a start is never zero, whatever was asked for, so that a success can
/// be told from an error by its sign.
pub proof fn lemma_ports_are_positive(port: i32)
    ensures
        port_for(port) > 0,
{
}

/// A port that can be listened on is listened on as it was asked for, and every other number
/// stands for 3240.
pub proof fn lemma_which_port_is_listened_on(port: i32)
    ensures
        1 <= port <= 65535 ==> port_for(port) == port,
        port < 1 || port > 65535 ==> port_for(port) == 3240,
{
}

/// Nothing but the tailnet and the machine itself can reach an exporter, unless there is no
/// tailnet and every network was asked for; and with neither there is no exporter.
pub proof fn lemma_who_can_reach_an_exporter(tailnet: bool, bind_any: bool, b: Bind)
    ensures
        binds_for(tailnet, bind_any) is None <==> !tailnet && !bind_any,
        binds_for(tailnet, bind_any) matches Some(v) ==> (v.contains(b) <==> match b {
            Bind::Tailscale => tailnet,
            Bind::Any => !tailnet && bind_any,
            Bind::Addr(Ip::V4(a)) => tailnet && a@ == seq![127u8, 0u8, 0u8, 1u8],
            Bind::Addr(Ip::V6(a)) => tailnet && a@[15] == 1 && forall|k: int|
                0 <= k < 15 ==> #[trigger] a@[k] == 0,
        }),
{
    if tailnet {
        let v = binds_for(tailnet, bind_any)->Some_0;
        let z4 = loopback_v4()->V4_0;
        let z6 = loopback_v6()->V6_0;
        assert(v.len() == 3 && v[0] is Tailscale && v[1] == Bind::Addr(Ip::V4(z4)) && v[2]
            == Bind::Addr(Ip::V6(z6)));
        assert(z4@ =~= seq![127u8, 0u8, 0u8, 1u8]);
        assert(z6@.len() == 16 && z6@[15] == 1);
        assert(forall|k: int| 0 <= k < 15 ==> #[trigger] z6@[k] == 0);
        match b {
            Bind::Addr(Ip::V4(a)) => {
                if a@ == seq![127u8, 0u8, 0u8, 1u8] {
                    assert(a =~= z4);
                    assert(v[1] == b);
                }
            },
            Bind::Addr(Ip::V6(a)) => {
                if a@[15] == 1 && forall|k: int| 0 <= k < 15 ==> #[trigger] a@[k] == 0 {
                    assert(a@ =~= z6@);
                    assert(a =~= z6);
                    assert(v[2] == b);
                }
            },
            Bind::Tailscale => assert(v[0] == b),
            Bind::Any => {},
        }
    } else if bind_any {
        let v = binds_for(tailnet, bind_any)->Some_0;
        assert(v.len() == 1 && v[0] is Any);
        if b is Any {
            assert(v[0] == b);
        }
    }
}

/// A message keeps its length and all its characters but those that would end it, and no
/// such character is left in it.
pub proof fn lemma_messages_are_not_cut_short(message: Seq<char>, k: int)
    requires
        0 <= k < message.len(),
    ensures
        ({
            let s = message.map_values(|c: char| no_nul(c)).push('\0');
            &&& s.len() == message.len() + 1
            &&& s.last() == '\0'
            &&& s[k] != '\0'
            &&& message[k] != '\0' ==> s[k] == message[k]
        }),
{
}

} // verus!
