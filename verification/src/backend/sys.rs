//! Raw `usbfs` (`USBDEVFS_*`) definitions.
//!
//! The ioctl request numbers are computed rather than hard-coded, because the
//! `_IOC` encoding embeds `sizeof` the argument type. `struct usbdevfs_urb` is
//! 56 bytes on LP64 and 44 bytes on 32-bit ARM, so `USBDEVFS_SUBMITURB` is
//! `0x8038550a` on a Steam Deck and `0x802c550a` on a 32-bit Android device.
//! Copying the constants from an x86_64 header would silently break armeabi.
use vstd::prelude::*;

verus! {

/// The bits of a request number that hold the size of its argument.
pub const SIZEBITS: u32 = 14;

const DIR_NONE: u32 = 0;

const DIR_WRITE: u32 = 1;

const DIR_READ: u32 = 2;

/// A request number as `asm-generic/ioctl.h` puts it together: the direction in
/// the top two bits, the size of the argument in the next fourteen, then a byte for
/// the type, which is `U` for usbfs, and one for the number. Correct for x86, arm,
/// arm64 and riscv; the alpha, mips, powerpc and sparc encodings differ.
pub open spec fn request_number(dir: u32, nr: u32, size: int) -> int {
    dir * 0x4000_0000 + size * 0x1_0000 + 0x5500 + nr
}

proof fn lemma_ioc(dir: u32, nr: u32, size: u32)
    by (bit_vector)
    requires
        dir < 4,
        nr < 256,
        size < 0x4000,
    ensures
        (dir << 30) | (0x55u32 << 8) | (nr << 0) | (size << 16) == (dir * 0x4000_0000 + size
            * 0x1_0000 + 0x5500 + nr) as u32,
        dir * 0x4000_0000 + size * 0x1_0000 + 0x5500 + nr <= 0xffff_ffff,
{
}

pub fn ioc(dir: u32, nr: u32, size: usize) -> (r: u32)
    requires
        dir < 4,
        nr < 256,
        size < 0x4000,
    ensures
        r == request_number(dir, nr, size as int),
{
    proof {
        lemma_ioc(dir, nr, size as u32);
    }
    (dir << 30) | (0x55u32 << 8) | (nr << 0) | ((size as u32) << 16)
}

/// A request without an argument.
pub fn io(nr: u32) -> (r: u32)
    requires
        nr < 256,
    ensures
        r == request_number(0, nr, 0),
{
    ioc(DIR_NONE, nr, 0)
}

/// A request declared as reading its argument.
pub fn ior(nr: u32, size: usize) -> (r: u32)
    requires
        nr < 256,
        size < 0x4000,
    ensures
        r == request_number(2, nr, size as int),
{
    ioc(DIR_READ, nr, size)
}

/// A request declared as writing its argument.
pub fn iow(nr: u32, size: usize) -> (r: u32)
    requires
        nr < 256,
        size < 0x4000,
    ensures
        r == request_number(1, nr, size as int),
{
    ioc(DIR_WRITE, nr, size)
}

/// A request declared as doing both.
pub fn iowr(nr: u32, size: usize) -> (r: u32)
    requires
        nr < 256,
        size < 0x4000,
    ensures
        r == request_number(3, nr, size as int),
{
    ioc(3, nr, size)
}

/// The sizes of the structures that requests take, on a machine with pointers of
/// that many bytes.
#[derive(Debug, Clone, Copy, PartialEq, Eq, Structural)]
pub struct Layout {
    pub pointer: usize,
    pub urb: usize,
    pub ioctl: usize,
    pub ctrltransfer: usize,
    pub setinterface: usize,
    pub disconnect_claim: usize,
}

/// The next multiple of `align`, a power of two up to 8, at or above `n`.
pub open spec fn aligned(n: int, align: int) -> int {
    (n + align - 1) / align * align
}

impl Layout {
    /// The C layout. The numbers before a pointer field come first, are padded up to
    /// its alignment, and are followed by the pointer and what comes behind it.
    pub open spec fn of(p: int) -> (int, int, int) {
        (
            // type, endpoint, status and flags; buffer; six numbers; usercontext
            aligned(aligned(12, p) + p + 24, p) + p,
            // ifno and ioctl_code; data
            aligned(8, p) + p,
            // the setup packet and a timeout; data
            aligned(12, p) + p,
        )
    }

    pub fn for_pointer_size(pointer: usize) -> (l: Layout)
        requires
            pointer == 4 || pointer == 8,
        ensures
            l.pointer == pointer,
            l.urb == Layout::of(pointer as int).0,
            l.ioctl == Layout::of(pointer as int).1,
            l.ctrltransfer == Layout::of(pointer as int).2,
            l.setinterface == 8,
            l.disconnect_claim == 8 + MAXDRIVERNAME + 1,
    {
        if pointer == 8 {
            Layout {
                pointer,
                urb: 56,
                ioctl: 16,
                ctrltransfer: 24,
                setinterface: 8,
                disconnect_claim: 264,
            }
        } else {
            Layout {
                pointer,
                urb: 44,
                ioctl: 12,
                ctrltransfer: 16,
                setinterface: 8,
                disconnect_claim: 264,
            }
        }
    }
}

/// The request numbers of usbfs.
#[derive(Debug, Clone, Copy, PartialEq, Eq, Structural)]
pub struct Requests {
    pub control: u32,
    pub setinterface: u32,
    pub setconfiguration: u32,
    pub submiturb: u32,
    pub discardurb: u32,
    pub reapurb: u32,
    pub reapurbndelay: u32,
    pub claiminterface: u32,
    pub releaseinterface: u32,
    pub ioctl: u32,
    pub reset: u32,
    pub clear_halt: u32,
    pub disconnect: u32,
    pub connect: u32,
    pub get_capabilities: u32,
    pub disconnect_claim: u32,
    pub get_speed: u32,
}

impl Requests {
    /// The numbers for structures of these sizes.
    ///
    /// Note the reversed-looking directions: the kernel's own headers declare
    /// SUBMITURB as `_IOR` and REAPURB as `_IOW`. They are wrong from userspace's
    /// point of view but they are what the kernel compares against.
    pub fn for_layout(l: &Layout) -> (r: Requests)
        requires
            l.pointer < 0x4000,
            l.urb < 0x4000,
            l.ioctl < 0x4000,
            l.ctrltransfer < 0x4000,
            l.setinterface < 0x4000,
            l.disconnect_claim < 0x4000,
        ensures
            r.control == request_number(3, 0, l.ctrltransfer as int),
            r.setinterface == request_number(2, 4, l.setinterface as int),
            r.setconfiguration == request_number(2, 5, 4),
            r.submiturb == request_number(2, 10, l.urb as int),
            r.discardurb == request_number(0, 11, 0),
            r.reapurb == request_number(1, 12, l.pointer as int),
            r.reapurbndelay == request_number(1, 13, l.pointer as int),
            r.claiminterface == request_number(2, 15, 4),
            r.releaseinterface == request_number(2, 16, 4),
            r.ioctl == request_number(3, 18, l.ioctl as int),
            r.reset == request_number(0, 20, 0),
            r.clear_halt == request_number(2, 21, 4),
            r.disconnect == request_number(0, 22, 0),
            r.connect == request_number(0, 23, 0),
            r.get_capabilities == request_number(2, 26, 4),
            r.disconnect_claim == request_number(2, 27, l.disconnect_claim as int),
            r.get_speed == request_number(0, 31, 0),
    {
        Requests {
            control: iowr(0, l.ctrltransfer),
            setinterface: ior(4, l.setinterface),
            setconfiguration: ior(5, 4),
            submiturb: ior(10, l.urb),
            discardurb: io(11),
            reapurb: iow(12, l.pointer),
            reapurbndelay: iow(13, l.pointer),
            claiminterface: ior(15, 4),
            releaseinterface: ior(16, 4),
            ioctl: iowr(18, l.ioctl),
            reset: io(20),
            clear_halt: ior(21, 4),
            disconnect: io(22),
            connect: io(23),
            get_capabilities: ior(26, 4),
            disconnect_claim: ior(27, l.disconnect_claim),
            get_speed: io(31),
        }
    }
}

pub const USBDEVFS_URB_TYPE_ISO: u8 = 0;

pub const USBDEVFS_URB_TYPE_INTERRUPT: u8 = 1;

pub const USBDEVFS_URB_TYPE_CONTROL: u8 = 2;

pub const USBDEVFS_URB_TYPE_BULK: u8 = 3;

pub const USBDEVFS_URB_SHORT_NOT_OK: u32 = 0x01;

pub const USBDEVFS_URB_ISO_ASAP: u32 = 0x02;

pub const USBDEVFS_URB_BULK_CONTINUATION: u32 = 0x04;

pub const USBDEVFS_URB_ZERO_PACKET: u32 = 0x40;

pub const USBDEVFS_URB_NO_INTERRUPT: u32 = 0x80;

pub const USBDEVFS_CAP_ZERO_PACKET: u32 = 0x01;

pub const USBDEVFS_CAP_BULK_CONTINUATION: u32 = 0x02;

pub const USBDEVFS_CAP_NO_PACKET_SIZE_LIM: u32 = 0x04;

pub const USBDEVFS_CAP_BULK_SCATTER_GATHER: u32 = 0x08;

pub const USBDEVFS_CAP_REAP_AFTER_DISCONNECT: u32 = 0x10;

/// `flags = 0` means "disconnect whatever driver is bound, then claim".
pub const USBDEVFS_DISCONNECT_CLAIM_IF_DRIVER: u32 = 0x01;

pub const USBDEVFS_DISCONNECT_CLAIM_EXCEPT_DRIVER: u32 = 0x02;

pub const MAXDRIVERNAME: usize = 255;

/// The parts of a request number are read back from it: the top two bits are the
/// direction, the next fourteen the size, then a byte `U` and the number.
pub proof fn lemma_request_number_parts(dir: u32, nr: u32, size: int)
    requires
        dir < 4,
        nr < 256,
        0 <= size < 0x4000,
    ensures
        ({
            let r = request_number(dir, nr, size);
            &&& 0 <= r <= 0xffff_ffff
            &&& r / 0x4000_0000 == dir
            &&& r / 0x1_0000 % 0x4000 == size
            &&& r / 0x100 % 0x100 == 0x55
            &&& r % 0x100 == nr
        }),
{
}

/// The structures with a pointer have the sizes that their fields come to, without a gap
/// on a machine with pointers of four bytes, and with the gaps that an alignment to eight
/// leaves on one with pointers of eight.
pub proof fn lemma_structure_sizes(p: int)
    requires
        p == 4 || p == 8,
    ensures
        p == 4 ==> Layout::of(p) == (12int + 4 + 24 + 4, 8int + 4, 12int + 4),
        p == 8 ==> Layout::of(p) == (12int + 4 + 8 + 24 + 8, 8int + 8, 12int + 4 + 8),
        forall|n: int| 0 <= n ==> n <= #[trigger] aligned(n, p) < n + p,
        forall|n: int| 0 <= n ==> #[trigger] aligned(n, p) % p == 0,
{
}

} // verus!
