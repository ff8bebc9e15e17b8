//! The URB-carrying half of USB/IP: `USBIP_CMD_*` / `USBIP_RET_*`.
//!
//! Layout is a 20-byte `usbip_header_basic` followed by a 28-byte command
//! block, 48 bytes in total, then any payload.
//!
//! One asymmetry is worth stating up front because it drives the API here: the
//! kernel's stub zeroes `devid`, `ep` and `direction` on every reply
//! (`stub_tx.c:setup_base_pdu`), so a `USBIP_RET_SUBMIT` header does *not* say
//! whether a payload follows. Only the sender of the original
//! `USBIP_CMD_SUBMIT` knows, by matching `seqnum` against its own pending URB.
//! [`RetSubmit::payload_len`] therefore takes the direction as an argument
//! instead of reading it off the header.
pub mod transfer_flags;

use crate::proto::wire::{
    be32, be64, byte_array, i32_at, lemma_be32_reads_back, lemma_be32_reads_back_signed,
    lemma_network_byte_order, lemma_signed_reading, network_value, truncated, u32_at, Reader,
    Writer,
};
use crate::proto::{ProtoError, SIZE_CMD_HEADER, SIZE_ISO_DESC};
use vstd::prelude::*;

verus! {

broadcast use {vstd::slice::group_slice_axioms, vstd::array::group_array_axioms};

pub const USBIP_CMD_SUBMIT: u32 = 0x0001;

pub const USBIP_CMD_UNLINK: u32 = 0x0002;

pub const USBIP_RET_SUBMIT: u32 = 0x0003;

pub const USBIP_RET_UNLINK: u32 = 0x0004;

#[derive(Debug, Clone, Copy, PartialEq, Eq, Structural)]
pub enum Direction {
    Out,
    In,
}

pub const DIR_OUT: u32 = 0;

pub const DIR_IN: u32 = 1;

impl Direction {
    /// Anything but [`DIR_IN`] means towards the device.
    pub open spec fn of(v: u32) -> Direction {
        if v == DIR_IN {
            Direction::In
        } else {
            Direction::Out
        }
    }

    pub fn from_raw(v: u32) -> (d: Direction)
        ensures
            d == Direction::of(v),
    {
        if v == DIR_IN {
            Direction::In
        } else {
            Direction::Out
        }
    }

    pub fn as_raw(self) -> (v: u32)
        ensures
            v == (if self is In {
                DIR_IN
            } else {
                DIR_OUT
            }),
            Direction::of(v) == self,
    {
        match self {
            Direction::Out => DIR_OUT,
            Direction::In => DIR_IN,
        }
    }

    pub fn is_in(self) -> (r: bool)
        ensures
            r == (self is In),
    {
        self == Direction::In
    }
}

#[derive(Debug, Clone, Copy, PartialEq, Eq, Structural)]
pub struct BasicHeader {
    pub command: u32,
    pub seqnum: u32,
    pub devid: u32,
    pub direction: u32,
    pub ep: u32,
}

impl Default for BasicHeader {
    fn default() -> (h: Self)
        ensures
            h == (BasicHeader { command: 0, seqnum: 0, devid: 0, direction: 0, ep: 0 }),
    {
        BasicHeader { command: 0, seqnum: 0, devid: 0, direction: 0, ep: 0 }
    }
}

impl BasicHeader {
    pub open spec fn bytes(self) -> Seq<u8> {
        be32(self.command) + be32(self.seqnum) + be32(self.devid) + be32(self.direction) + be32(
            self.ep,
        )
    }

    /// The header that the first twenty bytes of `b` spell out.
    pub open spec fn at(b: Seq<u8>) -> BasicHeader {
        BasicHeader {
            command: u32_at(b, 0),
            seqnum: u32_at(b, 4),
            devid: u32_at(b, 8),
            direction: u32_at(b, 12),
            ep: u32_at(b, 16),
        }
    }

    pub fn dir(&self) -> (d: Direction)
        ensures
            d == Direction::of(self.direction),
    {
        Direction::from_raw(self.direction)
    }
}

/// The number itself, or zero in place of a negative one.
pub open spec fn at_least_zero(v: i32) -> int {
    if v > 0 {
        v as int
    } else {
        0
    }
}

fn clamped(v: i32) -> (r: usize)
    ensures
        r == at_least_zero(v),
{
    if v > 0 {
        v as usize
    } else {
        0
    }
}

#[derive(Debug, Clone, Copy, PartialEq, Eq)]
pub struct CmdSubmit {
    pub transfer_flags: u32,
    pub transfer_buffer_length: i32,
    pub start_frame: i32,
    /// Signed on purpose. The protocol documentation says non-isochronous
    /// submits set this to `0xffffffff`, while the in-tree `vhci-hcd` client
    /// sends `0`. Reading it as `i32` makes both mean "not isochronous".
    pub number_of_packets: i32,
    pub interval: i32,
    pub setup: [u8; 8],
}

impl CmdSubmit {
    /// Bytes of transfer data that follow the header of a submit in direction `dir`.
    pub open spec fn payload(self, dir: Direction) -> int {
        if dir is In {
            0
        } else {
            at_least_zero(self.transfer_buffer_length)
        }
    }

    pub fn is_iso(&self) -> (r: bool)
        ensures
            r == (self.number_of_packets > 0),
    {
        self.number_of_packets > 0
    }

    pub fn iso_count(&self) -> (n: usize)
        ensures
            n == at_least_zero(self.number_of_packets),
    {
        if self.is_iso() {
            self.number_of_packets as usize
        } else {
            0
        }
    }

    /// Bytes of transfer data that follow the header. Only OUT submits carry
    /// data; an IN submit is just a request for the peer to fill a buffer.
    pub fn payload_len(&self, dir: Direction) -> (n: usize)
        ensures
            n == self.payload(dir),
    {
        if dir.is_in() {
            0
        } else {
            clamped(self.transfer_buffer_length)
        }
    }
}

#[derive(Debug, Clone, Copy, PartialEq, Eq, Structural)]
pub struct RetSubmit {
    /// Negative Linux errno, or 0. Passed straight through from `urb->status`.
    pub status: i32,
    pub actual_length: i32,
    pub start_frame: i32,
    pub number_of_packets: i32,
    pub error_count: i32,
}

impl Default for RetSubmit {
    fn default() -> (r: Self)
        ensures
            r == (RetSubmit {
                status: 0,
                actual_length: 0,
                start_frame: 0,
                number_of_packets: 0,
                error_count: 0,
            }),
    {
        RetSubmit {
            status: 0,
            actual_length: 0,
            start_frame: 0,
            number_of_packets: 0,
            error_count: 0,
        }
    }
}

impl RetSubmit {
    /// Bytes of transfer data that follow the reply to a submit in direction `dir`.
    pub open spec fn payload(self, dir: Direction) -> int {
        if dir is In {
            at_least_zero(self.actual_length)
        } else {
            0
        }
    }

    /// See the module note: `dir` is the direction of the *original* submit,
    /// which the reply header does not repeat.
    pub fn payload_len(&self, dir: Direction) -> (n: usize)
        ensures
            n == self.payload(dir),
    {
        if dir.is_in() {
            clamped(self.actual_length)
        } else {
            0
        }
    }
}

#[derive(Debug, Clone, Copy, PartialEq, Eq, Structural)]
pub struct CmdUnlink {
    /// The `seqnum` of the submit being cancelled.
    pub unlink_seqnum: u32,
}

impl Default for CmdUnlink {
    fn default() -> (u: Self)
        ensures
            u.unlink_seqnum == 0,
    {
        CmdUnlink { unlink_seqnum: 0 }
    }
}

#[derive(Debug, Clone, Copy, PartialEq, Eq, Structural)]
pub struct RetUnlink {
    /// `-ECONNRESET` if the URB was still in flight and got cancelled, 0 if it
    /// had already completed.
    pub status: i32,
}

impl Default for RetUnlink {
    fn default() -> (u: Self)
        ensures
            u.status == 0,
    {
        RetUnlink { status: 0 }
    }
}

#[derive(Debug, Clone, Copy, PartialEq, Eq)]
pub enum Body {
    CmdSubmit(CmdSubmit),
    RetSubmit(RetSubmit),
    CmdUnlink(CmdUnlink),
    RetUnlink(RetUnlink),
}

/// `n` zero bytes.
pub open spec fn zero_bytes(n: nat) -> Seq<u8> {
    Seq::new(n, |i: int| 0u8)
}

impl Body {
    /// The command that announces a block of this kind.
    pub open spec fn command(self) -> u32 {
        match self {
            Body::CmdSubmit(_) => USBIP_CMD_SUBMIT,
            Body::CmdUnlink(_) => USBIP_CMD_UNLINK,
            Body::RetSubmit(_) => USBIP_RET_SUBMIT,
            Body::RetUnlink(_) => USBIP_RET_UNLINK,
        }
    }

    pub open spec fn bytes(self) -> Seq<u8> {
        match self {
            Body::CmdSubmit(c) => be32(c.transfer_flags) + be32(c.transfer_buffer_length as u32)
                + be32(c.start_frame as u32) + be32(c.number_of_packets as u32) + be32(
                c.interval as u32,
            ) + c.setup@,
            Body::RetSubmit(r) => be32(r.status as u32) + be32(r.actual_length as u32) + be32(
                r.start_frame as u32,
            ) + be32(r.number_of_packets as u32) + be32(r.error_count as u32) + be64(0),
            Body::CmdUnlink(u) => be32(u.unlink_seqnum) + zero_bytes(24),
            Body::RetUnlink(u) => be32(u.status as u32) + zero_bytes(24),
        }
    }

    /// Whether this is the block that `b` spells out behind its first twenty bytes.
    pub open spec fn is_at(self, b: Seq<u8>) -> bool {
        match self {
            Body::CmdSubmit(c) => {
                &&& c.transfer_flags == u32_at(b, 20)
                &&& c.transfer_buffer_length == i32_at(b, 24)
                &&& c.start_frame == i32_at(b, 28)
                &&& c.number_of_packets == i32_at(b, 32)
                &&& c.interval == i32_at(b, 36)
                &&& c.setup@ == b.subrange(40, 48)
            },
            Body::RetSubmit(r) => {
                &&& r.status == i32_at(b, 20)
                &&& r.actual_length == i32_at(b, 24)
                &&& r.start_frame == i32_at(b, 28)
                &&& r.number_of_packets == i32_at(b, 32)
                &&& r.error_count == i32_at(b, 36)
            },
            Body::CmdUnlink(u) => u.unlink_seqnum == u32_at(b, 20),
            Body::RetUnlink(u) => u.status == i32_at(b, 20),
        }
    }
}

#[derive(Debug, Clone, Copy, PartialEq, Eq)]
pub struct Header {
    pub base: BasicHeader,
    pub body: Body,
}

/// Where the last field of a command's block begins; no place for an unknown
/// command. All fields before it are four bytes wide, and it ends the header.
pub open spec fn last_field_at(command: u32) -> Option<int> {
    if command == USBIP_CMD_SUBMIT || command == USBIP_RET_SUBMIT {
        Some(40)
    } else if command == USBIP_CMD_UNLINK || command == USBIP_RET_UNLINK {
        Some(24)
    } else {
        None
    }
}

/// What keeps `b` from being a header: it stops inside a field, or announces a
/// command that does not exist.
pub open spec fn header_error(b: Seq<u8>) -> Option<ProtoError> {
    if b.len() < 20 {
        Some(truncated(4, b.len() as int % 4))
    } else {
        match last_field_at(u32_at(b, 0)) {
            None => Some(ProtoError::BadCommand(u32_at(b, 0))),
            Some(at) => if b.len() < at {
                Some(truncated(4, b.len() as int % 4))
            } else if b.len() < SIZE_CMD_HEADER {
                Some(truncated(SIZE_CMD_HEADER - at, b.len() - at))
            } else {
                None
            },
        }
    }
}

impl Header {
    pub open spec fn bytes(self) -> Seq<u8> {
        self.base.bytes() + self.body.bytes()
    }

    /// Whether the command announces the block that is there.
    pub open spec fn consistent(self) -> bool {
        self.base.command == self.body.command()
    }

    /// Whether this is the header that `b` begins with.
    pub open spec fn is_at(self, b: Seq<u8>) -> bool {
        &&& self.base == BasicHeader::at(b)
        &&& self.consistent()
        &&& self.body.is_at(b)
    }

    /// Isochronous packets that are described behind the payload.
    pub open spec fn iso_packets(self) -> int {
        match self.body {
            Body::CmdSubmit(c) => at_least_zero(c.number_of_packets),
            Body::RetSubmit(r) => at_least_zero(r.number_of_packets),
            _ => 0,
        }
    }

    pub fn cmd_submit(base: BasicHeader, c: CmdSubmit) -> (h: Header)
        ensures
            h == (Header {
                base: BasicHeader { command: USBIP_CMD_SUBMIT, ..base },
                body: Body::CmdSubmit(c),
            }),
            h.consistent(),
    {
        Header {
            base: BasicHeader { command: USBIP_CMD_SUBMIT, ..base },
            body: Body::CmdSubmit(c),
        }
    }

    /// The header of the reply to `seqnum`.
    pub open spec fn reply(command: u32, seqnum: u32, body: Body) -> Header {
        Header { base: BasicHeader { command, seqnum, devid: 0, direction: 0, ep: 0 }, body }
    }

    /// Build a `USBIP_RET_SUBMIT` for `seqnum`.
    ///
    /// `devid`, `ep` and `direction` are zeroed to match `stub_tx.c`; the
    /// client correlates on `seqnum` alone.
    pub fn ret_submit(seqnum: u32, r: RetSubmit) -> (h: Header)
        ensures
            h == Header::reply(USBIP_RET_SUBMIT, seqnum, Body::RetSubmit(r)),
            h.consistent(),
    {
        Header {
            base: BasicHeader { command: USBIP_RET_SUBMIT, seqnum, devid: 0, direction: 0, ep: 0 },
            body: Body::RetSubmit(r),
        }
    }

    pub fn ret_unlink(seqnum: u32, status: i32) -> (h: Header)
        ensures
            h == Header::reply(USBIP_RET_UNLINK, seqnum, Body::RetUnlink(RetUnlink { status })),
            h.consistent(),
    {
        Header {
            base: BasicHeader { command: USBIP_RET_UNLINK, seqnum, devid: 0, direction: 0, ep: 0 },
            body: Body::RetUnlink(RetUnlink { status }),
        }
    }

    pub fn encode(&self, w: &mut Writer)
        ensures
            final(w)@ == old(w)@ + self.bytes(),
    {
        w.u32(self.base.command);
        w.u32(self.base.seqnum);
        w.u32(self.base.devid);
        w.u32(self.base.direction);
        w.u32(self.base.ep);
        assert(w@ =~= old(w)@ + self.base.bytes());
        let ghost head = w@;
        match self.body {
            Body::CmdSubmit(c) => {
                w.u32(c.transfer_flags);
                w.i32(c.transfer_buffer_length);
                w.i32(c.start_frame);
                w.i32(c.number_of_packets);
                w.i32(c.interval);
                w.bytes(&c.setup);
            },
            Body::RetSubmit(r) => {
                w.i32(r.status);
                w.i32(r.actual_length);
                w.i32(r.start_frame);
                w.i32(r.number_of_packets);
                w.i32(r.error_count);
                w.u64(0);  // padding
            },
            Body::CmdUnlink(u) => {
                w.u32(u.unlink_seqnum);
                w.zeros(24);
            },
            Body::RetUnlink(u) => {
                w.i32(u.status);
                w.zeros(24);
            },
        }
        assert(w@ =~= head + self.body.bytes());
        assert(w@ =~= old(w)@ + self.bytes());
    }

    pub fn to_bytes(&self) -> (a: [u8; SIZE_CMD_HEADER])
        ensures
            a@ == self.bytes(),
    {
        let mut w = Writer::with_capacity(SIZE_CMD_HEADER);
        self.encode(&mut w);
        proof {
            lemma_header_size(*self);
            assert(w@ =~= self.bytes());
        }
        byte_array::<SIZE_CMD_HEADER>(w.as_slice())
    }

    pub fn decode(buf: &[u8]) -> (r: Result<Header, ProtoError>)
        ensures
            match r {
                Ok(h) => header_error(buf@) is None && h.is_at(buf@),
                Err(e) => header_error(buf@) == Some(e),
            },
    {
        let mut r = Reader::new(buf);
        let base = BasicHeader {
            command: r.u32()?,
            seqnum: r.u32()?,
            devid: r.u32()?,
            direction: r.u32()?,
            ep: r.u32()?,
        };
        assert(r@ =~= buf@.skip(20));
        let body = if base.command == USBIP_CMD_SUBMIT {
            let c = CmdSubmit {
                transfer_flags: r.u32()?,
                transfer_buffer_length: r.i32()?,
                start_frame: r.i32()?,
                number_of_packets: r.i32()?,
                interval: r.i32()?,
                setup: r.array::<8>()?,
            };
            assert(c.setup@ =~= buf@.subrange(40, 48));
            Body::CmdSubmit(c)
        } else if base.command == USBIP_RET_SUBMIT {
            let b = RetSubmit {
                status: r.i32()?,
                actual_length: r.i32()?,
                start_frame: r.i32()?,
                number_of_packets: r.i32()?,
                error_count: r.i32()?,
            };
            r.skip(8)?;
            Body::RetSubmit(b)
        } else if base.command == USBIP_CMD_UNLINK {
            let b = CmdUnlink { unlink_seqnum: r.u32()? };
            r.skip(24)?;
            Body::CmdUnlink(b)
        } else if base.command == USBIP_RET_UNLINK {
            let b = RetUnlink { status: r.i32()? };
            r.skip(24)?;
            Body::RetUnlink(b)
        } else {
            return Err(ProtoError::BadCommand(base.command));
        };
        Ok(Header { base, body })
    }

    /// Isochronous packet descriptors that follow the payload, in bytes.
    pub fn iso_bytes(&self) -> (n: usize)
        requires
            self.iso_packets() * SIZE_ISO_DESC <= usize::MAX,
        ensures
            n == self.iso_packets() * SIZE_ISO_DESC,
    {
        match self.body {
            Body::CmdSubmit(c) => c.iso_count() * SIZE_ISO_DESC,
            Body::RetSubmit(r) => clamped(r.number_of_packets) * SIZE_ISO_DESC,
            _ => 0,
        }
    }
}

/// Every header is 48 bytes long.
pub proof fn lemma_header_size(h: Header)
    ensures
        h.bytes().len() == SIZE_CMD_HEADER,
{
}

/// A header whose command fits its block is read back from its own bytes,
/// whatever follows them, and nothing else is.
pub proof fn lemma_header_reads_back(h: Header, b: Seq<u8>)
    requires
        h.consistent(),
        b.len() >= SIZE_CMD_HEADER,
        b.take(SIZE_CMD_HEADER as int) == h.bytes(),
    ensures
        header_error(b) is None,
        h.is_at(b),
        forall|g: Header| #[trigger] g.is_at(b) ==> g == h,
{
    let s = h.bytes();
    lemma_header_size(h);
    assert forall|i: int, j: int| 0 <= i <= j <= 48 implies #[trigger] b.subrange(i, j)
        == s.subrange(i, j) by {
        assert(b.subrange(i, j) =~= b.take(48).subrange(i, j));
    }
    let base = h.base;
    assert(s.subrange(0, 4) =~= be32(base.command));
    lemma_be32_reads_back(b, 0, base.command);
    assert(s.subrange(4, 8) =~= be32(base.seqnum));
    lemma_be32_reads_back(b, 4, base.seqnum);
    assert(s.subrange(8, 12) =~= be32(base.devid));
    lemma_be32_reads_back(b, 8, base.devid);
    assert(s.subrange(12, 16) =~= be32(base.direction));
    lemma_be32_reads_back(b, 12, base.direction);
    assert(s.subrange(16, 20) =~= be32(base.ep));
    lemma_be32_reads_back(b, 16, base.ep);
    match h.body {
        Body::CmdSubmit(c) => {
            assert(s.subrange(20, 24) =~= be32(c.transfer_flags));
            lemma_be32_reads_back(b, 20, c.transfer_flags);
            assert(s.subrange(24, 28) =~= be32(c.transfer_buffer_length as u32));
            lemma_be32_reads_back_signed(b, 24, c.transfer_buffer_length);
            assert(s.subrange(28, 32) =~= be32(c.start_frame as u32));
            lemma_be32_reads_back_signed(b, 28, c.start_frame);
            assert(s.subrange(32, 36) =~= be32(c.number_of_packets as u32));
            lemma_be32_reads_back_signed(b, 32, c.number_of_packets);
            assert(s.subrange(36, 40) =~= be32(c.interval as u32));
            lemma_be32_reads_back_signed(b, 36, c.interval);
            assert(s.subrange(40, 48) =~= c.setup@);
        },
        Body::RetSubmit(r) => {
            assert(s.subrange(20, 24) =~= be32(r.status as u32));
            lemma_be32_reads_back_signed(b, 20, r.status);
            assert(s.subrange(24, 28) =~= be32(r.actual_length as u32));
            lemma_be32_reads_back_signed(b, 24, r.actual_length);
            assert(s.subrange(28, 32) =~= be32(r.start_frame as u32));
            lemma_be32_reads_back_signed(b, 28, r.start_frame);
            assert(s.subrange(32, 36) =~= be32(r.number_of_packets as u32));
            lemma_be32_reads_back_signed(b, 32, r.number_of_packets);
            assert(s.subrange(36, 40) =~= be32(r.error_count as u32));
            lemma_be32_reads_back_signed(b, 36, r.error_count);
        },
        Body::CmdUnlink(u) => {
            assert(s.subrange(20, 24) =~= be32(u.unlink_seqnum));
            lemma_be32_reads_back(b, 20, u.unlink_seqnum);
        },
        Body::RetUnlink(u) => {
            assert(s.subrange(20, 24) =~= be32(u.status as u32));
            lemma_be32_reads_back_signed(b, 20, u.status);
        },
    }
    assert forall|g: Header| #[trigger] g.is_at(b) implies g == h by {
        if let Body::CmdSubmit(c) = g.body {
            if let Body::CmdSubmit(d) = h.body {
                assert(c.setup =~= d.setup) by {
                    assert forall|i: int| 0 <= i < 8 implies c.setup[i] == d.setup[i] by {
                        assert(c.setup@[i] == d.setup@[i]);
                    }
                }
            }
        }
    }
}

/// `struct usbip_iso_packet_descriptor` — 16 bytes, unlike the kernel's own
/// 12-byte `usbdevfs_iso_packet_desc`.
#[derive(Debug, Clone, Copy, PartialEq, Eq, Structural)]
pub struct IsoPacketDescriptor {
    pub offset: u32,
    pub length: u32,
    pub actual_length: u32,
    pub status: u32,
}

impl Default for IsoPacketDescriptor {
    fn default() -> (d: Self)
        ensures
            d == (IsoPacketDescriptor { offset: 0, length: 0, actual_length: 0, status: 0 }),
    {
        IsoPacketDescriptor { offset: 0, length: 0, actual_length: 0, status: 0 }
    }
}

impl IsoPacketDescriptor {
    pub open spec fn bytes(self) -> Seq<u8> {
        be32(self.offset) + be32(self.length) + be32(self.actual_length) + be32(self.status)
    }

    /// The descriptor that `b` spells out from `i` on.
    pub open spec fn at(b: Seq<u8>, i: int) -> IsoPacketDescriptor {
        IsoPacketDescriptor {
            offset: u32_at(b, i),
            length: u32_at(b, i + 4),
            actual_length: u32_at(b, i + 8),
            status: u32_at(b, i + 12),
        }
    }

    pub fn encode(&self, w: &mut Writer)
        ensures
            final(w)@ == old(w)@ + self.bytes(),
    {
        w.u32(self.offset);
        w.u32(self.length);
        w.u32(self.actual_length);
        w.u32(self.status);
        assert(w@ =~= old(w)@ + self.bytes());
    }

    pub fn decode(r: &mut Reader) -> (res: Result<IsoPacketDescriptor, ProtoError>)
        ensures
            match res {
                Ok(d) => {
                    &&& old(r)@.len() >= SIZE_ISO_DESC
                    &&& d == IsoPacketDescriptor::at(old(r)@, 0)
                    &&& final(r)@ == old(r)@.skip(SIZE_ISO_DESC as int)
                    &&& final(r).pos() == old(r).pos() + SIZE_ISO_DESC
                },
                Err(e) => {
                    &&& old(r)@.len() < SIZE_ISO_DESC
                    &&& e == truncated(4, old(r)@.len() as int % 4)
                    &&& final(r)@ == old(r)@.skip(old(r)@.len() - old(r)@.len() % 4)
                },
            },
    {
        let ghost b = r@;
        assert(b.skip(0) =~= b);
        let offset: u32 = r.u32()?;
        let length: u32 = r.u32()?;
        assert(r@ =~= b.skip(8));
        let actual_length: u32 = r.u32()?;
        assert(r@ =~= b.skip(12));
        let status: u32 = r.u32()?;
        assert(r@ =~= b.skip(16));
        Ok(IsoPacketDescriptor { offset, length, actual_length, status })
    }
}

/// A packet descriptor is 16 bytes and is read back from them.
pub proof fn lemma_iso_descriptor_reads_back(d: IsoPacketDescriptor, b: Seq<u8>, i: int)
    requires
        0 <= i,
        i + SIZE_ISO_DESC <= b.len(),
        b.subrange(i, i + SIZE_ISO_DESC) == d.bytes(),
    ensures
        d.bytes().len() == SIZE_ISO_DESC,
        IsoPacketDescriptor::at(b, i) == d,
{
    let s = d.bytes();
    assert(b.subrange(i, i + 4) =~= s.subrange(0, 4));
    assert(s.subrange(0, 4) =~= be32(d.offset));
    lemma_be32_reads_back(b, i, d.offset);
    assert(b.subrange(i + 4, i + 8) =~= s.subrange(4, 8));
    assert(s.subrange(4, 8) =~= be32(d.length));
    lemma_be32_reads_back(b, i + 4, d.length);
    assert(b.subrange(i + 8, i + 12) =~= s.subrange(8, 12));
    assert(s.subrange(8, 12) =~= be32(d.actual_length));
    lemma_be32_reads_back(b, i + 8, d.actual_length);
    assert(b.subrange(i + 12, i + 16) =~= s.subrange(12, 16));
    assert(s.subrange(12, 16) =~= be32(d.status));
    lemma_be32_reads_back(b, i + 12, d.status);
}

// ---------------------------------------------------------------------------
// Layout

/// Whether four bytes from `i` on spell a signed number in two's complement.
pub open spec fn spells_signed(b: Seq<u8>, i: int, v: i32) -> bool {
    network_value(b.subrange(i, i + 4)) == (if v < 0 {
        v + 0x1_0000_0000
    } else {
        v as int
    })
}

proof fn lemma_signed(v: i32)
    ensures
        network_value(be32(v as u32)) == (if v < 0 {
            v + 0x1_0000_0000
        } else {
            v as int
        }),
{
    lemma_signed_reading(0, v);
    lemma_network_byte_order(0, v as u32, 0);
}

/// Where everything in a header stands: five numbers of four bytes in network order, the
/// command first; then, of a submit, five more numbers and the setup packet; of the reply
/// to a submit, five numbers and eight zeros; of an unlink and its reply, one number and
/// zeros. The commands are numbered from one: submit, unlink and their replies.
pub proof fn lemma_header_layout(h: Header)
    requires
        h.consistent(),
    ensures
        ({
            let b = h.bytes();
            &&& b.len() == 48
            &&& network_value(b.subrange(0, 4)) == h.base.command
            &&& network_value(b.subrange(4, 8)) == h.base.seqnum
            &&& network_value(b.subrange(8, 12)) == h.base.devid
            &&& network_value(b.subrange(12, 16)) == h.base.direction
            &&& network_value(b.subrange(16, 20)) == h.base.ep
            &&& match h.body {
                Body::CmdSubmit(c) => {
                    &&& h.base.command == 1
                    &&& network_value(b.subrange(20, 24)) == c.transfer_flags
                    &&& spells_signed(b, 24, c.transfer_buffer_length)
                    &&& spells_signed(b, 28, c.start_frame)
                    &&& spells_signed(b, 32, c.number_of_packets)
                    &&& spells_signed(b, 36, c.interval)
                    &&& b.subrange(40, 48) == c.setup@
                },
                Body::CmdUnlink(u) => {
                    &&& h.base.command == 2
                    &&& network_value(b.subrange(20, 24)) == u.unlink_seqnum
                    &&& forall|k: int| 24 <= k < 48 ==> #[trigger] b[k] == 0
                },
                Body::RetSubmit(r) => {
                    &&& h.base.command == 3
                    &&& spells_signed(b, 20, r.status)
                    &&& spells_signed(b, 24, r.actual_length)
                    &&& spells_signed(b, 28, r.start_frame)
                    &&& spells_signed(b, 32, r.number_of_packets)
                    &&& spells_signed(b, 36, r.error_count)
                    &&& forall|k: int| 40 <= k < 48 ==> #[trigger] b[k] == 0
                },
                Body::RetUnlink(u) => {
                    &&& h.base.command == 4
                    &&& spells_signed(b, 20, u.status)
                    &&& forall|k: int| 24 <= k < 48 ==> #[trigger] b[k] == 0
                },
            }
        }),
{
    let b = h.bytes();
    lemma_header_size(h);
    lemma_network_byte_order(0, h.base.command, 0);
    lemma_network_byte_order(0, h.base.seqnum, 0);
    lemma_network_byte_order(0, h.base.devid, 0);
    lemma_network_byte_order(0, h.base.direction, 0);
    lemma_network_byte_order(0, h.base.ep, 0);
    assert(b.subrange(0, 4) =~= be32(h.base.command));
    assert(b.subrange(4, 8) =~= be32(h.base.seqnum));
    assert(b.subrange(8, 12) =~= be32(h.base.devid));
    assert(b.subrange(12, 16) =~= be32(h.base.direction));
    assert(b.subrange(16, 20) =~= be32(h.base.ep));
    match h.body {
        Body::CmdSubmit(c) => {
            lemma_network_byte_order(0, c.transfer_flags, 0);
            lemma_signed(c.transfer_buffer_length);
            lemma_signed(c.start_frame);
            lemma_signed(c.number_of_packets);
            lemma_signed(c.interval);
            assert(b.subrange(20, 24) =~= be32(c.transfer_flags));
            assert(b.subrange(24, 28) =~= be32(c.transfer_buffer_length as u32));
            assert(b.subrange(28, 32) =~= be32(c.start_frame as u32));
            assert(b.subrange(32, 36) =~= be32(c.number_of_packets as u32));
            assert(b.subrange(36, 40) =~= be32(c.interval as u32));
            assert(b.subrange(40, 48) =~= c.setup@);
        },
        Body::CmdUnlink(u) => {
            lemma_network_byte_order(0, u.unlink_seqnum, 0);
            assert(b.subrange(20, 24) =~= be32(u.unlink_seqnum));
        },
        Body::RetSubmit(r) => {
            lemma_signed(r.status);
            lemma_signed(r.actual_length);
            lemma_signed(r.start_frame);
            lemma_signed(r.number_of_packets);
            lemma_signed(r.error_count);
            assert(b.subrange(20, 24) =~= be32(r.status as u32));
            assert(b.subrange(24, 28) =~= be32(r.actual_length as u32));
            assert(b.subrange(28, 32) =~= be32(r.start_frame as u32));
            assert(b.subrange(32, 36) =~= be32(r.number_of_packets as u32));
            assert(b.subrange(36, 40) =~= be32(r.error_count as u32));
        },
        Body::RetUnlink(u) => {
            lemma_signed(u.status);
            assert(b.subrange(20, 24) =~= be32(u.status as u32));
        },
    }
}

/// An isochronous packet's descriptor is four numbers of four bytes in network order.
pub proof fn lemma_iso_descriptor_layout(d: IsoPacketDescriptor)
    ensures
        ({
            let b = d.bytes();
            &&& b.len() == 16
            &&& network_value(b.subrange(0, 4)) == d.offset
            &&& network_value(b.subrange(4, 8)) == d.length
            &&& network_value(b.subrange(8, 12)) == d.actual_length
            &&& network_value(b.subrange(12, 16)) == d.status
        }),
{
    let b = d.bytes();
    lemma_network_byte_order(0, d.offset, 0);
    lemma_network_byte_order(0, d.length, 0);
    lemma_network_byte_order(0, d.actual_length, 0);
    lemma_network_byte_order(0, d.status, 0);
    assert(b.subrange(0, 4) =~= be32(d.offset));
    assert(b.subrange(4, 8) =~= be32(d.length));
    assert(b.subrange(8, 12) =~= be32(d.actual_length));
    assert(b.subrange(12, 16) =~= be32(d.status));
}

/// A submit or reply goes in if its direction says one, and out otherwise.
pub proof fn lemma_directions(v: u32)
    ensures
        Direction::of(v) is In <==> v == 1,
        Direction::of(v) is Out <==> v != 1,
{
}

} // verus!
