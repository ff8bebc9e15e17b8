//! Framing helpers: the thinnest possible layer that turns a byte stream into
//! whole PDUs. All the parsing lives in [`crate::proto::pdu`] and
//! [`crate::proto::op`]; this module only decides how many bytes to read next.
//!
//! A stream is what has arrived of it so far. A read takes one message off its
//! front, or says how many bytes are certainly missing: whoever owns the socket
//! reads that many and tries again, and never reads into the next message.
use crate::proto::device::{
    lemma_record_reads_back, lemma_record_size, record_error, record_len, DeviceRecord, UsbDevice,
};
use crate::proto::op::{
    devlist_reply_bytes, devlist_too_large, import_reply_bytes, import_request_bytes,
    lemma_op_header_reads_back, lemma_records_positions, record_at, records_are, records_bytes,
    records_of, OpHeader, OP_REP_DEVLIST, OP_REP_IMPORT, OP_REQ_DEVLIST, OP_REQ_IMPORT, ST_NA,
    ST_OK,
};
use crate::proto::pdu::{
    at_least_zero, header_error, last_field_at, lemma_directions, lemma_header_reads_back,
    lemma_header_size, lemma_iso_descriptor_reads_back, Body, Direction, Header,
    IsoPacketDescriptor, RetSubmit, RetUnlink, USBIP_CMD_SUBMIT, USBIP_CMD_UNLINK, USBIP_RET_SUBMIT,
    USBIP_RET_UNLINK,
};
use crate::proto::wire::{
    be32, field_text, fits, i32_at, lemma_be32_reads_back, lemma_read_in_network_byte_order,
    lemma_text_reads_back, network_value, text_bytes, u32_at, Reader,
};
use crate::proto::{
    ProtoError, BUSID_LEN, PATH_LEN, SIZE_CMD_HEADER, SIZE_ISO_DESC, SIZE_OP_HEADER,
    SIZE_USB_DEVICE, SIZE_USB_INTERFACE, USBIP_VERSION,
};
use crate::text::{dec, hex, push_dec, push_hex};
use vstd::prelude::*;
use vstd::string::*;
use vstd::utf8::*;

pub use crate::proto::op::MAX_DEVLIST;

verus! {

broadcast use {vstd::slice::group_slice_axioms, vstd::array::group_array_axioms};

/// A submit big enough to need this many isochronous packets is not something
/// a HID device produces; refuse rather than allocate.
pub const MAX_ISO_PACKETS: usize = 1024;

#[derive(Debug, Clone, Copy, PartialEq, Eq, Structural)]
pub enum ErrorKind {
    UnexpectedEof,
    InvalidData,
    Other,
}

/// Why a message could not be taken off a stream.
#[derive(Debug, Clone, PartialEq, Eq)]
pub enum Error {
    /// The stream ends before the message does; at least so many bytes are missing.
    UnexpectedEof { missing: usize },
    Proto(ProtoError),
    UnexpectedReply { expected: u16, got: u16 },
    /// The peer answered with a status that means no.
    Refused { status: u32 },
    /// A reply where a command was expected.
    NotACommand { command: u32 },
    NotARetSubmit,
    UnknownSeqnum { seqnum: u32 },
}

impl Error {
    pub open spec fn spec_kind(self) -> ErrorKind {
        match self {
            Error::UnexpectedEof { .. } => ErrorKind::UnexpectedEof,
            Error::Refused { .. } => ErrorKind::Other,
            _ => ErrorKind::InvalidData,
        }
    }

    pub fn kind(&self) -> (k: ErrorKind)
        ensures
            k == self.spec_kind(),
    {
        match self {
            Error::UnexpectedEof { .. } => ErrorKind::UnexpectedEof,
            Error::Refused { .. } => ErrorKind::Other,
            _ => ErrorKind::InvalidData,
        }
    }

    /// What a user is told of the error.
    pub open spec fn message(self) -> Seq<char> {
        match self {
            Error::UnexpectedEof { .. } => "failed to fill whole buffer"@,
            Error::Proto(e) => e.message(),
            Error::UnexpectedReply { expected, got } => "expected reply 0x"@ + hex(
                expected as nat,
                4,
            ) + ", got 0x"@ + hex(got as nat, 4),
            Error::Refused { status } => "peer refused the request (status "@ + dec(status as nat)
                + ")"@,
            Error::NotACommand { command } =>
                "expected a USBIP_CMD_* message, got command "@ + dec(command as nat),
            Error::NotARetSubmit => "expected USBIP_RET_SUBMIT"@,
            Error::UnknownSeqnum { seqnum } => "reply for unknown seqnum "@ + dec(seqnum as nat),
        }
    }

    pub fn to_string(&self) -> (s: String)
        ensures
            s@ == self.message(),
    {
        let mut s = String::new();
        match self {
            Error::UnexpectedEof { .. } => {
                s.append("failed to fill whole buffer");
            },
            Error::Proto(e) => {
                return e.to_string();
            },
            Error::UnexpectedReply { expected, got } => {
                s.append("expected reply 0x");
                push_hex(&mut s, *expected as u64, 4);
                s.append(", got 0x");
                push_hex(&mut s, *got as u64, 4);
            },
            Error::Refused { status } => {
                s.append("peer refused the request (status ");
                push_dec(&mut s, *status as u64);
                s.append(")");
            },
            Error::NotACommand { command } => {
                s.append("expected a USBIP_CMD_* message, got command ");
                push_dec(&mut s, *command as u64);
            },
            Error::NotARetSubmit => {
                s.append("expected USBIP_RET_SUBMIT");
            },
            Error::UnknownSeqnum { seqnum } => {
                s.append("reply for unknown seqnum ");
                push_dec(&mut s, *seqnum as u64);
            },
        }
        assert(s@ =~= self.message());
        s
    }
}

/// The error of a stream that holds `have` bytes where `need` are wanted.
pub open spec fn cut_short(need: int, have: int) -> Error {
    Error::UnexpectedEof { missing: (need - have) as usize }
}

/// Takes `n` bytes off the front of the stream, or leaves it as it is.
fn take<'a>(r: &mut &'a [u8], n: usize) -> (res: Result<&'a [u8], Error>)
    ensures
        match res {
            Ok(b) => {
                &&& n <= old(r)@.len()
                &&& b@ == old(r)@.take(n as int)
                &&& final(r)@ == old(r)@.skip(n as int)
            },
            Err(e) => {
                &&& n > old(r)@.len()
                &&& e == cut_short(n as int, old(r)@.len() as int)
                &&& final(r)@ == old(r)@
            },
        },
{
    let all: &'a [u8] = *r;
    if all.len() < n {
        return Err(Error::UnexpectedEof { missing: n - all.len() });
    }
    let head = vstd::slice::slice_subrange(all, 0, n);
    *r = vstd::slice::slice_subrange(all, n, all.len());
    assert(head@ =~= all@.take(n as int));
    assert(r@ =~= all@.skip(n as int));
    Ok(head)
}

/// A complete `USBIP_CMD_*` message: header plus whatever trailed it.
#[derive(Debug, Clone, PartialEq, Eq)]
pub struct Pdu {
    pub header: Header,
    pub data: Vec<u8>,
    pub iso: Vec<IsoPacketDescriptor>,
}

/// What a server may see before a connection has switched to command mode.
#[derive(Debug, Clone, PartialEq, Eq)]
pub enum OpRequest {
    DevList,
    Import { busid: String },
}

// ---------------------------------------------------------------------------
// Op mode

pub fn read_op_header(r: &mut &[u8]) -> (res: Result<OpHeader, Error>)
    ensures
        match res {
            Ok(h) => {
                &&& old(r)@.len() >= SIZE_OP_HEADER
                &&& h == OpHeader::at(old(r)@)
                &&& final(r)@ == old(r)@.skip(SIZE_OP_HEADER as int)
            },
            Err(e) => {
                &&& old(r)@.len() < SIZE_OP_HEADER
                &&& e == cut_short(SIZE_OP_HEADER as int, old(r)@.len() as int)
                &&& final(r)@ == old(r)@
            },
        },
{
    let b = take(r, SIZE_OP_HEADER)?;
    match OpHeader::from_bytes(b) {
        Ok(h) => Ok(h),
        Err(e) => Err(Error::Proto(e)),
    }
}

/// What a server makes of the request at the head of `b`, and how many bytes it
/// takes off the stream. A request is a request for the list of devices, for one
/// device by its bus id, or a well-formed one that this server does not implement.
pub open spec fn op_request_at(b: Seq<u8>) -> (Result<Option<Option<Seq<char>>>, Error>, int) {
    let h = OpHeader::at(b);
    let busid = field_text(b.subrange(8, 40));
    if b.len() < SIZE_OP_HEADER {
        (Err(cut_short(SIZE_OP_HEADER as int, b.len() as int)), 0)
    } else if h.version != USBIP_VERSION {
        (Err(Error::Proto(ProtoError::BadVersion(h.version))), 8)
    } else if h.code == OP_REQ_DEVLIST {
        (Ok(Some(None)), 8)
    } else if h.code == OP_REQ_IMPORT {
        if b.len() < 40 {
            (Err(cut_short(40, b.len() as int)), 8)
        } else if !valid_utf8(busid) {
            (Err(Error::Proto(ProtoError::Utf8)), 40)
        } else {
            (Ok(Some(Some(decode_utf8(busid)))), 40)
        }
    } else {
        (Ok(None), 8)
    }
}

impl OpRequest {
    /// The bus id that the request names, if it is for one device.
    pub open spec fn asks_for(self) -> Option<Seq<char>> {
        match self {
            OpRequest::DevList => None,
            OpRequest::Import { busid } => Some(busid@),
        }
    }
}

/// Read an `OP_REQ_*` and its body. Returns `None` for a well-formed request
/// this server does not implement, so the caller can answer rather than hang.
pub fn read_op_request(r: &mut &[u8]) -> (res: Result<Option<OpRequest>, Error>)
    ensures
        op_request_at(old(r)@).0 == (match res {
            Ok(Some(q)) => Ok::<Option<Option<Seq<char>>>, Error>(Some(q.asks_for())),
            Ok(None) => Ok::<Option<Option<Seq<char>>>, Error>(None),
            Err(e) => Err::<Option<Option<Seq<char>>>, Error>(e),
        }),
        final(r)@ == old(r)@.skip(op_request_at(old(r)@).1),
{
    let ghost all = r@;
    assert(all.skip(0) =~= all);
    let h = read_op_header(r)?;
    match h.check_version() {
        Ok(_) => {},
        Err(e) => {
            return Err(Error::Proto(e));
        },
    }
    if h.code == OP_REQ_DEVLIST {
        Ok(Some(OpRequest::DevList))
    } else if h.code == OP_REQ_IMPORT {
        let b = take(r, BUSID_LEN)?;
        assert(b@ =~= all.subrange(8, 40));
        assert(b@.take(32) =~= b@);
        assert(r@ =~= all.skip(40));
        match Reader::new(b).text_field(BUSID_LEN) {
            Ok(busid) => Ok(Some(OpRequest::Import { busid })),
            Err(e) => Err(Error::Proto(e)),
        }
    } else {
        Ok(None)
    }
}

/// What is wrong with `h` as the header of the reply `code`: another revision,
/// another message, or a refusal, in this order.
pub open spec fn reply_error(h: OpHeader, code: u16) -> Option<Error> {
    if h.version != USBIP_VERSION {
        Some(Error::Proto(ProtoError::BadVersion(h.version)))
    } else if h.code != code {
        Some(Error::UnexpectedReply { expected: code, got: h.code })
    } else if h.status != ST_OK {
        Some(Error::Refused { status: h.status })
    } else {
        None
    }
}

fn expect_reply(h: &OpHeader, code: u16) -> (res: Result<(), Error>)
    ensures
        match res {
            Ok(_) => reply_error(*h, code) is None,
            Err(e) => reply_error(*h, code) == Some(e),
        },
{
    match h.check_version() {
        Ok(_) => {},
        Err(e) => {
            return Err(Error::Proto(e));
        },
    }
    if h.code != code {
        return Err(Error::UnexpectedReply { expected: code, got: h.code });
    }
    if h.status != ST_OK {
        return Err(Error::Refused { status: h.status });
    }
    Ok(())
}

/// What stops the reading of a device record, interfaces and all, off a stream
/// that holds `b`, and after how many bytes.
pub open spec fn record_stream_error(b: Seq<u8>) -> Option<(Error, int)> {
    if b.len() < SIZE_USB_DEVICE {
        Some((cut_short(SIZE_USB_DEVICE as int, b.len() as int), 0))
    } else if b.len() < record_len(b) {
        Some((cut_short(record_len(b), b.len() as int), SIZE_USB_DEVICE as int))
    } else if record_error(b, true) is Some {
        Some((Error::Proto(ProtoError::Utf8), record_len(b)))
    } else {
        None
    }
}

fn read_record(r: &mut &[u8]) -> (res: Result<UsbDevice, Error>)
    ensures
        match res {
            Ok(d) => {
                &&& record_stream_error(old(r)@) is None
                &&& d@ == DeviceRecord::at(old(r)@, true)
                &&& final(r)@ == old(r)@.skip(record_len(old(r)@))
                &&& SIZE_USB_DEVICE <= record_len(old(r)@) <= old(r)@.len()
            },
            Err(e) => record_stream_error(old(r)@) matches Some((why, at)) && e == why && final(r)@
                == old(r)@.skip(at) && 0 <= at <= old(r)@.len(),
        },
{
    let ghost b = r@;
    assert(b.skip(0) =~= b);
    let all: &[u8] = *r;
    let fixed = take(r, SIZE_USB_DEVICE)?;
    // b_num_interfaces is the final byte of the fixed-size record.
    let ifs: usize = fixed[SIZE_USB_DEVICE - 1] as usize;
    let _ = take(r, ifs * SIZE_USB_INTERFACE)?;
    assert(r@ =~= b.skip(record_len(b)));
    let whole = vstd::slice::slice_subrange(all, 0, SIZE_USB_DEVICE + ifs * SIZE_USB_INTERFACE);
    proof {
        lemma_record_alone(b);
        assert(whole@ =~= b.take(record_len(b)));
    }
    match UsbDevice::decode(&mut Reader::new(whole), true) {
        Ok(d) => Ok(d),
        Err(e) => Err(Error::Proto(e)),
    }
}

/// What follows a whole record has no say in how it is read.
proof fn lemma_record_alone(b: Seq<u8>)
    requires
        SIZE_USB_DEVICE <= b.len(),
        record_len(b) <= b.len(),
    ensures
        ({
            let s = b.take(record_len(b));
            &&& record_error(s, true) == record_error(b, true)
            &&& DeviceRecord::at(s, true) == DeviceRecord::at(b, true)
            &&& record_error(b, true) is Some ==> record_error(b, true).unwrap().0
                == ProtoError::Utf8
        }),
{
    let s = b.take(record_len(b));
    assert(s.take(256) =~= b.take(256));
    assert(s.subrange(256, 288) =~= b.subrange(256, 288));
    assert(DeviceRecord::at(s, true).interfaces =~= DeviceRecord::at(b, true).interfaces);
}

/// Whether the first `n` records at the head of `b` can all be read off it.
pub open spec fn records_arrived(b: Seq<u8>, n: int) -> bool {
    forall|i: nat| i < n ==> (#[trigger] record_stream_error(b.skip(record_at(b, i)))) is None
}

/// The outcome of reading a device list off a stream that holds `b`, leaving
/// `rest` on it. Each record is variable length, so the records are read one by
/// one and the first that cannot be read decides.
pub open spec fn devlist_stream_result(
    b: Seq<u8>,
    rest: Seq<u8>,
    r: Result<Seq<DeviceRecord>, Error>,
) -> bool {
    let n = u32_at(b, 8);
    let body = b.skip(12);
    if b.len() < SIZE_OP_HEADER {
        r == Err::<Seq<DeviceRecord>, Error>(cut_short(SIZE_OP_HEADER as int, b.len() as int))
            && rest == b
    } else if reply_error(OpHeader::at(b), OP_REP_DEVLIST) is Some {
        r == Err::<Seq<DeviceRecord>, Error>(
            reply_error(OpHeader::at(b), OP_REP_DEVLIST).unwrap(),
        ) && rest == b.skip(8)
    } else if b.len() < 12 {
        r == Err::<Seq<DeviceRecord>, Error>(cut_short(12, b.len() as int)) && rest == b.skip(8)
    } else if n > MAX_DEVLIST {
        r == Err::<Seq<DeviceRecord>, Error>(Error::Proto(devlist_too_large(n))) && rest == body
    } else {
        match r {
            Ok(devs) => {
                &&& devs.len() == n
                &&& records_arrived(body, n as int)
                &&& records_are(devs, body)
                &&& rest == body.skip(record_at(body, n as nat))
            },
            Err(e) => exists|i: nat|
                i < n && records_arrived(body, i as int) && record_stops(
                    #[trigger] record_stream_error(body.skip(record_at(body, i))),
                    e,
                    body.skip(record_at(body, i)),
                    rest,
                ),
        }
    }
}

/// Whether reading a record off `b` stops for the reason `e`, leaving `rest`.
pub open spec fn record_stops(
    error: Option<(Error, int)>,
    e: Error,
    b: Seq<u8>,
    rest: Seq<u8>,
) -> bool {
    error matches Some((why, at)) && e == why && rest == b.skip(at)
}

/// Read an `OP_REP_DEVLIST`.
///
/// Each record is variable length — the interface array follows the fixed part
/// and its length is the last byte of that part — so this reads one device at
/// a time rather than slurping a frame whose size is not known in advance.
pub fn read_devlist_reply(r: &mut &[u8]) -> (res: Result<Vec<UsbDevice>, Error>)
    ensures
        devlist_stream_result(
            old(r)@,
            final(r)@,
            match res {
                Ok(devs) => Ok(records_of(devs@)),
                Err(e) => Err(e),
            },
        ),
{
    let ghost b = r@;
    let h = read_op_header(r)?;
    expect_reply(&h, OP_REP_DEVLIST)?;
    let count = match take(r, 4) {
        Ok(c) => c,
        Err(e) => {
            return Err(e);
        },
    };
    let n: u32 = match Reader::new(count).u32() {
        Ok(n) => n,
        Err(e) => {
            return Err(Error::Proto(e));
        },
    };
    assert(n == u32_at(b, 8));
    assert(r@ =~= b.skip(12));
    if n > MAX_DEVLIST {
        return Err(
            Error::Proto(
                ProtoError::TooLarge { field: "devlist count", value: n as i64, max: 1024 },
            ),
        );
    }
    let mut out: Vec<UsbDevice> = Vec::with_capacity(n as usize);
    let ghost body = b.skip(12);
    assert(body.skip(0) =~= body);
    let mut i: u32 = 0;
    while i < n
        invariant
            i <= n <= MAX_DEVLIST,
            b == old(r)@,
            b.len() >= 12,
            reply_error(OpHeader::at(b), OP_REP_DEVLIST) is None,
            n == u32_at(b, 8),
            body == b.skip(12),
            out@.len() == i,
            0 <= record_at(body, i as nat) <= body.len(),
            r@ == body.skip(record_at(body, i as nat)),
            records_arrived(body, i as int),
            records_are(records_of(out@), body),
        decreases n - i,
    {
        let ghost at = record_at(body, i as nat);
        let ghost had = records_of(out@);
        let d = match read_record(r) {
            Ok(d) => d,
            Err(e) => {
                assert(record_stops(
                    record_stream_error(body.skip(record_at(body, i as nat))),
                    e,
                    body.skip(record_at(body, i as nat)),
                    r@,
                ));
                return Err(e);
            },
        };
        out.push(d);
        proof {
            assert(records_of(out@) =~= had.push(d@));
            assert(record_at(body, (i + 1) as nat) == at + record_len(body.skip(at)));
            assert(r@ =~= body.skip(record_at(body, (i + 1) as nat)));
        }
        i = i + 1;
    }
    Ok(out)
}

/// What reading an import reply off a stream that holds `b` gives, and how many
/// bytes it takes. A refusal carries no record and is an error.
pub open spec fn import_reply_at(b: Seq<u8>) -> (Result<DeviceRecord, Error>, int) {
    let body = b.subrange(8, 320);
    if b.len() < SIZE_OP_HEADER {
        (Err(cut_short(SIZE_OP_HEADER as int, b.len() as int)), 0)
    } else if reply_error(OpHeader::at(b), OP_REP_IMPORT) is Some {
        (Err(reply_error(OpHeader::at(b), OP_REP_IMPORT).unwrap()), 8)
    } else if b.len() < 320 {
        (Err(cut_short(320, b.len() as int)), 8)
    } else if record_error(body, false) is Some {
        (Err(Error::Proto(ProtoError::Utf8)), 320)
    } else {
        (Ok(DeviceRecord::at(body, false)), 320)
    }
}

/// Read an `OP_REP_IMPORT`. A refusal surfaces as an error rather than a
/// device, since there is nothing useful to return in that case.
pub fn read_import_reply(r: &mut &[u8]) -> (res: Result<UsbDevice, Error>)
    ensures
        import_reply_at(old(r)@).0 == (match res {
            Ok(d) => Ok::<DeviceRecord, Error>(d@),
            Err(e) => Err::<DeviceRecord, Error>(e),
        }),
        final(r)@ == old(r)@.skip(import_reply_at(old(r)@).1),
{
    let ghost all = r@;
    assert(all.skip(0) =~= all);
    let h = read_op_header(r)?;
    expect_reply(&h, OP_REP_IMPORT)?;
    let b = take(r, SIZE_USB_DEVICE)?;
    assert(b@ =~= all.subrange(8, 320));
    assert(r@ =~= all.skip(320));
    match UsbDevice::decode(&mut Reader::new(b), false) {
        Ok(d) => Ok(d),
        Err(e) => Err(Error::Proto(e)),
    }
}

// ---------------------------------------------------------------------------
// Command mode

/// Bytes of transfer data behind the submit header that `b` begins with.
pub open spec fn data_len(b: Seq<u8>) -> int {
    if u32_at(b, 0) == USBIP_CMD_SUBMIT && Direction::of(u32_at(b, 12)) is Out {
        at_least_zero(i32_at(b, 24))
    } else {
        0
    }
}

/// Packets described behind that data.
pub open spec fn iso_len(b: Seq<u8>) -> int {
    if u32_at(b, 0) == USBIP_CMD_SUBMIT {
        at_least_zero(i32_at(b, 32))
    } else {
        0
    }
}

/// How long the command is that begins with the header `b` begins with.
pub open spec fn pdu_len(b: Seq<u8>) -> int {
    SIZE_CMD_HEADER + data_len(b) + SIZE_ISO_DESC * iso_len(b)
}

/// What the header that `b` begins with is refused for, before anything is read
/// behind it: no such command, a reply, or lengths beyond the limits.
pub open spec fn pdu_refusal(b: Seq<u8>, max_transfer: usize) -> Option<Error> {
    let command = u32_at(b, 0);
    if last_field_at(command) is None {
        Some(Error::Proto(ProtoError::BadCommand(command)))
    } else if command == USBIP_CMD_SUBMIT {
        if i32_at(b, 24) < 0 || i32_at(b, 24) > max_transfer {
            Some(
                Error::Proto(
                    ProtoError::TooLarge {
                        field: "transfer_buffer_length",
                        value: i32_at(b, 24) as i64,
                        max: max_transfer as i64,
                    },
                ),
            )
        } else if i32_at(b, 32) > MAX_ISO_PACKETS {
            Some(
                Error::Proto(
                    ProtoError::TooLarge {
                        field: "number_of_packets",
                        value: i32_at(b, 32) as i64,
                        max: MAX_ISO_PACKETS as i64,
                    },
                ),
            )
        } else {
            None
        }
    } else if command == USBIP_CMD_UNLINK {
        None
    } else {
        Some(Error::NotACommand { command })
    }
}

/// What keeps a command from being read off a stream that holds `b`, and after
/// how many bytes.
pub open spec fn pdu_error(b: Seq<u8>, max_transfer: usize) -> Option<(Error, int)> {
    let data_end = SIZE_CMD_HEADER + data_len(b);
    if b.len() < SIZE_CMD_HEADER {
        Some((cut_short(SIZE_CMD_HEADER as int, b.len() as int), 0))
    } else if pdu_refusal(b, max_transfer) is Some {
        Some((pdu_refusal(b, max_transfer).unwrap(), SIZE_CMD_HEADER as int))
    } else if b.len() < data_end {
        Some((cut_short(data_end, b.len() as int), SIZE_CMD_HEADER as int))
    } else if b.len() < pdu_len(b) {
        Some((cut_short(pdu_len(b), b.len() as int), data_end))
    } else {
        None
    }
}

impl Pdu {
    /// Whether this is the command that `b` begins with.
    pub open spec fn is_at(self, b: Seq<u8>) -> bool {
        let data_end = SIZE_CMD_HEADER + data_len(b);
        &&& self.header.is_at(b)
        &&& self.data@ == b.subrange(SIZE_CMD_HEADER as int, data_end)
        &&& self.iso@ == Seq::new(
            iso_len(b) as nat,
            |i: int| IsoPacketDescriptor::at(b, data_end + SIZE_ISO_DESC * i),
        )
    }
}

/// How many bytes of data and how many packet descriptors follow `header`, or why
/// it is refused.
pub fn pdu_tail(header: &Header, max_transfer: usize) -> (r: Result<(usize, usize), Error>)
    requires
        header.consistent(),
    ensures
        forall|b: Seq<u8>| #[trigger]
            header.is_at(b) ==> (match r {
                Ok((data, iso)) => pdu_refusal(b, max_transfer) is None && data == data_len(b)
                    && iso == iso_len(b),
                Err(e) => pdu_refusal(b, max_transfer) == Some(e),
            }),
        match r {
            Ok((data, iso)) => data <= max_transfer && iso <= MAX_ISO_PACKETS,
            Err(e) => true,
        },
{
    match header.body {
        Body::CmdSubmit(c) => {
            if c.transfer_buffer_length < 0 || c.transfer_buffer_length as usize > max_transfer {
                return Err(
                    Error::Proto(
                        ProtoError::TooLarge {
                            field: "transfer_buffer_length",
                            value: c.transfer_buffer_length as i64,
                            max: #[verifier::truncate]
                            (max_transfer as i64),
                        },
                    ),
                );
            }
            if c.iso_count() > MAX_ISO_PACKETS {
                return Err(
                    Error::Proto(
                        ProtoError::TooLarge {
                            field: "number_of_packets",
                            value: c.number_of_packets as i64,
                            max: MAX_ISO_PACKETS as i64,
                        },
                    ),
                );
            }
            Ok((c.payload_len(header.base.dir()), c.iso_count()))
        },
        Body::CmdUnlink(_) => Ok((0, 0)),
        _ => Err(Error::NotACommand { command: header.base.command }),
    }
}

/// Read one command PDU.
///
/// `max_transfer` bounds `transfer_buffer_length` before anything is allocated.
/// This is a network-facing parser, so the length prefix is treated as hostile
/// even though the transport is normally a tailnet.
pub fn read_pdu(r: &mut &[u8], max_transfer: usize) -> (res: Result<Pdu, Error>)
    ensures
        match res {
            Ok(p) => {
                &&& pdu_error(old(r)@, max_transfer) is None
                &&& p.is_at(old(r)@)
                &&& final(r)@ == old(r)@.skip(pdu_len(old(r)@))
            },
            Err(e) => pdu_error(old(r)@, max_transfer) matches Some((why, at)) && e == why
                && final(r)@ == old(r)@.skip(at),
        },
{
    let ghost b = r@;
    assert(b.skip(0) =~= b);
    let hbuf = take(r, SIZE_CMD_HEADER)?;
    proof {
        lemma_header_alone(b);
        assert(hbuf@ =~= b.take(48));
    }
    let header = match Header::decode(hbuf) {
        Ok(h) => h,
        Err(e) => {
            return Err(Error::Proto(e));
        },
    };
    assert(header.is_at(b));
    let (data_len, iso_n) = match pdu_tail(&header, max_transfer) {
        Ok(t) => t,
        Err(e) => {
            return Err(e);
        },
    };
    let data = vstd::slice::slice_to_vec(take(r, data_len)?);
    assert(data@ =~= b.subrange(48, 48 + data_len));
    assert(r@ =~= b.skip(48 + data_len));
    let mut iso: Vec<IsoPacketDescriptor> = Vec::with_capacity(iso_n);
    let ghost want = Seq::new(
        iso_n as nat,
        |i: int| IsoPacketDescriptor::at(b, 48 + data_len + SIZE_ISO_DESC * i),
    );
    if iso_n > 0 {
        let ibuf = take(r, iso_n * SIZE_ISO_DESC)?;
        let mut rd = Reader::new(ibuf);
        assert(ibuf@.skip(0) =~= ibuf@);
        let mut i: usize = 0;
        while i < iso_n
            invariant
                i <= iso_n <= MAX_ISO_PACKETS,
                b.len() >= 48 + data_len + 16 * iso_n,
                ibuf@ == b.subrange(48 + data_len, 48 + data_len + 16 * iso_n),
                rd@ == ibuf@.skip(16 * i),
                want == Seq::new(
                    iso_n as nat,
                    |i: int| IsoPacketDescriptor::at(b, 48 + data_len + SIZE_ISO_DESC * i),
                ),
                iso@ == want.take(i as int),
            decreases iso_n - i,
        {
            match IsoPacketDescriptor::decode(&mut rd) {
                Ok(d) => {
                    assert(d == want[i as int]);
                    iso.push(d);
                },
                Err(e) => {
                    assert(false);
                    return Err(Error::Proto(e));
                },
            }
            i = i + 1;
            assert(iso@ =~= want.take(i as int));
            assert(rd@ =~= ibuf@.skip(16 * i));
        }
    }
    assert(iso@ =~= want);
    assert(r@ =~= b.skip(pdu_len(b)));
    Ok(Pdu { header, data, iso })
}

/// What follows a whole header has no say in how it is read.
proof fn lemma_header_alone(b: Seq<u8>)
    requires
        b.len() >= SIZE_CMD_HEADER,
    ensures
        header_error(b.take(SIZE_CMD_HEADER as int)) == header_error(b),
        forall|h: Header| h.is_at(b.take(SIZE_CMD_HEADER as int)) == #[trigger] h.is_at(b),
{
    let s = b.take(SIZE_CMD_HEADER as int);
    assert(s.subrange(40, 48) =~= b.subrange(40, 48));
}

/// Where a command cannot be read for want of bytes, the number of missing ones
/// never reaches beyond its end: any continuation of the stream that holds the
/// whole command holds at least that many more bytes of it.
pub proof fn lemma_missing_bytes_stay_in_frame(b: Seq<u8>, c: Seq<u8>, max_transfer: usize)
    requires
        pdu_error(b, max_transfer) matches Some((Error::UnexpectedEof { missing }, at)),
        b.len() <= c.len(),
        c.take(b.len() as int) == b,
        pdu_error(c, max_transfer) is None,
    ensures
        pdu_error(b, max_transfer).unwrap().0->missing > 0,
        b.len() + pdu_error(b, max_transfer).unwrap().0->missing <= pdu_len(c),
{
    if b.len() >= SIZE_CMD_HEADER {
        assert forall|i: int| 0 <= i < 48 implies b[i] == c[i] by {
            assert(c.take(b.len() as int)[i] == c[i]);
        }
    }
}

/// Commands that stand back to back are read one after the other: what follows a
/// whole command changes nothing about it and is left on the stream.
pub proof fn lemma_commands_stay_in_frame(b: Seq<u8>, more: Seq<u8>, max_transfer: usize)
    requires
        pdu_error(b, max_transfer) is None,
        pdu_len(b) == b.len(),
    ensures
        pdu_error(b + more, max_transfer) is None,
        pdu_len(b + more) == b.len(),
        (b + more).skip(pdu_len(b + more)) == more,
        forall|p: Pdu| #[trigger] p.is_at(b) ==> p.is_at(b + more),
{
    let c = b + more;
    assert(forall|i: int| 0 <= i < b.len() ==> c[i] == b[i]);
    assert(c.skip(b.len() as int) =~= more);
    assert forall|p: Pdu| #[trigger] p.is_at(b) implies p.is_at(c) by {
        assert(c.subrange(40, 48) =~= b.subrange(40, 48));
        assert(c.subrange(48, 48 + data_len(b)) =~= b.subrange(48, 48 + data_len(b)));
        let at_end = 48 + data_len(b);
        assert(Seq::new(
            iso_len(c) as nat,
            |i: int| IsoPacketDescriptor::at(c, at_end + SIZE_ISO_DESC * i),
        ) =~= Seq::new(
            iso_len(b) as nat,
            |i: int| IsoPacketDescriptor::at(b, at_end + SIZE_ISO_DESC * i),
        ));
    }
}

pub fn write_header(w: &mut Vec<u8>, h: &Header) -> (r: Result<(), Error>)
    ensures
        r is Ok,
        final(w)@ == old(w)@ + h.bytes(),
{
    let b = h.to_bytes();
    w.extend_from_slice(&b);
    assert(w@ =~= old(w)@ + h.bytes());
    Ok(())
}

/// What a reply to a submit is on the wire.
pub open spec fn ret_submit_bytes(seqnum: u32, ret: RetSubmit, data: Seq<u8>) -> Seq<u8> {
    Header::reply(USBIP_RET_SUBMIT, seqnum, Body::RetSubmit(ret)).bytes() + data
}

/// What a reply to an unlink is on the wire.
pub open spec fn ret_unlink_bytes(seqnum: u32, status: i32) -> Seq<u8> {
    Header::reply(USBIP_RET_UNLINK, seqnum, Body::RetUnlink(RetUnlink { status })).bytes()
}

/// Put together a `USBIP_RET_SUBMIT` and its payload, for a single write.
///
/// One syscall matters here: with `TCP_NODELAY` set, splitting the header and
/// the payload puts two small segments on the wire per input report.
pub fn write_ret_submit(w: &mut Vec<u8>, seqnum: u32, ret: RetSubmit, data: &[u8]) -> (r: Result<
    (),
    Error,
>)
    ensures
        r is Ok,
        final(w)@ == old(w)@ + ret_submit_bytes(seqnum, ret, data@),
{
    let b = Header::ret_submit(seqnum, ret).to_bytes();
    w.extend_from_slice(&b);
    w.extend_from_slice(data);
    assert(w@ =~= old(w)@ + ret_submit_bytes(seqnum, ret, data@));
    Ok(())
}

pub fn write_ret_unlink(w: &mut Vec<u8>, seqnum: u32, status: i32) -> (r: Result<(), Error>)
    ensures
        r is Ok,
        final(w)@ == old(w)@ + ret_unlink_bytes(seqnum, status),
{
    write_header(w, &Header::ret_unlink(seqnum, status))
}

/// What keeps a reply from being read off a stream that holds `b`, and after how
/// many bytes, given the direction of the submit that it answers, if known.
pub open spec fn ret_submit_error(
    b: Seq<u8>,
    dir: Option<Direction>,
    max_transfer: usize,
) -> Option<(Error, int)> {
    let command = u32_at(b, 0);
    let n = ret_data_len(b, dir);
    if b.len() < SIZE_CMD_HEADER {
        Some((cut_short(SIZE_CMD_HEADER as int, b.len() as int), 0))
    } else if last_field_at(command) is None {
        Some((Error::Proto(ProtoError::BadCommand(command)), 48))
    } else if command != USBIP_RET_SUBMIT {
        Some((Error::NotARetSubmit, 48))
    } else if dir is None {
        Some((Error::UnknownSeqnum { seqnum: u32_at(b, 4) }, 48))
    } else if n > max_transfer {
        Some(
            (
                Error::Proto(
                    ProtoError::TooLarge {
                        field: "actual_length",
                        value: n as i64,
                        max: max_transfer as i64,
                    },
                ),
                48,
            ),
        )
    } else if b.len() < 48 + n {
        Some((cut_short(48 + n, b.len() as int), 48))
    } else {
        None
    }
}

/// Bytes of transfer data behind the reply that `b` begins with.
pub open spec fn ret_data_len(b: Seq<u8>, dir: Option<Direction>) -> int {
    if dir == Some(Direction::In) {
        at_least_zero(i32_at(b, 24))
    } else {
        0
    }
}

/// Read a `USBIP_RET_SUBMIT` reply. The caller supplies the direction of the
/// original submit because the reply header does not carry it.
pub fn read_ret_submit<F: FnOnce(u32) -> Option<Direction>>(
    r: &mut &[u8],
    dir_for: F,
    max_transfer: usize,
) -> (res: Result<(Header, Vec<u8>), Error>)
    requires
        forall|s: u32| #[trigger] dir_for.requires((s,)),
    ensures
        old(r)@.len() < SIZE_CMD_HEADER || u32_at(old(r)@, 0) != USBIP_RET_SUBMIT ==> (res matches Err(
            e,
        ) && ret_submit_error(old(r)@, None, max_transfer) matches Some((why, at)) && e == why
            && final(r)@ == old(r)@.skip(at)),
        old(r)@.len() >= SIZE_CMD_HEADER && u32_at(old(r)@, 0) == USBIP_RET_SUBMIT ==> exists|
            dir: Option<Direction>,
        | #[trigger]
            dir_for.ensures((u32_at(old(r)@, 4),), dir) && (match res {
                Ok((h, data)) => {
                    &&& ret_submit_error(old(r)@, dir, max_transfer) is None
                    &&& h.is_at(old(r)@)
                    &&& data@ == old(r)@.subrange(48, 48 + ret_data_len(old(r)@, dir))
                    &&& final(r)@ == old(r)@.skip(48 + ret_data_len(old(r)@, dir))
                },
                Err(e) => ret_submit_error(old(r)@, dir, max_transfer) matches Some((why, at)) && e
                    == why && final(r)@ == old(r)@.skip(at),
            }),
{
    let ghost b = r@;
    assert(b.skip(0) =~= b);
    let hbuf = take(r, SIZE_CMD_HEADER)?;
    proof {
        lemma_header_alone(b);
        assert(hbuf@ =~= b.take(48));
    }
    let header = match Header::decode(hbuf) {
        Ok(h) => h,
        Err(e) => {
            return Err(Error::Proto(e));
        },
    };
    assert(header.is_at(b));
    let ret = match header.body {
        Body::RetSubmit(ret) => ret,
        _ => {
            return Err(Error::NotARetSubmit);
        },
    };
    let d = dir_for(header.base.seqnum);
    let dir = match d {
        Some(dir) => dir,
        None => {
            return Err(Error::UnknownSeqnum { seqnum: header.base.seqnum });
        },
    };
    let n: usize = ret.payload_len(dir);
    if n > max_transfer {
        return Err(
            Error::Proto(
                ProtoError::TooLarge {
                    field: "actual_length",
                    value: #[verifier::truncate]
                    (n as i64),
                    max: #[verifier::truncate]
                    (max_transfer as i64),
                },
            ),
        );
    }
    let data = vstd::slice::slice_to_vec(take(r, n)?);
    assert(data@ =~= b.subrange(48, 48 + n));
    assert(r@ =~= b.skip(48 + n));
    Ok((header, data))
}

/// A reply to an IN submit comes back whole from its own bytes, whatever follows
/// them: the length that it states is the length of its data.
pub proof fn lemma_ret_submit_reads_back(
    seqnum: u32,
    ret: RetSubmit,
    data: Seq<u8>,
    more: Seq<u8>,
    max_transfer: usize,
)
    requires
        data.len() <= max_transfer,
        data.len() == ret.actual_length,
    ensures
        ({
            let b = ret_submit_bytes(seqnum, ret, data) + more;
            &&& ret_submit_error(b, Some(Direction::In), max_transfer) is None
            &&& forall|h: Header| #[trigger]
                h.is_at(b) ==> h == Header::reply(
                    USBIP_RET_SUBMIT,
                    seqnum,
                    Body::RetSubmit(ret),
                )
            &&& b.subrange(48, 48 + ret_data_len(b, Some(Direction::In))) == data
            &&& b.skip(48 + ret_data_len(b, Some(Direction::In))) == more
        }),
{
    let h = Header::reply(USBIP_RET_SUBMIT, seqnum, Body::RetSubmit(ret));
    let b = ret_submit_bytes(seqnum, ret, data) + more;
    lemma_header_size(h);
    assert(b.take(48) =~= h.bytes());
    lemma_header_reads_back(h, b);
    assert(h.is_at(b));
    let end = 48 + data.len() as int;
    assert(b.subrange(48, end) =~= data);
    assert(b.skip(end) =~= more);
}

/// A request is read as what was asked for, whatever follows it on the stream: the
/// list of devices, or one device by a bus id that fits its field.
pub proof fn lemma_requests_read_back(busid: Seq<char>, more: Seq<u8>)
    requires
        fits(busid, BUSID_LEN as nat),
    ensures
        op_request_at(OpHeader::of(OP_REQ_DEVLIST, 0).bytes() + more) == (
            Ok::<Option<Option<Seq<char>>>, Error>(Some(None)),
            8int,
        ),
        op_request_at(import_request_bytes(busid) + more) == (
            Ok::<Option<Option<Seq<char>>>, Error>(Some(Some(busid))),
            40int,
        ),
        (OpHeader::of(OP_REQ_DEVLIST, 0).bytes() + more).skip(8) == more,
        (import_request_bytes(busid) + more).skip(40) == more,
{
    let h = OpHeader::of(OP_REQ_DEVLIST, 0);
    let b = h.bytes() + more;
    assert(b.take(8) =~= h.bytes());
    lemma_op_header_reads_back(h, b);
    assert(b.skip(8) =~= more);
    let h = OpHeader::of(OP_REQ_IMPORT, 0);
    let b = import_request_bytes(busid) + more;
    assert(b.take(8) =~= h.bytes());
    lemma_op_header_reads_back(h, b);
    lemma_text_reads_back(busid, BUSID_LEN as nat);
    assert(b.subrange(8, 40) =~= text_bytes(busid, 32));
    assert(b.skip(40) =~= more);
}

/// An accepted import is read as the device that was sent, without its interfaces,
/// and a refused one as a refusal: a header alone, with nothing to take for a device.
pub proof fn lemma_import_reply_reads_back(d: DeviceRecord, more: Seq<u8>)
    requires
        fits(d.path, PATH_LEN as nat),
        fits(d.busid, BUSID_LEN as nat),
    ensures
        import_reply_at(import_reply_bytes(Some(d)) + more) == (
            Ok::<DeviceRecord, Error>(d.as_received(false)),
            320int,
        ),
        (import_reply_bytes(Some(d)) + more).skip(320) == more,
        import_reply_at(import_reply_bytes(None) + more) == (
            Err::<DeviceRecord, Error>(Error::Refused { status: ST_NA }),
            8int,
        ),
        import_reply_bytes(None).len() == SIZE_OP_HEADER,
{
    let h = OpHeader::of(OP_REP_IMPORT, ST_OK);
    let b = import_reply_bytes(Some(d)) + more;
    lemma_record_size(d);
    assert(b.take(8) =~= h.bytes());
    lemma_op_header_reads_back(h, b);
    let body = b.subrange(8, 320);
    assert(body.take(312) =~= d.bytes(false));
    lemma_record_reads_back(d, body, false);
    assert(b.skip(320) =~= more);
    let h = OpHeader::of(OP_REP_IMPORT, ST_NA);
    let b = import_reply_bytes(None) + more;
    assert(b.take(8) =~= h.bytes());
    lemma_op_header_reads_back(h, b);
}

/// A list of devices is read off a stream as exactly those devices, in order, and
/// what follows it is left there, however their numbers of interfaces are mixed.
pub proof fn lemma_devlist_reply_reads_back(
    devs: Seq<DeviceRecord>,
    more: Seq<u8>,
    rest: Seq<u8>,
    r: Result<Seq<DeviceRecord>, Error>,
)
    requires
        devs.len() <= MAX_DEVLIST,
        forall|k: int|
            0 <= k < devs.len() ==> fits((#[trigger] devs[k]).path, PATH_LEN as nat) && fits(
                devs[k].busid,
                BUSID_LEN as nat,
            ),
        devlist_stream_result(devlist_reply_bytes(devs) + more, rest, r),
    ensures
        r == Ok::<Seq<DeviceRecord>, Error>(
            devs.map_values(|d: DeviceRecord| d.as_received(true)),
        ),
        rest == more,
{
    let b = devlist_reply_bytes(devs) + more;
    let h = OpHeader::of(OP_REP_DEVLIST, ST_OK);
    let n = devs.len();
    let bytes = records_bytes(devs);
    assert(b.take(8) =~= h.bytes());
    lemma_op_header_reads_back(h, b);
    assert(b.subrange(8, 12) =~= be32(n as u32));
    lemma_be32_reads_back(b, 8, n as u32);
    let body = b.skip(12);
    assert(body =~= bytes + more);
    assert(body.take(bytes.len() as int) =~= bytes);
    lemma_records_positions(devs, body, n);
    assert(devs.take(n as int) =~= devs);
    assert forall|i: nat| i < n implies (#[trigger] record_stream_error(
        body.skip(record_at(body, i)),
    )) is None by {
        lemma_a_record_arrived(devs, body, i);
    }
    let received = devs.map_values(|d: DeviceRecord| d.as_received(true));
    assert(r is Ok);
    let got = r->Ok_0;
    assert forall|i: int| 0 <= i < n implies got[i] == received[i] by {
        assert(got[(i as nat) as int] == DeviceRecord::at(body.skip(record_at(body, i as nat)), true));
    }
    assert(got =~= received);
    assert(body.skip(bytes.len() as int) =~= more);
}

proof fn lemma_a_record_arrived(devs: Seq<DeviceRecord>, body: Seq<u8>, i: nat)
    requires
        i < devs.len(),
        records_bytes(devs).len() <= body.len(),
        body.take(records_bytes(devs).len() as int) == records_bytes(devs),
        forall|k: int|
            0 <= k < devs.len() ==> fits((#[trigger] devs[k]).path, PATH_LEN as nat) && fits(
                devs[k].busid,
                BUSID_LEN as nat,
            ),
    ensures
        record_stream_error(body.skip(record_at(body, i))) is None,
{
    lemma_records_positions(devs, body, (i + 1) as nat);
    let here = body.skip(record_at(body, i));
    assert(record_error(here, true) is None);
}

/// The packet descriptors of a submit, one after another.
pub open spec fn iso_bytes(iso: Seq<IsoPacketDescriptor>) -> Seq<u8>
    decreases iso.len(),
{
    if iso.len() == 0 {
        seq![]
    } else {
        iso_bytes(iso.drop_last()) + iso.last().bytes()
    }
}

proof fn lemma_iso_bytes(iso: Seq<IsoPacketDescriptor>, b: Seq<u8>, at: int)
    requires
        0 <= at,
        at + iso_bytes(iso).len() <= b.len(),
        b.subrange(at, at + iso_bytes(iso).len()) == iso_bytes(iso),
    ensures
        iso_bytes(iso).len() == SIZE_ISO_DESC * iso.len(),
        forall|i: int|
            0 <= i < iso.len() ==> #[trigger] iso[i] == IsoPacketDescriptor::at(
                b,
                at + SIZE_ISO_DESC * i,
            ),
    decreases iso.len(),
{
    if iso.len() > 0 {
        let init = iso.drop_last();
        let s = iso_bytes(init);
        let d = iso.last();
        let all = iso_bytes(iso);
        assert(d.bytes().len() == 16);
        assert(b.subrange(at, at + s.len()) =~= all.take(s.len() as int));
        assert(all.take(s.len() as int) =~= s);
        lemma_iso_bytes(init, b, at);
        let last = at + s.len();
        assert(b.subrange(last, last + 16) =~= all.skip(s.len() as int));
        assert(all.skip(s.len() as int) =~= d.bytes());
        lemma_iso_descriptor_reads_back(d, b, last);
        assert forall|i: int| 0 <= i < iso.len() implies #[trigger] iso[i]
            == IsoPacketDescriptor::at(b, at + SIZE_ISO_DESC * i) by {
            if i < init.len() {
                assert(init[i] == iso[i]);
            } else {
                assert(at + 16 * i == last);
            }
        }
    }
}

/// A submit with the data and the packet descriptors that its header announces, or an
/// unlink, is read as what was sent, and what follows it is left on the stream. An IN
/// submit announces a length too, but no data follows it.
pub proof fn lemma_command_reads_back(
    h: Header,
    data: Seq<u8>,
    iso: Seq<IsoPacketDescriptor>,
    more: Seq<u8>,
    max_transfer: usize,
)
    requires
        h.consistent(),
        match h.body {
            Body::CmdSubmit(c) => {
                &&& 0 <= c.transfer_buffer_length <= max_transfer
                &&& c.number_of_packets <= MAX_ISO_PACKETS
                &&& data.len() == (if Direction::of(h.base.direction) is Out {
                    c.transfer_buffer_length as int
                } else {
                    0
                })
            },
            Body::CmdUnlink(_) => data.len() == 0,
            _ => false,
        },
        iso.len() == h.iso_packets(),
    ensures
        ({
            let b = h.bytes() + data + iso_bytes(iso) + more;
            &&& pdu_error(b, max_transfer) is None
            &&& forall|p: Pdu| #[trigger]
                p.is_at(b) ==> p.header == h && p.data@ == data && p.iso@ == iso
            &&& b.skip(pdu_len(b)) == more
        }),
{
    let tail = iso_bytes(iso);
    let b = h.bytes() + data + tail + more;
    lemma_header_size(h);
    assert(b.take(48) =~= h.bytes());
    lemma_header_reads_back(h, b);
    let end = 48 + data.len() as int;
    assert(b.subrange(48, end) =~= data);
    assert(b.subrange(end, end + tail.len()) =~= tail);
    lemma_iso_bytes(iso, b, end);
    assert(b.skip(end + tail.len()) =~= more);
    assert(data_len(b) == data.len());
    assert(iso_len(b) == iso.len());
    assert forall|p: Pdu| #[trigger] p.is_at(b) implies p.iso@ == iso by {
        assert(p.iso@ =~= iso);
    }
}

/// What a request or an import reply is certainly missing is no more than it takes:
/// reading that many bytes never reads into what follows.
pub proof fn lemma_handshake_bytes_stay_in_frame(b: Seq<u8>, c: Seq<u8>)
    requires
        b.len() <= c.len(),
        c.take(b.len() as int) == b,
    ensures
        op_request_at(b).0 matches Err(Error::UnexpectedEof { missing }) ==> missing > 0 && (
        op_request_at(c).0 is Ok ==> b.len() + missing <= op_request_at(c).1),
        import_reply_at(b).0 matches Err(Error::UnexpectedEof { missing }) ==> missing > 0 && (
        import_reply_at(c).0 is Ok ==> b.len() + missing <= import_reply_at(c).1),
{
    if b.len() >= SIZE_OP_HEADER {
        assert forall|i: int| 0 <= i < 8 implies b[i] == c[i] by {
            assert(c.take(b.len() as int)[i] == c[i]);
        }
    }
}

/// The same of a list of devices, record by record.
pub proof fn lemma_devlist_bytes_stay_in_frame(
    b: Seq<u8>,
    c: Seq<u8>,
    missing: usize,
    left: Seq<u8>,
    devs: Seq<DeviceRecord>,
    rest: Seq<u8>,
)
    requires
        b.len() <= c.len(),
        c.take(b.len() as int) == b,
        devlist_stream_result(
            b,
            left,
            Err::<Seq<DeviceRecord>, Error>(Error::UnexpectedEof { missing }),
        ),
        devlist_stream_result(c, rest, Ok::<Seq<DeviceRecord>, Error>(devs)),
    ensures
        missing > 0,
        b.len() + missing <= c.len() - rest.len(),
{
    let n = u32_at(c, 8) as nat;
    let body = c.skip(12);
    assert(c.len() >= 12);
    lemma_records_inside(body, n);
    assert(c.len() - rest.len() == 12 + record_at(body, n));
    assert forall|i: int| 0 <= i < b.len() implies b[i] == c[i] by {
        assert(c.take(b.len() as int)[i] == c[i]);
    }
    if b.len() >= 12 {
        let e = Error::UnexpectedEof { missing };
        let part = b.skip(12);
        assert(u32_at(b, 8) == n);
        let i = choose|i: nat|
            i < n && records_arrived(part, i as int) && record_stops(
                #[trigger] record_stream_error(part.skip(record_at(part, i))),
                e,
                part.skip(record_at(part, i)),
                left,
            );
        assert(body.take(part.len() as int) =~= part);
        lemma_same_places(part, body, i);
        let at = record_at(body, i);
        let here = part.skip(at);
        let there = body.skip(at);
        assert(record_stream_error(there) is None);
        assert forall|k: int| 0 <= k < here.len() implies here[k] == there[k] by {
            assert(body.take(part.len() as int)[at + k] == body[at + k]);
        }
        assert(record_at(body, (i + 1) as nat) == at + record_len(there));
        lemma_records_go_on(body, (i + 1) as nat, n);
    }
}

/// Records that have arrived lie inside what has arrived.
proof fn lemma_records_inside(b: Seq<u8>, n: nat)
    requires
        records_arrived(b, n as int),
    ensures
        0 <= record_at(b, n) <= b.len(),
    decreases n,
{
    if n > 0 {
        let i = (n - 1) as nat;
        lemma_records_inside(b, i);
        assert(record_stream_error(b.skip(record_at(b, i))) is None);
    }
}

proof fn lemma_records_go_on(b: Seq<u8>, i: nat, n: nat)
    requires
        i <= n,
        records_arrived(b, n as int),
    ensures
        record_at(b, i) <= record_at(b, n),
    decreases n - i,
{
    if i < n {
        lemma_records_inside(b, i);
        lemma_records_go_on(b, (i + 1) as nat, n);
    }
}

/// Records stand at the same places in what has arrived and in what will have.
proof fn lemma_same_places(b: Seq<u8>, c: Seq<u8>, i: nat)
    requires
        b.len() <= c.len(),
        c.take(b.len() as int) == b,
        records_arrived(b, i as int),
    ensures
        record_at(b, i) == record_at(c, i),
        0 <= record_at(b, i) <= b.len(),
    decreases i,
{
    lemma_records_inside(b, i);
    if i > 0 {
        let j = (i - 1) as nat;
        lemma_same_places(b, c, j);
        let at = record_at(b, j);
        assert(record_stream_error(b.skip(at)) is None);
        assert(c.take(b.len() as int)[at + SIZE_USB_DEVICE - 1] == c[at + SIZE_USB_DEVICE - 1]);
    }
}

/// Which commands are taken off a stream, by the bytes they begin with: submits and
/// unlinks, 1 and 2 in the first four bytes. A submit states its length in bytes 24 to 27,
/// which may be as much as is allowed, and the number of its packets in bytes 32 to 35,
/// which may be 1024; a number with its top bit set is a negative one, which is no length,
/// but as a number of packets means none. Data follows unless the direction is 1, and
/// sixteen bytes follow for each packet.
pub proof fn lemma_which_commands_are_taken(b: Seq<u8>, max_transfer: usize)
    requires
        b.len() >= 48,
    ensures
        ({
            let command = network_value(b.subrange(0, 4));
            let direction = network_value(b.subrange(12, 16));
            let length = network_value(b.subrange(24, 28));
            let packets = network_value(b.subrange(32, 36));
            let data = if direction == 1 {
                0
            } else {
                length
            };
            let iso = if packets < 0x8000_0000 {
                packets
            } else {
                0
            };
            &&& command == 1 && (length >= 0x8000_0000 || length > max_transfer || 1024 < packets
                < 0x8000_0000) ==> (pdu_error(b, max_transfer) matches Some((e, at)) && e is Proto
                && at == 48)
            &&& command == 1 && length < 0x8000_0000 && length <= max_transfer && iso <= 1024 ==> {
                &&& pdu_error(b, max_transfer) is None <==> b.len() >= 48 + data + 16 * iso
                &&& pdu_error(b, max_transfer) is Some ==> pdu_error(b, max_transfer)->Some_0.0
                    is UnexpectedEof
                &&& pdu_len(b) == 48 + data + 16 * iso
            }
            &&& command == 2 ==> pdu_error(b, max_transfer) is None && pdu_len(b) == 48
            &&& command == 3 || command == 4 ==> (pdu_error(b, max_transfer) matches Some((e, at))
                && e is NotACommand && e->command == command && at == 48)
            &&& command == 0 || command > 4 ==> pdu_error(b, max_transfer) == Some(
                (Error::Proto(ProtoError::BadCommand(command as u32)), 48int),
            )
        }),
{
    lemma_read_in_network_byte_order(b, 0);
    lemma_read_in_network_byte_order(b, 12);
    lemma_read_in_network_byte_order(b, 24);
    lemma_read_in_network_byte_order(b, 32);
    lemma_directions(u32_at(b, 12));
}

/// Fewer bytes than a header are waited for, and so many as it is short of.
pub proof fn lemma_what_a_short_stream_lacks(b: Seq<u8>, max_transfer: usize)
    ensures
        b.len() < 48 ==> pdu_error(b, max_transfer) == Some(
            (Error::UnexpectedEof { missing: (48 - b.len()) as usize }, 0int),
        ),
        b.len() < 8 ==> op_request_at(b) == (
            Err::<Option<Option<Seq<char>>>, Error>(
                Error::UnexpectedEof { missing: (8 - b.len()) as usize },
            ),
            0int,
        ),
        b.len() < 8 ==> import_reply_at(b) == (
            Err::<DeviceRecord, Error>(Error::UnexpectedEof { missing: (8 - b.len()) as usize }),
            0int,
        ),
{
}

/// What a request asks for, by its bytes: revision 0x0111 in the first two, and 0x8005 for
/// the list of devices or 0x8003 for one device in the next two. Another revision is an
/// error, and another request one that is not known.
pub proof fn lemma_which_requests_are_known(b: Seq<u8>)
    requires
        b.len() >= 8,
    ensures
        ({
            let version = network_value(b.subrange(0, 2));
            let code = network_value(b.subrange(2, 4));
            let (r, taken) = op_request_at(b);
            &&& version != 0x0111 ==> r == Err::<Option<Option<Seq<char>>>, Error>(
                Error::Proto(ProtoError::BadVersion(version as u16)),
            ) && taken == 8
            &&& version == 0x0111 && code == 0x8005 ==> r == Ok::<
                Option<Option<Seq<char>>>,
                Error,
            >(Some(None)) && taken == 8
            &&& version == 0x0111 && code != 0x8005 && code != 0x8003 ==> r == Ok::<
                Option<Option<Seq<char>>>,
                Error,
            >(None) && taken == 8
            &&& version == 0x0111 && code == 0x8003 ==> {
                &&& b.len() < 40 ==> (r matches Err(e) && e == Error::UnexpectedEof {
                    missing: (40 - b.len()) as usize,
                })
                &&& r is Ok ==> taken == 40 && r->Ok_0 is Some && r->Ok_0->Some_0 is Some
            }
        }),
{
    lemma_read_in_network_byte_order(b, 0);
    lemma_read_in_network_byte_order(b, 2);
}

/// Which replies are refusals, by their bytes: those in another revision than 0x0111, those
/// to something else than was asked, and those with a status, in bytes 4 to 7, that is not
/// zero, which is handed on.
pub proof fn lemma_which_replies_are_refusals(b: Seq<u8>, code: u16)
    requires
        b.len() >= 8,
    ensures
        ({
            let version = network_value(b.subrange(0, 2));
            let got = network_value(b.subrange(2, 4));
            let status = network_value(b.subrange(4, 8));
            let e = reply_error(OpHeader::at(b), code);
            &&& e is None <==> version == 0x0111 && got == code && status == 0
            &&& version != 0x0111 ==> e == Some(
                Error::Proto(ProtoError::BadVersion(version as u16)),
            )
            &&& version == 0x0111 && got != code ==> e == Some(
                Error::UnexpectedReply { expected: code, got: got as u16 },
            )
            &&& version == 0x0111 && got == code && status != 0 ==> e == Some(
                Error::Refused { status: status as u32 },
            )
        }),
{
    lemma_read_in_network_byte_order(b, 0);
    lemma_read_in_network_byte_order(b, 2);
    lemma_read_in_network_byte_order(b, 4);
}

/// Which replies to a submit are taken, by their bytes, and how much data they bring: as
/// much as bytes 24 to 27 say where the submit was an IN, and none otherwise.
pub proof fn lemma_which_completions_are_taken(
    b: Seq<u8>,
    dir: Option<Direction>,
    max_transfer: usize,
)
    requires
        b.len() >= 48,
    ensures
        ({
            let command = network_value(b.subrange(0, 4));
            let seqnum = network_value(b.subrange(4, 8));
            let length = network_value(b.subrange(24, 28));
            let n = if dir == Some(Direction::In) && length < 0x8000_0000 {
                length
            } else {
                0
            };
            let e = ret_submit_error(b, dir, max_transfer);
            &&& ret_data_len(b, dir) == n
            &&& e is None <==> command == 3 && dir is Some && n <= max_transfer && b.len() >= 48
                + n
            &&& command == 3 && dir is None ==> e == Some(
                (Error::UnknownSeqnum { seqnum: seqnum as u32 }, 48int),
            )
            &&& command == 1 || command == 2 || command == 4 ==> e == Some(
                (Error::NotARetSubmit, 48int),
            )
        }),
{
    lemma_read_in_network_byte_order(b, 0);
    lemma_read_in_network_byte_order(b, 4);
    lemma_read_in_network_byte_order(b, 24);
}

/// How many devices a list may have: a list that announces, in bytes 8 to 11, more than
/// 1024 of them is refused before any is read, and a shorter one never is for its length.
pub proof fn lemma_how_long_a_list_may_be(
    b: Seq<u8>,
    rest: Seq<u8>,
    r: Result<Seq<DeviceRecord>, Error>,
)
    requires
        b.len() >= 12,
        network_value(b.subrange(0, 2)) == 0x0111,
        network_value(b.subrange(2, 4)) == 5,
        network_value(b.subrange(4, 8)) == 0,
        devlist_stream_result(b, rest, r),
    ensures
        ({
            let n = network_value(b.subrange(8, 12));
            &&& n > 1024 ==> rest == b.skip(12) && (r matches Err(
                Error::Proto(ProtoError::TooLarge { field, value, max }),
            ) && value == n && max == 1024)
            &&& n <= 1024 && r is Ok ==> r->Ok_0.len() == n
            &&& n == 0 ==> r is Ok
            &&& n <= 1024 ==> !(r matches Err(Error::Proto(ProtoError::TooLarge { .. })))
        }),
{
    lemma_which_replies_are_refusals(b, OP_REP_DEVLIST);
    lemma_read_in_network_byte_order(b, 8);
}

} // verus!
