//! The connection-setup half of USB/IP: `OP_REQ_*` / `OP_REP_*`.
//!
//! Every message starts with the same 8-byte header (version, code, status).
//! A connection is in "op mode" until an `OP_REQ_IMPORT` succeeds, after which
//! both sides switch to the 48-byte command headers in [`crate::proto::pdu`].
use crate::proto::device::{
    lemma_record_reads_back, record_error, record_len, DeviceRecord, UsbDevice,
};
use crate::proto::wire::{
    be16, be32, byte_array, field_text, fits, lemma_be16_reads_back, lemma_be32_reads_back,
    lemma_network_byte_order, lemma_text_reads_back, network_value, text_bytes, truncated, u16_at,
    u32_at, Reader, Writer,
};
use crate::proto::{ProtoError, BUSID_LEN, PATH_LEN, SIZE_OP_HEADER, SIZE_USB_DEVICE, USBIP_VERSION};
use vstd::prelude::*;
use vstd::string::*;
use vstd::utf8::*;

verus! {

broadcast use {vstd::slice::group_slice_axioms, vstd::array::group_array_axioms};

pub const OP_REQ_DEVLIST: u16 = 0x8005;

pub const OP_REP_DEVLIST: u16 = 0x0005;

pub const OP_REQ_IMPORT: u16 = 0x8003;

pub const OP_REP_IMPORT: u16 = 0x0003;

/// `OP_REP_*` status codes. Anything non-zero means the request failed and no
/// payload follows.
pub const ST_OK: u32 = 0x00;

pub const ST_NA: u32 = 0x01;

/// More devices than any real exporter has; bounds the allocation a hostile
/// count field could otherwise ask for.
pub const MAX_DEVLIST: u32 = 1024;

#[derive(Debug, Clone, Copy, PartialEq, Eq, Structural)]
pub struct OpHeader {
    pub version: u16,
    pub code: u16,
    pub status: u32,
}

/// What keeps `b` from beginning with an op header, and after how many bytes: it
/// ends inside the version, the code or the status.
pub open spec fn op_header_error(b: Seq<u8>) -> Option<(ProtoError, int)> {
    let n = b.len() as int;
    if n < 4 {
        Some((truncated(2, n % 2), n - n % 2))
    } else if n < SIZE_OP_HEADER {
        Some((truncated(4, n - 4), 4))
    } else {
        None
    }
}

impl OpHeader {
    pub open spec fn bytes(self) -> Seq<u8> {
        be16(self.version) + be16(self.code) + be32(self.status)
    }

    /// The header that `b` begins with.
    pub open spec fn at(b: Seq<u8>) -> OpHeader {
        OpHeader { version: u16_at(b, 0), code: u16_at(b, 2), status: u32_at(b, 4) }
    }

    /// The header of a message in the revision spoken here.
    pub open spec fn of(code: u16, status: u32) -> OpHeader {
        OpHeader { version: USBIP_VERSION, code, status }
    }

    pub fn new(code: u16, status: u32) -> (h: OpHeader)
        ensures
            h == OpHeader::of(code, status),
    {
        OpHeader { version: USBIP_VERSION, code, status }
    }

    pub fn encode(&self, w: &mut Writer)
        ensures
            final(w)@ == old(w)@ + self.bytes(),
    {
        w.u16(self.version);
        w.u16(self.code);
        w.u32(self.status);
        assert(w@ =~= old(w)@ + self.bytes());
    }

    pub fn to_bytes(&self) -> (a: [u8; SIZE_OP_HEADER])
        ensures
            a@ == self.bytes(),
    {
        let mut w = Writer::with_capacity(SIZE_OP_HEADER);
        self.encode(&mut w);
        assert(w@ =~= self.bytes());
        byte_array::<SIZE_OP_HEADER>(w.as_slice())
    }

    pub fn decode(r: &mut Reader) -> (res: Result<OpHeader, ProtoError>)
        ensures
            match res {
                Ok(h) => {
                    &&& op_header_error(old(r)@) is None
                    &&& h == OpHeader::at(old(r)@)
                    &&& final(r)@ == old(r)@.skip(SIZE_OP_HEADER as int)
                },
                Err(e) => op_header_error(old(r)@) matches Some((why, at)) && e == why && final(r)@
                    == old(r)@.skip(at),
            },
    {
        let ghost b = r@;
        assert(b.skip(0) =~= b);
        let version: u16 = r.u16()?;
        let code: u16 = r.u16()?;
        assert(r@ =~= b.skip(4));
        let status: u32 = r.u32()?;
        assert(r@ =~= b.skip(8));
        Ok(OpHeader { version, code, status })
    }

    pub fn from_bytes(b: &[u8]) -> (res: Result<OpHeader, ProtoError>)
        ensures
            match res {
                Ok(h) => op_header_error(b@) is None && h == OpHeader::at(b@),
                Err(e) => op_header_error(b@) matches Some((why, at)) && e == why,
            },
    {
        OpHeader::decode(&mut Reader::new(b))
    }

    /// Reject a peer speaking a different revision rather than misparsing it.
    pub fn check_version(&self) -> (res: Result<(), ProtoError>)
        ensures
            match res {
                Ok(_) => self.version == USBIP_VERSION,
                Err(e) => self.version != USBIP_VERSION && e == ProtoError::BadVersion(
                    self.version,
                ),
            },
    {
        if self.version == USBIP_VERSION {
            Ok(())
        } else {
            Err(ProtoError::BadVersion(self.version))
        }
    }
}

/// An op header is eight bytes and is read back from them, whatever follows.
pub proof fn lemma_op_header_reads_back(h: OpHeader, b: Seq<u8>)
    requires
        b.len() >= SIZE_OP_HEADER,
        b.take(SIZE_OP_HEADER as int) == h.bytes(),
    ensures
        h.bytes().len() == SIZE_OP_HEADER,
        op_header_error(b) is None,
        OpHeader::at(b) == h,
{
    let s = h.bytes();
    assert(b.subrange(0, 2) =~= b.take(8).subrange(0, 2));
    assert(s.subrange(0, 2) =~= be16(h.version));
    lemma_be16_reads_back(b, 0, h.version);
    assert(b.subrange(2, 4) =~= b.take(8).subrange(2, 4));
    assert(s.subrange(2, 4) =~= be16(h.code));
    lemma_be16_reads_back(b, 2, h.code);
    assert(b.subrange(4, 8) =~= b.take(8).subrange(4, 8));
    assert(s.subrange(4, 8) =~= be32(h.status));
    lemma_be32_reads_back(b, 4, h.status);
}

// ---------------------------------------------------------------------------
// Import

/// `OP_REQ_IMPORT`: the header and a single NUL-padded bus id.
pub open spec fn import_request_bytes(busid: Seq<char>) -> Seq<u8> {
    OpHeader::of(OP_REQ_IMPORT, 0).bytes() + text_bytes(busid, BUSID_LEN as nat)
}

pub fn encode_import_request(busid: &str) -> (v: Vec<u8>)
    ensures
        v@ == import_request_bytes(busid@),
{
    let mut w = Writer::with_capacity(SIZE_OP_HEADER + BUSID_LEN);
    OpHeader::new(OP_REQ_IMPORT, 0).encode(&mut w);
    w.text_field(busid, BUSID_LEN);
    assert(w@ =~= import_request_bytes(busid@));
    w.into_vec()
}

pub fn decode_import_request_body(b: &[u8]) -> (r: Result<String, ProtoError>)
    ensures
        match r {
            Ok(s) => {
                &&& b@.len() >= BUSID_LEN
                &&& valid_utf8(field_text(b@.take(BUSID_LEN as int)))
                &&& s@ == decode_utf8(field_text(b@.take(BUSID_LEN as int)))
            },
            Err(e) => if b@.len() < BUSID_LEN {
                e == truncated(BUSID_LEN as int, b@.len() as int)
            } else {
                e == ProtoError::Utf8 && !valid_utf8(field_text(b@.take(BUSID_LEN as int)))
            },
        },
{
    Reader::new(b).text_field(BUSID_LEN)
}

/// An import request names a device that its reader gets back, if the bus id is
/// short enough for the field and has no NUL inside.
pub proof fn lemma_import_request_reads_back(busid: Seq<char>)
    requires
        fits(busid, BUSID_LEN as nat),
    ensures
        import_request_bytes(busid).len() == SIZE_OP_HEADER + BUSID_LEN,
        OpHeader::at(import_request_bytes(busid)) == OpHeader::of(OP_REQ_IMPORT, 0),
        ({
            let body = import_request_bytes(busid).skip(SIZE_OP_HEADER as int);
            &&& valid_utf8(field_text(body.take(BUSID_LEN as int)))
            &&& decode_utf8(field_text(body.take(BUSID_LEN as int))) == busid
        }),
{
    let b = import_request_bytes(busid);
    let h = OpHeader::of(OP_REQ_IMPORT, 0);
    assert(b.take(8) =~= h.bytes());
    lemma_op_header_reads_back(h, b);
    lemma_text_reads_back(busid, BUSID_LEN as nat);
    assert(b.skip(8).take(32) =~= text_bytes(busid, 32));
}

/// `OP_REP_IMPORT`: the header plus, on success, the device record without
/// interfaces. A refusal is the header alone.
pub open spec fn import_reply_bytes(dev: Option<DeviceRecord>) -> Seq<u8> {
    match dev {
        Some(d) => OpHeader::of(OP_REP_IMPORT, ST_OK).bytes() + d.bytes(false),
        None => OpHeader::of(OP_REP_IMPORT, ST_NA).bytes(),
    }
}

pub fn encode_import_reply(dev: Option<&UsbDevice>) -> (v: Vec<u8>)
    ensures
        v@ == import_reply_bytes(
            match dev {
                Some(d) => Some(d@),
                None => None,
            },
        ),
{
    let mut w = Writer::with_capacity(SIZE_OP_HEADER + SIZE_USB_DEVICE);
    match dev {
        Some(d) => {
            OpHeader::new(OP_REP_IMPORT, ST_OK).encode(&mut w);
            d.encode(&mut w, false);
            assert(w@ =~= import_reply_bytes(Some(d@)));
        },
        None => {
            OpHeader::new(OP_REP_IMPORT, ST_NA).encode(&mut w);
            assert(w@ =~= import_reply_bytes(None));
        },
    }
    w.into_vec()
}

pub fn decode_import_reply_body(b: &[u8]) -> (r: Result<UsbDevice, ProtoError>)
    ensures
        match r {
            Ok(d) => record_error(b@, false) is None && d@ == DeviceRecord::at(b@, false),
            Err(e) => record_error(b@, false) matches Some((why, at)) && e == why,
        },
{
    UsbDevice::decode(&mut Reader::new(b), false)
}

// ---------------------------------------------------------------------------
// Device list

/// `OP_REQ_DEVLIST` has no body beyond the header.
pub fn encode_devlist_request() -> (v: Vec<u8>)
    ensures
        v@ == OpHeader::of(OP_REQ_DEVLIST, 0).bytes(),
{
    let a = OpHeader::new(OP_REQ_DEVLIST, 0).to_bytes();
    vstd::slice::slice_to_vec(&a)
}

/// The records of the devices one after another, each with its interfaces.
pub open spec fn records_bytes(devs: Seq<DeviceRecord>) -> Seq<u8>
    decreases devs.len(),
{
    if devs.len() == 0 {
        Seq::empty()
    } else {
        records_bytes(devs.drop_last()) + devs.last().bytes(true)
    }
}

/// The records that the devices of a list stand for.
pub open spec fn records_of(devs: Seq<UsbDevice>) -> Seq<DeviceRecord> {
    devs.map_values(|d: UsbDevice| d@)
}

/// `OP_REP_DEVLIST`: header, device count, then each device with its interfaces.
pub open spec fn devlist_reply_bytes(devs: Seq<DeviceRecord>) -> Seq<u8> {
    OpHeader::of(OP_REP_DEVLIST, ST_OK).bytes() + be32(devs.len() as u32) + records_bytes(devs)
}

pub fn encode_devlist_reply(devs: &[UsbDevice]) -> (v: Vec<u8>)
    ensures
        v@ == devlist_reply_bytes(records_of(devs@)),
{
    let mut w = Writer::new();
    OpHeader::new(OP_REP_DEVLIST, ST_OK).encode(&mut w);
    w.u32(
        #[verifier::truncate]
        (devs.len() as u32),
    );
    let ghost head = w@;
    let ghost all = records_of(devs@);
    let mut i: usize = 0;
    assert(w@ =~= head + records_bytes(all.take(0)));
    while i < devs.len()
        invariant
            i <= devs@.len(),
            all == records_of(devs@),
            w@ == head + records_bytes(all.take(i as int)),
        decreases devs@.len() - i,
    {
        devs[i].encode(&mut w, true);
        i = i + 1;
        proof {
            assert(all.take(i as int).drop_last() =~= all.take(i - 1));
            assert(all.take(i as int).last() == devs@[i - 1]@);
            assert(w@ =~= head + records_bytes(all.take(i as int)));
        }
    }
    assert(all.take(i as int) =~= all);
    assert(w@ =~= devlist_reply_bytes(all));
    w.into_vec()
}

/// Where the record with number `i` of those at the head of `b` begins.
pub open spec fn record_at(b: Seq<u8>, i: nat) -> int
    decreases i,
{
    if i == 0 {
        0
    } else {
        let at = record_at(b, (i - 1) as nat);
        at + record_len(b.skip(at))
    }
}

/// Whether the first `n` records at the head of `b` are all whole.
pub open spec fn records_whole(b: Seq<u8>, n: int) -> bool {
    forall|i: nat| i < n ==> (#[trigger] record_error(b.skip(record_at(b, i)), true)) is None
}

/// Whether `devs` is what the first records at the head of `b` spell out.
pub open spec fn records_are(devs: Seq<DeviceRecord>, b: Seq<u8>) -> bool {
    forall|i: nat|
        i < devs.len() ==> #[trigger] devs[i as int] == DeviceRecord::at(
            b.skip(record_at(b, i)),
            true,
        )
}

/// Whether reading a record stops for the reason `e`.
pub open spec fn record_fails(error: Option<(ProtoError, int)>, e: ProtoError) -> bool {
    error matches Some((why, at)) && e == why
}

/// The error of a count over the limit.
pub open spec fn devlist_too_large(n: u32) -> ProtoError {
    ProtoError::TooLarge { field: "devlist count", value: n as i64, max: 1024 }
}

/// The result of decoding the body of a device list: a count that is too large is
/// refused before anything else; otherwise the records up to the first that is
/// not whole must be all of them.
pub open spec fn devlist_body_result(
    b: Seq<u8>,
    r: Result<Seq<DeviceRecord>, ProtoError>,
) -> bool {
    let n = u32_at(b, 0);
    let body = b.skip(4);
    if b.len() < 4 {
        r == Err::<Seq<DeviceRecord>, ProtoError>(truncated(4, b.len() as int))
    } else if n > MAX_DEVLIST {
        r == Err::<Seq<DeviceRecord>, ProtoError>(devlist_too_large(n))
    } else {
        match r {
            Ok(devs) => devs.len() == n && records_whole(body, n as int) && records_are(devs, body),
            Err(e) => exists|i: nat|
                i < n && records_whole(body, i as int) && record_fails(
                    #[trigger] record_error(body.skip(record_at(body, i)), true),
                    e,
                ),
        }
    }
}

pub fn decode_devlist_reply_body(b: &[u8]) -> (r: Result<Vec<UsbDevice>, ProtoError>)
    ensures
        devlist_body_result(
            b@,
            match r {
                Ok(devs) => Ok(records_of(devs@)),
                Err(e) => Err(e),
            },
        ),
{
    let mut r = Reader::new(b);
    let n: u32 = r.u32()?;
    // The count comes from the peer; bound it before reserving.
    if n > MAX_DEVLIST {
        return Err(ProtoError::TooLarge { field: "devlist count", value: n as i64, max: 1024 });
    }
    let mut out: Vec<UsbDevice> = Vec::with_capacity(n as usize);
    let ghost body = b@.skip(4);
    assert(body.skip(0) =~= body);
    let mut i: u32 = 0;
    while i < n
        invariant
            i <= n <= MAX_DEVLIST,
            b@.len() >= 4,
            n == u32_at(b@, 0),
            body == b@.skip(4),
            out@.len() == i,
            0 <= record_at(body, i as nat) <= body.len(),
            r@ == body.skip(record_at(body, i as nat)),
            records_whole(body, i as int),
            records_are(records_of(out@), body),
        decreases n - i,
    {
        let ghost at = record_at(body, i as nat);
        let ghost had = records_of(out@);
        let d = match UsbDevice::decode(&mut r, true) {
            Ok(d) => d,
            Err(e) => {
                assert(record_error(body.skip(record_at(body, i as nat)), true) is Some);
                return Err(e);
            },
        };
        out.push(d);
        proof {
            assert(records_of(out@) =~= had.push(d@));
            assert(record_at(body, (i + 1) as nat) == at + record_len(body.skip(at)));
            assert(r@ =~= body.skip(record_at(body, (i + 1) as nat)));
        }
        i = i + 1;
    }
    Ok(out)
}

pub proof fn lemma_records_positions(devs: Seq<DeviceRecord>, b: Seq<u8>, i: nat)
    requires
        i <= devs.len(),
        records_bytes(devs).len() <= b.len(),
        b.take(records_bytes(devs).len() as int) == records_bytes(devs),
        forall|k: int|
            0 <= k < devs.len() ==> fits((#[trigger] devs[k]).path, PATH_LEN as nat) && fits(
                devs[k].busid,
                BUSID_LEN as nat,
            ),
    ensures
        record_at(b, i) == records_bytes(devs.take(i as int)).len(),
        records_whole(b, i as int),
        forall|k: nat|
            k < i ==> DeviceRecord::at(b.skip(#[trigger] record_at(b, k)), true)
                == devs[k as int].as_received(true),
    decreases i,
{
    if i > 0 {
        let j = (i - 1) as nat;
        lemma_records_positions(devs, b, j);
        lemma_records_prefix(devs, i as int);
        let at = records_bytes(devs.take(j as int)).len() as int;
        let d = devs[j as int];
        assert(devs.take(i as int).drop_last() =~= devs.take(j as int));
        assert(devs.take(i as int).last() == d);
        let here = records_bytes(devs.take(i as int));
        let rest = b.skip(at);
        let len = d.bytes(true).len() as int;
        assert(rest.take(len) =~= d.bytes(true)) by {
            assert forall|k: int| 0 <= k < len implies rest[k] == d.bytes(true)[k] by {
                assert(rest[k] == b.take(records_bytes(devs).len() as int)[at + k]);
                assert(records_bytes(devs)[at + k] == here[at + k]);
            }
        }
        lemma_record_reads_back(d, rest, true);
        assert forall|k: nat| k < i implies (#[trigger] record_error(
            b.skip(record_at(b, k)),
            true,
        )) is None by {
            if k < j {
            } else {
                assert(record_at(b, k) == at);
            }
        }
    }
}

proof fn lemma_records_prefix(devs: Seq<DeviceRecord>, i: int)
    requires
        0 <= i <= devs.len(),
    ensures
        records_bytes(devs.take(i)).len() <= records_bytes(devs).len(),
        records_bytes(devs).take(records_bytes(devs.take(i)).len() as int) == records_bytes(
            devs.take(i),
        ),
    decreases devs.len(),
{
    let s = records_bytes(devs);
    if i == devs.len() {
        assert(devs.take(i) =~= devs);
        assert(s.take(s.len() as int) =~= s);
    } else {
        lemma_records_prefix(devs.drop_last(), i);
        assert(devs.drop_last().take(i) =~= devs.take(i));
        let p = records_bytes(devs.take(i)).len() as int;
        assert(s.take(p) =~= records_bytes(devs.drop_last()).take(p));
    }
}

/// A list of at most as many devices as the limit allows, each with texts that
/// fit, is decoded into exactly those devices, in order and nothing besides,
/// however their numbers of interfaces are mixed.
pub proof fn lemma_devlist_reads_back(
    devs: Seq<DeviceRecord>,
    r: Result<Seq<DeviceRecord>, ProtoError>,
)
    requires
        devs.len() <= MAX_DEVLIST,
        forall|k: int|
            0 <= k < devs.len() ==> fits((#[trigger] devs[k]).path, PATH_LEN as nat) && fits(
                devs[k].busid,
                BUSID_LEN as nat,
            ),
        devlist_body_result(devlist_reply_bytes(devs).skip(SIZE_OP_HEADER as int), r),
    ensures
        OpHeader::at(devlist_reply_bytes(devs)) == OpHeader::of(OP_REP_DEVLIST, ST_OK),
        r == Ok::<Seq<DeviceRecord>, ProtoError>(
            devs.map_values(|d: DeviceRecord| d.as_received(true)),
        ),
{
    let whole = devlist_reply_bytes(devs);
    let h = OpHeader::of(OP_REP_DEVLIST, ST_OK);
    assert(whole.take(8) =~= h.bytes());
    lemma_op_header_reads_back(h, whole);
    let b = whole.skip(8);
    assert(b.subrange(0, 4) =~= be32(devs.len() as u32));
    lemma_be32_reads_back(b, 0, devs.len() as u32);
    let body = b.skip(4);
    assert(body =~= records_bytes(devs));
    assert(body.take(records_bytes(devs).len() as int) =~= records_bytes(devs));
    lemma_records_positions(devs, body, devs.len());
    match r {
        Ok(got) => {
            let want = devs.map_values(|d: DeviceRecord| d.as_received(true));
            assert forall|i: int| 0 <= i < got.len() implies got[i] == want[i] by {
                let k = i as nat;
                assert(got[k as int] == DeviceRecord::at(body.skip(record_at(body, k)), true));
            }
            assert(got =~= want);
        },
        Err(e) => {
            let i = choose|i: nat|
                i < devs.len() && records_whole(body, i as int) && record_fails(
                    #[trigger] record_error(body.skip(record_at(body, i)), true),
                    e,
                );
            assert(record_error(body.skip(record_at(body, i)), true) is None);
        },
    }
}

/// What the messages of the handshake are, byte by byte: revision 1.1.1, the code, the
/// status; the bus id in its field; the device count and the records in order. A refusal
/// is its header alone, and its status is one.
pub proof fn lemma_handshake_layout(busid: Seq<char>, d: DeviceRecord, devs: Seq<DeviceRecord>)
    requires
        devs.len() < 0x1_0000_0000,
    ensures
        OpHeader::of(OP_REQ_DEVLIST, 0).bytes() == seq![1u8, 0x11, 0x80, 5, 0, 0, 0, 0],
        import_request_bytes(busid) == seq![1u8, 0x11, 0x80, 3, 0, 0, 0, 0] + text_bytes(
            busid,
            32,
        ),
        import_reply_bytes(None) == seq![1u8, 0x11, 0, 3, 0, 0, 0, 1],
        import_reply_bytes(Some(d)) == seq![1u8, 0x11, 0, 3, 0, 0, 0, 0] + d.bytes(false),
        devlist_reply_bytes(devs).take(8) == seq![1u8, 0x11, 0, 5, 0, 0, 0, 0],
        network_value(devlist_reply_bytes(devs).subrange(8, 12)) == devs.len(),
        devlist_reply_bytes(devs).skip(12) == records_bytes(devs),
        records_bytes(Seq::empty()).len() == 0,
        records_bytes(devs.push(d)) == records_bytes(devs) + d.bytes(true),
{
    assert(OpHeader::of(OP_REQ_DEVLIST, 0).bytes() =~= seq![1u8, 0x11, 0x80, 5, 0, 0, 0, 0]);
    assert(OpHeader::of(OP_REQ_IMPORT, 0).bytes() =~= seq![1u8, 0x11, 0x80, 3, 0, 0, 0, 0]);
    assert(OpHeader::of(OP_REP_IMPORT, ST_NA).bytes() =~= seq![1u8, 0x11, 0, 3, 0, 0, 0, 1]);
    assert(OpHeader::of(OP_REP_IMPORT, ST_OK).bytes() =~= seq![1u8, 0x11, 0, 3, 0, 0, 0, 0]);
    assert(devlist_reply_bytes(devs).take(8) =~= seq![1u8, 0x11, 0, 5, 0, 0, 0, 0]);
    lemma_network_byte_order(0, devs.len() as u32, 0);
    assert(devlist_reply_bytes(devs).subrange(8, 12) =~= be32(devs.len() as u32));
    assert(devlist_reply_bytes(devs).skip(12) =~= records_bytes(devs));
    assert(devs.push(d).drop_last() =~= devs);
}

} // verus!
