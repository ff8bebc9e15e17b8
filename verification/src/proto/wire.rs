//! Big-endian cursor helpers.
//!
//! Every multi-byte field in USB/IP is network byte order, so these are the only
//! integer accessors the crate uses. Both halves are total functions over byte
//! slices: nothing here touches a socket.
use crate::proto::ProtoError;
use vstd::prelude::*;
use vstd::string::*;
use vstd::utf8::*;

verus! {

broadcast use vstd::slice::group_slice_axioms;

// ---------------------------------------------------------------------------
// Numbers as bytes, most significant first

pub open spec fn be16(v: u16) -> Seq<u8> {
    seq![(v / 0x100) as u8, (v % 0x100) as u8]
}

pub open spec fn be32(v: u32) -> Seq<u8> {
    seq![
        (v / 0x100_0000) as u8,
        (v / 0x1_0000 % 0x100) as u8,
        (v / 0x100 % 0x100) as u8,
        (v % 0x100) as u8,
    ]
}

pub open spec fn be64(v: u64) -> Seq<u8> {
    be32((v / 0x1_0000_0000) as u32) + be32((v % 0x1_0000_0000) as u32)
}

pub open spec fn u16_at(b: Seq<u8>, i: int) -> u16 {
    (b[i] * 0x100 + b[i + 1]) as u16
}

pub open spec fn u32_at(b: Seq<u8>, i: int) -> u32 {
    (b[i] * 0x100_0000 + b[i + 1] * 0x1_0000 + b[i + 2] * 0x100 + b[i + 3]) as u32
}

pub open spec fn u64_at(b: Seq<u8>, i: int) -> u64 {
    (u32_at(b, i) * 0x1_0000_0000 + u32_at(b, i + 4)) as u64
}

/// The two's complement reading of the same four bytes.
pub open spec fn i32_at(b: Seq<u8>, i: int) -> i32 {
    u32_at(b, i) as i32
}

/// A 16-bit number reads back from its own bytes.
pub proof fn lemma_be16_reads_back(b: Seq<u8>, i: int, v: u16)
    requires
        0 <= i,
        i + 2 <= b.len(),
        b.subrange(i, i + 2) == be16(v),
    ensures
        u16_at(b, i) == v,
{
    let s = b.subrange(i, i + 2);
    assert(b[i] == s[0] && b[i + 1] == s[1]);
}

/// A 32-bit number reads back from its own bytes.
pub proof fn lemma_be32_reads_back(b: Seq<u8>, i: int, v: u32)
    requires
        0 <= i,
        i + 4 <= b.len(),
        b.subrange(i, i + 4) == be32(v),
    ensures
        u32_at(b, i) == v,
{
    let s = b.subrange(i, i + 4);
    assert(b[i] == s[0] && b[i + 1] == s[1] && b[i + 2] == s[2] && b[i + 3] == s[3]);
}

/// A signed 32-bit number reads back from the bytes of its two's complement.
pub proof fn lemma_be32_reads_back_signed(b: Seq<u8>, i: int, v: i32)
    requires
        0 <= i,
        i + 4 <= b.len(),
        b.subrange(i, i + 4) == be32(v as u32),
    ensures
        i32_at(b, i) == v,
{
    lemma_be32_reads_back(b, i, v as u32);
    assert((v as u32) as i32 == v) by (bit_vector);
}

/// A 64-bit number reads back from its own bytes.
pub proof fn lemma_be64_reads_back(b: Seq<u8>, i: int, v: u64)
    requires
        0 <= i,
        i + 8 <= b.len(),
        b.subrange(i, i + 8) == be64(v),
    ensures
        u64_at(b, i) == v,
{
    assert(b.subrange(i, i + 4) =~= be64(v).take(4));
    assert(be64(v).take(4) =~= be32((v / 0x1_0000_0000) as u32));
    assert(b.subrange(i + 4, i + 8) =~= be64(v).skip(4));
    assert(be64(v).skip(4) =~= be32((v % 0x1_0000_0000) as u32));
    lemma_be32_reads_back(b, i, (v / 0x1_0000_0000) as u32);
    lemma_be32_reads_back(b, i + 4, (v % 0x1_0000_0000) as u32);
}

// ---------------------------------------------------------------------------
// Text fields

/// How many bytes come before the first NUL: all of them if there is none.
pub open spec fn nul_at(b: Seq<u8>) -> int
    decreases b.len(),
{
    if b.len() == 0 || b[0] == 0 {
        0
    } else {
        1 + nul_at(b.drop_first())
    }
}

pub proof fn lemma_nul_at(b: Seq<u8>, i: int)
    requires
        0 <= i <= b.len(),
        i < b.len() ==> b[i] == 0,
        forall|j: int| 0 <= j < i ==> b[j] != 0,
    ensures
        nul_at(b) == i,
    decreases b.len(),
{
    if b.len() == 0 || b[0] == 0 {
        if i > 0 {
            assert(b[0] != 0);
        }
    } else {
        assert(i > 0);
        let t = b.drop_first();
        assert forall|j: int| 0 <= j < i - 1 implies t[j] != 0 by {
            assert(t[j] == b[j + 1]);
        }
        if i < b.len() {
            assert(t[i - 1] == b[i]);
        }
        lemma_nul_at(t, i - 1);
    }
}

/// The part of a text field that holds text: what comes before its first NUL.
pub open spec fn field_text(b: Seq<u8>) -> Seq<u8> {
    b.take(nul_at(b))
}

/// What a field of `n` bytes holds of the text `s`: as much of it as leaves room
/// for one NUL, then NULs.
pub open spec fn text_bytes(s: Seq<char>, n: nat) -> Seq<u8> {
    let src = encode_utf8(s);
    let room: int = if n == 0 {
        0
    } else {
        n - 1
    };
    let kept: int = if src.len() < room {
        src.len() as int
    } else {
        room
    };
    src.take(kept) + Seq::new((n - kept) as nat, |i: int| 0u8)
}

/// Whether a field of `n` bytes holds the whole of `s` and gives it back: the
/// text is short enough to leave room for a NUL, and has none inside.
pub open spec fn fits(s: Seq<char>, n: nat) -> bool {
    &&& encode_utf8(s).len() < n
    &&& forall|i: int| 0 <= i < s.len() ==> s[i] != '\0'
}

proof fn lemma_scalar_bytes_nonzero(v: u32)
    by (bit_vector)
    requires
        v != 0,
        v <= 0x10ffff,
    ensures
        v <= 0x7f ==> (v & 0x7f) as u8 != 0,
        0xC0u8 | ((v >> 6) & 0x1F) as u8 != 0,
        0xE0u8 | ((v >> 12) & 0x0F) as u8 != 0,
        0xF0u8 | ((v >> 18) & 0x7) as u8 != 0,
        0x80u8 | (v & 0x3F) as u8 != 0,
        0x80u8 | ((v >> 6) & 0x3F) as u8 != 0,
        0x80u8 | ((v >> 12) & 0x3F) as u8 != 0,
{
}

proof fn lemma_encoded_text_has_no_nul(s: Seq<char>)
    requires
        forall|i: int| 0 <= i < s.len() ==> s[i] != '\0',
    ensures
        forall|i: int| 0 <= i < encode_utf8(s).len() ==> encode_utf8(s)[i] != 0,
    decreases s.len(),
{
    if s.len() > 0 {
        let first = encode_scalar(s[0] as u32);
        let rest = encode_utf8(s.drop_first());
        char_is_scalar(s[0]);
        assert(s[0] != '\0');
        if s[0] as u32 == 0 {
            char_u32_cast(s[0], 0u32);
            char_u32_cast('\0', 0u32);
        }
        lemma_scalar_bytes_nonzero(s[0] as u32);
        lemma_encoded_text_has_no_nul(s.drop_first());
        assert forall|i: int| 0 <= i < encode_utf8(s).len() implies encode_utf8(s)[i] != 0 by {
            if i < first.len() {
                assert(encode_utf8(s)[i] == first[i]);
            } else {
                assert(encode_utf8(s)[i] == rest[i - first.len()]);
            }
        }
    }
}

/// A text that fits its field reads back from it unchanged.
pub proof fn lemma_text_reads_back(s: Seq<char>, n: nat)
    requires
        fits(s, n),
    ensures
        text_bytes(s, n).len() == n,
        valid_utf8(field_text(text_bytes(s, n))),
        decode_utf8(field_text(text_bytes(s, n))) == s,
{
    let src = encode_utf8(s);
    let b = text_bytes(s, n);
    lemma_encoded_text_has_no_nul(s);
    assert(src.take(src.len() as int) =~= src);
    assert(b =~= src + Seq::new((n - src.len()) as nat, |i: int| 0u8));
    assert(b[src.len() as int] == 0);
    assert forall|j: int| 0 <= j < src.len() implies b[j] != 0 by {
        assert(b[j] == src[j]);
    }
    lemma_nul_at(b, src.len() as int);
    assert(field_text(b) =~= src);
    encode_utf8_valid_utf8(s);
    encode_utf8_decode_utf8(s);
}

/// Calls `core::str::from_utf8` and copies the text out. Claimed: bytes that are
/// valid UTF-8 give the text that they encode, and other bytes give nothing.
#[verifier::external_body]
pub(crate) fn utf8_text(b: &[u8]) -> (r: Option<String>)
    ensures
        match r {
            Some(s) => valid_utf8(b@) && s@ == decode_utf8(b@),
            None => !valid_utf8(b@),
        },
{
    core::str::from_utf8(b).ok().map(|s| s.to_owned())
}

/// Calls `<[u8]>::copy_from_slice` on an array of the slice's length. Claimed: the
/// array then holds the bytes of the slice.
#[verifier::external_body]
pub(crate) fn byte_array<const N: usize>(b: &[u8]) -> (a: [u8; N])
    requires
        b@.len() == N,
    ensures
        a@ == b@,
{
    let mut a = [0u8; N];
    a.copy_from_slice(b);
    a
}

// ---------------------------------------------------------------------------
// Reading

/// What reading `need` bytes out of `have` gives when there are too few.
pub open spec fn truncated(need: int, have: int) -> ProtoError {
    ProtoError::Truncated { need: need as usize, have: have as usize }
}

/// A cursor over bytes. Its view is what has not been read yet.
pub struct Reader<'a> {
    buf: &'a [u8],
    pos: usize,
}

impl<'a> View for Reader<'a> {
    type V = Seq<u8>;

    closed spec fn view(&self) -> Seq<u8> {
        self.buf@.skip(self.pos as int)
    }
}

impl<'a> Reader<'a> {
    #[verifier::type_invariant]
    spec fn inv(self) -> bool {
        self.pos <= self.buf@.len()
    }

    /// How many bytes have been read.
    pub closed spec fn pos(&self) -> nat {
        self.pos as nat
    }

    pub fn new(buf: &'a [u8]) -> (r: Self)
        ensures
            r@ == buf@,
            r.pos() == 0,
    {
        assert(buf@.skip(0) =~= buf@);
        Reader { buf, pos: 0 }
    }

    pub fn position(&self) -> (r: usize)
        ensures
            r == self.pos(),
    {
        self.pos
    }

    pub fn remaining(&self) -> (r: usize)
        ensures
            r == self@.len(),
    {
        proof {
            use_type_invariant(self);
        }
        self.buf.len() - self.pos
    }

    pub fn bytes(&mut self, n: usize) -> (r: Result<&'a [u8], ProtoError>)
        ensures
            match r {
                Ok(b) => {
                    &&& n <= old(self)@.len()
                    &&& b@ == old(self)@.take(n as int)
                    &&& final(self)@ == old(self)@.skip(n as int)
                    &&& final(self).pos() == old(self).pos() + n
                },
                Err(e) => {
                    &&& n > old(self)@.len()
                    &&& e == truncated(n as int, old(self)@.len() as int)
                    &&& *final(self) == *old(self)
                },
            },
    {
        proof {
            use_type_invariant(&*self);
        }
        let have: usize = self.remaining();
        if have < n {
            return Err(ProtoError::Truncated { need: n, have });
        }
        assert(self.buf@.len() == self.buf.len());
        let out = vstd::slice::slice_subrange(self.buf, self.pos, self.pos + n);
        assert(out@ =~= self@.take(n as int));
        let ghost rest = self@.skip(n as int);
        self.pos = self.pos + n;
        assert(self@ =~= rest);
        Ok(out)
    }

    pub fn skip(&mut self, n: usize) -> (r: Result<(), ProtoError>)
        ensures
            match r {
                Ok(_) => {
                    &&& n <= old(self)@.len()
                    &&& final(self)@ == old(self)@.skip(n as int)
                    &&& final(self).pos() == old(self).pos() + n
                },
                Err(e) => {
                    &&& n > old(self)@.len()
                    &&& e == truncated(n as int, old(self)@.len() as int)
                    &&& *final(self) == *old(self)
                },
            },
    {
        self.bytes(n)?;
        Ok(())
    }

    pub fn u8(&mut self) -> (r: Result<u8, ProtoError>)
        ensures
            match r {
                Ok(v) => {
                    &&& 1 <= old(self)@.len()
                    &&& v == old(self)@[0]
                    &&& final(self)@ == old(self)@.skip(1)
                    &&& final(self).pos() == old(self).pos() + 1
                },
                Err(e) => {
                    &&& 1 > old(self)@.len()
                    &&& e == truncated(1, old(self)@.len() as int)
                    &&& *final(self) == *old(self)
                },
            },
    {
        let b = self.bytes(1)?;
        Ok(b[0])
    }

    pub fn u16(&mut self) -> (r: Result<u16, ProtoError>)
        ensures
            match r {
                Ok(v) => {
                    &&& 2 <= old(self)@.len()
                    &&& v == u16_at(old(self)@, 0)
                    &&& final(self)@ == old(self)@.skip(2)
                    &&& final(self).pos() == old(self).pos() + 2
                },
                Err(e) => {
                    &&& 2 > old(self)@.len()
                    &&& e == truncated(2, old(self)@.len() as int)
                    &&& *final(self) == *old(self)
                },
            },
    {
        let b = self.bytes(2)?;
        Ok((b[0] as u16) * 0x100 + (b[1] as u16))
    }

    pub fn u32(&mut self) -> (r: Result<u32, ProtoError>)
        ensures
            match r {
                Ok(v) => {
                    &&& 4 <= old(self)@.len()
                    &&& v == u32_at(old(self)@, 0)
                    &&& final(self)@ == old(self)@.skip(4)
                    &&& final(self).pos() == old(self).pos() + 4
                },
                Err(e) => {
                    &&& 4 > old(self)@.len()
                    &&& e == truncated(4, old(self)@.len() as int)
                    &&& *final(self) == *old(self)
                },
            },
    {
        let b = self.bytes(4)?;
        Ok(
            (b[0] as u32) * 0x100_0000 + (b[1] as u32) * 0x1_0000 + (b[2] as u32) * 0x100 + (
            b[3] as u32),
        )
    }

    pub fn i32(&mut self) -> (r: Result<i32, ProtoError>)
        ensures
            match r {
                Ok(v) => {
                    &&& 4 <= old(self)@.len()
                    &&& v == i32_at(old(self)@, 0)
                    &&& final(self)@ == old(self)@.skip(4)
                    &&& final(self).pos() == old(self).pos() + 4
                },
                Err(e) => {
                    &&& 4 > old(self)@.len()
                    &&& e == truncated(4, old(self)@.len() as int)
                    &&& *final(self) == *old(self)
                },
            },
    {
        let v: u32 = self.u32()?;
        Ok(
            #[verifier::truncate]
            (v as i32),
        )
    }

    pub fn u64(&mut self) -> (r: Result<u64, ProtoError>)
        ensures
            match r {
                Ok(v) => {
                    &&& 8 <= old(self)@.len()
                    &&& v == u64_at(old(self)@, 0)
                    &&& final(self)@ == old(self)@.skip(8)
                    &&& final(self).pos() == old(self).pos() + 8
                },
                Err(e) => {
                    &&& 8 > old(self)@.len()
                    &&& e == truncated(8, old(self)@.len() as int)
                    &&& *final(self) == *old(self)
                },
            },
    {
        let b = self.bytes(8)?;
        let hi: u32 = (b[0] as u32) * 0x100_0000 + (b[1] as u32) * 0x1_0000 + (b[2] as u32) * 0x100
            + (b[3] as u32);
        let lo: u32 = (b[4] as u32) * 0x100_0000 + (b[5] as u32) * 0x1_0000 + (b[6] as u32) * 0x100
            + (b[7] as u32);
        Ok((hi as u64) * 0x1_0000_0000 + (lo as u64))
    }

    pub fn array<const N: usize>(&mut self) -> (r: Result<[u8; N], ProtoError>)
        ensures
            match r {
                Ok(a) => {
                    &&& N <= old(self)@.len()
                    &&& a@ == old(self)@.take(N as int)
                    &&& final(self)@ == old(self)@.skip(N as int)
                    &&& final(self).pos() == old(self).pos() + N
                },
                Err(e) => {
                    &&& N > old(self)@.len()
                    &&& e == truncated(N as int, old(self)@.len() as int)
                    &&& *final(self) == *old(self)
                },
            },
    {
        let b = self.bytes(N)?;
        Ok(byte_array::<N>(b))
    }

    /// A fixed-width NUL-padded text field (`path[256]`, `busid[32]`).
    pub fn text_field(&mut self, n: usize) -> (r: Result<String, ProtoError>)
        ensures
            n > old(self)@.len() ==> r == Err::<String, ProtoError>(
                truncated(n as int, old(self)@.len() as int),
            ) && *final(self) == *old(self),
            n <= old(self)@.len() ==> {
                &&& final(self)@ == old(self)@.skip(n as int)
                &&& final(self).pos() == old(self).pos() + n
                &&& match r {
                    Ok(s) => valid_utf8(field_text(old(self)@.take(n as int))) && s@
                        == decode_utf8(field_text(old(self)@.take(n as int))),
                    Err(e) => e == ProtoError::Utf8 && !valid_utf8(
                        field_text(old(self)@.take(n as int)),
                    ),
                }
            },
    {
        let b = self.bytes(n)?;
        let mut end: usize = 0;
        while end < b.len() && b[end] != 0
            invariant
                end <= b@.len(),
                forall|j: int| 0 <= j < end ==> b@[j] != 0,
            decreases b@.len() - end,
        {
            end = end + 1;
        }
        proof {
            lemma_nul_at(b@, end as int);
        }
        let text = vstd::slice::slice_subrange(b, 0, end);
        assert(text@ =~= field_text(b@));
        match utf8_text(text) {
            Some(s) => Ok(s),
            None => Err(ProtoError::Utf8),
        }
    }
}

// ---------------------------------------------------------------------------
// Writing

/// Bytes being put together. Its view is what has been written.
pub struct Writer {
    buf: Vec<u8>,
}

impl View for Writer {
    type V = Seq<u8>;

    closed spec fn view(&self) -> Seq<u8> {
        self.buf@
    }
}

impl Default for Writer {
    fn default() -> (w: Self)
        ensures
            w@ == Seq::<u8>::empty(),
    {
        Writer { buf: Vec::new() }
    }
}

impl Writer {
    pub fn new() -> (w: Self)
        ensures
            w@ == Seq::<u8>::empty(),
    {
        Writer { buf: Vec::new() }
    }

    pub fn with_capacity(n: usize) -> (w: Self)
        ensures
            w@ == Seq::<u8>::empty(),
    {
        Writer { buf: Vec::with_capacity(n) }
    }

    pub fn len(&self) -> (n: usize)
        ensures
            n == self@.len(),
    {
        self.buf.len()
    }

    pub fn is_empty(&self) -> (r: bool)
        ensures
            r == (self@.len() == 0),
    {
        self.buf.len() == 0
    }

    pub fn into_vec(self) -> (v: Vec<u8>)
        ensures
            v@ == self@,
    {
        self.buf
    }

    pub fn as_slice(&self) -> (s: &[u8])
        ensures
            s@ == self@,
    {
        self.buf.as_slice()
    }

    pub fn u8(&mut self, v: u8)
        ensures
            final(self)@ == old(self)@.push(v),
    {
        self.buf.push(v);
    }

    pub fn u16(&mut self, v: u16)
        ensures
            final(self)@ == old(self)@ + be16(v),
    {
        self.buf.push((v / 0x100) as u8);
        self.buf.push((v % 0x100) as u8);
        assert(self@ =~= old(self)@ + be16(v));
    }

    pub fn u32(&mut self, v: u32)
        ensures
            final(self)@ == old(self)@ + be32(v),
    {
        self.buf.push((v / 0x100_0000) as u8);
        self.buf.push((v / 0x1_0000 % 0x100) as u8);
        self.buf.push((v / 0x100 % 0x100) as u8);
        self.buf.push((v % 0x100) as u8);
        assert(self@ =~= old(self)@ + be32(v));
    }

    pub fn i32(&mut self, v: i32)
        ensures
            final(self)@ == old(self)@ + be32(v as u32),
    {
        self.u32(
            #[verifier::truncate]
            (v as u32),
        );
    }

    pub fn u64(&mut self, v: u64)
        ensures
            final(self)@ == old(self)@ + be64(v),
    {
        self.u32((v / 0x1_0000_0000) as u32);
        self.u32((v % 0x1_0000_0000) as u32);
        assert(self@ =~= old(self)@ + be64(v));
    }

    pub fn bytes(&mut self, v: &[u8])
        ensures
            final(self)@ == old(self)@ + v@,
    {
        self.buf.extend_from_slice(v);
        assert(self@ =~= old(self)@ + v@);
    }

    pub fn zeros(&mut self, n: usize)
        ensures
            final(self)@ == old(self)@ + Seq::new(n as nat, |i: int| 0u8),
    {
        let mut i: usize = 0;
        assert(self@ =~= old(self)@ + Seq::new(0, |i: int| 0u8));
        while i < n
            invariant
                i <= n,
                self@ == old(self)@ + Seq::new(i as nat, |i: int| 0u8),
            decreases n - i,
        {
            self.buf.push(0);
            i = i + 1;
            assert(self@ =~= old(self)@ + Seq::new(i as nat, |i: int| 0u8));
        }
    }

    /// Write `s` into a fixed-width NUL-padded field, truncating if it does not fit.
    pub fn text_field(&mut self, s: &str, n: usize)
        ensures
            final(self)@ == old(self)@ + text_bytes(s@, n as nat),
    {
        let src = s.as_bytes();
        let room: usize = n.saturating_sub(1);
        let take: usize = if src.len() < room {
            src.len()
        } else {
            room
        };
        self.bytes(vstd::slice::slice_subrange(src, 0, take));
        self.zeros(n - take);
        assert(self@ =~= old(self)@ + text_bytes(s@, n as nat));
    }
}

// ---------------------------------------------------------------------------
// Network byte order

/// The number that bytes spell, most significant first, however many there are.
pub open spec fn network_value(b: Seq<u8>) -> nat
    decreases b.len(),
{
    if b.len() == 0 {
        0
    } else {
        256 * network_value(b.drop_last()) + b.last() as nat
    }
}

proof fn lemma_network_two(b: Seq<u8>)
    requires
        b.len() == 2,
    ensures
        network_value(b) == b[0] * 256 + b[1],
{
    reveal_with_fuel(network_value, 3);
    assert(b.drop_last().drop_last() =~= Seq::empty());
}

proof fn lemma_network_four(b: Seq<u8>)
    requires
        b.len() == 4,
    ensures
        network_value(b) == b[0] * 0x100_0000 + b[1] * 0x1_0000 + b[2] * 256 + b[3],
{
    lemma_network_two(b.drop_last().drop_last());
    reveal_with_fuel(network_value, 3);
}

proof fn lemma_network_joined(a: Seq<u8>, b: Seq<u8>)
    requires
        b.len() == 4,
    ensures
        network_value(a + b) == network_value(a) * 0x1_0000_0000 + network_value(b),
{
    let s = a + b;
    lemma_network_four(b);
    reveal_with_fuel(network_value, 5);
    assert(s.drop_last().drop_last().drop_last().drop_last() =~= a);
}

/// The two readings of four bytes as a number differ by a whole turn, if at all.
pub proof fn lemma_signed_reading(v: u32, w: i32)
    ensures
        v as i32 == (if v < 0x8000_0000 {
            v as int
        } else {
            v - 0x1_0000_0000
        }),
        w as u32 == (if w < 0 {
            w + 0x1_0000_0000
        } else {
            w as int
        }),
{
    assert((v as i32) as i64 == (if v < 0x8000_0000 {
        v as i64
    } else {
        (v as i64 - 0x1_0000_0000i64) as i64
    })) by (bit_vector);
    assert((w as u32) as i64 == (if w < 0 {
        (w as i64 + 0x1_0000_0000i64) as i64
    } else {
        w as i64
    })) by (bit_vector);
}

/// Numbers are written in network byte order, whatever their width.
pub proof fn lemma_network_byte_order(v16: u16, v32: u32, v64: u64)
    ensures
        be16(v16).len() == 2 && network_value(be16(v16)) == v16,
        be32(v32).len() == 4 && network_value(be32(v32)) == v32,
        be64(v64).len() == 8 && network_value(be64(v64)) == v64,
{
    lemma_network_two(be16(v16));
    lemma_be32_value(v32);
    let (hi, lo) = ((v64 / 0x1_0000_0000) as u32, (v64 % 0x1_0000_0000) as u32);
    lemma_be32_value(hi);
    lemma_be32_value(lo);
    lemma_network_joined(be32(hi), be32(lo));
}

proof fn lemma_be32_value(v: u32)
    ensures
        be32(v).len() == 4,
        network_value(be32(v)) == v,
{
    lemma_network_four(be32(v));
    assert(be32(v).subrange(0, 4) =~= be32(v));
    lemma_be32_reads_back(be32(v), 0, v);
}

/// Numbers are read in network byte order, whatever their width; a signed one in two's
/// complement.
pub proof fn lemma_read_in_network_byte_order(b: Seq<u8>, i: int)
    requires
        0 <= i,
    ensures
        i + 2 <= b.len() ==> u16_at(b, i) == network_value(b.subrange(i, i + 2)),
        i + 4 <= b.len() ==> u32_at(b, i) == network_value(b.subrange(i, i + 4)),
        i + 4 <= b.len() ==> i32_at(b, i) == (if network_value(b.subrange(i, i + 4))
            < 0x8000_0000 {
            network_value(b.subrange(i, i + 4)) as int
        } else {
            network_value(b.subrange(i, i + 4)) - 0x1_0000_0000
        }),
        i + 8 <= b.len() ==> u64_at(b, i) == network_value(b.subrange(i, i + 8)),
{
    if i + 2 <= b.len() {
        lemma_network_two(b.subrange(i, i + 2));
    }
    if i + 4 <= b.len() {
        lemma_network_four(b.subrange(i, i + 4));
        lemma_signed_reading(u32_at(b, i), 0);
    }
    if i + 8 <= b.len() {
        lemma_read_eight(b, i);
    }
}

proof fn lemma_read_eight(b: Seq<u8>, i: int)
    requires
        0 <= i,
        i + 8 <= b.len(),
    ensures
        u64_at(b, i) == network_value(b.subrange(i, i + 8)),
{
    let (x, y) = (b.subrange(i, i + 4), b.subrange(i + 4, i + 8));
    lemma_network_four(x);
    lemma_network_four(y);
    assert(u32_at(b, i) == network_value(x));
    assert(u32_at(b, i + 4) == network_value(y));
    assert(b.subrange(i, i + 8) =~= x + y);
    lemma_network_joined(x, y);
}

/// A text field holds the bytes of the text from its first byte on, as many as leave room
/// for a NUL, and NULs behind them up to its length; what is read of a field is what
/// stands before its first NUL.
pub proof fn lemma_text_fields(s: Seq<char>, n: nat, b: Seq<u8>)
    requires
        n > 0,
    ensures
        text_bytes(s, n).len() == n,
        forall|k: int|
            0 <= k < n ==> #[trigger] text_bytes(s, n)[k] == (if k < n - 1 && k < encode_utf8(
                s,
            ).len() {
                encode_utf8(s)[k]
            } else {
                0
            }),
        field_text(b).len() <= b.len(),
        forall|k: int|
            0 <= k < field_text(b).len() ==> #[trigger] field_text(b)[k] == b[k] && b[k] != 0,
        field_text(b).len() < b.len() ==> b[field_text(b).len() as int] == 0,
{
    lemma_field_text(b);
}

proof fn lemma_field_text(b: Seq<u8>)
    ensures
        0 <= nul_at(b) <= b.len(),
        nul_at(b) < b.len() ==> b[nul_at(b)] == 0,
        forall|k: int| 0 <= k < nul_at(b) ==> b[k] != 0,
    decreases b.len(),
{
    if b.len() > 0 && b[0] != 0 {
        lemma_field_text(b.drop_first());
        assert forall|k: int| 0 <= k < nul_at(b) implies b[k] != 0 by {
            if k > 0 {
                assert(b[k] == b.drop_first()[k - 1]);
            }
        }
    }
}

} // verus!
