//! Variable-length, length-prefixed frame codec.
//!
//! A frame on the wire is `[header][payload]`.  The two low-order bits
//! of the header's first byte give the header length minus one (1 to 4
//! bytes); the payload length is the little-endian composition of the
//! header bytes shifted right by two, so the length sits in the high
//! bits above the two code bits.  A raw mode bypasses framing entirely.

use vstd::prelude::*;
use vstd::arithmetic::div_mod::lemma_fundamental_div_mod;
use vstd::arithmetic::div_mod::lemma_div_denominator;
use vstd::arithmetic::div_mod::lemma_mod_mod;
use vstd::arithmetic::div_mod::lemma_small_mod;
use vstd::arithmetic::div_mod::lemma_fundamental_div_mod_converse;
use crate::buffer::buf_bytes;
use crate::buffer::bytes_view;
use crate::buffer::buf_len;
use crate::buffer::buf_byte;
use crate::buffer::buf_advance;
use crate::buffer::buf_reserve;
use crate::buffer::buf_split_to;
use crate::buffer::buf_put_u8;
use crate::buffer::buf_put_u16_le;
use crate::buffer::buf_put_u32_le;
use crate::buffer::buf_put_bytes;
use crate::buffer::bytes_len;

verus! {

/// Decoder state: waiting for a header, or for a payload of the decoded
/// length.
#[derive(Debug, Clone, Copy)]
pub enum DecodeState {
    Head,
    Data(usize),
}

/// Protocol errors; both are fatal to the stream they occur on.
#[derive(Debug, Clone, Copy, PartialEq, Eq, Structural)]
pub enum CodecError {
    /// A decoded payload length exceeded `max_packet_length`.
    TooBigPacket,
    /// An encode payload was longer than the largest representable
    /// length, `0x3FFFFFFF`.
    Overflow,
}

/// Frame encoder/decoder over a growable byte buffer.  Stateless
/// between frames; the decoder state persists across partial reads.
#[derive(Debug, Clone, Copy)]
pub struct BytesCodec {
    pub state: DecodeState,
    pub raw: bool,
    pub max_packet_length: usize,
}

/// Header length promised by the first header byte: its two low bits,
/// plus one.
pub open spec fn head_len_of(b0: u8) -> nat {
    ((b0 & 3) + 1) as nat
}

/// Little-endian composition of a byte sequence.
pub open spec fn le_val(bs: Seq<u8>) -> nat
    decreases bs.len(),
{
    if bs.len() == 0 {
        0
    } else {
        bs[0] as nat + 256 * le_val(bs.skip(1))
    }
}

/// The `k` little-endian bytes of `v`.
pub open spec fn le_bytes(v: nat, k: nat) -> Seq<u8>
    decreases k,
{
    if k == 0 {
        Seq::empty()
    } else {
        seq![(v % 256) as u8] + le_bytes(v / 256, (k - 1) as nat)
    }
}

/// Largest payload length a header of `k` bytes can carry.
pub open spec fn max_len_of(k: nat) -> nat {
    if k == 1 {
        0x3F
    } else if k == 2 {
        0x3FFF
    } else if k == 3 {
        0x3FFFFF
    } else {
        0x3FFFFFFF
    }
}

/// Smallest header length that fits a payload of length `n`; the
/// encoder always picks this one.
pub open spec fn min_head_len(n: nat) -> nat {
    if n <= 0x3F {
        1
    } else if n <= 0x3FFF {
        2
    } else if n <= 0x3FFFFF {
        3
    } else {
        4
    }
}

/// The minimal header for a payload of length `n`: the value
/// `(n << 2) | code` in `min_head_len(n)` little-endian bytes.
pub open spec fn header_bytes(n: nat) -> Seq<u8> {
    le_bytes((4 * n + min_head_len(n) - 1) as nat, min_head_len(n))
}

/// A whole encoded frame: minimal header, then the payload verbatim.
pub open spec fn frame_bytes(p: Seq<u8>) -> Seq<u8> {
    header_bytes(p.len()) + p
}

/// Payload length claimed by a buffered header (the buffer must hold at
/// least `head_len_of` its first byte).
pub open spec fn parsed_len(bs: Seq<u8>) -> nat {
    le_val(bs.take(head_len_of(bs[0]) as int)) / 4
}

/// What one decode call emits.
pub enum DecodeOut {
    /// Not enough buffered bytes for a frame yet.
    Incomplete,
    /// A complete frame with these payload bytes.
    Frame(Seq<u8>),
    /// The header claimed a length above `max_packet_length`.
    Oversized,
}

/// Decoder state, buffer contents and output after one decode call.
pub struct DecodeModel {
    pub state: DecodeState,
    pub buf: Seq<u8>,
    pub out: DecodeOut,
}

/// Payload step shared by both decoder states: once the payload length
/// is known, wait until that many bytes are buffered, then emit them.
pub open spec fn data_model(buf: Seq<u8>, n: nat) -> DecodeModel {
    if buf.len() >= n {
        DecodeModel { state: DecodeState::Head, buf: buf.skip(n as int), out: DecodeOut::Frame(buf.take(n as int)) }
    } else {
        DecodeModel { state: DecodeState::Data(n as usize), buf, out: DecodeOut::Incomplete }
    }
}

/// One decode call, as a function of the codec configuration, the
/// decoder state and the buffered bytes.
pub open spec fn decode_model(raw: bool, max: nat, state: DecodeState, buf: Seq<u8>) -> DecodeModel {
    if raw {
        if buf.len() > 0 {
            DecodeModel { state, buf: Seq::empty(), out: DecodeOut::Frame(buf) }
        } else {
            DecodeModel { state, buf, out: DecodeOut::Incomplete }
        }
    } else {
        match state {
            DecodeState::Head => {
                if buf.len() == 0 || buf.len() < head_len_of(buf[0]) {
                    DecodeModel { state, buf, out: DecodeOut::Incomplete }
                } else if parsed_len(buf) > max {
                    DecodeModel { state, buf, out: DecodeOut::Oversized }
                } else {
                    data_model(buf.skip(head_len_of(buf[0]) as int), parsed_len(buf))
                }
            },
            DecodeState::Data(n) => data_model(buf, n as nat),
        }
    }
}

proof fn lemma_le_val_small(bs: Seq<u8>)
    requires
        bs.len() <= 4,
    ensures
        bs.len() == 1 ==> le_val(bs) == bs[0],
        bs.len() == 2 ==> le_val(bs) == bs[0] + 256 * bs[1],
        bs.len() == 3 ==> le_val(bs) == bs[0] + 256 * bs[1] + 65536 * bs[2],
        bs.len() == 4 ==> le_val(bs) == bs[0] + 256 * bs[1] + 65536 * bs[2] + 16777216 * bs[3],
{
    if bs.len() >= 1 {
        let t1 = bs.skip(1);
        assert(le_val(bs) == bs[0] + 256 * le_val(t1));
        if bs.len() >= 2 {
            let t2 = t1.skip(1);
            assert(le_val(t1) == t1[0] + 256 * le_val(t2));
            assert(t1[0] == bs[1]);
            if bs.len() >= 3 {
                let t3 = t2.skip(1);
                assert(le_val(t2) == t2[0] + 256 * le_val(t3));
                assert(t2[0] == bs[2]);
                if bs.len() == 4 {
                    let t4 = t3.skip(1);
                    assert(le_val(t3) == t3[0] + 256 * le_val(t4));
                    assert(t3[0] == bs[3]);
                    assert(le_val(t4) == 0);
                } else {
                    assert(le_val(t3) == 0);
                }
            } else {
                assert(le_val(t2) == 0);
            }
        } else {
            assert(le_val(t1) == 0);
        }
    }
}

proof fn lemma_le_bytes_small(v: nat, k: nat)
    requires
        1 <= k <= 4,
    ensures
        le_bytes(v, k).len() == k,
        k == 1 ==> le_bytes(v, k) =~= seq![(v % 256) as u8],
        k == 2 ==> le_bytes(v, k) =~= seq![(v % 256) as u8, ((v / 256) % 256) as u8],
        k == 3 ==> le_bytes(v, k) =~= seq![
            (v % 256) as u8,
            ((v / 256) % 256) as u8,
            ((v / 65536) % 256) as u8,
        ],
        k == 4 ==> le_bytes(v, k) =~= seq![
            (v % 256) as u8,
            ((v / 256) % 256) as u8,
            ((v / 65536) % 256) as u8,
            ((v / 16777216) % 256) as u8,
        ],
{
    lemma_div_denominator(v as int, 256, 256);
    lemma_div_denominator(v as int, 65536, 256);
    assert(v / 256 / 256 == v / 65536);
    assert(v / 65536 / 256 == v / 16777216);
    assert(le_bytes(v / 256, 0) =~= Seq::<u8>::empty());
    assert(le_bytes(v / 65536, 0) =~= Seq::<u8>::empty());
    assert(le_bytes(v / 16777216, 0) =~= Seq::<u8>::empty());
    assert(le_bytes(v / 16777216 / 256, 0) =~= Seq::<u8>::empty());
    assert(le_bytes(v / 65536, 1) =~= seq![((v / 65536) % 256) as u8]);
    assert(le_bytes(v / 16777216, 1) =~= seq![((v / 16777216) % 256) as u8]);
    assert(le_bytes(v / 65536, 2) =~= seq![((v / 65536) % 256) as u8, ((v / 16777216) % 256) as u8]);
    assert(le_bytes(v / 256, 1) =~= seq![((v / 256) % 256) as u8]);
    assert(le_bytes(v / 256, 2) =~= seq![((v / 256) % 256) as u8, ((v / 65536) % 256) as u8]);
    assert(le_bytes(v / 256, 3) =~= seq![
        ((v / 256) % 256) as u8,
        ((v / 65536) % 256) as u8,
        ((v / 16777216) % 256) as u8,
    ]);
}

proof fn lemma_le_val_le_bytes(v: nat, k: nat)
    requires
        1 <= k <= 4,
        v <= 4 * max_len_of(k) + 3,
    ensures
        le_val(le_bytes(v, k)) == v,
{
    lemma_le_bytes_small(v, k);
    lemma_le_val_small(le_bytes(v, k));
    lemma_fundamental_div_mod(v as int, 256);
    lemma_fundamental_div_mod((v / 256) as int, 256);
    lemma_fundamental_div_mod((v / 65536) as int, 256);
    lemma_div_denominator(v as int, 256, 256);
    lemma_div_denominator(v as int, 65536, 256);
    if k == 1 {
        lemma_small_mod(v, 256);
    } else if k == 2 {
        assert(v / 256 < 256) by (nonlinear_arith)
            requires v <= 0xFFFF,
        ;
        lemma_small_mod(v / 256, 256);
    } else if k == 3 {
        assert(v / 65536 < 256) by (nonlinear_arith)
            requires v <= 0xFFFFFF,
        ;
        lemma_small_mod(v / 65536, 256);
    } else {
        assert(v / 16777216 < 256) by (nonlinear_arith)
            requires v <= 0xFFFFFFFF,
        ;
        lemma_small_mod(v / 16777216, 256);
    }
}

/// The header the encoder writes for a payload of length `n` parses
/// back to exactly `n`, with the header length its own first byte
/// promises.
pub proof fn lemma_header_round_trip(n: nat)
    requires
        n <= 0x3FFFFFFF,
    ensures
        header_bytes(n).len() == min_head_len(n),
        head_len_of(header_bytes(n)[0]) == min_head_len(n),
        le_val(header_bytes(n)) / 4 == n,
{
    let k = min_head_len(n);
    let c = (k - 1) as nat;
    let v = (4 * n + c) as nat;
    lemma_le_bytes_small(v, k);
    lemma_le_val_le_bytes(v, k);
    lemma_fundamental_div_mod_converse(v as int, 4, n as int, c as int);
    let b0 = header_bytes(n)[0];
    assert(b0 == (v % 256) as u8);
    lemma_mod_mod(v as int, 4, 64);
    assert((v % 256) % 4 == v % 4);
    assert(b0 & 3 == b0 % 4) by (bit_vector);
    assert(head_len_of(b0) == k);
}

impl BytesCodec {
    /// A fresh codec: framed mode, awaiting a header, no packet-length
    /// cap.
    pub fn new() -> (r: Self)
        ensures
            r.state is Head,
            !r.raw,
            r.max_packet_length == usize::MAX,
    {
        Self { state: DecodeState::Head, raw: false, max_packet_length: usize::MAX }
    }

    /// Switch the codec to raw mode: framing is bypassed from now on.
    pub fn set_raw(&mut self)
        ensures
            final(self).raw,
            final(self).state == old(self).state,
            final(self).max_packet_length == old(self).max_packet_length,
    {
        self.raw = true;
    }

    /// Cap the payload length the decoder accepts; longer headers are a
    /// protocol error.
    pub fn set_max_packet_length(&mut self, n: usize)
        ensures
            final(self).max_packet_length == n,
            final(self).state == old(self).state,
            final(self).raw == old(self).raw,
    {
        self.max_packet_length = n;
    }
}

impl BytesCodec {
    /// Consume a complete header from the front of `src`, if one is
    /// buffered, and return the payload length it claims.
    fn decode_head(&self, src: &mut bytes::BytesMut) -> (r: Result<Option<usize>, CodecError>)
        ensures
            ({
                let b = buf_bytes(*old(src));
                if b.len() == 0 || b.len() < head_len_of(b[0]) {
                    r == Ok::<Option<usize>, CodecError>(None) && buf_bytes(*final(src)) == b
                } else if parsed_len(b) > self.max_packet_length {
                    r == Err::<Option<usize>, CodecError>(CodecError::TooBigPacket)
                        && buf_bytes(*final(src)) == b
                } else {
                    (r matches Ok(Some(n)) && n as nat == parsed_len(b))
                        && buf_bytes(*final(src)) == b.skip(head_len_of(b[0]) as int)
                }
            }),
    {
        let len = buf_len(src);
        if len == 0 {
            return Ok(None);
        }
        let b0 = buf_byte(src, 0);
        proof {
            assert(b0 & 3 <= 3) by (bit_vector);
        }
        let head_len: usize = ((b0 & 3) + 1) as usize;
        if len < head_len {
            return Ok(None);
        }
        let mut n: usize = b0 as usize;
        if head_len > 1 {
            n = n + 256 * (buf_byte(src, 1) as usize);
        }
        if head_len > 2 {
            n = n + 65536 * (buf_byte(src, 2) as usize);
        }
        if head_len > 3 {
            n = n + 16777216 * (buf_byte(src, 3) as usize);
        }
        proof {
            let b = buf_bytes(*src);
            lemma_le_val_small(b.take(head_len as int));
            assert(n == le_val(b.take(head_len as int)));
        }
        n = n / 4;
        if n > self.max_packet_length {
            return Err(CodecError::TooBigPacket);
        }
        buf_advance(src, head_len);
        let remaining = buf_len(src);
        if n <= usize::MAX / 2 - remaining {
            buf_reserve(src, n);
        }
        Ok(Some(n))
    }

    /// Consume an `n`-byte payload from the front of `src`, once that
    /// many bytes are buffered.
    fn decode_data(&self, n: usize, src: &mut bytes::BytesMut) -> (r: Option<bytes::BytesMut>)
        ensures
            ({
                let b = buf_bytes(*old(src));
                if b.len() >= n {
                    (r matches Some(d) && buf_bytes(d) == b.take(n as int))
                        && buf_bytes(*final(src)) == b.skip(n as int)
                } else {
                    r is None && buf_bytes(*final(src)) == b
                }
            }),
    {
        let len = buf_len(src);
        if len < n {
            return None;
        }
        Some(buf_split_to(src, n))
    }

    /// One decode call on the stream buffer `src`: emit the next frame
    /// if it is completely buffered, report that more input is needed,
    /// or fail on an oversized header.  In raw mode the whole buffer is
    /// the frame.  `decode_model` states the exact result.
    pub fn decode(&mut self, src: &mut bytes::BytesMut) -> (r: Result<
        Option<bytes::BytesMut>,
        CodecError,
    >)
        ensures
            final(self).raw == old(self).raw,
            final(self).max_packet_length == old(self).max_packet_length,
            ({
                let m = decode_model(
                    old(self).raw,
                    old(self).max_packet_length as nat,
                    old(self).state,
                    buf_bytes(*old(src)),
                );
                final(self).state == m.state && buf_bytes(*final(src)) == m.buf && (match r {
                    Ok(None) => m.out is Incomplete,
                    Ok(Some(d)) => m.out == DecodeOut::Frame(buf_bytes(d)),
                    Err(e) => m.out is Oversized && e == CodecError::TooBigPacket,
                })
            }),
    {
        if self.raw {
            let len = buf_len(src);
            if len > 0 {
                let d = buf_split_to(src, len);
                proof {
                    assert(buf_bytes(d) =~= buf_bytes(*old(src)));
                    assert(buf_bytes(*src) =~= Seq::<u8>::empty());
                }
                return Ok(Some(d));
            } else {
                return Ok(None);
            }
        }
        let n: usize;
        match self.state {
            DecodeState::Head => {
                match self.decode_head(src) {
                    Err(e) => {
                        return Err(e);
                    },
                    Ok(None) => {
                        return Ok(None);
                    },
                    Ok(Some(m)) => {
                        self.state = DecodeState::Data(m);
                        n = m;
                    },
                }
            },
            DecodeState::Data(m) => {
                n = m;
            },
        }
        match self.decode_data(n, src) {
            Some(data) => {
                self.state = DecodeState::Head;
                Ok(Some(data))
            },
            None => Ok(None),
        }
    }

    /// Append one encoded frame carrying `data` to `buf`: the minimal
    /// header, then the payload verbatim.  In raw mode the payload alone
    /// is appended.  Payloads longer than `0x3FFFFFFF` cannot be framed
    /// and are refused.  The size bound keeps the buffer within one
    /// allocation's limit.
    pub fn encode(&self, data: bytes::Bytes, buf: &mut bytes::BytesMut) -> (r: Result<
        (),
        CodecError,
    >)
        requires
            buf_bytes(*old(buf)).len() + bytes_view(data).len() + 4 <= usize::MAX / 2,
        ensures
            self.raw ==> r is Ok && buf_bytes(*final(buf)) == buf_bytes(*old(buf)) + bytes_view(
                data,
            ),
            !self.raw && bytes_view(data).len() <= 0x3FFFFFFF ==> r is Ok && buf_bytes(
                *final(buf),
            ) == buf_bytes(*old(buf)) + frame_bytes(bytes_view(data)),
            !self.raw && bytes_view(data).len() > 0x3FFFFFFF ==> r == Err::<(), CodecError>(
                CodecError::Overflow,
            ) && buf_bytes(*final(buf)) == buf_bytes(*old(buf)),
    {
        let n = bytes_len(&data);
        if self.raw {
            buf_reserve(buf, n);
            buf_put_bytes(buf, data);
            return Ok(());
        }
        if n <= 0x3F {
            let v: u8 = (n * 4) as u8;
            buf_put_u8(buf, v);
            proof {
                lemma_le_bytes_small((n * 4) as nat, 1);
                lemma_small_mod((n * 4) as nat, 256);
                assert(buf_bytes(*buf) =~= buf_bytes(*old(buf)) + header_bytes(n as nat));
            }
        } else if n <= 0x3FFF {
            let v: u16 = (n * 4 + 1) as u16;
            buf_put_u16_le(buf, v);
            proof {
                let w = (n * 4 + 1) as nat;
                lemma_le_bytes_small(w, 2);
                assert(w / 256 < 256) by (nonlinear_arith)
                    requires w <= 0xFFFF,
                ;
                lemma_small_mod(w / 256, 256);
                assert(buf_bytes(*buf) =~= buf_bytes(*old(buf)) + header_bytes(n as nat));
            }
        } else if n <= 0x3FFFFF {
            let h: usize = n * 4 + 2;
            let lo: u16 = ((h / 256 % 256) * 256 + h % 256) as u16;
            let hi: u8 = (h / 65536) as u8;
            buf_put_u16_le(buf, lo);
            buf_put_u8(buf, hi);
            proof {
                let w = h as nat;
                lemma_le_bytes_small(w, 3);
                assert(w / 65536 < 256) by (nonlinear_arith)
                    requires w <= 0xFFFFFF,
                ;
                lemma_small_mod(w / 65536, 256);
                assert(lo % 256 == w % 256);
                assert(lo / 256 == (w / 256) % 256);
                assert(buf_bytes(*buf) =~= buf_bytes(*old(buf)) + header_bytes(n as nat));
            }
        } else if n <= 0x3FFFFFFF {
            let v: u32 = (n * 4 + 3) as u32;
            buf_put_u32_le(buf, v);
            proof {
                lemma_le_bytes_small((n * 4 + 3) as nat, 4);
                assert(buf_bytes(*buf) =~= buf_bytes(*old(buf)) + header_bytes(n as nat));
            }
        } else {
            return Err(CodecError::Overflow);
        }
        buf_put_bytes(buf, data);
        proof {
            assert(buf_bytes(*buf) =~= buf_bytes(*old(buf)) + frame_bytes(bytes_view(data)));
        }
        Ok(())
    }
}

/// Round trip: decoding an encoded frame yields the original payload.
/// For any payload up to `0x3FFFFFFF` bytes, the encoded frame parses
/// back to the same payload, and the header the encoder chose is the
/// smallest that fits.
pub proof fn lemma_round_trip(p: Seq<u8>)
    requires
        p.len() <= 0x3FFFFFFF,
    ensures
        ({
            let f = frame_bytes(p);
            let hl = min_head_len(p.len());
            &&& f.len() == hl + p.len()
            &&& head_len_of(f[0]) == hl
            &&& parsed_len(f) == p.len()
            &&& f.skip(hl as int) == p
            &&& forall|k: nat| 1 <= k < hl ==> p.len() > max_len_of(k)
        }),
{
    let f = frame_bytes(p);
    let h = header_bytes(p.len());
    let hl = min_head_len(p.len());
    lemma_header_round_trip(p.len());
    assert(f[0] == h[0]);
    assert(f.take(hl as int) =~= h);
    assert(f.skip(hl as int) =~= p);
    assert forall|k: nat| 1 <= k < hl implies p.len() > max_len_of(k) by {
        if k == 1 {
            assert(p.len() > 0x3F);
        } else if k == 2 {
            assert(p.len() > 0x3FFF);
        } else {
            assert(p.len() > 0x3FFFFF);
        }
    }
}

/// Decoder state and remaining buffer after the first `k` bytes of the
/// frame for payload `p` have been fed and one decode call made per
/// feeding; meaningful for `0 <= k < frame_bytes(p).len()`.
pub open spec fn mid_state(p: Seq<u8>, k: int) -> (DecodeState, Seq<u8>) {
    let hl = min_head_len(p.len()) as int;
    if k < hl {
        (DecodeState::Head, frame_bytes(p).take(k))
    } else {
        (DecodeState::Data(p.len() as usize), p.take(k - hl))
    }
}

/// Feeding more of the frame to a mid-stream decoder emits nothing
/// until the last byte arrives, and then exactly the payload.
proof fn lemma_feed_step(p: Seq<u8>, max: nat, k1: int, k2: int)
    requires
        p.len() <= max,
        p.len() <= 0x3FFFFFFF,
        0 <= k1 < k2 <= frame_bytes(p).len(),
        k1 < frame_bytes(p).len(),
    ensures
        ({
            let f = frame_bytes(p);
            let st = mid_state(p, k1);
            let m = decode_model(false, max, st.0, st.1 + f.subrange(k1, k2));
            if k2 == f.len() {
                m.out == DecodeOut::Frame(p) && m.state is Head && m.buf == Seq::<u8>::empty()
            } else {
                m.out is Incomplete && m.state == mid_state(p, k2).0 && m.buf == mid_state(
                    p,
                    k2,
                ).1
            }
        }),
{
    let f = frame_bytes(p);
    let hl = min_head_len(p.len()) as int;
    lemma_round_trip(p);
    let st = mid_state(p, k1);
    if k1 < hl {
        assert(st.1 + f.subrange(k1, k2) =~= f.take(k2));
        let b = f.take(k2);
        if k2 < hl {
            assert(b.len() < head_len_of(b[0]));
        } else {
            assert(b[0] == f[0]);
            assert(b.len() >= head_len_of(b[0]));
            assert(b.take(hl) =~= f.take(hl));
            assert(parsed_len(b) == parsed_len(f));
            assert(b.skip(hl) =~= p.take(k2 - hl));
            if k2 == f.len() {
                assert(p.take(k2 - hl) =~= p);
                assert(p.take(k2 - hl).len() >= p.len());
                assert(p.take(k2 - hl).take(p.len() as int) =~= p);
                assert(p.take(k2 - hl).skip(p.len() as int) =~= Seq::<u8>::empty());
            } else {
                assert(p.take(k2 - hl).len() < p.len());
            }
        }
    } else {
        assert(st.1 + f.subrange(k1, k2) =~= p.take(k2 - hl));
        if k2 == f.len() {
            assert(p.take(k2 - hl) =~= p);
            assert(p.take(k2 - hl).take(p.len() as int) =~= p);
            assert(p.take(k2 - hl).skip(p.len() as int) =~= Seq::<u8>::empty());
        } else {
            assert(p.take(k2 - hl).len() < p.len());
        }
    }
}

/// The concatenation of a sequence of chunks.
pub open spec fn concat_chunks(cs: Seq<Seq<u8>>) -> Seq<u8>
    decreases cs.len(),
{
    if cs.len() == 0 {
        Seq::empty()
    } else {
        cs[0] + concat_chunks(cs.skip(1))
    }
}

/// The frames one decode call emits.
pub open spec fn emitted_of(out: DecodeOut) -> Seq<Seq<u8>> {
    match out {
        DecodeOut::Frame(d) => seq![d],
        _ => Seq::empty(),
    }
}

/// Feed the chunks to a framed-mode decoder one at a time, with one
/// decode call after each chunk (enough to drain a single frame), and
/// collect every emitted frame.  Returns the final decoder state, the
/// final buffer contents, and the emitted frames in order.
pub open spec fn feed_chunks(max: nat, st: DecodeState, buf: Seq<u8>, cs: Seq<Seq<u8>>) -> (
    DecodeState,
    Seq<u8>,
    Seq<Seq<u8>>,
)
    decreases cs.len(),
{
    if cs.len() == 0 {
        (st, buf, Seq::empty())
    } else {
        let m = decode_model(false, max, st, buf + cs[0]);
        let rest = feed_chunks(max, m.state, m.buf, cs.skip(1));
        (rest.0, rest.1, emitted_of(m.out) + rest.2)
    }
}

proof fn lemma_feed_chunks_from(p: Seq<u8>, max: nat, k: int, cs: Seq<Seq<u8>>)
    requires
        p.len() <= max,
        p.len() <= 0x3FFFFFFF,
        0 <= k < frame_bytes(p).len(),
        cs.len() > 0,
        forall|i: int| 0 <= i < cs.len() ==> #[trigger] cs[i].len() > 0,
        concat_chunks(cs) == frame_bytes(p).skip(k),
    ensures
        ({
            let st = mid_state(p, k);
            let r = feed_chunks(max, st.0, st.1, cs);
            r.0 is Head && r.1 == Seq::<u8>::empty() && r.2 == seq![p]
        }),
        forall|j: int|
            0 <= j < cs.len() ==> (#[trigger] feed_chunks(
                max,
                mid_state(p, k).0,
                mid_state(p, k).1,
                cs.take(j),
            )).2 == Seq::<Seq<u8>>::empty(),
    decreases cs.len(),
{
    let f = frame_bytes(p);
    let st = mid_state(p, k);
    let c0 = cs[0];
    let k2 = k + c0.len();
    assert(concat_chunks(cs) == c0 + concat_chunks(cs.skip(1)));
    assert(f.skip(k) == c0 + concat_chunks(cs.skip(1)));
    assert(f.skip(k).len() == f.len() - k);
    assert(c0.len() + concat_chunks(cs.skip(1)).len() == f.len() - k);
    assert(k2 <= f.len());
    assert(c0 =~= f.subrange(k, k2)) by {
        assert forall|i: int| 0 <= i < c0.len() implies c0[i] == f.subrange(k, k2)[i] by {
            assert(c0[i] == (c0 + concat_chunks(cs.skip(1)))[i]);
            assert(f.skip(k)[i] == f[k + i]);
        }
    }
    assert(concat_chunks(cs.skip(1)) =~= f.skip(k2)) by {
        assert forall|i: int| 0 <= i < concat_chunks(cs.skip(1)).len() implies concat_chunks(
            cs.skip(1),
        )[i] == f.skip(k2)[i] by {
            assert(concat_chunks(cs.skip(1))[i] == (c0 + concat_chunks(cs.skip(1)))[c0.len() + i]);
            assert(f.skip(k)[c0.len() + i] == f[k2 + i]);
            assert(f.skip(k2)[i] == f[k2 + i]);
        }
    }
    lemma_feed_step(p, max, k, k2);
    let m = decode_model(false, max, st.0, st.1 + c0);
    assert(st.1 + c0 == st.1 + f.subrange(k, k2));
    if k2 == f.len() as int {
        // The frame is complete; no chunks can follow, since each is
        // non-empty and together they hold exactly the frame's bytes.
        if cs.len() > 1 {
            assert(concat_chunks(cs.skip(1)) == cs.skip(1)[0] + concat_chunks(cs.skip(1).skip(1)));
            assert(cs.skip(1)[0].len() > 0);
            assert(concat_chunks(cs.skip(1)).len() == 0);
            assert(false);
        }
        assert(cs.len() == 1);
        assert(feed_chunks(max, m.state, m.buf, cs.skip(1)).2 == Seq::<Seq<u8>>::empty());
        assert(feed_chunks(max, st.0, st.1, cs).2 =~= seq![p]);
        assert forall|j: int| 0 <= j < cs.len() implies (#[trigger] feed_chunks(
            max,
            st.0,
            st.1,
            cs.take(j),
        )).2 == Seq::<Seq<u8>>::empty() by {
            assert(cs.take(0) =~= Seq::<Seq<u8>>::empty());
            assert(feed_chunks(max, st.0, st.1, cs.take(0)).2 == Seq::<Seq<u8>>::empty());
        }
    } else {
        assert(cs.skip(1).len() > 0) by {
            if cs.len() == 1 {
                assert(concat_chunks(cs.skip(1)).len() == 0);
                assert(f.skip(k2).len() > 0);
            }
        }
        assert(m.state == mid_state(p, k2).0 && m.buf == mid_state(p, k2).1);
        lemma_feed_chunks_from(p, max, k2, cs.skip(1));
        assert(feed_chunks(max, st.0, st.1, cs).2 =~= seq![p]);
        assert forall|j: int| 0 <= j < cs.len() implies (#[trigger] feed_chunks(
            max,
            st.0,
            st.1,
            cs.take(j),
        )).2 == Seq::<Seq<u8>>::empty() by {
            if j == 0 {
                assert(cs.take(0) =~= Seq::<Seq<u8>>::empty());
                assert(feed_chunks(max, st.0, st.1, cs.take(0)).2 == Seq::<Seq<u8>>::empty());
            } else {
                assert(cs.take(j)[0] == c0);
                assert(cs.take(j).skip(1) =~= cs.skip(1).take(j - 1));
                assert(feed_chunks(max, mid_state(p, k2).0, mid_state(p, k2).1, cs.skip(1).take(j - 1)).2
                    == Seq::<Seq<u8>>::empty());
                assert(feed_chunks(max, st.0, st.1, cs.take(j)).2 =~= Seq::<Seq<u8>>::empty());
            }
        }
    }
}

/// Partial-read resilience: split the encoded frame for payload `p`
/// into any number of non-empty chunks and feed them to a fresh
/// framed-mode decoder one chunk at a time.  No frame is emitted before
/// the last chunk, and after it exactly `p` has been emitted, with the
/// decoder back in its initial state and the buffer drained — the same
/// outcome as feeding the whole frame at once.
pub proof fn lemma_partial_read(p: Seq<u8>, max: nat, cs: Seq<Seq<u8>>)
    requires
        p.len() <= max,
        p.len() <= 0x3FFFFFFF,
        cs.len() > 0,
        forall|i: int| 0 <= i < cs.len() ==> #[trigger] cs[i].len() > 0,
        concat_chunks(cs) == frame_bytes(p),
    ensures
        ({
            let r = feed_chunks(max, DecodeState::Head, Seq::empty(), cs);
            r.0 is Head && r.1 == Seq::<u8>::empty() && r.2 == seq![p]
        }),
        forall|j: int|
            0 <= j < cs.len() ==> (#[trigger] feed_chunks(
                max,
                DecodeState::Head,
                Seq::empty(),
                cs.take(j),
            )).2 == Seq::<Seq<u8>>::empty(),
{
    let f = frame_bytes(p);
    lemma_round_trip(p);
    assert(f.skip(0) =~= f);
    assert(mid_state(p, 0).1 =~= Seq::<u8>::empty());
    lemma_feed_chunks_from(p, max, 0, cs);
}

impl Default for BytesCodec {
    /// Same as `BytesCodec::new`.
    fn default() -> (r: Self)
        ensures
            r.state is Head,
            !r.raw,
            r.max_packet_length == usize::MAX,
    {
        Self::new()
    }
}

} // verus!
