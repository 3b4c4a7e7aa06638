use bytes::{Bytes, BytesMut};
use hbb_common::codec::{BytesCodec, CodecError};

fn encode_to(codec: &BytesCodec, payload: &[u8]) -> BytesMut {
    let mut buf = BytesMut::new();
    codec
        .encode(Bytes::copy_from_slice(payload), &mut buf)
        .unwrap();
    buf
}

#[test]
fn round_trip_one_byte() {
    let mut codec = BytesCodec::new();
    let mut buf = encode_to(&codec, b"a");
    assert_eq!(&buf[..], &[0x04, 0x61]);
    let frame = codec.decode(&mut buf).unwrap().unwrap();
    assert_eq!(&frame[..], b"a");
    assert!(buf.is_empty());
}

#[test]
fn round_trip_empty_payload() {
    let mut codec = BytesCodec::new();
    let mut buf = encode_to(&codec, b"");
    assert_eq!(&buf[..], &[0x00]);
    let frame = codec.decode(&mut buf).unwrap().unwrap();
    assert_eq!(frame.len(), 0);
    assert!(buf.is_empty());
}

#[test]
fn minimal_header_choice_at_class_bounds() {
    let codec = BytesCodec::new();
    // One-byte header up to 0x3F, two bytes from 0x40.
    let buf = encode_to(&codec, &vec![7u8; 0x3F]);
    assert_eq!(buf.len(), 1 + 0x3F);
    assert_eq!(buf[0], 0xFC);
    let buf = encode_to(&codec, &vec![7u8; 0x40]);
    assert_eq!(buf.len(), 2 + 0x40);
    // (0x40 << 2) | 1 = 0x101, little endian.
    assert_eq!(&buf[..2], &[0x01, 0x01]);
    // Two-byte header up to 0x3FFF, three bytes from 0x4000.
    let buf = encode_to(&codec, &vec![7u8; 0x3FFF]);
    assert_eq!(buf.len(), 2 + 0x3FFF);
    assert_eq!(&buf[..2], &[0xFD, 0xFF]);
    let buf = encode_to(&codec, &vec![7u8; 0x4000]);
    assert_eq!(buf.len(), 3 + 0x4000);
    // (0x4000 << 2) | 2 = 0x10002, little endian.
    assert_eq!(&buf[..3], &[0x02, 0x00, 0x01]);
    // Three-byte header up to 0x3FFFFF, four bytes from 0x400000.
    let buf = encode_to(&codec, &vec![7u8; 0x3FFFFF]);
    assert_eq!(buf.len(), 3 + 0x3FFFFF);
    assert_eq!(&buf[..3], &[0xFE, 0xFF, 0xFF]);
    let buf = encode_to(&codec, &vec![7u8; 0x400000]);
    assert_eq!(buf.len(), 4 + 0x400000);
    // (0x400000 << 2) | 3 = 0x1000003, little endian.
    assert_eq!(&buf[..4], &[0x03, 0x00, 0x00, 0x01]);
}

#[test]
fn round_trip_each_header_class() {
    for len in [0usize, 1, 0x3F, 0x40, 0x3FFF, 0x4000, 0x3FFFFF, 0x400000] {
        let mut codec = BytesCodec::new();
        let payload: Vec<u8> = (0..len).map(|i| (i % 251) as u8).collect();
        let mut buf = encode_to(&codec, &payload);
        let frame = codec.decode(&mut buf).unwrap().unwrap();
        assert_eq!(&frame[..], &payload[..]);
        assert!(buf.is_empty());
        assert!(codec.decode(&mut buf).unwrap().is_none());
    }
}

#[test]
fn partial_reads_byte_by_byte() {
    let mut codec = BytesCodec::new();
    let payload: Vec<u8> = (0..200u32).map(|i| (i % 256) as u8).collect();
    let whole = encode_to(&codec, &payload);
    let mut buf = BytesMut::new();
    for (i, b) in whole.iter().enumerate() {
        buf.extend_from_slice(&[*b]);
        let r = codec.decode(&mut buf).unwrap();
        if i + 1 < whole.len() {
            assert!(r.is_none(), "frame emitted early at byte {i}");
        } else {
            assert_eq!(&r.unwrap()[..], &payload[..]);
        }
    }
    assert!(buf.is_empty());
}

#[test]
fn partial_reads_arbitrary_chunks() {
    let mut codec = BytesCodec::new();
    let payload = vec![9u8; 0x5000];
    let whole = encode_to(&codec, &payload);
    let mut buf = BytesMut::new();
    let chunks = [1usize, 2, 3, 0x1000, 0x2000, whole.len()];
    let mut fed = 0usize;
    let mut got = None;
    for c in chunks {
        let end = (fed + c).min(whole.len());
        buf.extend_from_slice(&whole[fed..end]);
        fed = end;
        let r = codec.decode(&mut buf).unwrap();
        if fed < whole.len() {
            assert!(r.is_none());
        } else {
            got = r;
            break;
        }
    }
    assert_eq!(&got.unwrap()[..], &payload[..]);
}

#[test]
fn two_frames_in_one_buffer() {
    let mut codec = BytesCodec::new();
    let mut buf = encode_to(&codec, b"first");
    let second = encode_to(&codec, b"second frame");
    buf.extend_from_slice(&second[..]);
    let f1 = codec.decode(&mut buf).unwrap().unwrap();
    assert_eq!(&f1[..], b"first");
    let f2 = codec.decode(&mut buf).unwrap().unwrap();
    assert_eq!(&f2[..], b"second frame");
    assert!(codec.decode(&mut buf).unwrap().is_none());
}

#[test]
fn oversized_packet_rejected() {
    let mut codec = BytesCodec::new();
    let buf0 = encode_to(&codec, &vec![1u8; 11]);
    codec.set_max_packet_length(10);
    let mut buf = buf0.clone();
    let before = buf.len();
    let r = codec.decode(&mut buf);
    assert_eq!(r.unwrap_err(), CodecError::TooBigPacket);
    // No frame was emitted and no byte was consumed.
    assert_eq!(buf.len(), before);
}

#[test]
fn max_packet_length_boundary_accepted() {
    let mut codec = BytesCodec::new();
    codec.set_max_packet_length(11);
    let mut buf = encode_to(&codec, &vec![1u8; 11]);
    let frame = codec.decode(&mut buf).unwrap().unwrap();
    assert_eq!(frame.len(), 11);
}

#[test]
fn raw_mode_decode_passthrough() {
    let mut codec = BytesCodec::new();
    codec.set_raw();
    let mut buf = BytesMut::from(&[0xFF, 0x00, 0x61, 0x62][..]);
    let frame = codec.decode(&mut buf).unwrap().unwrap();
    assert_eq!(&frame[..], &[0xFF, 0x00, 0x61, 0x62]);
    assert!(buf.is_empty());
    assert!(codec.decode(&mut buf).unwrap().is_none());
}

#[test]
fn raw_mode_encode_verbatim() {
    let mut codec = BytesCodec::new();
    codec.set_raw();
    let mut buf = BytesMut::new();
    codec
        .encode(Bytes::copy_from_slice(b"abc"), &mut buf)
        .unwrap();
    assert_eq!(&buf[..], b"abc");
    codec
        .encode(Bytes::copy_from_slice(b"def"), &mut buf)
        .unwrap();
    assert_eq!(&buf[..], b"abcdef");
}

#[test]
fn empty_input_is_a_no_op() {
    let mut codec = BytesCodec::new();
    let mut buf = BytesMut::new();
    assert!(codec.decode(&mut buf).unwrap().is_none());
    assert!(codec.decode(&mut buf).unwrap().is_none());
    let mut raw = BytesCodec::new();
    raw.set_raw();
    assert!(raw.decode(&mut buf).unwrap().is_none());
}

#[test]
fn decoder_accepts_non_minimal_header() {
    // A 2-byte header for a 1-byte payload: (1 << 2) | 1 = 0x05, 0x00.
    let mut codec = BytesCodec::new();
    let mut buf = BytesMut::from(&[0x05u8, 0x00, 0x61][..]);
    let frame = codec.decode(&mut buf).unwrap().unwrap();
    assert_eq!(&frame[..], b"a");
    assert!(buf.is_empty());
}

#[test]
fn encode_overflow_refused() {
    let codec = BytesCodec::new();
    let mut buf = BytesMut::new();
    let huge = Bytes::from(vec![0u8; 0x40000000]);
    let r = codec.encode(huge, &mut buf);
    assert_eq!(r.unwrap_err(), CodecError::Overflow);
    assert!(buf.is_empty());
}

#[test]
fn default_matches_new() {
    let mut codec = BytesCodec::default();
    let mut buf = encode_to(&codec, b"x");
    let frame = codec.decode(&mut buf).unwrap().unwrap();
    assert_eq!(&frame[..], b"x");
}
