use tick_core::decoder::{BorrowedPacketFrame, DecodeError, PacketDecoder, PacketError};
use tick_core::decoder::{encode_frame_plain, i32_to_u32, u32_to_i32, MAX_PACKET_SIZE};
use tick_core::varint::{read_varint, write_varint, VarIntResult};

fn frame(id: i32, body: &[u8]) -> Vec<u8> {
    let mut out = Vec::new();
    encode_frame_plain(&mut out, id, body);
    out
}

#[test]
fn varint_small_values_encode_to_one_byte() {
    for v in [0u32, 1, 5, 127] {
        let mut out = Vec::new();
        write_varint(&mut out, v);
        assert_eq!(out, vec![v as u8]);
    }
}

#[test]
fn varint_known_encodings() {
    let mut out = Vec::new();
    write_varint(&mut out, 128);
    assert_eq!(out, vec![0x80, 0x01]);
    let mut out = Vec::new();
    write_varint(&mut out, 300);
    assert_eq!(out, vec![0xAC, 0x02]);
    let mut out = Vec::new();
    write_varint(&mut out, u32::MAX);
    assert_eq!(out, vec![0xFF, 0xFF, 0xFF, 0xFF, 0x0F]);
}

#[test]
fn varint_read_round_trip() {
    for v in [0u32, 1, 127, 128, 255, 300, 25565, 2097151, u32::MAX] {
        let mut out = Vec::new();
        write_varint(&mut out, v);
        match read_varint(out.as_slice(), 0) {
            VarIntResult::Done(value, size) => {
                assert_eq!(value, v);
                assert_eq!(size, out.len());
            }
            _ => panic!("expected a complete integer"),
        }
    }
}

#[test]
fn varint_incomplete_and_too_long() {
    assert!(matches!(read_varint(&[0x80, 0x80], 0), VarIntResult::Incomplete));
    assert!(matches!(read_varint(&[], 0), VarIntResult::Incomplete));
    assert!(matches!(
        read_varint(&[0x80, 0x80, 0x80, 0x80, 0x80], 0),
        VarIntResult::TooLong
    ));
}

#[test]
fn id_conversions_wrap() {
    assert_eq!(u32_to_i32(0xFFFF_FFFF), -1);
    assert_eq!(u32_to_i32(0x8000_0000), i32::MIN);
    assert_eq!(u32_to_i32(7), 7);
    assert_eq!(i32_to_u32(-1), 0xFFFF_FFFF);
    assert_eq!(i32_to_u32(i32::MIN), 0x8000_0000);
    assert_eq!(i32_to_u32(7), 7);
}

#[test]
fn decode_one_plain_frame() {
    let mut dec = PacketDecoder::default();
    assert_eq!(dec.compression(), -1);
    dec.queue_slice(&frame(0x10, &[1, 2, 3]));
    let f = dec.try_next_packet().unwrap().unwrap();
    assert_eq!(f.id, 0x10);
    assert_eq!(f.body, vec![1, 2, 3]);
    assert!(dec.try_next_packet().unwrap().is_none());
}

#[test]
fn decode_round_trip_byte_at_a_time() {
    let frames: Vec<(i32, Vec<u8>)> = vec![
        (0x00, vec![]),
        (0x10, vec![9, 8, 7, 6]),
        (-3, vec![0xFF; 300]),
        (0x7F, vec![0x80]),
    ];
    let mut wire = Vec::new();
    for (id, body) in &frames {
        wire.extend_from_slice(&frame(*id, body));
    }
    let mut dec = PacketDecoder::default();
    let mut seen: Vec<(i32, Vec<u8>)> = Vec::new();
    for b in wire {
        dec.queue_slice(&[b]);
        while let Some(f) = dec.try_next_packet().unwrap() {
            seen.push((f.id, f.body));
        }
        dec.shift_excess();
    }
    let expect: Vec<(i32, Vec<u8>)> = frames;
    assert_eq!(seen, expect);
}

#[test]
fn decode_rejects_wrong_id_and_trailing_bytes() {
    let f = BorrowedPacketFrame { id: 0x10, body: vec![1, 2, 3] };
    assert_eq!(f.decode_as(0x10, 3), Ok(()));
    assert_eq!(f.decode_as(0x11, 3), Err(PacketError::PacketIdMismatch));
    assert_eq!(f.decode_as(0x10, 2), Err(PacketError::TrailingBytes));
    // the id is checked before the body
    assert_eq!(f.decode_as(0x11, 2), Err(PacketError::PacketIdMismatch));
}

#[test]
fn decode_incomplete_consumes_nothing() {
    let mut dec = PacketDecoder::default();
    let whole = frame(0x21, &[5, 5, 5, 5]);
    dec.queue_slice(&whole[..3]);
    assert!(dec.try_next_packet().unwrap().is_none());
    assert!(dec.try_next_packet().unwrap().is_none());
    dec.queue_slice(&whole[3..]);
    let f = dec.try_next_packet().unwrap().unwrap();
    assert_eq!(f.id, 0x21);
    assert_eq!(f.body, vec![5, 5, 5, 5]);
}

#[test]
fn decode_bad_length_prefix() {
    let mut dec = PacketDecoder::default();
    dec.queue_slice(&[0x80, 0x80, 0x80, 0x80, 0x80]);
    assert_eq!(dec.try_next_packet(), Err(DecodeError::BadLengthPrefix));
}

#[test]
fn decode_oversized_frame() {
    let mut dec = PacketDecoder::default();
    // declared length one past the protocol maximum
    let mut wire = Vec::new();
    write_varint(&mut wire, (MAX_PACKET_SIZE + 1) as u32);
    dec.queue_slice(&wire);
    assert_eq!(dec.try_next_packet(), Err(DecodeError::OversizedFrame));
}

#[test]
fn decode_bad_packet_id() {
    let mut dec = PacketDecoder::default();
    // a complete frame whose body is an over-long id
    let mut wire = Vec::new();
    write_varint(&mut wire, 5);
    wire.extend_from_slice(&[0x80, 0x80, 0x80, 0x80, 0x80]);
    dec.queue_slice(&wire);
    assert_eq!(dec.try_next_packet(), Err(DecodeError::BadPacketId));
}

#[test]
fn decode_uncompressed_below_threshold() {
    let mut dec = PacketDecoder::default();
    dec.set_compression(256);
    assert_eq!(dec.compression(), 256);
    // data length zero, then id and body in the clear
    let mut payload = Vec::new();
    write_varint(&mut payload, 0);
    write_varint(&mut payload, i32_to_u32(0x2A));
    payload.extend_from_slice(&[4, 5, 6]);
    let mut wire = Vec::new();
    write_varint(&mut wire, payload.len() as u32);
    wire.extend_from_slice(&payload);
    dec.queue_slice(&wire);
    let f = dec.try_next_packet().unwrap().unwrap();
    assert_eq!(f.id, 0x2A);
    assert_eq!(f.body, vec![4, 5, 6]);
}

fn zlib_compress(data: &[u8]) -> Vec<u8> {
    let mut enc = flate2::write::ZlibEncoder::new(Vec::new(), flate2::Compression::default());
    std::io::Write::write_all(&mut enc, data).unwrap();
    enc.finish().unwrap()
}

fn compressed_frame(id: i32, body: &[u8]) -> Vec<u8> {
    let mut plain = Vec::new();
    write_varint(&mut plain, i32_to_u32(id));
    plain.extend_from_slice(body);
    let deflated = zlib_compress(&plain);
    let mut payload = Vec::new();
    write_varint(&mut payload, plain.len() as u32);
    payload.extend_from_slice(&deflated);
    let mut wire = Vec::new();
    write_varint(&mut wire, payload.len() as u32);
    wire.extend_from_slice(&payload);
    wire
}

#[test]
fn decode_compressed_frame() {
    let mut dec = PacketDecoder::default();
    dec.set_compression(4);
    let body: Vec<u8> = (0u16..600).map(|v| (v % 251) as u8).collect();
    dec.queue_slice(&compressed_frame(0x33, &body));
    let f = dec.try_next_packet().unwrap().unwrap();
    assert_eq!(f.id, 0x33);
    assert_eq!(f.body, body);
    assert!(dec.try_next_packet().unwrap().is_none());
}

#[test]
fn decode_bad_data_length() {
    let mut dec = PacketDecoder::default();
    dec.set_compression(0);
    let mut wire = Vec::new();
    write_varint(&mut wire, 5);
    wire.extend_from_slice(&[0x80, 0x80, 0x80, 0x80, 0x80]);
    dec.queue_slice(&wire);
    assert_eq!(dec.try_next_packet(), Err(DecodeError::BadDataLength));
}

#[test]
fn decode_decompress_failed() {
    let mut dec = PacketDecoder::default();
    dec.set_compression(0);
    // declared size 5 but the compressed bytes are garbage
    let mut payload = Vec::new();
    write_varint(&mut payload, 5);
    payload.extend_from_slice(&[1, 2, 3]);
    let mut wire = Vec::new();
    write_varint(&mut wire, payload.len() as u32);
    wire.extend_from_slice(&payload);
    dec.queue_slice(&wire);
    assert_eq!(dec.try_next_packet(), Err(DecodeError::DecompressFailed));
}

#[test]
fn decode_decompressed_length_mismatch() {
    let mut dec = PacketDecoder::default();
    dec.set_compression(0);
    let plain = [0x2Au8, 1, 2, 3];
    let deflated = zlib_compress(&plain);
    let mut payload = Vec::new();
    write_varint(&mut payload, plain.len() as u32 + 1);
    payload.extend_from_slice(&deflated);
    let mut wire = Vec::new();
    write_varint(&mut wire, payload.len() as u32);
    wire.extend_from_slice(&payload);
    dec.queue_slice(&wire);
    assert_eq!(
        dec.try_next_packet(),
        Err(DecodeError::DecompressedLengthMismatch)
    );
}

#[test]
fn shift_excess_keeps_unread_bytes() {
    let mut dec = PacketDecoder::default();
    let a = frame(1, &[10]);
    let b = frame(2, &[20, 21]);
    dec.queue_slice(&a);
    dec.queue_slice(&b[..2]);
    let f = dec.try_next_packet().unwrap().unwrap();
    assert_eq!(f.id, 1);
    dec.shift_excess();
    dec.queue_slice(&b[2..]);
    let g = dec.try_next_packet().unwrap().unwrap();
    assert_eq!(g.id, 2);
    assert_eq!(g.body, vec![20, 21]);
}
