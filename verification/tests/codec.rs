use rust_embedded_kv_store::codec::{
    decode_next, encode_delete, encode_put, read_le32, write_bytes, write_frame, write_le32,
    Decoded, Record, HEADER_LEN, MAX_FIELD_LEN, OP_BEGIN, OP_COMMIT, OP_DELETE, OP_PUT,
};

#[test]
fn opcodes_have_their_codes() {
    assert_eq!(OP_BEGIN, 0);
    assert_eq!(OP_PUT, 1);
    assert_eq!(OP_DELETE, 2);
    assert_eq!(OP_COMMIT, 3);
    assert_eq!(HEADER_LEN, 9);
    assert_eq!(MAX_FIELD_LEN, 4294967295);
}

#[test]
fn le32_is_little_endian() {
    let mut out = vec![7u8];
    write_le32(&mut out, 0x0403_0201);
    assert_eq!(out, vec![7, 1, 2, 3, 4]);
    let mut out = Vec::new();
    write_le32(&mut out, 258);
    assert_eq!(out, 258u32.to_le_bytes().to_vec());
    let mut out = Vec::new();
    write_le32(&mut out, u32::MAX);
    assert_eq!(out, vec![255, 255, 255, 255]);
}

#[test]
fn le32_reads_back() {
    let buf = [9u8, 0x78, 0x56, 0x34, 0x12, 9];
    assert_eq!(read_le32(&buf, 1), 0x1234_5678);
    assert_eq!(read_le32(&[255, 255, 255, 255], 0), u32::MAX);
    assert_eq!(read_le32(&[0, 0, 0, 0], 0), 0);
    for x in [0u32, 1, 255, 256, 65535, 65536, 16777215, 16777216, 0xdead_beef, u32::MAX] {
        let mut out = Vec::new();
        write_le32(&mut out, x);
        assert_eq!(read_le32(&out, 0), x);
        assert_eq!(u32::from_le_bytes([out[0], out[1], out[2], out[3]]), x);
    }
}

#[test]
fn write_bytes_appends() {
    let mut out = vec![1u8, 2];
    write_bytes(&mut out, &[3, 4, 5]);
    assert_eq!(out, vec![1, 2, 3, 4, 5]);
    write_bytes(&mut out, &[]);
    assert_eq!(out, vec![1, 2, 3, 4, 5]);
}

#[test]
fn put_frame_layout() {
    assert_eq!(
        encode_put(b"foo", b"ba"),
        vec![1, 3, 0, 0, 0, 2, 0, 0, 0, b'f', b'o', b'o', b'b', b'a']
    );
}

#[test]
fn put_frame_with_empty_value() {
    assert_eq!(encode_put(b"k", b""), vec![1, 1, 0, 0, 0, 0, 0, 0, 0, b'k']);
}

#[test]
fn delete_frame_layout() {
    assert_eq!(encode_delete(b"foo"), vec![2, 3, 0, 0, 0, 0, 0, 0, 0, b'f', b'o', b'o']);
}

#[test]
fn write_frame_appends_behind_what_is_there() {
    let mut out = vec![0u8];
    write_frame(&mut out, 7, b"a", b"bc");
    assert_eq!(out, vec![0, 7, 1, 0, 0, 0, 2, 0, 0, 0, b'a', b'b', b'c']);
}

#[test]
fn long_key_lengths_use_all_length_bytes() {
    let key = vec![b'x'; 300];
    let frame = encode_put(&key, b"v");
    assert_eq!(&frame[..9], &[1, 44, 1, 0, 0, 1, 0, 0, 0]);
    assert_eq!(frame.len(), 9 + 300 + 1);
}

#[test]
fn decode_round_trips_put() {
    let frame = encode_put(b"key", b"value");
    assert_eq!(
        decode_next(&frame, 0),
        Decoded::Record {
            record: Record { opcode: OP_PUT, key: b"key".to_vec(), value: b"value".to_vec() },
            next: frame.len(),
        }
    );
}

#[test]
fn decode_round_trips_delete() {
    let frame = encode_delete(b"key");
    assert_eq!(
        decode_next(&frame, 0),
        Decoded::Record {
            record: Record { opcode: OP_DELETE, key: b"key".to_vec(), value: Vec::new() },
            next: 12,
        }
    );
}

#[test]
fn decode_round_trips_any_opcode_and_payload() {
    for opcode in [0u8, 1, 2, 3, 4, 200, 255] {
        for key in [&b""[..], &b"k"[..], &[0u8, 255, 3][..]] {
            for value in [&b""[..], &b"v"[..], &[9u8; 40][..]] {
                let mut buf = vec![0xee, 0xee];
                write_frame(&mut buf, opcode, key, value);
                let end = buf.len();
                buf.push(0x55);
                assert_eq!(
                    decode_next(&buf, 2),
                    Decoded::Record {
                        record: Record { opcode, key: key.to_vec(), value: value.to_vec() },
                        next: end,
                    }
                );
            }
        }
    }
}

#[test]
fn decode_second_record() {
    let mut buf = encode_put(b"a", b"1");
    let second = buf.len();
    buf.extend_from_slice(&encode_delete(b"a"));
    match decode_next(&buf, 0) {
        Decoded::Record { next, .. } => assert_eq!(next, second),
        other => panic!("expected a record, got {:?}", other),
    }
    assert_eq!(
        decode_next(&buf, second),
        Decoded::Record {
            record: Record { opcode: OP_DELETE, key: b"a".to_vec(), value: Vec::new() },
            next: buf.len(),
        }
    );
}

#[test]
fn decode_at_end_is_end_of_stream() {
    let frame = encode_put(b"a", b"1");
    assert_eq!(decode_next(&frame, frame.len()), Decoded::EndOfStream);
    assert_eq!(decode_next(&frame, frame.len() + 5), Decoded::EndOfStream);
    assert_eq!(decode_next(&[], 0), Decoded::EndOfStream);
}

#[test]
fn decode_cut_anywhere_is_truncated() {
    let frame = encode_put(b"key", b"value");
    for cut in 1..frame.len() {
        assert_eq!(decode_next(&frame[..cut], 0), Decoded::Truncated, "cut at {}", cut);
    }
}

#[test]
fn decode_huge_announced_length_is_truncated() {
    let buf = [1u8, 255, 255, 255, 255, 255, 255, 255, 255, 1, 2, 3];
    assert_eq!(decode_next(&buf, 0), Decoded::Truncated);
}
