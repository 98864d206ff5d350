use bumpalo::{collections::Vec as BumpVec, Bump};
use wasm_module::{
    overwrite_padded_u32, SerialBuffer, Serialize, MAX_SIZE_ENCODED_U32, MAX_SIZE_ENCODED_U64,
};

/// Reads unsigned LEB128 back, returning the value and the bytes consumed.
fn read_uleb128(bytes: &[u8]) -> (u128, usize) {
    let mut value: u128 = 0;
    let mut shift = 0;
    for (i, b) in bytes.iter().enumerate() {
        value |= ((b & 0x7f) as u128) << shift;
        shift += 7;
        if b & 0x80 == 0 {
            return (value, i + 1);
        }
    }
    panic!("unterminated LEB128");
}

/// Reads signed LEB128 back, returning the value and the bytes consumed.
fn read_sleb128(bytes: &[u8]) -> (i128, usize) {
    let mut value: i128 = 0;
    let mut shift = 0;
    for (i, b) in bytes.iter().enumerate() {
        value |= ((b & 0x7f) as i128) << shift;
        shift += 7;
        if b & 0x80 == 0 {
            if b & 0x40 != 0 {
                value -= 1i128 << shift;
            }
            return (value, i + 1);
        }
    }
    panic!("unterminated LEB128");
}

#[test]
fn small_values_take_one_byte_and_128_takes_two() {
    let mut buffer = std::vec::Vec::new();
    assert_eq!(buffer.encode_u32(3), 1);
    assert_eq!(buffer.encode_u32(100), 1);
    assert_eq!(buffer.encode_u32(128), 2);
    assert_eq!(buffer, vec![3, 100, 0x80, 0x01]);
}

#[test]
fn encode_returns_number_of_bytes_written() {
    let mut buffer = vec![0xaa];
    assert_eq!(buffer.encode_u64(u64::MAX), 10);
    assert_eq!(buffer.len(), 11);
    assert_eq!(buffer.encode_i32(-1), 1);
    assert_eq!(buffer.encode_i64(i64::MIN), 10);
    assert_eq!(buffer.len(), 22);
    assert_eq!(buffer[0], 0xaa);
}

#[test]
fn unsigned_encoding_reads_back_and_respects_max_size() {
    let values: [u64; 9] = [0, 1, 127, 128, 300, 16384, u32::MAX as u64, 1 << 40, u64::MAX];
    for &v in values.iter() {
        let mut buffer = std::vec::Vec::new();
        let n = buffer.encode_u64(v);
        assert_eq!(read_uleb128(&buffer), (v as u128, n));
        assert!(n <= MAX_SIZE_ENCODED_U64);
        // every byte but the last carries the continuation bit
        for b in &buffer[..n - 1] {
            assert!(b & 0x80 != 0);
        }
        if v <= u32::MAX as u64 {
            let mut narrow = std::vec::Vec::new();
            let m = narrow.encode_u32(v as u32);
            assert_eq!(narrow, buffer);
            assert!(m <= MAX_SIZE_ENCODED_U32);
        }
    }
}

#[test]
fn signed_encoding_reads_back_and_respects_max_size() {
    let values: [i64; 10] = [0, 1, -1, 63, 64, -64, -65, i32::MIN as i64, i64::MAX, i64::MIN];
    for &v in values.iter() {
        let mut buffer = std::vec::Vec::new();
        let n = buffer.encode_i64(v);
        assert_eq!(read_sleb128(&buffer), (v as i128, n));
        assert!(n <= MAX_SIZE_ENCODED_U64);
        if v >= i32::MIN as i64 && v <= i32::MAX as i64 {
            let mut narrow = std::vec::Vec::new();
            let m = narrow.encode_i32(v as i32);
            assert_eq!(narrow, buffer);
            assert!(m <= MAX_SIZE_ENCODED_U32);
        }
    }
}

#[test]
fn padded_forms_read_back_as_the_same_number() {
    for &v in [0u32, 1, 127, 128, 0x1234_5678, u32::MAX].iter() {
        let mut buffer = [0u8; 5];
        overwrite_padded_u32(&mut buffer, v);
        assert_eq!(read_uleb128(&buffer), (v as u128, 5));
    }
    for &v in [0i32, 1, -1, -64, 64, i32::MIN, i32::MAX].iter() {
        let mut buffer = [0u8; 5];
        wasm_module::overwrite_padded_i32(&mut buffer, v);
        assert_eq!(read_sleb128(&buffer), (v as i128, 5));
    }
}

#[test]
fn overwrite_padded_leaves_the_rest_alone() {
    let mut buffer = [0x11u8; 8];
    overwrite_padded_u32(&mut buffer[1..], 300);
    assert_eq!(buffer, [0x11, 0xac, 0x82, 0x80, 0x80, 0x00, 0x11, 0x11]);
}

#[test]
fn vec_primitive_operations() {
    let mut buffer: std::vec::Vec<u8> = std::vec::Vec::new();
    buffer.append_u8(7);
    buffer.append_slice(&[1, 2, 3]);
    buffer.overwrite_u8(2, 9);
    assert_eq!(buffer.size(), 4);
    assert_eq!(buffer, vec![7, 1, 9, 3]);
}

#[test]
fn vec_reserve_then_overwrite_matches_encode_padded() {
    let mut reserved = vec![0x01u8, 0x02];
    let index = reserved.reserve_padded_u32();
    assert_eq!(index, 2);
    assert_eq!(reserved, vec![0x01, 0x02, 0xff, 0xff, 0xff, 0xff, 0xff]);
    reserved.overwrite_padded_u32(index, 624485);
    let mut direct = vec![0x01u8, 0x02];
    assert_eq!(direct.encode_padded_u32(624485), 2);
    assert_eq!(reserved, direct);
    assert_eq!(direct, vec![0x01, 0x02, 0xe5, 0x8e, 0xa6, 0x80, 0x00]);
}

#[test]
fn overwrite_padded_twice_keeps_the_second_value() {
    let mut buffer = vec![0u8; 7];
    buffer.overwrite_padded_u32(1, 5);
    buffer.overwrite_padded_u32(1, 130);
    assert_eq!(buffer, vec![0, 0x82, 0x81, 0x80, 0x80, 0x00, 0]);
}

#[test]
fn bump_vec_primitive_operations() {
    let arena = Bump::new();
    let mut buffer: BumpVec<u8> = BumpVec::new_in(&arena);
    buffer.append_u8(7);
    buffer.append_u8(8);
    buffer.append_slice(&[1, 2, 3]);
    buffer.overwrite_u8(0, 9);
    assert_eq!(buffer.size(), 5);
    assert_eq!(buffer, [9, 8, 1, 2, 3]);
}

#[test]
fn bump_vec_padded_operations() {
    let arena = Bump::new();
    let mut buffer: BumpVec<u8> = BumpVec::new_in(&arena);
    buffer.append_u8(0x42);
    let index = buffer.reserve_padded_u32();
    assert_eq!(index, 1);
    assert_eq!(buffer, [0x42, 0xff, 0xff, 0xff, 0xff, 0xff]);
    buffer.overwrite_padded_u32(index, 128);
    assert_eq!(buffer, [0x42, 0x80, 0x81, 0x80, 0x80, 0x00]);
    assert_eq!(buffer.encode_padded_u32(1), 6);
    assert_eq!(buffer.size(), 11);
    assert_eq!(&buffer[6..], &[0x81, 0x80, 0x80, 0x80, 0x00]);
}

#[test]
fn bump_vec_unencoded_and_leb128() {
    let arena = Bump::new();
    let mut buffer: BumpVec<u8> = BumpVec::new_in(&arena);
    buffer.write_unencoded_u32(0x0102_0304);
    buffer.write_unencoded_u64(0x1122_3344_5566_7788);
    assert_eq!(buffer.encode_i32(-129), 2);
    assert_eq!(
        buffer,
        [4, 3, 2, 1, 0x88, 0x77, 0x66, 0x55, 0x44, 0x33, 0x22, 0x11, 0xff, 0x7e]
    );
}

#[test]
fn serialize_scalars_and_strings() {
    let mut buffer = std::vec::Vec::new();
    7u8.serialize(&mut buffer);
    300u32.serialize(&mut buffer);
    ().serialize(&mut buffer);
    "ab".serialize(&mut buffer);
    let name: &str = "xyz";
    (&name).serialize(&mut buffer);
    assert_eq!(buffer, vec![7, 0xac, 0x02, 2, b'a', b'b', 3, b'x', b'y', b'z']);
}

#[test]
fn serialize_str_unsized() {
    let mut buffer = std::vec::Vec::new();
    let s: &str = "héllo";
    <str as Serialize>::serialize(s, &mut buffer);
    assert_eq!(buffer[0], 6);
    assert_eq!(&buffer[1..], "héllo".as_bytes());
}

#[test]
fn serialize_vectors_options_and_pairs() {
    let mut buffer = std::vec::Vec::new();
    let items: [u32; 3] = [1, 200, 3];
    items[..].serialize(&mut buffer);
    assert_eq!(buffer, vec![3, 1, 0xc8, 0x01, 3]);

    let mut buffer = std::vec::Vec::new();
    (5u8, 129u32).serialize(&mut buffer);
    assert_eq!(buffer, vec![5, 0x81, 0x01]);

    let mut buffer = std::vec::Vec::new();
    let empty: [u8; 0] = [];
    empty[..].serialize(&mut buffer);
    assert_eq!(buffer, vec![0]);
}

#[test]
fn option_is_written_as_a_short_vector() {
    let mut as_option = std::vec::Vec::new();
    Some(9u32).serialize(&mut as_option);
    let mut as_vector = std::vec::Vec::new();
    [9u32][..].serialize(&mut as_vector);
    assert_eq!(as_option, as_vector);
    assert_eq!(as_option, vec![1, 9]);

    let mut none = std::vec::Vec::new();
    None::<u32>.serialize(&mut none);
    let mut empty_vector = std::vec::Vec::new();
    let empty: [u32; 0] = [];
    empty[..].serialize(&mut empty_vector);
    assert_eq!(none, empty_vector);
    assert_eq!(none, vec![0]);
}

#[test]
fn serialize_bump_vec_of_bytes() {
    let arena = Bump::new();
    let mut payload: BumpVec<u8> = BumpVec::new_in(&arena);
    payload.extend_from_slice(&[0xde, 0xad, 0xbe, 0xef]);
    let mut buffer = std::vec::Vec::new();
    payload.serialize(&mut buffer);
    assert_eq!(buffer, vec![4, 0xde, 0xad, 0xbe, 0xef]);
}
