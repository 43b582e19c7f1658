use dump_to_map::chunk::{read_section, ChunkData};
use dump_to_map::error::DecodeError;
use dump_to_map::reader::{ByteCursor, ReadArrayExt};
use dump_to_map::varint::{read_varint, read_varlong, write_varint, write_varlong};
use mc_varint::{VarInt, VarIntWrite, VarLong, VarLongWrite};

fn payload(data: Vec<u8>) -> ChunkData {
    ChunkData { _type: String::from("Buffer"), data }
}

/// One section: block count 1, the given bits per block, palette and words.
fn section_bytes(bits: u8, palette: &[u8], words: &[i64]) -> Vec<u8> {
    let mut out = vec![0x00, 0x01, bits];
    if bits <= 8 {
        out.push(palette.len() as u8);
        out.extend_from_slice(palette);
    }
    out.push(words.len() as u8);
    for w in words {
        out.extend_from_slice(&w.to_be_bytes());
    }
    out
}

#[test]
fn varint_single_byte() {
    assert_eq!(read_varint(&[0x00]), Ok((0, 1)));
    assert_eq!(read_varint(&[0x01]), Ok((1, 1)));
    assert_eq!(read_varint(&[0x7f]), Ok((127, 1)));
}

#[test]
fn varint_multi_byte() {
    assert_eq!(read_varint(&[0x80, 0x01]), Ok((128, 2)));
    assert_eq!(read_varint(&[0xff, 0x01]), Ok((255, 2)));
    assert_eq!(read_varint(&[0xdd, 0xc7, 0x01]), Ok((25565, 3)));
    assert_eq!(read_varint(&[0xff, 0xff, 0x7f]), Ok((2097151, 3)));
    assert_eq!(read_varint(&[0xff, 0xff, 0xff, 0xff, 0x07]), Ok((2147483647, 5)));
}

#[test]
fn varint_negative() {
    assert_eq!(read_varint(&[0xff, 0xff, 0xff, 0xff, 0x0f]), Ok((-1, 5)));
    assert_eq!(read_varint(&[0x80, 0x80, 0x80, 0x80, 0x08]), Ok((-2147483648, 5)));
}

#[test]
fn varint_ignores_what_follows() {
    assert_eq!(read_varint(&[0x05, 0xff, 0xff]), Ok((5, 1)));
}

#[test]
fn varint_past_the_width_is_refused() {
    assert_eq!(read_varint(&[0xff, 0xff, 0xff, 0xff, 0x7f]), Err(DecodeError::VarintTooLong));
    assert_eq!(read_varint(&[0x80, 0x80, 0x80, 0x80, 0x10]), Err(DecodeError::VarintTooLong));
    assert_eq!(read_varint(&[0x80, 0x80, 0x80, 0x80, 0x0f]), Ok((-268435456, 5)));
    assert_eq!(read_varint(&[0x80, 0x80, 0x80, 0x80, 0x00]), Ok((0, 5)));
    assert_eq!(
        read_varlong(&[0xff, 0xff, 0xff, 0xff, 0xff, 0xff, 0xff, 0xff, 0xff, 0x02]),
        Err(DecodeError::VarintTooLong)
    );
    assert_eq!(
        read_varlong(&[0x80, 0x80, 0x80, 0x80, 0x80, 0x80, 0x80, 0x80, 0x80, 0x7f]),
        Err(DecodeError::VarintTooLong)
    );
}

#[test]
fn varint_truncated_is_short_read() {
    assert_eq!(read_varint(&[]), Err(DecodeError::ShortRead));
    assert_eq!(read_varint(&[0x80]), Err(DecodeError::ShortRead));
    assert_eq!(read_varint(&[0xff, 0xff, 0xff, 0xff]), Err(DecodeError::ShortRead));
}

#[test]
fn varint_too_long() {
    assert_eq!(
        read_varint(&[0x80, 0x80, 0x80, 0x80, 0x80]),
        Err(DecodeError::VarintTooLong)
    );
    assert_eq!(
        read_varint(&[0x80, 0x80, 0x80, 0x80, 0x80, 0x01]),
        Err(DecodeError::VarintTooLong)
    );
}

#[test]
fn varlong_values() {
    assert_eq!(read_varlong(&[0x00]), Ok((0, 1)));
    assert_eq!(read_varlong(&[0xff, 0xff, 0xff, 0xff, 0x07]), Ok((2147483647, 5)));
    assert_eq!(
        read_varlong(&[0xff, 0xff, 0xff, 0xff, 0xff, 0xff, 0xff, 0xff, 0x7f]),
        Ok((9223372036854775807, 9))
    );
    assert_eq!(
        read_varlong(&[0xff, 0xff, 0xff, 0xff, 0xff, 0xff, 0xff, 0xff, 0xff, 0x01]),
        Ok((-1, 10))
    );
    assert_eq!(
        read_varlong(&[0x80, 0x80, 0x80, 0x80, 0x80, 0x80, 0x80, 0x80, 0x80, 0x01]),
        Ok((-9223372036854775808, 10))
    );
}

#[test]
fn varlong_failures() {
    assert_eq!(read_varlong(&[0x80, 0x80]), Err(DecodeError::ShortRead));
    assert_eq!(
        read_varlong(&[0x80, 0x80, 0x80, 0x80, 0x80, 0x80, 0x80, 0x80, 0x80, 0x80]),
        Err(DecodeError::VarintTooLong)
    );
}

#[test]
fn cursor_reads_big_endian() {
    let data = [0x12, 0x34, 0xff, 0xfe, 0x00, 0x00, 0x01, 0x00, 0x80, 0, 0, 0, 0, 0, 0, 0x01, 0x09];
    let mut cur = ByteCursor::new(&data);
    assert_eq!(cur.remaining(), 17);
    assert_eq!(cur.read_i16(), Ok(0x1234));
    assert_eq!(cur.read_i16(), Ok(-2));
    assert_eq!(cur.read_i32(), Ok(256));
    assert_eq!(cur.read_i64(), Ok(i64::MIN + 1));
    assert_eq!(cur.read_u8(), Ok(9));
    assert_eq!(cur.remaining(), 0);
    assert_eq!(cur.read_u8(), Err(DecodeError::ShortRead));
}

#[test]
fn cursor_failed_read_takes_nothing() {
    let data = [0x01, 0x02, 0x03];
    let mut cur = ByteCursor::new(&data);
    assert_eq!(cur.read_i32(), Err(DecodeError::ShortRead));
    assert_eq!(cur.remaining(), 3);
    assert_eq!(cur.read_i64(), Err(DecodeError::ShortRead));
    assert_eq!(cur.rest(), &[0x01, 0x02, 0x03]);
    assert_eq!(cur.read_i16(), Ok(0x0102));
    assert_eq!(cur.read_i16(), Err(DecodeError::ShortRead));
    assert_eq!(cur.rest(), &[0x03]);
    let more = [0x80, 0x80];
    let mut cur = ByteCursor::new(&more);
    assert_eq!(cur.read_varint(), Err(DecodeError::ShortRead));
    assert_eq!(cur.read_varlong(), Err(DecodeError::ShortRead));
    assert_eq!(cur.remaining(), 2);
}

#[test]
fn cursor_reads_varints_in_a_row() {
    let data = [0x80, 0x01, 0x07, 0xff, 0xff, 0xff, 0xff, 0x0f];
    let mut cur = ByteCursor::new(&data);
    assert_eq!(cur.read_varint(), Ok(128));
    assert_eq!(cur.read_varlong(), Ok(7));
    assert_eq!(cur.read_varint(), Ok(-1));
    assert_eq!(cur.remaining(), 0);
}

#[test]
fn arrays_of_each_kind() {
    let data = [1u8, 2, 3];
    let mut cur = ByteCursor::new(&data);
    assert_eq!(cur.read_u8_array(2), Ok(vec![1, 2]));
    assert_eq!(cur.remaining(), 1);

    let data = [0u8, 0, 0, 5, 0xff, 0xff, 0xff, 0xff];
    let mut cur = ByteCursor::new(&data);
    assert_eq!(cur.read_i32_array(2), Ok(vec![5, -1]));

    let data = [0u8, 0, 0, 0, 0, 0, 1, 0, 0xff, 0xff, 0xff, 0xff, 0xff, 0xff, 0xff, 0xfe, 9];
    let mut cur = ByteCursor::new(&data);
    assert_eq!(cur.read_i64_array(2), Ok(vec![256, -2]));
    assert_eq!(cur.rest(), &[9]);

    let data = [0x07u8, 0x80, 0x01, 0x00];
    let mut cur = ByteCursor::new(&data);
    assert_eq!(cur.read_varint_array(3), Ok(vec![7, 128, 0]));

    let data = [0x07u8, 0x80, 0x01];
    let mut cur = ByteCursor::new(&data);
    assert_eq!(cur.read_varlong_array(2), Ok(vec![7, 128]));
}

#[test]
fn array_of_none_takes_nothing() {
    let data = [1u8, 2];
    let mut cur = ByteCursor::new(&data);
    assert_eq!(cur.read_i64_array(0), Ok(vec![]));
    assert_eq!(cur.read_varint_array(0), Ok(vec![]));
    assert_eq!(cur.remaining(), 2);
}

#[test]
fn short_array_fails_and_takes_nothing() {
    let data = [0u8, 0, 0, 0, 0, 0, 0, 1, 0, 0, 0];
    let mut cur = ByteCursor::new(&data);
    assert_eq!(cur.read_i64_array(2), Err(DecodeError::ShortRead));
    assert_eq!(cur.remaining(), 11);
    assert_eq!(cur.read_i32_array(3), Err(DecodeError::ShortRead));
    assert_eq!(cur.read_u8_array(12), Err(DecodeError::ShortRead));
    let data = [0x01u8, 0x80];
    let mut cur = ByteCursor::new(&data);
    assert_eq!(cur.read_varint_array(2), Err(DecodeError::ShortRead));
    assert_eq!(cur.read_varlong_array(2), Err(DecodeError::ShortRead));
    assert_eq!(cur.remaining(), 2);
    let data = [0x01u8, 0x80, 0x80, 0x80, 0x80, 0x80, 0x80];
    let mut cur = ByteCursor::new(&data);
    assert_eq!(cur.read_varint_array(2), Err(DecodeError::VarintTooLong));
    assert_eq!(cur.remaining(), 7);
}

#[test]
fn section_with_palette() {
    let bytes = section_bytes(4, &[7, 9], &[0, -1]);
    let mut cur = ByteCursor::new(&bytes);
    let section = read_section(&mut cur).unwrap();
    assert_eq!(section.palette, vec![7, 9]);
    assert_eq!(section.data, vec![0, -1]);
    assert_eq!(section.block_states_compound(), vec![0, -1]);
    assert_eq!(cur.remaining(), 0);
}

#[test]
fn section_without_palette() {
    let bytes = section_bytes(14, &[], &[3]);
    let mut cur = ByteCursor::new(&bytes);
    let section = read_section(&mut cur).unwrap();
    assert_eq!(section.palette, Vec::<i32>::new());
    assert_eq!(section.data, vec![3]);
}

#[test]
fn section_at_the_edge_of_the_palette_range() {
    let bytes = section_bytes(8, &[1], &[]);
    let mut cur = ByteCursor::new(&bytes);
    let section = read_section(&mut cur).unwrap();
    assert_eq!(section.palette, vec![1]);
    let mut bytes = vec![0, 0, 9, 1];
    bytes.extend_from_slice(&5i64.to_be_bytes());
    let mut cur = ByteCursor::new(&bytes);
    let section = read_section(&mut cur).unwrap();
    assert_eq!(section.palette, Vec::<i32>::new());
    assert_eq!(section.data, vec![5]);
}

#[test]
fn section_failures_take_nothing() {
    let bytes = [0u8];
    let mut cur = ByteCursor::new(&bytes);
    assert_eq!(read_section(&mut cur).unwrap_err(), DecodeError::ShortRead);
    let bytes = [0u8, 1, 4, 2, 7];
    let mut cur = ByteCursor::new(&bytes);
    assert_eq!(read_section(&mut cur).unwrap_err(), DecodeError::ShortRead);
    assert_eq!(cur.remaining(), 5);
    let bytes = [0u8, 1, 4, 0xff, 0xff, 0xff, 0xff, 0x0f];
    let mut cur = ByteCursor::new(&bytes);
    assert_eq!(read_section(&mut cur).unwrap_err(), DecodeError::NegativeLength);
    assert_eq!(cur.remaining(), 8);
    let bytes = [0u8, 1, 4, 0, 0xff, 0xff, 0xff, 0xff, 0x0f];
    let mut cur = ByteCursor::new(&bytes);
    assert_eq!(read_section(&mut cur).unwrap_err(), DecodeError::NegativeLength);
    let bytes = [0u8, 1, 4, 0, 1, 0, 0];
    let mut cur = ByteCursor::new(&bytes);
    assert_eq!(read_section(&mut cur).unwrap_err(), DecodeError::ShortRead);
    assert_eq!(cur.remaining(), 7);
}

#[test]
fn payload_of_one_section() {
    let data = payload(section_bytes(4, &[7], &[0, 0, 0]));
    let parsed = data.read_data(1, false).unwrap();
    assert_eq!(parsed.len(), 1);
    assert_eq!(parsed.key(0), 0);
    assert_eq!(parsed.section(0).palette, vec![7]);
    assert_eq!(parsed.section(0).data, vec![0, 0, 0]);
}

#[test]
fn payload_has_one_section_for_each_set_bit() {
    let mut bytes = section_bytes(4, &[1], &[10]);
    bytes.extend(section_bytes(4, &[2], &[20]));
    bytes.extend(section_bytes(14, &[], &[30]));
    let data = payload(bytes);
    let mask = (1 << 1) | (1 << 4) | (1 << 15);
    let parsed = data.read_data(mask, true).unwrap();
    assert_eq!(parsed.len(), 3);
    assert_eq!(parsed.key(0), 1);
    assert_eq!(parsed.key(1), 4);
    assert_eq!(parsed.key(2), 15);
    assert_eq!(parsed.section(0).data, vec![10]);
    assert_eq!(parsed.section(1).data, vec![20]);
    assert_eq!(parsed.section(2).data, vec![30]);
    assert_eq!(parsed.section(2).palette, Vec::<i32>::new());
}

#[test]
fn payload_with_empty_mask() {
    let data = payload(vec![1, 2, 3]);
    let parsed = data.read_data(0, false).unwrap();
    assert_eq!(parsed.len(), 0);
}

#[test]
fn payload_ignores_mask_bits_above_the_column() {
    let data = payload(section_bytes(4, &[7], &[]));
    let parsed = data.read_data(1 | (1 << 16) | (1 << 20), false).unwrap();
    assert_eq!(parsed.len(), 1);
    let parsed = data.read_data(i32::MIN, false).unwrap();
    assert_eq!(parsed.len(), 0);
}

#[test]
fn payload_with_all_bits_set() {
    let mut bytes = Vec::new();
    for i in 0..16u8 {
        bytes.extend(section_bytes(4, &[i], &[i as i64]));
    }
    let data = payload(bytes);
    let parsed = data.read_data(-1, false).unwrap();
    assert_eq!(parsed.len(), 16);
    for i in 0..16usize {
        assert_eq!(parsed.key(i), i as i32);
        assert_eq!(parsed.section(i).palette, vec![i as i32]);
    }
}

#[test]
fn payload_too_short_for_its_mask() {
    let data = payload(section_bytes(4, &[7], &[0]));
    assert_eq!(data.read_data(3, false).unwrap_err(), DecodeError::ShortRead);
    let data = payload(vec![0, 1, 4, 0x80, 0x80, 0x80, 0x80, 0x80, 0x01]);
    assert_eq!(data.read_data(1, false).unwrap_err(), DecodeError::VarintTooLong);
}

#[test]
fn varint_written_bytes() {
    assert_eq!(write_varint(0), vec![0x00]);
    assert_eq!(write_varint(1), vec![0x01]);
    assert_eq!(write_varint(127), vec![0x7f]);
    assert_eq!(write_varint(128), vec![0x80, 0x01]);
    assert_eq!(write_varint(25565), vec![0xdd, 0xc7, 0x01]);
    assert_eq!(write_varint(2147483647), vec![0xff, 0xff, 0xff, 0xff, 0x07]);
    assert_eq!(write_varint(-1), vec![0xff, 0xff, 0xff, 0xff, 0x0f]);
    assert_eq!(write_varint(-2147483648), vec![0x80, 0x80, 0x80, 0x80, 0x08]);
    assert_eq!(
        write_varlong(-1),
        vec![0xff, 0xff, 0xff, 0xff, 0xff, 0xff, 0xff, 0xff, 0xff, 0x01]
    );
    assert_eq!(write_varlong(300), vec![0xac, 0x02]);
}

#[test]
fn varint_read_back_after_writing() {
    let mut x: i32 = i32::MIN;
    loop {
        let bytes = write_varint(x);
        assert_eq!(read_varint(&bytes), Ok((x, bytes.len())));
        let mut longer = bytes.clone();
        longer.push(0xff);
        assert_eq!(read_varint(&longer), Ok((x, bytes.len())));
        for k in 0..bytes.len() {
            assert_eq!(read_varint(&bytes[..k]), Err(DecodeError::ShortRead));
        }
        match x.checked_add(16_777_259) {
            Some(next) => x = next,
            None => break,
        }
    }
    for x in [-129, -128, -1, 0, 1, 127, 128, 16383, 16384, i32::MAX] {
        let bytes = write_varint(x);
        assert_eq!(read_varint(&bytes), Ok((x, bytes.len())));
    }
}

#[test]
fn varlong_read_back_after_writing() {
    for x in [i64::MIN, -1 << 40, -1, 0, 1, 127, 128, 1 << 35, 1 << 62, i64::MAX] {
        let bytes = write_varlong(x);
        assert_eq!(read_varlong(&bytes), Ok((x, bytes.len())));
        for k in 0..bytes.len() {
            assert_eq!(read_varlong(&bytes[..k]), Err(DecodeError::ShortRead));
        }
    }
}

#[test]
fn varint_written_as_the_codec_writes() {
    for x in [i32::MIN, -300, -1, 0, 1, 127, 128, 255, 25565, 2097151, i32::MAX] {
        let mut out = Vec::new();
        out.write_var_int(VarInt::from(x)).unwrap();
        assert_eq!(write_varint(x), out);
    }
    for x in [i64::MIN, -1, 0, 128, 1 << 40, i64::MAX] {
        let mut out = Vec::new();
        out.write_var_long(VarLong::from(x)).unwrap();
        assert_eq!(write_varlong(x), out);
    }
}
