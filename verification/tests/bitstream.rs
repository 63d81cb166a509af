use compression_platform::encoding::bitstream::{
    BitstreamReader, BitstreamVisualization, BitstreamWriter,
};

#[test]
fn test_write_and_read_bits() {
    let mut writer = BitstreamWriter::new();
    writer.write_bit(true);
    writer.write_bit(false);
    writer.write_bit(true);
    writer.write_bit(true);
    writer.write_bit(false);
    writer.write_bit(false);
    writer.write_bit(true);
    writer.write_bit(false);

    let bytes = writer.into_bytes();
    assert_eq!(bytes, vec![0b10110010]);

    let mut reader = BitstreamReader::new(&bytes);
    assert_eq!(reader.read_bit(), Some(true));
    assert_eq!(reader.read_bit(), Some(false));
    assert_eq!(reader.read_bit(), Some(true));
    assert_eq!(reader.read_bit(), Some(true));
    assert_eq!(reader.read_bit(), Some(false));
    assert_eq!(reader.read_bit(), Some(false));
    assert_eq!(reader.read_bit(), Some(true));
    assert_eq!(reader.read_bit(), Some(false));
}

#[test]
fn test_write_bits_multi() {
    let mut writer = BitstreamWriter::new();
    writer.write_bits(0b11010, 5);
    writer.write_bits(0b110, 3);

    let bytes = writer.into_bytes();
    assert_eq!(bytes, vec![0b11010110]);
}

#[test]
fn test_write_bit_string() {
    let mut writer = BitstreamWriter::new();
    writer.write_bit_string("10110010");
    let bytes = writer.into_bytes();
    assert_eq!(bytes, vec![0b10110010]);
}

#[test]
fn test_partial_byte_flush() {
    let mut writer = BitstreamWriter::new();
    writer.write_bit(true);
    writer.write_bit(true);
    writer.write_bit(false);

    assert_eq!(writer.total_bits(), 3);
    let bytes = writer.into_bytes();
    assert_eq!(bytes, vec![0b11000000]);
}

#[test]
fn test_visualization() {
    let bytes = vec![0b10110010, 0b11110000];
    let vis = BitstreamVisualization::from_bytes(&bytes, 16);
    assert_eq!(vis.binary_string, "1011001011110000");
    assert_eq!(vis.byte_groups.len(), 2);
}

#[test]
fn test_visualization_partial() {
    let bytes = vec![0b10110010, 0b11100000];
    let vis = BitstreamVisualization::from_bytes(&bytes, 11);
    assert_eq!(vis.binary_string, "10110010111");
    assert_eq!(vis.total_bits, 11);
}

#[test]
fn written_bits_read_back_in_order() {
    let mut writer = BitstreamWriter::new();
    writer.write_bits(0b101, 3);
    writer.write_byte(0xA5);
    writer.write_bit_string("01x1");
    writer.write_bits(0x1234_5678_9ABC_DEF0, 64);
    assert_eq!(writer.total_bits(), 3 + 8 + 3 + 64);
    let bytes = writer.into_bytes();
    assert_eq!(bytes.len(), 10);

    let mut reader = BitstreamReader::new(&bytes);
    assert_eq!(reader.read_bits(3), Some(0b101));
    assert_eq!(reader.read_byte(), Some(0xA5));
    assert_eq!(reader.read_bits(3), Some(0b011));
    assert_eq!(reader.read_bits(64), Some(0x1234_5678_9ABC_DEF0));
    assert_eq!(reader.bits_read(), 78);
    assert!(reader.has_more());
    assert_eq!(reader.read_bits(2), Some(0));
    assert!(!reader.has_more());
    assert_eq!(reader.read_bit(), None);
}

#[test]
fn reading_past_the_end_gives_none() {
    let bytes = vec![0xFFu8];
    let mut reader = BitstreamReader::new(&bytes);
    assert_eq!(reader.read_bits(9), None);
    assert!(!reader.has_more());
    let mut reader = BitstreamReader::new(&bytes);
    assert_eq!(reader.read_byte(), Some(0xFF));
    assert_eq!(reader.read_byte(), None);
}

#[test]
fn flush_pads_and_as_bytes_shows_whole_bytes() {
    let mut writer = BitstreamWriter::new();
    writer.write_bits(0b1, 1);
    assert!(writer.as_bytes().is_empty());
    writer.flush();
    assert_eq!(writer.total_bits(), 8);
    assert_eq!(writer.as_bytes(), &[0b1000_0000u8][..]);
    writer.flush();
    assert_eq!(writer.into_bytes(), vec![0b1000_0000u8]);
}

#[test]
fn visualization_groups_follow_bytes() {
    let bytes = vec![0x0Fu8, 0xF0, 0xAA];
    let vis = BitstreamVisualization::from_bytes(&bytes, 12);
    assert_eq!(vis.binary_string, "000011111111");
    assert_eq!(vis.byte_groups, vec!["00001111".to_string(), "1111".to_string()]);
    assert_eq!(vis.bytes, bytes);
    let vis = BitstreamVisualization::from_bytes(&bytes, 40);
    assert_eq!(vis.binary_string.len(), 24);
    assert_eq!(vis.byte_groups.len(), 3);
}

#[test]
fn written_bytes_read_back_one_by_one_then_none() {
    let input = [0x00u8, 0x80, 0xFF, 0x07, 0x5A];
    let mut writer = BitstreamWriter::new();
    for b in input {
        writer.write_byte(b);
    }
    let bytes = writer.into_bytes();
    assert_eq!(bytes, input.to_vec());
    let mut reader = BitstreamReader::new(&bytes);
    for b in input {
        assert_eq!(reader.read_byte(), Some(b));
    }
    assert_eq!(reader.read_byte(), None);
}

#[test]
fn read_bits_weighs_each_bit_by_its_place() {
    let bytes = vec![0b1011_0110u8, 0b0100_0000];
    let mut reader = BitstreamReader::new(&bytes);
    assert_eq!(reader.read_bits(5), Some(16 + 4 + 2));
    assert_eq!(reader.read_bits(5), Some(16 + 8 + 1));
    assert_eq!(reader.bits_read(), 10);
}
