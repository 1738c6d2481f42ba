use jpegstream::iostream::{iostream, InputStream};
use jpegstream::jpeg_decoder::error::JpegError;
use jpegstream::jpeg_decoder::huffman::{
    extend, fill_default_mjpeg_tables, two_pow, AcEntry, HuffmanDecoder, HuffmanTable,
    HuffmanTableClass, LutEntry,
};
use jpegstream::jpeg_decoder::jpeg::ScanInfo;

fn malformatted(text: &str) -> JpegError {
    JpegError::Malformatted(text.to_string())
}

fn stream_of(bytes: &[u8]) -> InputStream {
    let (input, output) = iostream(4);
    output.write(bytes).unwrap();
    output.write_eof().unwrap();
    input
}

fn counts(list: &[u8]) -> [u8; 16] {
    let mut all = [0u8; 16];
    all[..list.len()].copy_from_slice(list);
    all
}

#[test]
fn extend_follows_the_standard_table() {
    assert_eq!(extend(0, 0), 0);
    assert_eq!(extend(0, 1), -1);
    assert_eq!(extend(1, 1), 1);
    assert_eq!(extend(0, 2), -3);
    assert_eq!(extend(1, 2), -2);
    assert_eq!(extend(2, 2), 2);
    assert_eq!(extend(3, 2), 3);
    assert_eq!(extend(0, 11), -2047);
    assert_eq!(extend(1023, 11), -1024);
    assert_eq!(extend(1024, 11), 1024);
    assert_eq!(extend(2047, 11), 2047);
    assert_eq!(extend(0, 15), -32767);
    assert_eq!(extend(32767, 15), 32767);
    assert_eq!(two_pow(0), 1);
    assert_eq!(two_pow(13), 8192);
    assert_eq!(two_pow(31), 0x8000_0000);
}

#[test]
fn table_assigns_codes_in_rising_order() {
    // Lengths: one code of 2 bits, two of 3 bits, one of 9 bits.
    let bits = counts(&[0, 1, 2, 0, 0, 0, 0, 0, 1]);
    let table = HuffmanTable::new(&bits, &[10, 20, 30, 40], HuffmanTableClass::DC).unwrap();
    // 00 -> 10; 010 -> 20; 011 -> 30; 100000000 -> 40.
    assert_eq!(table.lookup(0b0011_1111), LutEntry { value: 10, len: 2 });
    assert_eq!(table.lookup(0b0100_0000), LutEntry { value: 20, len: 3 });
    assert_eq!(table.lookup(0b0111_1111), LutEntry { value: 30, len: 3 });
    assert_eq!(table.lookup(0b1000_0000), LutEntry { value: 0, len: 0 });
    assert_eq!(table.find(0b0100_0000_0000_0000, 16, 1), Some((20, 3)));
    assert_eq!(table.find(0b1000_0000_0111_1111, 16, 1), Some((40, 9)));
    assert_eq!(table.find(0b1000_0000_0111_1111, 16, 9), Some((40, 9)));
    assert_eq!(table.find(0b1000_0000_1000_0000, 16, 1), None);
    assert_eq!(table.find(0b010, 3, 1), Some((20, 3)));
    assert_eq!(table.find(0b01, 2, 1), None);
    assert_eq!(table.lookup_ac(0), None);
}

#[test]
fn table_rejects_codes_that_do_not_fit_and_wrong_value_counts() {
    assert_eq!(
        HuffmanTable::new(&counts(&[3]), &[1, 2, 3], HuffmanTableClass::DC),
        Err(malformatted("bad huffman code length"))
    );
    assert_eq!(
        HuffmanTable::new(&counts(&[1, 3]), &[1, 2, 3, 4], HuffmanTableClass::AC),
        Err(malformatted("bad huffman code length"))
    );
    assert!(HuffmanTable::new(&counts(&[2]), &[1, 2], HuffmanTableClass::DC).is_ok());
    assert_eq!(
        HuffmanTable::new(&counts(&[1, 1]), &[1], HuffmanTableClass::DC),
        Err(malformatted("huffman table with a wrong number of values"))
    );
    assert_eq!(
        HuffmanTable::new(&counts(&[1, 1]), &[1, 2, 3], HuffmanTableClass::DC),
        Err(malformatted("huffman table with a wrong number of values"))
    );
}

#[test]
fn ac_side_table_holds_short_coefficients() {
    // 0 -> EOB; 10 -> run 0 size 1; 110 -> run 2 size 3; 1110 -> run 1 size 5.
    let bits = counts(&[1, 1, 1, 1]);
    let table = HuffmanTable::new(&bits, &[0x00, 0x01, 0x23, 0x15], HuffmanTableClass::AC).unwrap();
    assert_eq!(table.lookup_ac(0b0111_1111), Some(AcEntry { value: 0, run: 0, bits: 0 }));
    assert_eq!(table.lookup_ac(0b1010_0000), Some(AcEntry { value: 1, run: 0, bits: 3 }));
    assert_eq!(table.lookup_ac(0b1001_1111), Some(AcEntry { value: -1, run: 0, bits: 3 }));
    assert_eq!(table.lookup_ac(0b1101_0111), Some(AcEntry { value: 5, run: 2, bits: 6 }));
    assert_eq!(table.lookup_ac(0b1100_1011), Some(AcEntry { value: -5, run: 2, bits: 6 }));
    // Four bits of code and five of magnitude do not fit into eight.
    assert_eq!(table.lookup_ac(0b1110_1111), Some(AcEntry { value: 0, run: 0, bits: 0 }));
    assert_eq!(table.lookup_ac(0b1111_0000), Some(AcEntry { value: 0, run: 0, bits: 0 }));
}

#[test]
fn get_bits_reads_bits_in_order() {
    let mut input = stream_of(&[0b1011_0010, 0b0100_1111, 0x12, 0x34, 0x56]);
    let mut decoder = HuffmanDecoder::new(0);
    assert_eq!(decoder.get_bits(&mut input, 1), Ok(1));
    assert_eq!(decoder.get_bits(&mut input, 3), Ok(0b011));
    assert_eq!(decoder.get_bits(&mut input, 0), Ok(0));
    assert_eq!(decoder.handover_byte(), (0b1011_0010, 4));
    assert_eq!(decoder.get_bits(&mut input, 8), Ok(0b0010_0100));
    assert_eq!(decoder.get_bits(&mut input, 4), Ok(0b1111));
    assert_eq!(decoder.handover_byte().1, 0);
    assert_eq!(decoder.get_bits(&mut input, 16), Ok(0x1234));
    assert_eq!(input.processed_len(), 4);
    assert_eq!(decoder.view_buffer(), &[0b1011_0010, 0b0100_1111, 0x12, 0x34]);
    assert_eq!(decoder.get_bits(&mut input, 9), Err(JpegError::EOF));
}

#[test]
fn stuffed_zero_gives_one_data_byte() {
    let mut input = stream_of(&[0xFF, 0x00, 0xA5, 0xFF, 0x00, 0xFF, 0x00]);
    let mut decoder = HuffmanDecoder::new(0);
    assert_eq!(decoder.get_bits(&mut input, 8), Ok(0xFF));
    assert_eq!(decoder.get_bits(&mut input, 8), Ok(0xA5));
    assert_eq!(decoder.get_bits(&mut input, 16), Ok(0xFFFF));
    assert_eq!(decoder.marker(), None);
    assert_eq!(input.processed_len(), 7);
    assert_eq!(decoder.view_buffer(), &[0xFF, 0x00, 0xA5, 0xFF, 0x00, 0xFF, 0x00]);
}

#[test]
fn marker_ends_the_data_and_stays_in_the_stream() {
    let mut input = stream_of(&[0xBA, 0xFF, 0xD9, 0x77]);
    let mut decoder = HuffmanDecoder::new(0);
    assert_eq!(decoder.get_bits(&mut input, 4), Ok(0xB));
    assert_eq!(decoder.marker(), None);
    // Zero bits stand in for what the marker cut short.
    assert_eq!(decoder.get_bits(&mut input, 12), Ok(0xA00));
    assert_eq!(decoder.marker(), Some(0xD9));
    assert_eq!(decoder.get_bits(&mut input, 16), Ok(0));
    assert_eq!(decoder.view_buffer(), &[0xBA]);
    assert_eq!(input.processed_len(), 1);
    assert_eq!(input.read_byte(false), Ok(0xFF));
    assert_eq!(input.read_byte(false), Ok(0xD9));
}

#[test]
fn stream_that_ends_behind_ff_is_at_its_end() {
    let mut input = stream_of(&[0x12, 0xFF]);
    let mut decoder = HuffmanDecoder::new(0);
    assert_eq!(decoder.get_bits(&mut input, 8), Ok(0x12));
    assert_eq!(decoder.get_bits(&mut input, 1), Err(JpegError::EOF));
}

#[test]
fn decode_uses_the_lookup_table_and_the_long_codes() {
    let bits = counts(&[0, 1, 2, 0, 0, 0, 0, 0, 1]);
    let table = HuffmanTable::new(&bits, &[10, 20, 30, 40], HuffmanTableClass::DC).unwrap();
    // 00 | 011 | 100000000 | 010 | 11...
    let mut input = stream_of(&[0b0001_1100, 0b0000_0001, 0b0110_0000, 0, 0]);
    let mut decoder = HuffmanDecoder::new(0);
    assert_eq!(decoder.decode(&mut input, &table), Ok(10));
    assert_eq!(decoder.decode(&mut input, &table), Ok(30));
    assert_eq!(decoder.decode(&mut input, &table), Ok(40));
    assert_eq!(decoder.decode(&mut input, &table), Ok(20));
    assert_eq!(
        decoder.decode(&mut input, &table),
        Err(malformatted("failed to decode huffman code"))
    );
    assert_eq!(decoder.decode_fast_ac(&mut input, &table), Ok(None));
}

#[test]
fn decode_fast_ac_agrees_with_decode_and_receive_extend() {
    let bits = counts(&[1, 1, 1, 1]);
    let table = HuffmanTable::new(&bits, &[0x00, 0x01, 0x23, 0x15], HuffmanTableClass::AC).unwrap();
    // 110 + 011 (run 2, size 3, value -4), 10 + 1 (run 0, value 1), 0 (EOB).
    let data = [0b1100_1110, 0b1000_0000, 0, 0];
    let mut input = stream_of(&data);
    let mut fast = HuffmanDecoder::new(0);
    assert_eq!(fast.decode_fast_ac(&mut input, &table), Ok(Some((-4, 2))));
    assert_eq!(fast.decode_fast_ac(&mut input, &table), Ok(Some((1, 0))));
    assert_eq!(fast.decode_fast_ac(&mut input, &table), Ok(None));
    assert_eq!(fast.decode(&mut input, &table), Ok(0x00));

    let mut input = stream_of(&data);
    let mut slow = HuffmanDecoder::new(0);
    assert_eq!(slow.decode(&mut input, &table), Ok(0x23));
    assert_eq!(slow.receive_extend(&mut input, 3), Ok(-4));
    assert_eq!(slow.decode(&mut input, &table), Ok(0x01));
    assert_eq!(slow.receive_extend(&mut input, 1), Ok(1));
    assert_eq!(slow.decode(&mut input, &table), Ok(0x00));
}

#[test]
fn read_rst_takes_the_marker_that_is_due() {
    let mut input = stream_of(&[0xFF, 0xD3, 0xFF, 0xFF, 0xD4, 0xFF, 0xD4, 0x11, 0xFF, 0xD9, 0xFF, 0x00]);
    let mut decoder = HuffmanDecoder::new(0);
    assert_eq!(decoder.read_rst(&mut input, 3), Ok(()));
    assert_eq!(decoder.read_rst(&mut input, 4), Ok(()));
    assert_eq!(
        decoder.read_rst(&mut input, 5),
        Err(malformatted("found RST4 where RST5 was expected"))
    );
    assert_eq!(
        decoder.read_rst(&mut input, 0),
        Err(malformatted("no marker found where RST was expected"))
    );
    assert_eq!(
        decoder.read_rst(&mut input, 0),
        Err(malformatted("found marker inside scan where RST was expected"))
    );
    assert_eq!(
        decoder.read_rst(&mut input, 0),
        Err(malformatted("FF 00 found where marker was expected"))
    );
    assert_eq!(decoder.read_rst(&mut input, 0), Err(JpegError::EOF));
}

#[test]
fn reset_throws_the_bits_away() {
    let mut input = stream_of(&[0xAB, 0xCD, 0xFF, 0xD0, 0x42, 0x00]);
    let mut decoder = HuffmanDecoder::new(0);
    assert_eq!(decoder.get_bits(&mut input, 12), Ok(0xABC));
    assert_eq!(decoder.get_bits(&mut input, 8), Ok(0xD0));
    assert_eq!(decoder.marker(), Some(0xD0));
    assert_eq!(decoder.read_rst(&mut input, 0), Ok(()));
    decoder.reset();
    assert_eq!(decoder.marker(), None);
    assert_eq!(decoder.handover_byte().1, 0);
    assert_eq!(decoder.get_bits(&mut input, 8), Ok(0x42));
}

#[test]
fn bytes_are_logged_as_garbage_until_end_pge() {
    let mut input = stream_of(&[1, 2, 3, 4, 5, 6]);
    let mut decoder = HuffmanDecoder::new(7);
    assert_eq!(decoder.get_bits(&mut input, 16), Ok(0x0102));
    assert_eq!(decoder.get_pge(), &[1, 2]);
    decoder.clear_buffer();
    assert_eq!(decoder.view_buffer(), &[] as &[u8]);
    assert_eq!(decoder.get_pge(), &[1, 2]);
    decoder.end_pge();
    assert_eq!(decoder.get_bits(&mut input, 8), Ok(3));
    assert_eq!(decoder.get_pge(), &[1, 2]);
    assert_eq!(decoder.view_buffer(), &[3]);

    let mut decoder = HuffmanDecoder::new(0);
    assert_eq!(decoder.get_bits(&mut input, 8), Ok(4));
    assert_eq!(decoder.get_pge(), &[] as &[u8]);
}

#[test]
fn motion_jpeg_tables_fill_empty_slots_only() {
    let scan = ScanInfo {
        component_indices: vec![0],
        dc_table_indices: vec![0],
        ac_table_indices: vec![0],
        spectral_selection_start: 0,
        spectral_selection_end: 63,
        successive_approximation_high: 0,
        successive_approximation_low: 0,
    };
    let own = HuffmanTable::new(&counts(&[1, 1]), &[0, 2], HuffmanTableClass::DC).unwrap();
    let mut dc = vec![Some(own.clone()), None, None, None];
    let mut ac: Vec<Option<HuffmanTable>> = vec![None, None, None, None];
    fill_default_mjpeg_tables(&scan, &mut dc, &mut ac);
    assert_eq!(dc[0], Some(own));
    assert!(dc[1].is_some() && dc[2].is_none() && dc[3].is_none());
    assert!(ac[0].is_some() && ac[1].is_some() && ac[2].is_none() && ac[3].is_none());
    // Standard luminance AC table: 00 is run 0 size 1, 1010 is EOB.
    let table = ac[0].as_ref().unwrap();
    assert_eq!(table.lookup(0b0000_0000), LutEntry { value: 0x01, len: 2 });
    assert_eq!(table.lookup(0b1010_0000), LutEntry { value: 0x00, len: 4 });
    assert_eq!(table.find(0b1111_1111_1111_1110, 16, 9), Some((0xFA, 16)));
    // Standard chrominance DC table: 00 is category 0, 11111111110 category 11.
    let table = dc[1].as_ref().unwrap();
    assert_eq!(table.lookup(0b0011_1111), LutEntry { value: 0, len: 2 });
    assert_eq!(table.find(0b1111_1111_1100_0000, 16, 9), Some((11, 11)));
}
