use jpegstream::iostream::iostream;
use jpegstream::jpeg_decoder::error::{JpegError, UnsupportedFeature};
use jpegstream::jpeg_decoder::huffman::HuffmanTable;
use jpegstream::jpeg_decoder::jpeg::{CodingProcess, Dimensions, EntropyCoding, FrameInfo};
use jpegstream::jpeg_decoder::marker::Marker;
use jpegstream::jpeg_decoder::parser::{
    app_from_bytes, dht_from_bytes, dqt_from_bytes, dri_from_bytes, parse_app, parse_com,
    parse_dri, parse_sof, read_segment, sof_from_bytes, sos_from_bytes, AppData,
};

fn malformatted(text: &str) -> JpegError {
    JpegError::Malformatted(text.to_string())
}

#[test]
fn marker_from_u8_maps_every_code() {
    assert_eq!(Marker::from_u8(0x00), None);
    assert_eq!(Marker::from_u8(0xFF), None);
    assert_eq!(Marker::from_u8(0x01), Some(Marker::TEM));
    assert_eq!(Marker::from_u8(0x02), Some(Marker::RES));
    assert_eq!(Marker::from_u8(0xBF), Some(Marker::RES));
    assert_eq!(Marker::from_u8(0xC0), Some(Marker::SOF(0)));
    assert_eq!(Marker::from_u8(0xC2), Some(Marker::SOF(2)));
    assert_eq!(Marker::from_u8(0xC4), Some(Marker::DHT));
    assert_eq!(Marker::from_u8(0xC8), Some(Marker::JPG));
    assert_eq!(Marker::from_u8(0xCC), Some(Marker::DAC));
    assert_eq!(Marker::from_u8(0xCF), Some(Marker::SOF(15)));
    assert_eq!(Marker::from_u8(0xD0), Some(Marker::RST(0)));
    assert_eq!(Marker::from_u8(0xD7), Some(Marker::RST(7)));
    assert_eq!(Marker::from_u8(0xD8), Some(Marker::SOI));
    assert_eq!(Marker::from_u8(0xD9), Some(Marker::EOI));
    assert_eq!(Marker::from_u8(0xDA), Some(Marker::SOS));
    assert_eq!(Marker::from_u8(0xDB), Some(Marker::DQT));
    assert_eq!(Marker::from_u8(0xDC), Some(Marker::DNL));
    assert_eq!(Marker::from_u8(0xDD), Some(Marker::DRI));
    assert_eq!(Marker::from_u8(0xDE), Some(Marker::DHP));
    assert_eq!(Marker::from_u8(0xDF), Some(Marker::EXP));
    assert_eq!(Marker::from_u8(0xE0), Some(Marker::APP(0)));
    assert_eq!(Marker::from_u8(0xEF), Some(Marker::APP(15)));
    assert_eq!(Marker::from_u8(0xF0), Some(Marker::JPGn(0)));
    assert_eq!(Marker::from_u8(0xFD), Some(Marker::JPGn(13)));
    assert_eq!(Marker::from_u8(0xFE), Some(Marker::COM));
    assert!(!Marker::SOI.has_length());
    assert!(!Marker::RST(3).has_length());
    assert!(Marker::SOS.has_length());
}

#[test]
fn read_segment_takes_length_and_payload() {
    let (mut input, output) = iostream(8);
    output.write(&[0x00, 0x05, 1, 2, 3, 9, 9]).unwrap();
    assert_eq!(read_segment(&mut input), Ok(vec![1, 2, 3]));
    assert_eq!(input.view_retained_data(), &[0x00, 0x05, 1, 2, 3]);
    assert_eq!(input.processed_len(), 5);

    let (mut input, output) = iostream(8);
    output.write(&[0x00, 0x02]).unwrap();
    assert_eq!(read_segment(&mut input), Ok(vec![]));

    let (mut input, output) = iostream(8);
    output.write(&[0x00, 0x01, 7]).unwrap();
    assert_eq!(
        read_segment(&mut input),
        Err(malformatted("encountered segment with invalid length"))
    );

    let (mut input, output) = iostream(8);
    output.write(&[0x00, 0x09, 7]).unwrap();
    output.write_eof().unwrap();
    assert_eq!(read_segment(&mut input), Err(JpegError::EOF));
}

#[test]
fn dri_takes_two_bytes() {
    assert_eq!(dri_from_bytes(&[0x01, 0x02]), Ok(0x0102));
    assert_eq!(dri_from_bytes(&[0x01]), Err(malformatted("DRI with invalid length")));
    assert_eq!(dri_from_bytes(&[1, 2, 3]), Err(malformatted("DRI with invalid length")));
    let (mut input, output) = iostream(8);
    output.write(&[0x00, 0x04, 0x00, 0x10]).unwrap();
    assert_eq!(parse_dri(&mut input), Ok(16));
}

#[test]
fn com_gives_the_comment_bytes() {
    let (mut input, output) = iostream(8);
    output.write(&[0x00, 0x05, b'a', b'b', b'c']).unwrap();
    assert_eq!(parse_com(&mut input), Ok(vec![b'a', b'b', b'c']));
}

#[test]
fn app_segments_are_recognised_by_their_tags() {
    assert_eq!(app_from_bytes(b"JFIF\0\x01\x01", 0), Ok(AppData::Jfif));
    assert_eq!(app_from_bytes(b"AVI1\0\0", 0), Ok(AppData::Avi1));
    assert_eq!(app_from_bytes(b"AVI1", 0), Ok(AppData::Other));
    assert_eq!(app_from_bytes(b"JFXX\0", 0), Ok(AppData::Other));
    assert_eq!(app_from_bytes(b"JFIF\0", 1), Ok(AppData::Other));
    assert_eq!(app_from_bytes(b"Adobe\0\x00\x64\x00\x00\x00\x01", 14), Ok(AppData::Adobe(1)));
    assert_eq!(app_from_bytes(b"Adobe\0\x00\x64\x00\x00\x00\x02", 14), Ok(AppData::Adobe(2)));
    assert_eq!(
        app_from_bytes(b"Adobe\0\x00\x64\x00\x00\x00\x03", 14),
        Err(malformatted("invalid color transform in adobe app segment"))
    );
    assert_eq!(app_from_bytes(b"Adobe\0\x00\x64\x00\x00\x00", 14), Ok(AppData::Other));

    let (mut input, output) = iostream(8);
    output.write(&[0x00, 0x08, b'A', b'V', b'I', b'1', 0, 0]).unwrap();
    assert_eq!(parse_app(&mut input, 0), Ok(true));
    let (mut input, output) = iostream(8);
    output.write(&[0x00, 0x07, b'J', b'F', b'I', b'F', 0]).unwrap();
    assert_eq!(parse_app(&mut input, 0), Ok(false));
}

fn sof_payload(precision: u8, height: u16, width: u16, components: &[(u8, u8, u8)]) -> Vec<u8> {
    let mut payload = vec![
        precision,
        (height >> 8) as u8,
        height as u8,
        (width >> 8) as u8,
        width as u8,
        components.len() as u8,
    ];
    for (id, hv, tq) in components {
        payload.extend_from_slice(&[*id, *hv, *tq]);
    }
    payload
}

#[test]
fn sof_parses_a_colour_frame() {
    let payload = sof_payload(8, 17, 33, &[(1, 0x22, 0), (2, 0x11, 1), (3, 0x11, 1)]);
    let frame = sof_from_bytes(&payload, 0).unwrap();
    assert!(!frame.is_differential);
    assert_eq!(frame.coding_process, CodingProcess::Baseline);
    assert_eq!(frame.entropy_coding, EntropyCoding::Huffman);
    assert!(frame.is_baseline());
    assert!(!frame.is_progressive());
    assert_eq!(frame.precision, 8);
    assert_eq!(frame.size, Dimensions { width: 33, height: 17 });
    // MCUs are 16x16 pixels: 3 across, 2 down.
    assert_eq!(frame.size_in_mcu, Dimensions { width: 3, height: 2 });
    assert_eq!(frame.components.len(), 3);
    let y = frame.components[0];
    assert_eq!(y.identifier, 1);
    assert_eq!(y.horizontal_sampling_factor, 2);
    assert_eq!(y.vertical_sampling_factor, 2);
    assert_eq!(y.quantization_table_index, 0);
    assert_eq!(y.size, Dimensions { width: 33, height: 17 });
    assert_eq!(y.size_in_block, Dimensions { width: 6, height: 4 });
    let cb = frame.components[1];
    assert_eq!(cb.identifier, 2);
    assert_eq!(cb.quantization_table_index, 1);
    assert_eq!(cb.size, Dimensions { width: 17, height: 9 });
    assert_eq!(cb.size_in_block, Dimensions { width: 3, height: 2 });
}

#[test]
fn sof_kinds_follow_the_marker_number() {
    let payload = sof_payload(12, 0, 8, &[(1, 0x11, 0)]);
    let kinds = [
        (0u8, CodingProcess::Baseline, EntropyCoding::Huffman, false),
        (1, CodingProcess::SequentialExtended, EntropyCoding::Huffman, false),
        (2, CodingProcess::Progressive, EntropyCoding::Huffman, false),
        (3, CodingProcess::Lossless, EntropyCoding::Huffman, false),
        (5, CodingProcess::SequentialExtended, EntropyCoding::Huffman, true),
        (6, CodingProcess::Progressive, EntropyCoding::Huffman, true),
        (7, CodingProcess::Lossless, EntropyCoding::Huffman, true),
        (9, CodingProcess::SequentialExtended, EntropyCoding::Arithmetic, false),
        (10, CodingProcess::Progressive, EntropyCoding::Arithmetic, false),
        (11, CodingProcess::Lossless, EntropyCoding::Arithmetic, false),
        (13, CodingProcess::SequentialExtended, EntropyCoding::Arithmetic, true),
        (14, CodingProcess::Progressive, EntropyCoding::Arithmetic, true),
        (15, CodingProcess::Lossless, EntropyCoding::Arithmetic, true),
    ];
    for (n, process, entropy, differential) in kinds {
        let frame = sof_from_bytes(&payload, n).unwrap();
        assert_eq!(frame.coding_process, process);
        assert_eq!(frame.entropy_coding, entropy);
        assert_eq!(frame.is_differential, differential);
        assert_eq!(frame.precision, 12);
        assert_eq!(frame.size.height, 0);
    }
}

#[test]
fn sof_rejects_faulty_headers() {
    let check = |payload: Vec<u8>, n: u8, text: &str| {
        assert_eq!(sof_from_bytes(&payload, n), Err(malformatted(text)));
    };
    check(vec![8, 0, 8, 0, 8, 1], 0, "invalid length in SOF");
    check(sof_payload(8, 8, 0, &[(1, 0x11, 0)]), 0, "zero width in frame header");
    check(vec![8, 0, 8, 0, 8, 0, 0], 0, "zero component count in frame header");
    check(
        sof_payload(8, 8, 8, &[(1, 0x11, 0), (2, 0x11, 0), (3, 0x11, 0), (4, 0x11, 0), (5, 0x11, 0)]),
        2,
        "progressive frame with more than 4 components",
    );
    let mut long = sof_payload(8, 8, 8, &[(1, 0x11, 0)]);
    long.push(0);
    check(long, 0, "invalid length in SOF");
    check(
        sof_payload(8, 8, 8, &[(1, 0x11, 0), (1, 0x11, 0)]),
        0,
        "duplicate frame component identifier",
    );
    check(sof_payload(8, 8, 8, &[(1, 0x01, 0)]), 0, "invalid horizontal sampling factor");
    check(sof_payload(8, 8, 8, &[(1, 0x51, 0)]), 0, "invalid horizontal sampling factor");
    check(sof_payload(8, 8, 8, &[(1, 0x10, 0)]), 0, "invalid vertical sampling factor");
    check(sof_payload(8, 8, 8, &[(1, 0x15, 0)]), 0, "invalid vertical sampling factor");
    check(sof_payload(8, 8, 8, &[(1, 0x11, 4)]), 0, "invalid quantization table index");
}

#[test]
fn parse_sof_reads_from_the_stream() {
    let payload = sof_payload(8, 8, 8, &[(1, 0x11, 0)]);
    let (mut input, output) = iostream(8);
    output.write(&[0x00, 0x0B]).unwrap();
    output.write(&payload).unwrap();
    let frame = parse_sof(&mut input, 0).unwrap();
    assert_eq!(frame.size_in_mcu, Dimensions { width: 1, height: 1 });
    assert_eq!(input.processed_len(), 11);
}

fn colour_frame(n: u8) -> FrameInfo {
    sof_from_bytes(&sof_payload(8, 16, 16, &[(1, 0x22, 0), (2, 0x11, 1), (3, 0x11, 1)]), n).unwrap()
}

#[test]
fn sos_parses_an_interleaved_scan() {
    let frame = colour_frame(0);
    let scan = sos_from_bytes(&[3, 1, 0x00, 2, 0x11, 3, 0x11, 0, 63, 0], &frame).unwrap();
    assert_eq!(scan.component_indices, vec![0, 1, 2]);
    assert_eq!(scan.dc_table_indices, vec![0, 1, 1]);
    assert_eq!(scan.ac_table_indices, vec![0, 1, 1]);
    assert_eq!(scan.spectral_selection_start, 0);
    assert_eq!(scan.spectral_selection_end, 63);
    assert_eq!(scan.successive_approximation_high, 0);
    assert_eq!(scan.successive_approximation_low, 0);
}

#[test]
fn sos_parses_a_progressive_band() {
    let frame = colour_frame(2);
    let scan = sos_from_bytes(&[1, 2, 0x03, 1, 5, 0x21], &frame).unwrap();
    assert_eq!(scan.component_indices, vec![1]);
    assert_eq!(scan.dc_table_indices, vec![0]);
    assert_eq!(scan.ac_table_indices, vec![3]);
    assert_eq!(scan.spectral_selection_start, 1);
    assert_eq!(scan.spectral_selection_end, 5);
    assert_eq!(scan.successive_approximation_high, 2);
    assert_eq!(scan.successive_approximation_low, 1);
}

#[test]
fn sos_rejects_faulty_headers() {
    let baseline = colour_frame(0);
    let progressive = colour_frame(2);
    let check = |payload: &[u8], frame: &FrameInfo, text: &str| {
        assert_eq!(sos_from_bytes(payload, frame), Err(malformatted(text)));
    };
    check(&[], &baseline, "zero length in SOS");
    check(&[0, 0, 63, 0], &baseline, "invalid component count in scan header");
    check(&[5, 0, 63, 0], &baseline, "invalid component count in scan header");
    check(&[1, 1, 0x00, 0, 63], &baseline, "invalid length in SOS");
    check(
        &[1, 9, 0x00, 0, 63, 0],
        &baseline,
        "scan component identifier does not match any of the component identifiers defined in the frame",
    );
    check(&[2, 1, 0x00, 1, 0x00, 0, 63, 0], &baseline, "duplicate scan component identifier");
    check(
        &[2, 2, 0x00, 1, 0x00, 0, 63, 0],
        &baseline,
        "the scan component order does not follow the order in the frame header",
    );
    check(&[1, 1, 0x20, 0, 63, 0], &baseline, "invalid dc table index");
    check(&[1, 1, 0x40, 0, 0, 0], &progressive, "invalid dc table index");
    check(&[1, 1, 0x02, 0, 63, 0], &baseline, "invalid ac table index");
    check(&[1, 1, 0x04, 0, 0, 0], &progressive, "invalid ac table index");
    check(&[1, 1, 0x00, 1, 63, 0], &baseline, "spectral selection is not allowed in non-progressive scan");
    check(&[1, 1, 0x00, 0, 62, 0], &baseline, "spectral selection is not allowed in non-progressive scan");
    check(
        &[1, 1, 0x00, 0, 63, 0x01],
        &baseline,
        "successive approximation is not allowed in non-progressive scan",
    );
    check(&[1, 1, 0x00, 0, 64, 0], &progressive, "invalid spectral selection parameters");
    check(&[1, 1, 0x00, 5, 4, 0], &progressive, "invalid spectral selection parameters");
    check(&[1, 1, 0x00, 0, 5, 0], &progressive, "invalid spectral selection parameters");
    check(&[1, 1, 0x00, 1, 5, 0x0E], &progressive, "invalid successive approximation parameters");
    check(
        &[1, 1, 0x00, 1, 5, 0x31],
        &progressive,
        "successive approximation scan with more than one bit of improvement",
    );
    let big = sof_from_bytes(&sof_payload(8, 16, 16, &[(1, 0x42, 0), (2, 0x22, 1)]), 1).unwrap();
    check(
        &[2, 1, 0x00, 2, 0x00, 0, 63, 0],
        &big,
        "scan with more than one component and more than 10 blocks per MCU",
    );
}

#[test]
fn dqt_installs_tables_of_both_precisions() {
    let mut tables: Vec<Option<Vec<u16>>> = vec![None, None, None, None];
    let mut payload = vec![0x01];
    payload.extend((1u8..=64).collect::<Vec<u8>>());
    payload.push(0x13);
    for k in 0..64u16 {
        payload.extend_from_slice(&[(k + 1) as u8, 0x02]);
    }
    assert_eq!(dqt_from_bytes(&payload, &mut tables), Ok(()));
    assert_eq!(tables[0], None);
    assert_eq!(tables[2], None);
    assert_eq!(tables[1], Some((1u16..=64).collect::<Vec<u16>>()));
    assert_eq!(tables[3], Some((0..64u16).map(|k| (k + 1) * 256 + 2).collect::<Vec<u16>>()));
}

#[test]
fn dqt_rejects_faulty_tables() {
    let check = |payload: Vec<u8>, text: &str| {
        let mut tables: Vec<Option<Vec<u16>>> = vec![None, None, None, None];
        assert_eq!(dqt_from_bytes(&payload, &mut tables), Err(malformatted(text)));
    };
    let mut table = vec![0x00];
    table.extend(vec![1u8; 64]);
    let mut bad_precision = table.clone();
    bad_precision[0] = 0x20;
    check(bad_precision, "invalid precision in DQT");
    let mut bad_index = table.clone();
    bad_index[0] = 0x04;
    check(bad_index, "invalid destination identifier in DQT");
    let mut short = table.clone();
    short.pop();
    check(short, "invalid length in DQT");
    let mut wide = table.clone();
    wide[0] = 0x10;
    check(wide, "invalid length in DQT");
    let mut zero = table.clone();
    zero[64] = 0;
    check(zero, "quantization table contains element with a zero value");
    let mut second_bad = table.clone();
    second_bad.push(0x05);
    check(second_bad, "invalid destination identifier in DQT");
}

fn small_table(class_and_index: u8, values: [u8; 2]) -> Vec<u8> {
    let mut payload = vec![class_and_index, 1, 1];
    payload.extend(vec![0u8; 14]);
    payload.extend_from_slice(&values);
    payload
}

#[test]
fn dht_installs_tables_by_class_and_slot() {
    let mut dc: Vec<Option<HuffmanTable>> = vec![None, None, None, None];
    let mut ac: Vec<Option<HuffmanTable>> = vec![None, None, None, None];
    let mut payload = small_table(0x00, [0, 2]);
    payload.extend(small_table(0x13, [0, 1]));
    payload.extend(small_table(0x00, [3, 4]));
    assert_eq!(dht_from_bytes(&payload, None, &mut dc, &mut ac), Ok(()));
    assert!(dc[1].is_none() && dc[2].is_none() && dc[3].is_none());
    assert!(ac[0].is_none() && ac[1].is_none() && ac[2].is_none());
    // The later definition for a slot wins.
    let table = dc[0].as_ref().unwrap();
    assert_eq!(table.lookup(0b0000_0000).value, 3);
    assert_eq!(table.lookup(0b0000_0000).len, 1);
    assert_eq!(table.lookup(0b1011_1111).value, 4);
    assert_eq!(table.lookup(0b1011_1111).len, 2);
    assert_eq!(table.lookup(0b1100_0000).len, 0);
    assert_eq!(table.lookup_ac(0), None);
    let table = ac[3].as_ref().unwrap();
    assert_eq!(table.lookup(0b1000_0000).value, 1);
    assert!(table.lookup_ac(0).is_some());
}

#[test]
fn dht_rejects_faulty_tables() {
    let check = |payload: Vec<u8>, baseline: Option<bool>, text: &str| {
        let mut dc: Vec<Option<HuffmanTable>> = vec![None, None, None, None];
        let mut ac: Vec<Option<HuffmanTable>> = vec![None, None, None, None];
        assert_eq!(dht_from_bytes(&payload, baseline, &mut dc, &mut ac), Err(malformatted(text)));
    };
    check(vec![0x00; 16], None, "invalid length in DHT");
    check(small_table(0x20, [0, 1]), None, "invalid class in DHT");
    check(
        small_table(0x02, [0, 1]),
        Some(true),
        "a maximum of two huffman tables per class are allowed in baseline",
    );
    check(small_table(0x04, [0, 1]), Some(false), "invalid destination identifier in DHT");
    check(vec![0x00; 17], None, "encountered table with zero length in DHT");
    let mut excessive = vec![0x00];
    excessive.extend(vec![17u8; 16]);
    excessive.extend(vec![0u8; 272]);
    check(excessive, None, "encountered table with excessive length in DHT");
    let mut short = small_table(0x00, [0, 1]);
    short.pop();
    check(short, None, "invalid length in DHT");
    let mut crowded = vec![0x00, 3];
    crowded.extend(vec![0u8; 15]);
    crowded.extend_from_slice(&[0, 1, 2]);
    check(crowded, None, "bad huffman code length");
}

#[test]
fn unsupported_features_name_themselves() {
    assert_eq!(
        JpegError::Unsupported(UnsupportedFeature::DNL).message(),
        "unsupported: DNL".to_string()
    );
    assert_eq!(malformatted("incomplete header").message(), "incomplete header".to_string());
    assert_eq!(JpegError::EOF.message(), "unexpected end of stream".to_string());
}

#[test]
fn segment_at_hand_is_parsed_whatever_the_stream_does() {
    let (mut input, output) = iostream(16);
    output.write(&[0, 4, 0, 16, 0, 3, 7, 0, 1]).unwrap();
    let mut all = [0u8; 9];
    assert_eq!(input.peek(&mut all, true), Ok(9));
    input.abort();
    // Both segments are pending: the first is sound, the second is too
    // short for a restart interval. What follows is no segment: its length
    // does not count its own two bytes.
    assert_eq!(parse_dri(&mut input), Ok(16));
    assert_eq!(input.view_retained_data(), &[0, 4, 0, 16]);
    assert_eq!(parse_dri(&mut input), Err(malformatted("DRI with invalid length")));
    assert_eq!(input.processed_len(), 7);
    assert_eq!(
        parse_com(&mut input),
        Err(malformatted("encountered segment with invalid length"))
    );
    assert_eq!(parse_com(&mut input), Err(JpegError::EOF));
}
