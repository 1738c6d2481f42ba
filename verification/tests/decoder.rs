use jpegstream::iostream::iostream;
use jpegstream::jpeg_decoder::block::{check_dc_category, predict_dc, unzigzag};
use jpegstream::jpeg_decoder::decoder::{check_frame, classify, conclude, JpegDecoder, Step};
use jpegstream::jpeg_decoder::error::{JpegError, UnsupportedFeature};
use jpegstream::jpeg_decoder::huffman::HuffmanDecoder;
use jpegstream::jpeg_decoder::jpeg::FormatInfo;
use jpegstream::jpeg_decoder::jpeg::{Jpeg, ScanTruncation};
use jpegstream::jpeg_decoder::marker::Marker;
use jpegstream::jpeg_decoder::parser::sof_from_bytes;

fn malformatted(text: &str) -> JpegError {
    JpegError::Malformatted(text.to_string())
}

const SOI: [u8; 2] = [0xFF, 0xD8];
const EOI: [u8; 2] = [0xFF, 0xD9];

fn dqt() -> Vec<u8> {
    let mut bytes = vec![0xFF, 0xDB, 0x00, 0x43, 0x00];
    bytes.extend(vec![1u8; 64]);
    bytes
}

fn sof(n: u8, height: u16, width: u16, components: &[(u8, u8, u8)]) -> Vec<u8> {
    let length = 8 + 3 * components.len() as u16;
    let mut bytes = vec![
        0xFF,
        0xC0 + n,
        (length >> 8) as u8,
        length as u8,
        8,
        (height >> 8) as u8,
        height as u8,
        (width >> 8) as u8,
        width as u8,
        components.len() as u8,
    ];
    for (id, hv, tq) in components {
        bytes.extend_from_slice(&[*id, *hv, *tq]);
    }
    bytes
}

/// A table with the codes `0` and `10` for the two values.
fn dht(class_and_index: u8, values: [u8; 2]) -> Vec<u8> {
    let mut bytes = vec![0xFF, 0xC4, 0x00, 0x15, class_and_index, 1, 1];
    bytes.extend(vec![0u8; 14]);
    bytes.extend_from_slice(&values);
    bytes
}

fn sos(components: &[(u8, u8)], ss: u8, se: u8, ah_al: u8) -> Vec<u8> {
    let length = 6 + 2 * components.len() as u8;
    let mut bytes = vec![0xFF, 0xDA, 0x00, length, components.len() as u8];
    for (id, tables) in components {
        bytes.extend_from_slice(&[*id, *tables]);
    }
    bytes.extend_from_slice(&[ss, se, ah_al]);
    bytes
}

/// The headers of a grey baseline image: DC codes `0` for category 0 and
/// `10` for category 2; AC codes `0` for the end of the block and `10` for
/// a coefficient of one bit that follows at once.
fn grey_header(height: u16, width: u16) -> Vec<u8> {
    let mut bytes = SOI.to_vec();
    bytes.extend(dqt());
    bytes.extend(sof(0, height, width, &[(1, 0x11, 0)]));
    bytes.extend(dht(0x00, [0x00, 0x02]));
    bytes.extend(dht(0x10, [0x00, 0x01]));
    bytes
}

/// One block: DC difference 3, the first AC coefficient 1, end of block.
/// `10 11 | 10 1 | 0`.
const BLOCK: u8 = 0b1011_1010;

fn decode(bytes: &[u8], start_byte: usize, header_only: bool) -> Result<Jpeg, JpegError> {
    let (input, output) = iostream(16);
    output.write(bytes).unwrap();
    output.write_eof().unwrap();
    let result = JpegDecoder::new(input, start_byte, header_only).decode();
    assert!(output.is_closed() || result.is_err());
    result
}

fn block_of(first: &[i16]) -> Vec<i16> {
    let mut block = vec![0i16; 64];
    block[..first.len()].copy_from_slice(first);
    block
}

#[test]
fn unzigzag_is_the_order_of_the_standard() {
    let expected = [
        0usize, 1, 8, 16, 9, 2, 3, 10, 17, 24, 32, 25, 18, 11, 4, 5, 12, 19, 26, 33, 40, 48, 41,
        34, 27, 20, 13, 6, 7, 14, 21, 28, 35, 42, 49, 56, 57, 50, 43, 36, 29, 22, 15, 23, 30, 37,
        44, 51, 58, 59, 52, 45, 38, 31, 39, 46, 53, 60, 61, 54, 47, 55, 62, 63,
    ];
    let mut seen = [false; 64];
    for (i, place) in expected.iter().enumerate() {
        assert_eq!(unzigzag(i as u8), *place);
        assert!(!seen[*place]);
        seen[*place] = true;
    }
}

#[test]
fn dc_category_eleven_is_accepted_and_twelve_is_not() {
    assert_eq!(check_dc_category(0), Ok(()));
    assert_eq!(check_dc_category(11), Ok(()));
    assert_eq!(
        check_dc_category(12),
        Err(malformatted("invalid DC difference magnitude category"))
    );
    assert_eq!(
        check_dc_category(255),
        Err(malformatted("invalid DC difference magnitude category"))
    );
}

#[test]
fn dc_prediction_wraps_around() {
    assert_eq!(predict_dc(5, -7), -2);
    assert_eq!(predict_dc(32767, 1), -32768);
    assert_eq!(predict_dc(-32768, -1), 32767);
    assert_eq!(predict_dc(32767, 32767), -2);
    assert_eq!(predict_dc(-32768, -32768), 0);
}

#[test]
fn marker_loop_rules() {
    let sos = Marker::SOS;
    assert_eq!(classify(Marker::SOF(2), Marker::SOI, false, 0), Ok(Step::Frame(2)));
    assert_eq!(
        classify(Marker::SOF(0), Marker::DQT, true, 0),
        Err(JpegError::Unsupported(UnsupportedFeature::Hierarchical))
    );
    assert_eq!(classify(Marker::SOS, Marker::DHT, true, 3), Ok(Step::Scan));
    assert_eq!(
        classify(Marker::SOS, Marker::DHT, false, 0),
        Err(malformatted("scan encountered before frame"))
    );
    assert_eq!(classify(Marker::DQT, sos, true, 1), Ok(Step::QuantizationTables));
    assert_eq!(classify(Marker::DHT, sos, false, 0), Ok(Step::HuffmanTables));
    assert_eq!(classify(Marker::DRI, sos, false, 0), Ok(Step::RestartInterval));
    assert_eq!(classify(Marker::COM, sos, false, 0), Ok(Step::Comment));
    assert_eq!(classify(Marker::APP(14), sos, false, 0), Ok(Step::Application(14)));
    assert_eq!(classify(Marker::EOI, sos, false, 0), Ok(Step::End));
    assert_eq!(classify(Marker::RST(5), sos, true, 1), Ok(Step::Skip));
    assert_eq!(
        classify(Marker::RST(5), Marker::DQT, true, 1),
        Err(malformatted("RST found outside of entropy-coded data"))
    );
    assert_eq!(
        classify(Marker::DAC, sos, true, 1),
        Err(JpegError::Unsupported(UnsupportedFeature::ArithmeticEntropyCoding))
    );
    assert_eq!(
        classify(Marker::DNL, sos, true, 1),
        Err(JpegError::Unsupported(UnsupportedFeature::DNL))
    );
    let misplaced = Err(malformatted("DNL is only allowed immediately after the first scan"));
    assert_eq!(classify(Marker::DNL, sos, true, 2), misplaced);
    assert_eq!(classify(Marker::DNL, sos, true, 0), misplaced);
    assert_eq!(classify(Marker::DNL, Marker::DHT, true, 1), misplaced);
    for marker in [Marker::DHP, Marker::EXP] {
        assert_eq!(
            classify(marker, sos, true, 1),
            Err(JpegError::Unsupported(UnsupportedFeature::Hierarchical))
        );
    }
    for marker in [Marker::SOI, Marker::JPG, Marker::JPGn(3), Marker::TEM, Marker::RES] {
        assert_eq!(
            classify(marker, sos, true, 1),
            Err(malformatted("marker found where not allowed"))
        );
    }
}

#[test]
fn frames_that_are_not_decoded_are_named() {
    let frame = |n: u8, precision: u8, height: u16, count: usize| {
        let mut payload = vec![precision, (height >> 8) as u8, height as u8, 0, 8, count as u8];
        for id in 0..count {
            payload.extend_from_slice(&[id as u8, 0x11, 0]);
        }
        sof_from_bytes(&payload, n).unwrap()
    };
    let unsupported = |feature| Err(JpegError::Unsupported(feature));
    assert_eq!(check_frame(&frame(0, 8, 8, 1)), Ok(()));
    assert_eq!(check_frame(&frame(1, 8, 8, 3)), Ok(()));
    assert_eq!(check_frame(&frame(2, 8, 8, 4)), Ok(()));
    assert_eq!(check_frame(&frame(5, 8, 8, 1)), unsupported(UnsupportedFeature::Hierarchical));
    assert_eq!(check_frame(&frame(3, 8, 8, 1)), unsupported(UnsupportedFeature::Lossless));
    assert_eq!(
        check_frame(&frame(9, 8, 8, 1)),
        unsupported(UnsupportedFeature::ArithmeticEntropyCoding)
    );
    assert_eq!(
        check_frame(&frame(0, 12, 8, 1)),
        unsupported(UnsupportedFeature::SamplePrecision(12))
    );
    assert_eq!(check_frame(&frame(0, 8, 0, 1)), unsupported(UnsupportedFeature::DNL));
    assert_eq!(
        check_frame(&frame(0, 8, 8, 2)),
        unsupported(UnsupportedFeature::ComponentCount(2))
    );
    assert_eq!(
        check_frame(&frame(0, 8, 8, 5)),
        unsupported(UnsupportedFeature::ComponentCount(5))
    );
}

#[test]
fn soi_only_is_an_incomplete_header() {
    assert_eq!(decode(&SOI, 0, false), Err(malformatted("incomplete header")));
    assert_eq!(decode(&SOI, 0, true), Err(malformatted("incomplete header")));
    assert_eq!(decode(&[], 0, false), Err(malformatted("incomplete header")));
}

#[test]
fn soi_and_eoi_is_an_incomplete_header() {
    assert_eq!(decode(&[0xFF, 0xD8, 0xFF, 0xD9], 0, false), Err(malformatted("incomplete header")));
    assert_eq!(decode(&[0xFF, 0xD8, 0xFF, 0xD9], 0, true), Err(malformatted("incomplete header")));
}

#[test]
fn missing_soi_is_malformatted() {
    assert_eq!(
        decode(&[0xFF, 0xD9, 0xFF, 0xD8], 0, false),
        Err(malformatted("first two bytes is not a SOI marker"))
    );
    assert_eq!(
        decode(&[0x00, 0xD8, 0xFF, 0xD9], 0, false),
        Err(malformatted("first two bytes is not a SOI marker"))
    );
}

#[test]
fn grey_block_decodes() {
    let mut bytes = grey_header(8, 8);
    bytes.extend(sos(&[(1, 0x00)], 0, 63, 0));
    let header_len = bytes.len();
    bytes.push(BLOCK);
    bytes.extend(EOI);
    let jpeg = decode(&bytes, 0, false).unwrap();
    assert_eq!(jpeg.frame.size.width, 8);
    assert_eq!(jpeg.frame.components.len(), 1);
    assert_eq!(jpeg.scans.len(), 1);
    let scan = &jpeg.scans[0];
    assert_eq!(scan.raw_header, bytes[..header_len].to_vec());
    assert_eq!(scan.truncation, None);
    assert_eq!(scan.coefficients, Some(vec![block_of(&[3, 1])]));
    let format = jpeg.format.unwrap();
    assert_eq!(format.pge, Vec::<u8>::new());
    assert_eq!(format.grb, Vec::<u8>::new());
    assert_eq!(format.handoff.len(), 1);
    let handoff = format.handoff[0];
    assert_eq!(handoff.start_scan, 0);
    assert_eq!(handoff.end_scan, 0);
    assert_eq!(handoff.mcu_y_start, 0);
    assert_eq!(handoff.segment_size as usize, header_len);
    assert_eq!(handoff.n_overhang_bit, 0);
    assert_eq!(handoff.last_dc, [0u16; 4]);
}

#[test]
fn blocks_of_a_grey_image_are_decoded_row_by_row() {
    // 24x16 pixels: three blocks across, two down. The DC values add up.
    let mut bytes = grey_header(16, 24);
    bytes.extend(sos(&[(1, 0x00)], 0, 63, 0));
    bytes.extend(vec![BLOCK; 6]);
    bytes.extend(EOI);
    let jpeg = decode(&bytes, 0, false).unwrap();
    let coefficients = jpeg.scans[0].coefficients.as_ref().unwrap();
    assert_eq!(coefficients.len(), 1);
    assert_eq!(coefficients[0].len(), 6 * 64);
    for block in 0..6 {
        let at = block * 64;
        assert_eq!(coefficients[0][at], 3 * (block as i16 + 1));
        assert_eq!(coefficients[0][at + 1], 1);
        assert!(coefficients[0][at + 2..at + 64].iter().all(|c| *c == 0));
    }
    let format = jpeg.format.unwrap();
    assert_eq!(format.handoff.len(), 2);
    assert_eq!(format.handoff[0].mcu_y_start, 0);
    assert_eq!(format.handoff[1].mcu_y_start, 1);
    // The size of a segment is the count of the bytes processed: the three
    // bytes of the first row and the two that the bit reader holds beside.
    assert_eq!(format.handoff[1].segment_size, format.handoff[0].segment_size + 5);
}

#[test]
fn interleaved_scan_decodes_every_block_of_every_mcu() {
    // 16x8 pixels, the first component sampled twice across: one MCU of
    // two blocks of the first component and one of each other.
    let mut bytes = SOI.to_vec();
    bytes.extend(dqt());
    bytes.extend(sof(0, 8, 16, &[(1, 0x21, 0), (2, 0x11, 0), (3, 0x11, 0)]));
    bytes.extend(dht(0x00, [0x00, 0x02]));
    bytes.extend(dht(0x10, [0x00, 0x01]));
    bytes.extend(sos(&[(1, 0x00), (2, 0x00), (3, 0x00)], 0, 63, 0));
    bytes.extend(vec![BLOCK; 4]);
    bytes.extend(EOI);
    let jpeg = decode(&bytes, 0, false).unwrap();
    let coefficients = jpeg.scans[0].coefficients.as_ref().unwrap();
    assert_eq!(coefficients.len(), 3);
    assert_eq!(coefficients[0].len(), 128);
    assert_eq!(coefficients[1].len(), 64);
    assert_eq!(coefficients[0][..64].to_vec(), block_of(&[3, 1]));
    assert_eq!(coefficients[0][64..].to_vec(), block_of(&[6, 1]));
    assert_eq!(coefficients[1], block_of(&[3, 1]));
    assert_eq!(coefficients[2], block_of(&[3, 1]));
}

#[test]
fn restart_markers_reset_the_dc_prediction() {
    let mut bytes = grey_header(8, 24);
    bytes.extend([0xFF, 0xDD, 0x00, 0x04, 0x00, 0x01]);
    bytes.extend(sos(&[(1, 0x00)], 0, 63, 0));
    bytes.extend([BLOCK, 0xFF, 0xD0, BLOCK, 0xFF, 0xD1, BLOCK]);
    bytes.extend(EOI);
    let jpeg = decode(&bytes, 0, false).unwrap();
    let coefficients = jpeg.scans[0].coefficients.as_ref().unwrap();
    for block in 0..3 {
        assert_eq!(coefficients[0][block * 64..(block + 1) * 64].to_vec(), block_of(&[3, 1]));
    }
    assert_eq!(jpeg.format.unwrap().grb, Vec::<u8>::new());
}

#[test]
fn restart_marker_out_of_turn_is_malformatted() {
    let mut bytes = grey_header(8, 24);
    bytes.extend([0xFF, 0xDD, 0x00, 0x04, 0x00, 0x01]);
    bytes.extend(sos(&[(1, 0x00)], 0, 63, 0));
    bytes.extend([BLOCK, 0xFF, 0xD0, BLOCK, 0xFF, 0xD0, BLOCK]);
    bytes.extend(EOI);
    assert_eq!(
        decode(&bytes, 0, false),
        Err(malformatted("found RST0 where RST1 was expected"))
    );
}

#[test]
fn trailing_restart_marker_is_passed_over() {
    let mut bytes = grey_header(8, 8);
    bytes.extend(sos(&[(1, 0x00)], 0, 63, 0));
    bytes.extend([BLOCK, 0xFF, 0xD0]);
    bytes.extend(EOI);
    let jpeg = decode(&bytes, 0, false).unwrap();
    assert_eq!(jpeg.scans[0].coefficients, Some(vec![block_of(&[3, 1])]));
}

#[test]
fn dnl_behind_the_first_scan_is_unsupported() {
    let mut bytes = grey_header(8, 8);
    bytes.extend(sos(&[(1, 0x00)], 0, 63, 0));
    bytes.push(BLOCK);
    bytes.extend([0xFF, 0xDC, 0x00, 0x04, 0x00, 0x08]);
    bytes.extend(sos(&[(1, 0x00)], 0, 63, 0));
    bytes.push(BLOCK);
    bytes.extend(EOI);
    assert_eq!(decode(&bytes, 0, false), Err(JpegError::Unsupported(UnsupportedFeature::DNL)));
}

#[test]
fn dnl_ahead_of_any_scan_is_malformatted() {
    let mut bytes = grey_header(8, 8);
    bytes.extend([0xFF, 0xDC, 0x00, 0x04, 0x00, 0x08]);
    bytes.extend(sos(&[(1, 0x00)], 0, 63, 0));
    bytes.push(BLOCK);
    bytes.extend(EOI);
    assert_eq!(
        decode(&bytes, 0, false),
        Err(malformatted("DNL is only allowed immediately after the first scan"))
    );
}

/// Three bytes of entropy-coded data that break off within the first
/// block: the DC difference, six AC coefficients and the head of a code.
const BROKEN: [u8; 3] = [0b1011_1011, 0b0110_1101, 0b1011_0110];

#[test]
fn truncated_entropy_data_gives_a_truncated_scan() {
    let mut bytes = grey_header(8, 8);
    bytes.extend(sos(&[(1, 0x00)], 0, 63, 0));
    let header_len = bytes.len();
    bytes.extend(BROKEN);
    for start_byte in [1usize, 0] {
        let jpeg = decode(&bytes, start_byte, false).unwrap();
        assert_eq!(jpeg.scans.len(), 1);
        let scan = &jpeg.scans[0];
        assert_eq!(
            scan.truncation,
            Some(ScanTruncation { component_index: 0, block_y: 0, block_x: 0 })
        );
        if start_byte > 0 {
            assert_eq!(scan.coefficients, None);
        } else {
            assert!(scan.coefficients.is_some());
        }
        let format = jpeg.format.unwrap();
        let mut expected = bytes[..header_len].to_vec();
        expected.extend(BROKEN);
        assert_eq!(format.grb, expected);
        assert_eq!(format.handoff.len(), 0);
        if start_byte > 0 {
            assert_eq!(format.pge, bytes[1..header_len].to_vec());
        } else {
            assert_eq!(format.pge, Vec::<u8>::new());
        }
    }
}

#[test]
fn truncation_behind_the_first_block_keeps_the_blocks_before() {
    let mut bytes = grey_header(8, 16);
    bytes.extend(sos(&[(1, 0x00)], 0, 63, 0));
    bytes.push(BLOCK);
    bytes.extend(BROKEN);
    let jpeg = decode(&bytes, 0, false).unwrap();
    let scan = &jpeg.scans[0];
    assert_eq!(
        scan.truncation,
        Some(ScanTruncation { component_index: 0, block_y: 0, block_x: 1 })
    );
    let coefficients = scan.coefficients.as_ref().unwrap();
    assert_eq!(coefficients[0][..64].to_vec(), block_of(&[3, 1]));
    let format = jpeg.format.unwrap();
    assert_eq!(format.handoff.len(), 1);
    assert_eq!(format.grb, BROKEN.to_vec());
}

#[test]
fn eof_ahead_of_start_byte_is_malformatted() {
    let mut bytes = grey_header(8, 8);
    bytes.extend(sos(&[(1, 0x00)], 0, 63, 0));
    bytes.extend(BROKEN);
    assert_eq!(
        decode(&bytes, bytes.len() + 1, false),
        Err(malformatted("EOF encountered before start_byte"))
    );
}

#[test]
fn eof_ahead_of_any_scan_is_insufficient_data() {
    let bytes = grey_header(8, 8);
    assert_eq!(
        decode(&bytes, 0, false),
        Err(malformatted("no/insufficient entropy encoded data"))
    );
    assert_eq!(decode(&bytes, 0, true), Err(malformatted("incomplete header")));
}

#[test]
fn bytes_behind_eoi_become_garbage() {
    let mut bytes = grey_header(8, 8);
    bytes.extend(sos(&[(1, 0x00)], 0, 63, 0));
    bytes.push(BLOCK);
    bytes.extend(EOI);
    bytes.extend([0xDE, 0xAD, 0xBE, 0xEF]);
    let (input, output) = iostream(16);
    output.write(&bytes).unwrap();
    output.write_eof().unwrap();
    let jpeg = JpegDecoder::new(input, 0, false).decode().unwrap();
    assert_eq!(jpeg.format.unwrap().grb, vec![0xDE, 0xAD, 0xBE, 0xEF]);
    assert_eq!(jpeg.scans[0].coefficients, Some(vec![block_of(&[3, 1])]));
    assert!(output.is_closed());
    assert_eq!(output.wait_for_close(), Ok(()));
    assert_eq!(output.unread_data(), None);
}

#[test]
fn header_only_collects_the_scan_headers() {
    let mut bytes = grey_header(8, 8);
    bytes.extend(sos(&[(1, 0x00)], 0, 63, 0));
    let header_len = bytes.len();
    bytes.extend(EOI);
    let jpeg = decode(&bytes, 99, true).unwrap();
    assert_eq!(jpeg.format, None);
    assert_eq!(jpeg.scans.len(), 1);
    assert_eq!(jpeg.scans[0].raw_header, bytes[..header_len].to_vec());
    assert_eq!(jpeg.scans[0].coefficients, None);
    assert_eq!(jpeg.scans[0].info.spectral_selection_end, 63);
}

#[test]
fn stray_bytes_and_fill_bytes_ahead_of_a_marker_are_passed_over() {
    let mut bytes = SOI.to_vec();
    bytes.extend([0x12, 0x34, 0xFF, 0xFF]);
    bytes.extend(&dqt()[1..]);
    bytes.extend(sof(0, 8, 8, &[(1, 0x11, 0)]));
    bytes.extend([0xFF, 0xFE, 0x00, 0x04, b'h', b'i']);
    bytes.extend([0xFF, 0xE0, 0x00, 0x07, b'J', b'F', b'I', b'F', 0]);
    bytes.extend(dht(0x00, [0x00, 0x02]));
    bytes.extend(dht(0x10, [0x00, 0x01]));
    bytes.extend(sos(&[(1, 0x00)], 0, 63, 0));
    bytes.push(BLOCK);
    bytes.extend(EOI);
    let jpeg = decode(&bytes, 0, false).unwrap();
    assert_eq!(jpeg.scans[0].coefficients, Some(vec![block_of(&[3, 1])]));
}

#[test]
fn marker_errors_of_the_loop() {
    let mut zero = SOI.to_vec();
    zero.extend([0xFF, 0x00]);
    assert_eq!(
        decode(&zero, 0, false),
        Err(malformatted("0xFF00 found where marker was expected (read_marker)"))
    );
    let mut dac = SOI.to_vec();
    dac.extend([0xFF, 0xCC]);
    assert_eq!(
        decode(&dac, 0, false),
        Err(JpegError::Unsupported(UnsupportedFeature::ArithmeticEntropyCoding))
    );
    let mut soi_twice = SOI.to_vec();
    soi_twice.extend(SOI);
    assert_eq!(decode(&soi_twice, 0, false), Err(malformatted("marker found where not allowed")));
    let mut scan_first = SOI.to_vec();
    scan_first.extend(sos(&[(1, 0x00)], 0, 63, 0));
    assert_eq!(decode(&scan_first, 0, false), Err(malformatted("scan encountered before frame")));
    let mut two_frames = SOI.to_vec();
    two_frames.extend(sof(0, 8, 8, &[(1, 0x11, 0)]));
    two_frames.extend(sof(0, 8, 8, &[(1, 0x11, 0)]));
    assert_eq!(
        decode(&two_frames, 0, false),
        Err(JpegError::Unsupported(UnsupportedFeature::Hierarchical))
    );
    let mut lossless = SOI.to_vec();
    lossless.extend(sof(3, 8, 8, &[(1, 0x11, 0)]));
    assert_eq!(
        decode(&lossless, 0, false),
        Err(JpegError::Unsupported(UnsupportedFeature::Lossless))
    );
    let mut two_components = SOI.to_vec();
    two_components.extend(sof(0, 8, 8, &[(1, 0x11, 0), (2, 0x11, 0)]));
    assert_eq!(
        decode(&two_components, 0, false),
        Err(JpegError::Unsupported(UnsupportedFeature::ComponentCount(2)))
    );
}

#[test]
fn scans_need_their_tables() {
    let mut no_quantization = SOI.to_vec();
    no_quantization.extend(sof(0, 8, 8, &[(1, 0x11, 0)]));
    no_quantization.extend(dht(0x00, [0x00, 0x02]));
    no_quantization.extend(dht(0x10, [0x00, 0x01]));
    no_quantization.extend(sos(&[(1, 0x00)], 0, 63, 0));
    no_quantization.push(BLOCK);
    assert_eq!(
        decode(&no_quantization, 0, false),
        Err(malformatted("use of unset quantization table"))
    );
    let mut no_dc = SOI.to_vec();
    no_dc.extend(dqt());
    no_dc.extend(sof(0, 8, 8, &[(1, 0x11, 0)]));
    no_dc.extend(dht(0x10, [0x00, 0x01]));
    no_dc.extend(sos(&[(1, 0x00)], 0, 63, 0));
    no_dc.push(BLOCK);
    assert_eq!(
        decode(&no_dc, 0, false),
        Err(malformatted("scan makes use of unset dc huffman table"))
    );
    let mut no_ac = SOI.to_vec();
    no_ac.extend(dqt());
    no_ac.extend(sof(0, 8, 8, &[(1, 0x11, 0)]));
    no_ac.extend(dht(0x00, [0x00, 0x02]));
    no_ac.extend(sos(&[(1, 0x00)], 0, 63, 0));
    no_ac.push(BLOCK);
    assert_eq!(
        decode(&no_ac, 0, false),
        Err(malformatted("scan makes use of unset ac huffman table"))
    );
}

#[test]
fn dc_category_twelve_in_a_scan_is_malformatted() {
    let mut bytes = SOI.to_vec();
    bytes.extend(dqt());
    bytes.extend(sof(0, 8, 8, &[(1, 0x11, 0)]));
    bytes.extend(dht(0x00, [0x0B, 0x0C]));
    bytes.extend(dht(0x10, [0x00, 0x01]));
    bytes.extend(sos(&[(1, 0x00)], 0, 63, 0));
    // `10`: category 12.
    let mut twelve = bytes.clone();
    twelve.extend([0b1000_0000, 0x00]);
    twelve.extend(EOI);
    assert_eq!(
        decode(&twelve, 0, false),
        Err(malformatted("invalid DC difference magnitude category"))
    );
    // `0`: category 11, the bits 10000000000 (1024), then the end of the block.
    let mut eleven = bytes.clone();
    eleven.extend([0b0100_0000, 0b0000_0111]);
    eleven.extend(EOI);
    let jpeg = decode(&eleven, 0, false).unwrap();
    assert_eq!(jpeg.scans[0].coefficients, Some(vec![block_of(&[1024])]));
}

#[test]
fn dc_prediction_overflow_in_a_scan_wraps() {
    let mut bytes = SOI.to_vec();
    bytes.extend(dqt());
    bytes.extend(sof(0, 8, 8 * 18, &[(1, 0x11, 0)]));
    bytes.extend(dht(0x00, [0x0B, 0x00]));
    bytes.extend(dht(0x10, [0x00, 0x01]));
    bytes.extend(sos(&[(1, 0x00)], 0, 63, 0));
    // For each block: `0` (category 11), the bits 11111111111 (2047), `0`
    // (end of block): 13 bits, 18 blocks.
    let mut bits = Vec::new();
    for _ in 0..18 {
        bits.push(false);
        bits.extend([true; 11]);
        bits.push(false);
    }
    while bits.len() % 8 != 0 {
        bits.push(true);
    }
    for chunk in bits.chunks(8) {
        let byte = chunk.iter().fold(0u8, |byte, bit| (byte << 1) | *bit as u8);
        bytes.push(byte);
        if byte == 0xFF {
            bytes.push(0x00);
        }
    }
    bytes.extend(EOI);
    let jpeg = decode(&bytes, 0, false).unwrap();
    let coefficients = jpeg.scans[0].coefficients.as_ref().unwrap();
    assert_eq!(coefficients[0][15 * 64], 16 * 2047);
    assert_eq!(coefficients[0][16 * 64], (17 * 2047 - 65536) as i16);
    assert_eq!(coefficients[0][17 * 64], (18 * 2047 - 65536) as i16);
}

#[test]
fn progressive_scans_refine_the_coefficients() {
    let mut bytes = SOI.to_vec();
    bytes.extend(dqt());
    bytes.extend(sof(2, 8, 8, &[(1, 0x11, 0)]));
    bytes.extend(dht(0x00, [0x00, 0x02]));
    bytes.extend(dht(0x10, [0x00, 0x01]));
    // DC, first pass, scaled by 2: `10` `11` gives 3 * 2.
    bytes.extend(sos(&[(1, 0x00)], 0, 0, 0x01));
    bytes.push(0b1011_1111);
    // AC 1..=5, first pass, scaled by 2: `10` `1` gives 1 * 2 at the first
    // place, `10` `0` gives -1 * 2 at the second, then the end of the band.
    bytes.extend(sos(&[(1, 0x00)], 1, 5, 0x01));
    bytes.push(0b1011_0001);
    // DC, second pass: the bit 1.
    bytes.extend(sos(&[(1, 0x00)], 0, 0, 0x10));
    bytes.push(0b1111_1111);
    bytes.push(0x00);
    // AC 1..=5, second pass: `10` `1` announces a new coefficient 1 behind
    // no zero; on the way there the two old ones take the bits 1 and 0; the
    // new one lands on the third place; then the end of the band.
    bytes.extend(sos(&[(1, 0x00)], 1, 5, 0x10));
    bytes.push(0b1011_0011);
    bytes.extend(EOI);
    let jpeg = decode(&bytes, 0, false).unwrap();
    assert_eq!(jpeg.scans.len(), 4);
    let after = |scan: usize| jpeg.scans[scan].coefficients.as_ref().unwrap()[0].clone();
    assert_eq!(after(0), block_of(&[6]));
    // Places 1 and 2 of the file are places 1 and 8 of the block.
    let mut expected = block_of(&[6, 2]);
    expected[8] = -2;
    assert_eq!(after(1), expected);
    expected[0] = 7;
    assert_eq!(after(2), expected);
    expected[1] = 3;
    expected[16] = 1;
    assert_eq!(after(3), expected);
}

/// A table with the codes `0`, `10` and `110` for the three values.
fn dht_of_three(class_and_index: u8, values: [u8; 3]) -> Vec<u8> {
    let mut bytes = vec![0xFF, 0xC4, 0x00, 0x16, class_and_index, 1, 1, 1];
    bytes.extend(vec![0u8; 13]);
    bytes.extend_from_slice(&values);
    bytes
}

#[test]
fn run_of_sixteen_zeros_moves_sixteen_places_on() {
    let mut bytes = SOI.to_vec();
    bytes.extend(dqt());
    bytes.extend(sof(0, 8, 8, &[(1, 0x11, 0)]));
    bytes.extend(dht(0x00, [0x00, 0x02]));
    bytes.extend(dht_of_three(0x10, [0x00, 0x01, 0xF0]));
    bytes.extend(sos(&[(1, 0x00)], 0, 63, 0));
    // DC `0`; `110` sixteen zeros; `10` `1` the value 1; `0` end of block.
    bytes.push(0b0110_1010);
    bytes.extend(EOI);
    let jpeg = decode(&bytes, 0, false).unwrap();
    let mut expected = block_of(&[]);
    // Place 17 of the file is place 19 of the block.
    expected[19] = 1;
    assert_eq!(jpeg.scans[0].coefficients, Some(vec![expected]));
}

#[test]
fn coefficient_behind_the_band_ends_the_block() {
    let mut bytes = SOI.to_vec();
    bytes.extend(dqt());
    bytes.extend(sof(2, 8, 8, &[(1, 0x11, 0)]));
    bytes.extend(dht_of_three(0x10, [0x00, 0x31, 0xF0]));
    // The band 1..=3: `10` announces a coefficient behind three zeros, at
    // place 4, which the band does not have.
    bytes.extend(sos(&[(1, 0x00)], 1, 3, 0));
    bytes.push(0b1011_1111);
    bytes.extend(EOI);
    let jpeg = decode(&bytes, 0, false).unwrap();
    assert_eq!(jpeg.scans[0].coefficients, Some(vec![block_of(&[])]));
}

#[test]
fn end_of_band_run_covers_the_blocks_that_follow() {
    let mut bytes = SOI.to_vec();
    bytes.extend(dqt());
    bytes.extend(sof(2, 8, 24, &[(1, 0x11, 0)]));
    bytes.extend(dht(0x00, [0x00, 0x02]));
    bytes.extend(dht_of_three(0x10, [0x10, 0x01, 0x00]));
    // DC of three blocks: `10` `11`, then twice `0`.
    bytes.extend(sos(&[(1, 0x00)], 0, 0, 0));
    bytes.push(0b1011_0011);
    // AC of three blocks: `10` `1` puts 1 at place 1 of the first block;
    // `0` `0` is an end-of-band run of two blocks: this one and the next;
    // the third block: `10` `0` puts -1 at place 1, `110` ends the block.
    bytes.extend(sos(&[(1, 0x00)], 1, 63, 0));
    bytes.extend([0b1010_0100, 0b1101_1111]);
    bytes.extend(EOI);
    let jpeg = decode(&bytes, 0, false).unwrap();
    let coefficients = jpeg.scans[1].coefficients.as_ref().unwrap();
    assert_eq!(coefficients[0][..64].to_vec(), block_of(&[3, 1]));
    assert_eq!(coefficients[0][64..128].to_vec(), block_of(&[3]));
    assert_eq!(coefficients[0][128..].to_vec(), block_of(&[3, -1]));
}

#[test]
fn refinement_within_an_end_of_band_run_takes_bits_only() {
    let mut bytes = SOI.to_vec();
    bytes.extend(dqt());
    bytes.extend(sof(2, 8, 16, &[(1, 0x11, 0)]));
    bytes.extend(dht_of_three(0x10, [0x10, 0x01, 0x00]));
    // First pass over 1..=5 at bit 1: both blocks get 2 at place 1 and -2
    // at place 2, then the end of the band.
    bytes.extend(sos(&[(1, 0x00)], 1, 5, 0x01));
    // `10` `1`, `10` `0`, `110`, twice: 16 bits.
    bytes.extend([0b1011_0011, 0b0101_1001, 0b1011_1111]);
    // Second pass: `0` `1` is an end-of-band run over both blocks. The first
    // block refines its two coefficients with the bits 1 and 1, the second
    // with 0 and 1.
    bytes.extend(sos(&[(1, 0x00)], 1, 5, 0x10));
    bytes.push(0b0111_0111);
    bytes.extend(EOI);
    let jpeg = decode(&bytes, 0, false).unwrap();
    let coefficients = jpeg.scans[1].coefficients.as_ref().unwrap();
    let mut first = block_of(&[0, 3]);
    first[8] = -3;
    let mut second = block_of(&[0, 2]);
    second[8] = -3;
    assert_eq!(coefficients[0][..64].to_vec(), first);
    assert_eq!(coefficients[0][64..].to_vec(), second);
}

#[test]
fn refinement_code_of_two_bits_is_malformatted() {
    let mut bytes = SOI.to_vec();
    bytes.extend(dqt());
    bytes.extend(sof(2, 8, 8, &[(1, 0x11, 0)]));
    bytes.extend(dht(0x10, [0x02, 0x00]));
    bytes.extend(sos(&[(1, 0x00)], 1, 5, 0x10));
    bytes.push(0b0111_1111);
    bytes.extend(EOI);
    assert_eq!(decode(&bytes, 0, false), Err(malformatted("unexpected huffman code")));
}

#[test]
fn code_that_the_table_lacks_is_malformatted() {
    let mut bytes = grey_header(8, 8);
    bytes.extend(sos(&[(1, 0x00)], 0, 63, 0));
    // `11` opens no code of the DC table.
    bytes.extend([0b1111_1111, 0x00, 0b1111_1111, 0x00]);
    bytes.extend(EOI);
    assert_eq!(decode(&bytes, 0, false), Err(malformatted("failed to decode huffman code")));
}

#[test]
fn motion_jpeg_takes_its_tables_for_granted() {
    let mut bytes = SOI.to_vec();
    bytes.extend([0xFF, 0xE0, 0x00, 0x08, b'A', b'V', b'I', b'1', 0, 0]);
    bytes.extend(dqt());
    bytes.extend(sof(0, 8, 8, &[(1, 0x11, 0)]));
    bytes.extend(sos(&[(1, 0x00)], 0, 63, 0));
    // `010` is category 1, `1` the difference 1; `00` `0` is the value -1
    // at place 1; `1010` ends the block.
    bytes.extend([0b0101_0001, 0b0101_1111]);
    bytes.extend(EOI);
    let jpeg = decode(&bytes, 0, false).unwrap();
    assert_eq!(jpeg.scans[0].coefficients, Some(vec![block_of(&[1, -1])]));

    // Without the AVI1 segment the tables are missing.
    let mut plain = SOI.to_vec();
    plain.extend(dqt());
    plain.extend(sof(0, 8, 8, &[(1, 0x11, 0)]));
    plain.extend(sos(&[(1, 0x00)], 0, 63, 0));
    plain.extend([0b0101_0001, 0b0101_1111]);
    plain.extend(EOI);
    assert_eq!(
        decode(&plain, 0, false),
        Err(malformatted("scan makes use of unset dc huffman table"))
    );
}

#[test]
fn stream_that_ends_at_a_restart_marker_leaves_the_marker_bytes_as_garbage() {
    let mut bytes = grey_header(8, 24);
    bytes.extend([0xFF, 0xDD, 0x00, 0x04, 0x00, 0x01]);
    bytes.extend(sos(&[(1, 0x00)], 0, 63, 0));
    bytes.extend([BLOCK, 0xFF, 0xD0, BLOCK, 0xFF]);
    let jpeg = decode(&bytes, 0, false).unwrap();
    let scan = &jpeg.scans[0];
    let coefficients = scan.coefficients.as_ref().unwrap();
    assert_eq!(coefficients[0][..64].to_vec(), block_of(&[3, 1]));
    assert_eq!(scan.truncation, Some(ScanTruncation { component_index: 0, block_y: 0, block_x: 1 }));
    assert_eq!(jpeg.format.unwrap().grb, vec![BLOCK, 0xFF]);
}

#[test]
fn scans_of_a_second_pass_count_in_the_hand_offs() {
    let mut bytes = SOI.to_vec();
    bytes.extend(dqt());
    bytes.extend(sof(2, 16, 8, &[(1, 0x11, 0)]));
    bytes.extend(dht(0x00, [0x00, 0x02]));
    bytes.extend(sos(&[(1, 0x00)], 0, 0, 0x01));
    bytes.push(0b0011_1111);
    bytes.extend(sos(&[(1, 0x00)], 0, 0, 0x10));
    bytes.push(0b1011_1111);
    bytes.extend(EOI);
    let jpeg = decode(&bytes, 0, false).unwrap();
    let coefficients = jpeg.scans[1].coefficients.as_ref().unwrap();
    assert_eq!(coefficients[0][0], 1);
    assert_eq!(coefficients[0][64], 0);
    let handoff = jpeg.format.unwrap().handoff;
    assert_eq!(handoff.len(), 4);
    let rows: Vec<(u16, u16, u16)> =
        handoff.iter().map(|h| (h.start_scan, h.end_scan, h.mcu_y_start)).collect();
    assert_eq!(rows, vec![(0, 0, 0), (0, 0, 1), (1, 1, 0), (1, 1, 1)]);
    assert_eq!(handoff[1].n_overhang_bit, 7);
    assert_eq!(handoff[1].overhang_byte, 0b0011_1111);
    assert_eq!(handoff[3].n_overhang_bit, 7);
    assert_eq!(handoff[3].overhang_byte, 0b1011_1111);
}

#[test]
fn no_restart_marker_is_due_behind_the_last_mcu() {
    // Four MCUs with a restart behind every two: one marker, in the middle.
    let mut bytes = grey_header(8, 32);
    bytes.extend([0xFF, 0xDD, 0x00, 0x04, 0x00, 0x02]);
    bytes.extend(sos(&[(1, 0x00)], 0, 63, 0));
    bytes.extend([BLOCK, BLOCK, 0xFF, 0xD0, BLOCK, BLOCK]);
    bytes.extend(EOI);
    let jpeg = decode(&bytes, 0, false).unwrap();
    let coefficients = jpeg.scans[0].coefficients.as_ref().unwrap();
    let dc: Vec<i16> = (0..4).map(|block| coefficients[0][block * 64]).collect();
    assert_eq!(dc, vec![3, 6, 3, 6]);
}

#[test]
fn start_byte_within_the_entropy_data_moves_the_first_hand_off() {
    // 8x24 pixels: three rows of one block. Decoding proper starts behind
    // the first byte of the scan, so the first row is garbage.
    let mut bytes = grey_header(24, 8);
    bytes.extend(sos(&[(1, 0x00)], 0, 63, 0));
    let header_len = bytes.len();
    bytes.extend(vec![BLOCK; 3]);
    bytes.extend(EOI);
    let jpeg = decode(&bytes, header_len + 1, false).unwrap();
    assert_eq!(jpeg.scans.len(), 1);
    assert_eq!(jpeg.scans[0].coefficients, None);
    assert_eq!(jpeg.scans[0].truncation, None);
    let format = jpeg.format.unwrap();
    assert_eq!(format.pge, vec![BLOCK]);
    assert_eq!(format.handoff.len(), 2);
    assert_eq!(format.handoff[0].mcu_y_start, 1);
    assert_eq!(format.handoff[0].segment_size as usize, header_len + 3);
    assert_eq!(format.handoff[0].n_overhang_bit, 0);
    assert_eq!(format.handoff[1].mcu_y_start, 2);
    assert_eq!(format.handoff[1].segment_size as usize, header_len + 3);
    assert_eq!(format.grb, Vec::<u8>::new());
}

#[test]
fn motion_jpeg_has_the_first_two_tables_of_each_kind_only() {
    let mut bytes = SOI.to_vec();
    bytes.extend([0xFF, 0xE0, 0x00, 0x08, b'A', b'V', b'I', b'1', 0, 0]);
    bytes.extend(dqt());
    bytes.extend(sof(1, 8, 8, &[(1, 0x11, 0)]));
    bytes.extend(sos(&[(1, 0x20)], 0, 63, 0));
    bytes.extend([0b0101_0001, 0b0101_1111]);
    bytes.extend(EOI);
    assert_eq!(
        decode(&bytes, 0, false),
        Err(malformatted("scan makes use of unset dc huffman table"))
    );
    let mut bytes = SOI.to_vec();
    bytes.extend([0xFF, 0xE0, 0x00, 0x08, b'A', b'V', b'I', b'1', 0, 0]);
    bytes.extend(dqt());
    bytes.extend(sof(1, 8, 8, &[(1, 0x11, 0)]));
    bytes.extend(sos(&[(1, 0x03)], 0, 63, 0));
    bytes.extend([0b0101_0001, 0b0101_1111]);
    bytes.extend(EOI);
    assert_eq!(
        decode(&bytes, 0, false),
        Err(malformatted("scan makes use of unset ac huffman table"))
    );
}

#[test]
fn decoding_concludes_from_the_end_of_the_marker_loop() {
    let incomplete = Err(malformatted("incomplete header"));
    // The loop came to the EOI marker.
    assert_eq!(conclude(Ok(()), true, true, 10, 0, false), Ok(()));
    assert_eq!(conclude(Ok(()), true, false, 10, 50, false), Ok(()));
    assert_eq!(conclude(Ok(()), false, true, 4, 0, false), incomplete);
    // The stream ended early.
    assert_eq!(conclude(Err(JpegError::EOF), false, true, 2, 0, false), incomplete);
    assert_eq!(conclude(Err(JpegError::EOF), true, false, 99, 0, true), incomplete);
    assert_eq!(
        conclude(Err(JpegError::EOF), true, true, 49, 50, true),
        Err(malformatted("EOF encountered before start_byte"))
    );
    assert_eq!(
        conclude(Err(JpegError::EOF), true, true, 50, 50, false),
        Err(malformatted("no/insufficient entropy encoded data"))
    );
    assert_eq!(conclude(Err(JpegError::EOF), true, true, 50, 50, true), Ok(()));
    // Every other error is the answer.
    assert_eq!(
        conclude(Err(malformatted("zero width in frame header")), true, true, 50, 0, true),
        Err(malformatted("zero width in frame header"))
    );
    assert_eq!(
        conclude(Err(JpegError::Unsupported(UnsupportedFeature::DNL)), true, true, 50, 0, true),
        Err(JpegError::Unsupported(UnsupportedFeature::DNL))
    );
}

#[test]
fn first_bytes_that_are_no_soi_marker_are_malformatted() {
    for bytes in [[0x00u8, 0xD8], [0xFF, 0xD9], [0xFF, 0x00], [0xD8, 0xFF]] {
        assert_eq!(
            decode(&bytes, 0, false),
            Err(malformatted("first two bytes is not a SOI marker"))
        );
    }
    assert_eq!(
        decode(&[0xFF, 0xD8, 0xFF, 0x00], 0, false),
        Err(malformatted("0xFF00 found where marker was expected (read_marker)"))
    );
}

#[test]
fn hand_offs_record_the_place_in_the_stream() {
    let mut bytes = grey_header(24, 8);
    bytes.extend(sos(&[(1, 0x00)], 0, 63, 0));
    let header_len = bytes.len();
    bytes.extend(vec![BLOCK; 3]);
    bytes.extend(EOI);
    let jpeg = decode(&bytes, 0, false).unwrap();
    let format = jpeg.format.unwrap();
    assert_eq!(format.handoff.len(), 3);
    // The bit reader takes the three bytes of the data with the first
    // block: they count as processed from then on.
    let processed = [header_len, header_len + 3, header_len + 3];
    for (row, handoff) in format.handoff.iter().enumerate() {
        assert_eq!(handoff.mcu_y_start as usize, row);
        assert_eq!(handoff.segment_size as usize, processed[row]);
        assert_eq!(handoff.n_overhang_bit, 0);
        assert_eq!(handoff.start_scan, 0);
        assert_eq!(handoff.end_scan, 0);
        assert_eq!(handoff.last_dc, [0u16; 4]);
    }
}

#[test]
fn restart_starts_the_decoding_over() {
    let (input, output) = iostream(16);
    output.write(&[0xFF, 0xD3, 0xFF, 0xD5, 0x12]).unwrap();
    output.write_eof().unwrap();
    let mut decoder = JpegDecoder::new(input, 0, false);
    let mut huffman = HuffmanDecoder::new(0);
    let mut dc_predictors = [7i16, -3, 100, 1];
    let mut eob_run = 9u16;
    let mut expected = 3u8;
    let mut format = FormatInfo::default();
    assert_eq!(
        decoder.restart(&mut huffman, &mut dc_predictors, &mut eob_run, &mut expected, &mut format),
        Ok(())
    );
    assert_eq!(dc_predictors, [0i16; 4]);
    assert_eq!(eob_run, 0);
    assert_eq!(expected, 4);
    assert_eq!(huffman.handover_byte().1, 0);
    assert_eq!(huffman.unread_bytes(), 0);
    assert_eq!(huffman.marker(), None);
    // The marker that follows is out of turn: nothing is reset.
    dc_predictors = [5, 5, 5, 5];
    eob_run = 2;
    assert_eq!(
        decoder.restart(&mut huffman, &mut dc_predictors, &mut eob_run, &mut expected, &mut format),
        Err(malformatted("found RST5 where RST4 was expected"))
    );
    assert_eq!(dc_predictors, [5i16; 4]);
    assert_eq!(eob_run, 2);
    assert_eq!(expected, 4);
}

#[test]
fn image_at_hand_is_decoded_whatever_the_stream_does() {
    let mut bytes = grey_header(8, 8);
    bytes.extend(sos(&[(1, 0x00)], 0, 63, 0));
    bytes.push(BLOCK);
    bytes.extend(EOI);
    for header_only in [true, false] {
        let (mut input, output) = iostream(16);
        output.write(&bytes).unwrap();
        let mut all = vec![0u8; bytes.len()];
        assert_eq!(input.peek(&mut all, true), Ok(bytes.len()));
        // The reader holds the image now: the stream is not asked again.
        input.abort();
        assert!(output.write(&[0]).is_err());
        let jpeg = JpegDecoder::new(input, 0, header_only).decode().unwrap();
        assert_eq!(jpeg.scans.len(), 1);
        assert_eq!(jpeg.scans[0].truncation, None);
        assert_eq!(jpeg.format.is_none(), header_only);
        if header_only {
            assert_eq!(jpeg.scans[0].coefficients, None);
        } else {
            assert_eq!(jpeg.scans[0].coefficients, Some(vec![block_of(&[3, 1])]));
            assert_eq!(jpeg.format.unwrap().grb, Vec::<u8>::new());
        }
        assert!(output.is_closed());
        assert_eq!(output.unread_data(), None);
    }
}
