use jpegstream::thread_handoff::{
    ThreadHandoff, ThreadHandoffExt, BYTES_PER_HANDOFF, BYTES_PER_HANDOFF_EXT, MAX_N_CHANNEL,
};

fn sample(i: u16) -> ThreadHandoffExt {
    ThreadHandoffExt {
        start_scan: i,
        end_scan: i + 1,
        mcu_y_start: 0x0102 + i,
        segment_size: 0x0A0B0C0D + i as u32,
        overhang_byte: 0xEE,
        n_overhang_bit: 5,
        last_dc: [1, 0x0203, 0xFFFF, i],
    }
}

#[test]
fn handoff_ext_record_is_little_endian() {
    let bytes = ThreadHandoffExt::serialize(vec![sample(0)]);
    assert_eq!(
        bytes,
        vec![
            1, 0x00, 0x00, 0x01, 0x00, 0x02, 0x01, 0x0D, 0x0C, 0x0B, 0x0A, 0xEE, 5, 0x01, 0x00,
            0x03, 0x02, 0xFF, 0xFF, 0x00, 0x00
        ]
    );
}

#[test]
fn handoff_ext_round_trip_and_length() {
    for n in [0usize, 1, 2, 7, 255] {
        let list: Vec<ThreadHandoffExt> = (0..n as u16).map(sample).collect();
        let bytes = ThreadHandoffExt::serialize(list.clone());
        assert_eq!(bytes.len(), 1 + BYTES_PER_HANDOFF_EXT * n);
        assert_eq!(bytes[0] as usize, n);
        assert_eq!(ThreadHandoffExt::deserialize(&bytes), Some(list));
    }
}

#[test]
fn handoff_ext_count_byte_wraps_for_long_lists() {
    let list: Vec<ThreadHandoffExt> = (0..256u16).map(sample).collect();
    let bytes = ThreadHandoffExt::serialize(list);
    assert_eq!(bytes.len(), 1 + 20 * 256);
    assert_eq!(bytes[0], 0);
    assert_eq!(ThreadHandoffExt::deserialize(&bytes), None);
}

#[test]
fn handoff_ext_deserialize_rejects_wrong_lengths() {
    assert_eq!(ThreadHandoffExt::deserialize(&[]), None);
    assert_eq!(ThreadHandoffExt::deserialize(&[0]), Some(vec![]));
    assert_eq!(ThreadHandoffExt::deserialize(&[1]), None);
    assert_eq!(ThreadHandoffExt::deserialize(&[0, 0]), None);
    let mut bytes = ThreadHandoffExt::serialize(vec![sample(3)]);
    bytes.push(0);
    assert_eq!(ThreadHandoffExt::deserialize(&bytes), None);
}

#[test]
fn handoff_record_is_sixteen_bytes() {
    let handoff = ThreadHandoff {
        luma_y_start: 0x0102,
        segment_size: 0x03040506,
        overhang_byte: 7,
        n_overhang_bit: 8,
        last_dc: [0x090A, 0x0B0C, 0x0D0E, 0x0F10],
    };
    let bytes = ThreadHandoff::serialize(vec![handoff, ThreadHandoff::default()]);
    assert_eq!(bytes.len(), 1 + BYTES_PER_HANDOFF * 2);
    assert_eq!(
        &bytes[..17],
        &[2, 0x02, 0x01, 0x06, 0x05, 0x04, 0x03, 7, 8, 0x0A, 0x09, 0x0C, 0x0B, 0x0E, 0x0D, 0x10, 0x0F]
    );
    assert_eq!(&bytes[17..], &[0u8; 16]);
    assert_eq!(MAX_N_CHANNEL, 4);
}

#[test]
fn handoff_defaults_are_zero() {
    let handoff = ThreadHandoffExt::default();
    assert_eq!(handoff.start_scan, 0);
    assert_eq!(handoff.segment_size, 0);
    assert_eq!(handoff.last_dc, [0u16; 4]);
    assert_eq!(ThreadHandoffExt::serialize(vec![handoff]), {
        let mut expected = vec![1u8];
        expected.extend_from_slice(&[0u8; 20]);
        expected
    });
}
