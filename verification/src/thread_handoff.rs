//! Thread hand-offs: checkpoints from which entropy decoding can resume, and
//! their little-endian wire format.
use vstd::prelude::*;

verus! {

pub const MAX_N_CHANNEL: usize = 4;

pub const BYTES_PER_HANDOFF: usize = 16;

pub const BYTES_PER_HANDOFF_EXT: usize = 20;

/// The two bytes of `value`, low byte first.
pub open spec fn u16_le(value: u16) -> Seq<u8> {
    seq![(value % 256) as u8, (value / 256) as u8]
}

/// The four bytes of `value`, lowest byte first.
pub open spec fn u32_le(value: u32) -> Seq<u8> {
    seq![
        (value % 256) as u8,
        (value / 256 % 256) as u8,
        (value / 65536 % 256) as u8,
        (value / 16777216) as u8,
    ]
}

/// The number that two bytes spell, low byte first.
pub open spec fn u16_from_le(bytes: Seq<u8>) -> u16 {
    (bytes[0] + 256 * bytes[1]) as u16
}

/// The number that four bytes spell, lowest byte first.
pub open spec fn u32_from_le(bytes: Seq<u8>) -> u32 {
    (bytes[0] + 256 * bytes[1] + 65536 * bytes[2] + 16777216 * bytes[3]) as u32
}

/// The eight bytes of the four DC values of a hand-off.
pub open spec fn last_dc_le(last_dc: [u16; 4]) -> Seq<u8> {
    u16_le(last_dc[0]) + u16_le(last_dc[1]) + u16_le(last_dc[2]) + u16_le(last_dc[3])
}

/// The count byte that opens a serialized list of `len` records: the length
/// modulo 256.
pub open spec fn count_byte(len: nat) -> u8 {
    (len % 256) as u8
}

fn push_u16_le(out: &mut Vec<u8>, value: u16)
    ensures
        final(out)@ == old(out)@ + u16_le(value),
{
    out.push((value % 256) as u8);
    out.push((value / 256) as u8);
    assert(out@ =~= old(out)@ + u16_le(value));
}

fn push_u32_le(out: &mut Vec<u8>, value: u32)
    ensures
        final(out)@ == old(out)@ + u32_le(value),
{
    out.push((value % 256) as u8);
    out.push((value / 256 % 256) as u8);
    out.push((value / 65536 % 256) as u8);
    out.push((value / 16777216) as u8);
    assert(out@ =~= old(out)@ + u32_le(value));
}

fn push_last_dc_le(out: &mut Vec<u8>, last_dc: &[u16; 4])
    ensures
        final(out)@ == old(out)@ + last_dc_le(*last_dc),
{
    push_u16_le(out, last_dc[0]);
    push_u16_le(out, last_dc[1]);
    push_u16_le(out, last_dc[2]);
    push_u16_le(out, last_dc[3]);
    assert(out@ =~= old(out)@ + last_dc_le(*last_dc));
}

fn read_u16_le(bytes: &[u8], at: usize) -> (value: u16)
    requires
        at + 2 <= bytes@.len(),
    ensures
        value == u16_from_le(bytes@.subrange(at as int, at + 2)),
{
    bytes[at] as u16 + 256 * (bytes[at + 1] as u16)
}

fn read_u32_le(bytes: &[u8], at: usize) -> (value: u32)
    requires
        at + 4 <= bytes@.len(),
    ensures
        value == u32_from_le(bytes@.subrange(at as int, at + 4)),
{
    bytes[at] as u32 + 256 * (bytes[at + 1] as u32) + 65536 * (bytes[at + 2] as u32) + 16777216 * (
    bytes[at + 3] as u32)
}

/// A checkpoint within one scan.
#[derive(Clone, Copy, Debug, PartialEq, Eq)]
pub struct ThreadHandoff {
    pub luma_y_start: u16,
    pub segment_size: u32,
    pub overhang_byte: u8,
    pub n_overhang_bit: u8,
    pub last_dc: [u16; MAX_N_CHANNEL],
}

impl Default for ThreadHandoff {
    fn default() -> (handoff: Self)
        ensures
            handoff.luma_y_start == 0,
            handoff.segment_size == 0,
            handoff.overhang_byte == 0,
            handoff.n_overhang_bit == 0,
            handoff.last_dc@ == seq![0u16, 0u16, 0u16, 0u16],
    {
        let handoff = ThreadHandoff {
            luma_y_start: 0,
            segment_size: 0,
            overhang_byte: 0,
            n_overhang_bit: 0,
            last_dc: [0u16, 0u16, 0u16, 0u16],
        };
        assert(handoff.last_dc@ =~= seq![0u16, 0u16, 0u16, 0u16]);
        handoff
    }
}

impl ThreadHandoff {
    /// The 16 bytes of one record.
    pub open spec fn record(&self) -> Seq<u8> {
        u16_le(self.luma_y_start) + u32_le(self.segment_size) + seq![
            self.overhang_byte,
            self.n_overhang_bit,
        ] + last_dc_le(self.last_dc)
    }

    /// The records of `data`, one after the other.
    pub open spec fn records(data: Seq<ThreadHandoff>) -> Seq<u8>
        decreases data.len(),
    {
        if data.len() == 0 {
            Seq::empty()
        } else {
            Self::records(data.drop_last()) + data.last().record()
        }
    }

    /// The wire format of `data`: the count byte, then the records.
    pub open spec fn serialized(data: Seq<ThreadHandoff>) -> Seq<u8> {
        seq![count_byte(data.len())] + Self::records(data)
    }

    /// The records of a list take 16 bytes each.
    pub proof fn lemma_records_len(data: Seq<ThreadHandoff>)
        ensures
            Self::records(data).len() == BYTES_PER_HANDOFF * data.len(),
        decreases data.len(),
    {
        if data.len() > 0 {
            Self::lemma_records_len(data.drop_last());
        }
    }

    /// The wire format of `data`.
    pub fn serialize(data: Vec<ThreadHandoff>) -> (bytes: Vec<u8>)
        ensures
            bytes@ == Self::serialized(data@),
            bytes@.len() == 1 + BYTES_PER_HANDOFF * data@.len(),
    {
        let mut result: Vec<u8> = Vec::new();
        result.push((data.len() % 256) as u8);
        let mut i: usize = 0;
        while i < data.len()
            invariant
                i <= data@.len(),
                result@ == seq![count_byte(data@.len())] + Self::records(data@.take(i as int)),
            decreases data@.len() - i,
        {
            let ghost before = result@;
            let handoff = &data[i];
            push_u16_le(&mut result, handoff.luma_y_start);
            push_u32_le(&mut result, handoff.segment_size);
            result.push(handoff.overhang_byte);
            result.push(handoff.n_overhang_bit);
            push_last_dc_le(&mut result, &handoff.last_dc);
            proof {
                assert(data@.take(i + 1).drop_last() =~= data@.take(i as int));
                assert(data@.take(i + 1).last() == data@[i as int]);
                assert(result@ =~= before + data@[i as int].record());
                assert(result@ =~= seq![count_byte(data@.len())] + Self::records(
                    data@.take(i + 1),
                ));
            }
            i += 1;
        }
        proof {
            assert(data@.take(data@.len() as int) =~= data@);
            Self::lemma_records_len(data@);
        }
        result
    }
}

/// A checkpoint at an MCU-row boundary: entropy decoding of scan `end_scan`
/// can resume `segment_size` bytes into the scan, at MCU row `mcu_y_start`,
/// with `n_overhang_bit` bits of `overhang_byte` still to be used.
#[derive(Clone, Copy, Debug, PartialEq, Eq)]
pub struct ThreadHandoffExt {
    pub start_scan: u16,
    pub end_scan: u16,
    pub mcu_y_start: u16,
    pub segment_size: u32,
    pub overhang_byte: u8,
    pub n_overhang_bit: u8,
    pub last_dc: [u16; 4],
}

impl Default for ThreadHandoffExt {
    fn default() -> (handoff: Self)
        ensures
            handoff.start_scan == 0,
            handoff.end_scan == 0,
            handoff.mcu_y_start == 0,
            handoff.segment_size == 0,
            handoff.overhang_byte == 0,
            handoff.n_overhang_bit == 0,
            handoff.last_dc@ == seq![0u16, 0u16, 0u16, 0u16],
    {
        let handoff = ThreadHandoffExt {
            start_scan: 0,
            end_scan: 0,
            mcu_y_start: 0,
            segment_size: 0,
            overhang_byte: 0,
            n_overhang_bit: 0,
            last_dc: [0u16, 0u16, 0u16, 0u16],
        };
        assert(handoff.last_dc@ =~= seq![0u16, 0u16, 0u16, 0u16]);
        handoff
    }
}

impl ThreadHandoffExt {
    /// The 20 bytes of one record.
    pub open spec fn record(&self) -> Seq<u8> {
        u16_le(self.start_scan) + u16_le(self.end_scan) + u16_le(self.mcu_y_start) + u32_le(
            self.segment_size,
        ) + seq![self.overhang_byte, self.n_overhang_bit] + last_dc_le(self.last_dc)
    }

    /// The records of `data`, one after the other.
    pub open spec fn records(data: Seq<ThreadHandoffExt>) -> Seq<u8>
        decreases data.len(),
    {
        if data.len() == 0 {
            Seq::empty()
        } else {
            Self::records(data.drop_last()) + data.last().record()
        }
    }

    /// The wire format of `data`: the count byte, then the records.
    pub open spec fn serialized(data: Seq<ThreadHandoffExt>) -> Seq<u8> {
        seq![count_byte(data.len())] + Self::records(data)
    }

    /// The hand-off that the 20 bytes of `record` spell.
    pub open spec fn from_record(record: Seq<u8>) -> ThreadHandoffExt {
        ThreadHandoffExt {
            start_scan: u16_from_le(record.subrange(0, 2)),
            end_scan: u16_from_le(record.subrange(2, 4)),
            mcu_y_start: u16_from_le(record.subrange(4, 6)),
            segment_size: u32_from_le(record.subrange(6, 10)),
            overhang_byte: record[10],
            n_overhang_bit: record[11],
            last_dc: [
                u16_from_le(record.subrange(12, 14)),
                u16_from_le(record.subrange(14, 16)),
                u16_from_le(record.subrange(16, 18)),
                u16_from_le(record.subrange(18, 20)),
            ],
        }
    }

    /// The list that `bytes` spell, if they are a count byte followed by
    /// exactly that many records.
    pub open spec fn deserialized(bytes: Seq<u8>) -> Option<Seq<ThreadHandoffExt>> {
        if bytes.len() >= 1 && bytes.len() == 1 + BYTES_PER_HANDOFF_EXT * bytes[0] {
            Some(
                Seq::new(
                    bytes[0] as nat,
                    |i: int|
                        Self::from_record(
                            bytes.subrange(
                                1 + BYTES_PER_HANDOFF_EXT * i,
                                1 + BYTES_PER_HANDOFF_EXT * (i + 1),
                            ),
                        ),
                ),
            )
        } else {
            None
        }
    }

    /// The records of a list take 20 bytes each.
    pub proof fn lemma_records_len(data: Seq<ThreadHandoffExt>)
        ensures
            Self::records(data).len() == BYTES_PER_HANDOFF_EXT * data.len(),
        decreases data.len(),
    {
        if data.len() > 0 {
            Self::lemma_records_len(data.drop_last());
        }
    }

    /// The record of the hand-off at place `i` stands at byte `20 * i` of the
    /// records of the list.
    pub proof fn lemma_record_at(data: Seq<ThreadHandoffExt>, i: int)
        requires
            0 <= i < data.len(),
        ensures
            Self::records(data).len() == BYTES_PER_HANDOFF_EXT * data.len(),
            Self::records(data).subrange(
                BYTES_PER_HANDOFF_EXT * i,
                BYTES_PER_HANDOFF_EXT * (i + 1),
            ) == data[i].record(),
        decreases data.len(),
    {
        Self::lemma_records_len(data);
        Self::lemma_records_len(data.drop_last());
        if i == data.len() - 1 {
            assert(Self::records(data).subrange(
                BYTES_PER_HANDOFF_EXT * i,
                BYTES_PER_HANDOFF_EXT * (i + 1),
            ) =~= data[i].record());
        } else {
            Self::lemma_record_at(data.drop_last(), i);
            assert(Self::records(data).subrange(
                BYTES_PER_HANDOFF_EXT * i,
                BYTES_PER_HANDOFF_EXT * (i + 1),
            ) =~= Self::records(data.drop_last()).subrange(
                BYTES_PER_HANDOFF_EXT * i,
                BYTES_PER_HANDOFF_EXT * (i + 1),
            ));
        }
    }

    /// Reading a record back gives the hand-off that wrote it.
    pub proof fn lemma_record_round_trip(handoff: ThreadHandoffExt)
        ensures
            handoff.record().len() == BYTES_PER_HANDOFF_EXT,
            Self::from_record(handoff.record()) == handoff,
    {
        let r = handoff.record();
        let back = Self::from_record(r);
        assert(r.subrange(0, 2) =~= u16_le(handoff.start_scan));
        assert(r.subrange(2, 4) =~= u16_le(handoff.end_scan));
        assert(r.subrange(4, 6) =~= u16_le(handoff.mcu_y_start));
        assert(r.subrange(6, 10) =~= u32_le(handoff.segment_size));
        assert(r.subrange(12, 14) =~= u16_le(handoff.last_dc[0]));
        assert(r.subrange(14, 16) =~= u16_le(handoff.last_dc[1]));
        assert(r.subrange(16, 18) =~= u16_le(handoff.last_dc[2]));
        assert(r.subrange(18, 20) =~= u16_le(handoff.last_dc[3]));
        assert(back.last_dc@ =~= handoff.last_dc@);
        assert(back.last_dc == handoff.last_dc);
    }

    /// A list of at most 255 hand-offs that is serialized and read back comes
    /// out as it went in, and the serialized form of any list takes one byte
    /// and 20 more for each hand-off. (The count byte cannot tell a longer
    /// list from a shorter one.)
    pub proof fn law_round_trip(data: Seq<ThreadHandoffExt>)
        ensures
            Self::serialized(data).len() == 1 + BYTES_PER_HANDOFF_EXT * data.len(),
            data.len() <= 255 ==> Self::deserialized(Self::serialized(data)) == Some(data),
    {
        Self::lemma_records_len(data);
        if data.len() <= 255 {
            let bytes = Self::serialized(data);
            assert(bytes[0] == data.len());
            let back = Self::deserialized(bytes);
            assert(back is Some);
            assert forall|i: int| 0 <= i < data.len() implies back->0[i] == data[i] by {
                Self::lemma_record_at(data, i);
                Self::lemma_record_round_trip(data[i]);
                assert(bytes.subrange(
                    1 + BYTES_PER_HANDOFF_EXT * i,
                    1 + BYTES_PER_HANDOFF_EXT * (i + 1),
                ) =~= Self::records(data).subrange(
                    BYTES_PER_HANDOFF_EXT * i,
                    BYTES_PER_HANDOFF_EXT * (i + 1),
                ));
            }
            assert(back->0 =~= data);
        }
    }

    /// The wire format of `data`.
    pub fn serialize(data: Vec<ThreadHandoffExt>) -> (bytes: Vec<u8>)
        ensures
            bytes@ == Self::serialized(data@),
            bytes@.len() == 1 + BYTES_PER_HANDOFF_EXT * data@.len(),
    {
        let mut result: Vec<u8> = Vec::new();
        result.push((data.len() % 256) as u8);
        let mut i: usize = 0;
        while i < data.len()
            invariant
                i <= data@.len(),
                result@ == seq![count_byte(data@.len())] + Self::records(data@.take(i as int)),
            decreases data@.len() - i,
        {
            let ghost before = result@;
            let handoff = &data[i];
            push_u16_le(&mut result, handoff.start_scan);
            push_u16_le(&mut result, handoff.end_scan);
            push_u16_le(&mut result, handoff.mcu_y_start);
            push_u32_le(&mut result, handoff.segment_size);
            result.push(handoff.overhang_byte);
            result.push(handoff.n_overhang_bit);
            push_last_dc_le(&mut result, &handoff.last_dc);
            proof {
                assert(data@.take(i + 1).drop_last() =~= data@.take(i as int));
                assert(data@.take(i + 1).last() == data@[i as int]);
                assert(result@ =~= before + data@[i as int].record());
                assert(result@ =~= seq![count_byte(data@.len())] + Self::records(
                    data@.take(i + 1),
                ));
            }
            i += 1;
        }
        proof {
            assert(data@.take(data@.len() as int) =~= data@);
            Self::lemma_records_len(data@);
        }
        result
    }

    /// Reads a serialized list back. It answers `None` unless `bytes` are a
    /// count byte followed by exactly that many records.
    pub fn deserialize(bytes: &[u8]) -> (data: Option<Vec<ThreadHandoffExt>>)
        ensures
            match data {
                Some(list) => Self::deserialized(bytes@) == Some(list@),
                None => Self::deserialized(bytes@) is None,
            },
    {
        if bytes.len() < 1 {
            return None;
        }
        let count = bytes[0] as usize;
        if bytes.len() - 1 != BYTES_PER_HANDOFF_EXT * count {
            return None;
        }
        let mut list: Vec<ThreadHandoffExt> = Vec::new();
        let mut i: usize = 0;
        while i < count
            invariant
                i <= count,
                count == bytes@[0],
                bytes@.len() == 1 + BYTES_PER_HANDOFF_EXT * count,
                Self::deserialized(bytes@) is Some,
                list@ =~= Self::deserialized(bytes@)->0.take(i as int),
            decreases count - i,
        {
            let at = 1 + BYTES_PER_HANDOFF_EXT * i;
            let ghost record = bytes@.subrange(at as int, at + BYTES_PER_HANDOFF_EXT);
            let handoff = ThreadHandoffExt {
                start_scan: read_u16_le(bytes, at),
                end_scan: read_u16_le(bytes, at + 2),
                mcu_y_start: read_u16_le(bytes, at + 4),
                segment_size: read_u32_le(bytes, at + 6),
                overhang_byte: bytes[at + 10],
                n_overhang_bit: bytes[at + 11],
                last_dc: [
                    read_u16_le(bytes, at + 12),
                    read_u16_le(bytes, at + 14),
                    read_u16_le(bytes, at + 16),
                    read_u16_le(bytes, at + 18),
                ],
            };
            proof {
                assert(record.subrange(0, 2) =~= bytes@.subrange(at as int, at + 2));
                assert(record.subrange(2, 4) =~= bytes@.subrange(at + 2, at + 4));
                assert(record.subrange(4, 6) =~= bytes@.subrange(at + 4, at + 6));
                assert(record.subrange(6, 10) =~= bytes@.subrange(at + 6, at + 10));
                assert(record.subrange(12, 14) =~= bytes@.subrange(at + 12, at + 14));
                assert(record.subrange(14, 16) =~= bytes@.subrange(at + 14, at + 16));
                assert(record.subrange(16, 18) =~= bytes@.subrange(at + 16, at + 18));
                assert(record.subrange(18, 20) =~= bytes@.subrange(at + 18, at + 20));
                let expected = Self::from_record(record);
                assert(handoff.last_dc@ =~= expected.last_dc@);
                assert(handoff == expected);
            }
            list.push(handoff);
            i += 1;
        }
        proof {
            let all = Self::deserialized(bytes@)->0;
            assert(all.take(count as int) =~= all);
        }
        Some(list)
    }
}

} // verus!
