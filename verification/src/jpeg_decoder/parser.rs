//! Parsers of the marker segments. A segment is its two-byte length and its
//! payload; each parser here works on the payload.
use crate::iostream::ByteOrder;
use crate::iostream::InputStream;
use crate::jpeg_decoder::error::JpegError;
use crate::jpeg_decoder::error::JpegResult;
use crate::jpeg_decoder::huffman::code_count;
use crate::jpeg_decoder::huffman::codes_fit;
use crate::jpeg_decoder::huffman::first_index;
use crate::jpeg_decoder::huffman::tables_wf;
use crate::jpeg_decoder::huffman::taken;
use crate::jpeg_decoder::huffman::HuffmanTable;
use crate::jpeg_decoder::huffman::HuffmanTableClass;
use crate::jpeg_decoder::jpeg::ceil_div;
use crate::jpeg_decoder::jpeg::CodingProcess;
use crate::jpeg_decoder::jpeg::Component;
use crate::jpeg_decoder::jpeg::Dimensions;
use crate::jpeg_decoder::jpeg::EntropyCoding;
use crate::jpeg_decoder::jpeg::FrameInfo;
use crate::jpeg_decoder::jpeg::ScanInfo;
use crate::jpeg_decoder::marker::Marker;
use vstd::prelude::*;

verus! {

/// The number that the two bytes at `at` spell, high byte first.
pub open spec fn be16(bytes: Seq<u8>, at: int) -> int {
    bytes[at] * 256 + bytes[at + 1]
}

fn read_be16(bytes: &[u8], at: usize) -> (value: u16)
    requires
        at + 2 <= bytes@.len(),
    ensures
        value == be16(bytes@, at as int),
{
    bytes[at] as u16 * 256 + bytes[at + 1] as u16
}

/// The payload of the segment that `raw` holds, if `raw` is a segment: the
/// two bytes of its length, which counts them too, and the payload.
pub open spec fn segment_payload(raw: Seq<u8>) -> Option<Seq<u8>> {
    if raw.len() >= 2 && raw.len() == be16(raw, 0) {
        Some(raw.skip(2))
    } else {
        None
    }
}

/// Whether the reader holds nothing that a parser could still use: fewer
/// than two bytes, or less of a segment than the length asks for that it
/// took last.
pub open spec fn ran_out(input: &InputStream) -> bool {
    let pending = input.pending();
    let consumed = input.consumed();
    ||| pending.len() < 2
    ||| (consumed.len() >= 2 && pending.len() + 2 < be16(consumed, consumed.len() - 2))
}

/// Whether `r`, if it is the end of the stream, has its cause: the reader
/// `input` has run out.
pub open spec fn ends_where_run_out<T>(r: JpegResult<T>, input: &InputStream) -> bool {
    r matches Err(e) ==> (e is EOF ==> ran_out(input))
}

/// Whether the bytes `pending` open with a whole segment.
pub open spec fn segment_at_hand(pending: Seq<u8>) -> bool {
    pending.len() >= 2 && 2 <= be16(pending, 0) <= pending.len()
}

/// The segment at the head of `raw`: as many bytes as the first two count,
/// themselves included; all of `raw` if it holds no whole segment.
pub open spec fn first_segment(raw: Seq<u8>) -> Seq<u8> {
    if segment_at_hand(raw) {
        raw.take(be16(raw, 0))
    } else {
        raw
    }
}

/// A segment is the first segment of whatever it is the head of.
pub proof fn lemma_first_segment(head: Seq<u8>, raw: Seq<u8>)
    requires
        head.is_prefix_of(raw),
        segment_payload(head) is Some,
    ensures
        first_segment(raw) == head,
{
    assert(raw[0] == head[0]);
    assert(raw[1] == head[1]);
    assert(raw.take(head.len() as int) =~= head);
}

/// Whether the reader `post` is the reader `pre` with the segment that it
/// had at hand taken: no other byte has left the stream.
pub open spec fn served_whole(pre: &InputStream, post: &InputStream) -> bool {
    &&& taken(pre, post) == first_segment(pre.pending())
    &&& post.pending() == pre.pending().skip(first_segment(pre.pending()).len() as int)
}

/// The payload of the segment that the reader has at hand.
pub open spec fn payload_at_hand(input: &InputStream) -> Seq<u8> {
    first_segment(input.pending()).skip(2)
}

/// Whether `e` is an error of taking a segment off the stream: the stream
/// ended within the segment, or the length of the segment does not count
/// its own two bytes.
pub open spec fn is_segment_error(e: JpegError, raw: Seq<u8>) -> bool {
    ||| e is EOF
    ||| {
        &&& e.is_malformatted("encountered segment with invalid length"@)
        &&& raw.len() == 2
        &&& be16(raw, 0) < 2
    }
}

/// Whether `e` is the error that a parser owes for the segment `raw` whose
/// payload has the fault `fault`: an error of taking the segment off the
/// stream, or the fault of the payload by its text.
pub open spec fn is_parse_error(e: JpegError, raw: Seq<u8>, fault: Option<Seq<char>>) -> bool {
    ||| is_segment_error(e, raw)
    ||| {
        &&& segment_payload(raw) is Some
        &&& fault matches Some(text) && e.is_malformatted(text)
    }
}

/// Takes one segment off the stream, retains its bytes and gives its
/// payload. The length must count at least its own two bytes.
pub fn read_segment(input: &mut InputStream) -> (r: JpegResult<Vec<u8>>)
    requires
        old(input).wf(),
    ensures
        final(input).wf(),
        old(input).consumed().is_prefix_of(final(input).consumed()),
        final(input).counted_from() == old(input).counted_from(),
        final(input).retained() == old(input).retained() + taken(old(input), final(input)),
        segment_at_hand(old(input).pending()) ==> r is Ok && served_whole(old(input), final(input)),
        ends_where_run_out(r, final(input)),
        match r {
            Ok(payload) => segment_payload(taken(old(input), final(input))) == Some(payload@),
            Err(e) => is_segment_error(e, taken(old(input), final(input))),
        },
{
    proof {
        assert(taken(old(input), input) =~= Seq::<u8>::empty());
        assert(old(input).retained() + Seq::<u8>::empty() =~= old(input).retained());
    }
    let length = match input.read_u16(ByteOrder::BigEndian, true) {
        Ok(length) => length,
        Err(e) => {
            proof {
                assert(taken(old(input), input) =~= Seq::<u8>::empty());
            }
            return Err(JpegError::from_input(e));
        },
    };
    let ghost head = taken(old(input), input);
    proof {
        let data = choose|data: Seq<u8>|
            #![auto]
            data.len() == 2 && length == crate::iostream::number_from_bytes(
                ByteOrder::BigEndian,
                data,
            ) && input.follows_read(old(input), data, true);
        assert(head =~= data);
        reveal_with_fuel(crate::iostream::number_from_bytes, 3);
        assert(data.drop_last().drop_last().len() == 0);
        assert(data.drop_last().last() == data[0]);
        assert(length == be16(head, 0));
        if old(input).pending().len() >= 2 {
            assert(head =~= old(input).pending().take(2));
        }
    }
    let ghost mid_pending = input.pending();
    if length < 2 {
        return Err(JpegError::malformatted("encountered segment with invalid length"));
    }
    let len = (length - 2) as usize;
    let mut payload: Vec<u8> = Vec::new();
    payload.resize(len, 0u8);
    match input.read(payload.as_mut_slice(), true, true) {
        Ok(_) => {
            proof {
                let body = payload@.take(len as int);
                assert(body =~= payload@);
                let raw = taken(old(input), input);
                assert(raw =~= head + payload@);
                assert(raw.skip(2) =~= payload@);
                assert(input.retained() =~= old(input).retained() + raw);
                if segment_at_hand(old(input).pending()) {
                    let pending = old(input).pending();
                    assert(mid_pending == pending.skip(2));
                    assert(raw =~= pending.take(length as int));
                    assert(input.pending() =~= pending.skip(length as int));
                }
            }
            Ok(payload)
        },
        Err(e) => {
            proof {
                assert(taken(old(input), input) =~= head);
            }
            Err(JpegError::from_input(e))
        },
    }
}

/// Restart interval: a payload of two bytes, the number of MCUs between
/// restart markers.
pub open spec fn dri_of(payload: Seq<u8>) -> Option<int> {
    if payload.len() == 2 {
        Some(be16(payload, 0))
    } else {
        None
    }
}

/// Parses the payload of a DRI segment.
pub fn dri_from_bytes(payload: &[u8]) -> (r: JpegResult<u16>)
    ensures
        match r {
            Ok(interval) => dri_of(payload@) == Some(interval as int),
            Err(e) => dri_of(payload@) is None && e.is_malformatted("DRI with invalid length"@),
        },
{
    if payload.len() != 2 {
        return Err(JpegError::malformatted("DRI with invalid length"));
    }
    Ok(read_be16(payload, 0))
}

/// What an application segment says of the file.
#[derive(Debug, Clone, Copy, PartialEq, Eq, Structural)]
pub enum AppData {
    /// Nothing that the decoder heeds.
    Other,
    /// APP0 that opens with `JFIF\0`.
    Jfif,
    /// APP0 that opens with `AVI1`: the file is a frame of Motion JPEG.
    Avi1,
    /// APP14 that opens with `Adobe\0`, with its colour transform byte.
    Adobe(u8),
}

/// Whether `bytes` opens with `tag`.
pub open spec fn opens_with(bytes: Seq<u8>, tag: Seq<u8>) -> bool {
    tag.is_prefix_of(bytes)
}

/// `JFIF` and a zero byte.
pub open spec fn tag_jfif() -> Seq<u8> {
    seq![0x4Au8, 0x46u8, 0x49u8, 0x46u8, 0x00u8]
}

/// `AVI1`.
pub open spec fn tag_avi1() -> Seq<u8> {
    seq![0x41u8, 0x56u8, 0x49u8, 0x31u8]
}

/// `Adobe` and a zero byte.
pub open spec fn tag_adobe() -> Seq<u8> {
    seq![0x41u8, 0x64u8, 0x6Fu8, 0x62u8, 0x65u8, 0x00u8]
}

/// What the payload of the application segment `n` says; `None` for an Adobe
/// segment with a colour transform other than 0, 1 or 2.
pub open spec fn app_of(payload: Seq<u8>, n: u8) -> Option<AppData> {
    if n == 0 && payload.len() >= 5 {
        if opens_with(payload, tag_jfif()) {
            Some(AppData::Jfif)
        } else if opens_with(payload, tag_avi1()) {
            Some(AppData::Avi1)
        } else {
            Some(AppData::Other)
        }
    } else if n == 14 && payload.len() >= 12 && opens_with(payload, tag_adobe()) {
        if payload[11] <= 2 {
            Some(AppData::Adobe(payload[11]))
        } else {
            None
        }
    } else {
        Some(AppData::Other)
    }
}

/// Parses the payload of the application segment APPn.
pub fn app_from_bytes(payload: &[u8], n: u8) -> (r: JpegResult<AppData>)
    ensures
        match r {
            Ok(data) => app_of(payload@, n) == Some(data),
            Err(e) => app_of(payload@, n) is None && e.is_malformatted(
                "invalid color transform in adobe app segment"@,
            ),
        },
{
    if n == 0 && payload.len() >= 5 {
        if payload[0] == 0x4A && payload[1] == 0x46 && payload[2] == 0x49 && payload[3] == 0x46
            && payload[4] == 0x00 {
            assert(tag_jfif() =~= payload@.subrange(0, 5));
            return Ok(AppData::Jfif);
        }
        assert(!opens_with(payload@, tag_jfif())) by {
            if opens_with(payload@, tag_jfif()) {
                assert(tag_jfif()[0] == payload@[0]);
                assert(tag_jfif()[1] == payload@[1]);
                assert(tag_jfif()[2] == payload@[2]);
                assert(tag_jfif()[3] == payload@[3]);
                assert(tag_jfif()[4] == payload@[4]);
            }
        }
        if payload[0] == 0x41 && payload[1] == 0x56 && payload[2] == 0x49 && payload[3] == 0x31 {
            assert(tag_avi1() =~= payload@.subrange(0, 4));
            return Ok(AppData::Avi1);
        }
        assert(!opens_with(payload@, tag_avi1())) by {
            if opens_with(payload@, tag_avi1()) {
                assert(tag_avi1()[0] == payload@[0]);
                assert(tag_avi1()[1] == payload@[1]);
                assert(tag_avi1()[2] == payload@[2]);
                assert(tag_avi1()[3] == payload@[3]);
            }
        }
        return Ok(AppData::Other);
    }
    if n == 14 && payload.len() >= 12 {
        if payload[0] == 0x41 && payload[1] == 0x64 && payload[2] == 0x6F && payload[3] == 0x62
            && payload[4] == 0x65 && payload[5] == 0x00 {
            assert(tag_adobe() =~= payload@.subrange(0, 6));
            if payload[11] <= 2 {
                return Ok(AppData::Adobe(payload[11]));
            }
            return Err(JpegError::malformatted("invalid color transform in adobe app segment"));
        }
        assert(!opens_with(payload@, tag_adobe())) by {
            if opens_with(payload@, tag_adobe()) {
                assert(tag_adobe()[0] == payload@[0]);
                assert(tag_adobe()[1] == payload@[1]);
                assert(tag_adobe()[2] == payload@[2]);
                assert(tag_adobe()[3] == payload@[3]);
                assert(tag_adobe()[4] == payload@[4]);
                assert(tag_adobe()[5] == payload@[5]);
            }
        }
    }
    Ok(AppData::Other)
}

/// The coding process of the frames that SOFn opens.
pub open spec fn sof_process(n: u8) -> CodingProcess {
    if n == 0 {
        CodingProcess::Baseline
    } else if n % 4 == 1 {
        CodingProcess::SequentialExtended
    } else if n % 4 == 2 {
        CodingProcess::Progressive
    } else {
        CodingProcess::Lossless
    }
}

/// The identifier of component `i` of a frame header.
pub open spec fn sof_id(payload: Seq<u8>, i: int) -> u8 {
    payload[6 + 3 * i]
}

/// The horizontal sampling factor of component `i` of a frame header.
pub open spec fn sof_h(payload: Seq<u8>, i: int) -> u8 {
    payload[7 + 3 * i] / 16
}

/// The vertical sampling factor of component `i` of a frame header.
pub open spec fn sof_v(payload: Seq<u8>, i: int) -> u8 {
    payload[7 + 3 * i] % 16
}

/// The quantization table of component `i` of a frame header.
pub open spec fn sof_tq(payload: Seq<u8>, i: int) -> u8 {
    payload[8 + 3 * i]
}

/// The fault of component `i` of a frame header, if it has one: an
/// identifier that an earlier component has, a sampling factor outside
/// `1..=4`, or a quantization table outside `0..=3`.
pub open spec fn sof_component_error(payload: Seq<u8>, i: int) -> Option<Seq<char>> {
    let h = sof_h(payload, i);
    let v = sof_v(payload, i);
    if exists|j: int| 0 <= j < i && #[trigger] sof_id(payload, j) == sof_id(payload, i) {
        Some("duplicate frame component identifier"@)
    } else if h == 0 || h > 4 {
        Some("invalid horizontal sampling factor"@)
    } else if v == 0 || v > 4 {
        Some("invalid vertical sampling factor"@)
    } else if sof_tq(payload, i) > 3 {
        Some("invalid quantization table index"@)
    } else {
        None
    }
}

/// The fault of the first faulty component from `from` on.
pub open spec fn sof_components_error(payload: Seq<u8>, count: int, from: int) -> Option<Seq<char>>
    decreases count - from,
{
    if from >= count {
        None
    } else {
        match sof_component_error(payload, from) {
            Some(text) => Some(text),
            None => sof_components_error(payload, count, from + 1),
        }
    }
}

/// The fault of a frame header, if it has one. The payload is the precision,
/// the height and the width, the number of components, and three bytes for
/// each component.
pub open spec fn sof_error(payload: Seq<u8>, n: u8) -> Option<Seq<char>> {
    if payload.len() <= 6 {
        Some("invalid length in SOF"@)
    } else if be16(payload, 3) == 0 {
        Some("zero width in frame header"@)
    } else if payload[5] == 0 {
        Some("zero component count in frame header"@)
    } else if n % 4 == 2 && payload[5] > 4 {
        Some("progressive frame with more than 4 components"@)
    } else if payload.len() != 6 + 3 * payload[5] {
        Some("invalid length in SOF"@)
    } else {
        sof_components_error(payload, payload[5] as int, 0)
    }
}

/// The largest horizontal sampling factor among the first `count`
/// components of a frame header.
pub open spec fn sof_max_h(payload: Seq<u8>, count: int) -> int
    decreases count,
{
    if count <= 0 {
        0
    } else {
        let rest = sof_max_h(payload, count - 1);
        let h = sof_h(payload, count - 1) as int;
        if h > rest {
            h
        } else {
            rest
        }
    }
}

/// The largest vertical sampling factor among the first `count` components
/// of a frame header.
pub open spec fn sof_max_v(payload: Seq<u8>, count: int) -> int
    decreases count,
{
    if count <= 0 {
        0
    } else {
        let rest = sof_max_v(payload, count - 1);
        let v = sof_v(payload, count - 1) as int;
        if v > rest {
            v
        } else {
            rest
        }
    }
}

/// Whether `c` is component `i` of the frame that the payload describes.
pub open spec fn is_component_of(c: Component, payload: Seq<u8>, i: int) -> bool {
    let count = payload[5] as int;
    let width = be16(payload, 3);
    let height = be16(payload, 1);
    &&& c.identifier == sof_id(payload, i)
    &&& c.horizontal_sampling_factor == sof_h(payload, i)
    &&& c.vertical_sampling_factor == sof_v(payload, i)
    &&& c.quantization_table_index == sof_tq(payload, i)
    &&& c.size.width == ceil_div(
        width * c.horizontal_sampling_factor,
        sof_max_h(payload, count),
    )
    &&& c.size.height == ceil_div(
        height * c.vertical_sampling_factor,
        sof_max_v(payload, count),
    )
}

/// Whether `frame` is the frame that the payload of SOFn describes.
pub open spec fn is_frame_of(frame: &FrameInfo, payload: Seq<u8>, n: u8) -> bool {
    &&& frame.wf()
    &&& frame.is_differential == (n % 8 >= 4)
    &&& frame.coding_process == sof_process(n)
    &&& frame.entropy_coding == if n < 8 {
        EntropyCoding::Huffman
    } else {
        EntropyCoding::Arithmetic
    }
    &&& frame.precision == payload[0]
    &&& frame.size.height == be16(payload, 1)
    &&& frame.size.width == be16(payload, 3)
    &&& frame.components@.len() == payload[5]
    &&& forall|i: int|
        0 <= i < payload[5] ==> is_component_of(#[trigger] frame.components@[i], payload, i)
}

proof fn lemma_sof_max_bounds(payload: Seq<u8>, count: int)
    requires
        0 <= count,
        forall|i: int|
            0 <= i < count ==> 1 <= #[trigger] sof_h(payload, i) <= 4 && 1 <= sof_v(payload, i)
                <= 4,
    ensures
        count > 0 ==> 1 <= sof_max_h(payload, count) <= 4 && 1 <= sof_max_v(payload, count) <= 4,
        forall|i: int|
            0 <= i < count ==> #[trigger] sof_h(payload, i) <= sof_max_h(payload, count) && sof_v(
                payload,
                i,
            ) <= sof_max_v(payload, count),
    decreases count,
{
    if count > 0 {
        lemma_sof_max_bounds(payload, count - 1);
        assert(1 <= sof_h(payload, count - 1) <= 4);
        assert(1 <= sof_v(payload, count - 1) <= 4);
        assert(sof_max_h(payload, 0) == 0);
        assert(sof_max_v(payload, 0) == 0);
    }
}

fn ceil_div_u32(a: u32, b: u32) -> (q: u32)
    requires
        b > 0,
        a + b <= u32::MAX,
    ensures
        q == ceil_div(a as int, b as int),
{
    (a + b - 1) / b
}

/// Parses the payload of a frame header SOFn.
pub fn sof_from_bytes(payload: &[u8], n: u8) -> (r: JpegResult<FrameInfo>)
    requires
        Marker::SOF(n).wf(),
    ensures
        match r {
            Ok(frame) => sof_error(payload@, n) is None && is_frame_of(&frame, payload@, n),
            Err(e) => sof_error(payload@, n) matches Some(text) && e.is_malformatted(text),
        },
{
    if payload.len() <= 6 {
        return Err(JpegError::malformatted("invalid length in SOF"));
    }
    let precision = payload[0];
    let height = read_be16(payload, 1);
    let width = read_be16(payload, 3);
    let count = payload[5] as usize;
    if width == 0 {
        return Err(JpegError::malformatted("zero width in frame header"));
    }
    if count == 0 {
        return Err(JpegError::malformatted("zero component count in frame header"));
    }
    if n % 4 == 2 && count > 4 {
        return Err(JpegError::malformatted("progressive frame with more than 4 components"));
    }
    if payload.len() != 6 + 3 * count {
        return Err(JpegError::malformatted("invalid length in SOF"));
    }
    // The factors of all components must be known before the size of any.
    let mut h_max: u8 = 0;
    let mut v_max: u8 = 0;
    let mut i: usize = 0;
    while i < count
        invariant
            i <= count,
            count == payload@[5],
            payload@.len() == 6 + 3 * count,
            h_max == sof_max_h(payload@, i as int),
            v_max == sof_max_v(payload@, i as int),
            sof_error(payload@, n) == sof_components_error(payload@, count as int, 0),
            sof_components_error(payload@, count as int, 0) == sof_components_error(
                payload@,
                count as int,
                i as int,
            ),
            forall|k: int|
                0 <= k < i ==> 1 <= #[trigger] sof_h(payload@, k) <= 4 && 1 <= sof_v(payload@, k)
                    <= 4 && sof_tq(payload@, k) <= 3,
        decreases count - i,
    {
        let identifier = payload[6 + 3 * i];
        let h = payload[7 + 3 * i] / 16;
        let v = payload[7 + 3 * i] % 16;
        let mut j: usize = 0;
        while j < i
            invariant
                j <= i,
                i < count,
                count <= 255,
                payload@.len() == 6 + 3 * count,
                identifier == sof_id(payload@, i as int),
                sof_error(payload@, n) == sof_components_error(payload@, count as int, i as int),
                forall|k: int| 0 <= k < j ==> #[trigger] sof_id(payload@, k) != identifier,
            decreases i - j,
        {
            if payload[6 + 3 * j] == identifier {
                assert(sof_id(payload@, j as int) == sof_id(payload@, i as int));
                assert(sof_component_error(payload@, i as int) == Some(
                    "duplicate frame component identifier"@,
                ));
                return Err(JpegError::malformatted("duplicate frame component identifier"));
            }
            j += 1;
        }
        if h == 0 || h > 4 {
            return Err(JpegError::malformatted("invalid horizontal sampling factor"));
        }
        if v == 0 || v > 4 {
            return Err(JpegError::malformatted("invalid vertical sampling factor"));
        }
        if payload[8 + 3 * i] > 3 {
            return Err(JpegError::malformatted("invalid quantization table index"));
        }
        if h > h_max {
            h_max = h;
        }
        if v > v_max {
            v_max = v;
        }
        i += 1;
    }
    proof {
        lemma_sof_max_bounds(payload@, count as int);
    }
    let mcu_width = ceil_div_u32(width as u32, 8 * h_max as u32);
    let mcu_height = ceil_div_u32(height as u32, 8 * v_max as u32);
    assert(mcu_width <= 8192 && mcu_height <= 8192) by (nonlinear_arith)
        requires
            mcu_width == (width + 8 * h_max - 1) / (8 * h_max as int),
            mcu_height == (height + 8 * v_max - 1) / (8 * v_max as int),
            width <= 65535,
            height <= 65535,
            1 <= h_max <= 4,
            1 <= v_max <= 4,
    ;
    let mut components: Vec<Component> = Vec::new();
    let mut i: usize = 0;
    while i < count
        invariant
            i <= count,
            count == payload@[5],
            payload@.len() == 6 + 3 * count,
            1 <= h_max <= 4,
            1 <= v_max <= 4,
            mcu_width <= 8192,
            mcu_height <= 8192,
            width == be16(payload@, 3),
            height == be16(payload@, 1),
            h_max == sof_max_h(payload@, count as int),
            v_max == sof_max_v(payload@, count as int),
            forall|k: int|
                0 <= k < count ==> 1 <= #[trigger] sof_h(payload@, k) <= h_max && 1 <= sof_v(
                    payload@,
                    k,
                ) <= v_max && sof_tq(payload@, k) <= 3,
            components@.len() == i,
            FrameInfo::max_h(components@) == sof_max_h(payload@, i as int),
            FrameInfo::max_v(components@) == sof_max_v(payload@, i as int),
            forall|k: int|
                0 <= k < i ==> {
                    let c = #[trigger] components@[k];
                    &&& is_component_of(c, payload@, k)
                    &&& c.wf()
                    &&& c.size_in_block.width == mcu_width * c.horizontal_sampling_factor
                    &&& c.size_in_block.height == mcu_height * c.vertical_sampling_factor
                },
        decreases count - i,
    {
        let h = payload[7 + 3 * i] / 16;
        let v = payload[7 + 3 * i] % 16;
        assert(1 <= sof_h(payload@, i as int) <= h_max);
        assert(width as int * h as int + h_max as int <= 65535 * 4 + 4) by (nonlinear_arith)
            requires
                width <= 65535,
                1 <= h <= 4,
                h_max <= 4,
        ;
        assert(height as int * v as int + v_max as int <= 65535 * 4 + 4) by (nonlinear_arith)
            requires
                height <= 65535,
                1 <= v <= 4,
                v_max <= 4,
        ;
        let size_width = ceil_div_u32(width as u32 * h as u32, h_max as u32);
        let size_height = ceil_div_u32(height as u32 * v as u32, v_max as u32);
        assert(size_width <= 65535) by (nonlinear_arith)
            requires
                size_width == (width * h + h_max - 1) / (h_max as int),
                width <= 65535,
                1 <= h <= h_max,
        ;
        assert(size_height <= 65535) by (nonlinear_arith)
            requires
                size_height == (height * v + v_max - 1) / (v_max as int),
                height <= 65535,
                1 <= v <= v_max,
        ;
        assert(mcu_width * h <= 32768 && mcu_height * v <= 32768) by (nonlinear_arith)
            requires
                mcu_width <= 8192,
                mcu_height <= 8192,
                h <= 4,
                v <= 4,
        ;
        let component = Component {
            identifier: payload[6 + 3 * i],
            horizontal_sampling_factor: h,
            vertical_sampling_factor: v,
            quantization_table_index: payload[8 + 3 * i] as usize,
            size: Dimensions { width: size_width as u16, height: size_height as u16 },
            size_in_block: Dimensions {
                width: (mcu_width * h as u32) as u16,
                height: (mcu_height * v as u32) as u16,
            },
        };
        let ghost before = components@;
        components.push(component);
        proof {
            assert(components@.drop_last() =~= before);
            assert(components@.last() == component);
        }
        i += 1;
    }
    let frame = FrameInfo {
        is_differential: n % 8 >= 4,
        coding_process: if n == 0 {
            CodingProcess::Baseline
        } else if n % 4 == 1 {
            CodingProcess::SequentialExtended
        } else if n % 4 == 2 {
            CodingProcess::Progressive
        } else {
            CodingProcess::Lossless
        },
        entropy_coding: if n < 8 {
            EntropyCoding::Huffman
        } else {
            EntropyCoding::Arithmetic
        },
        precision,
        size: Dimensions { width, height },
        size_in_mcu: Dimensions { width: mcu_width as u16, height: mcu_height as u16 },
        components,
    };
    Ok(frame)
}

/// The identifier of component `k` of a scan header.
pub open spec fn sos_id(payload: Seq<u8>, k: int) -> u8 {
    payload[1 + 2 * k]
}

/// The DC table of component `k` of a scan header.
pub open spec fn sos_td(payload: Seq<u8>, k: int) -> u8 {
    payload[2 + 2 * k] / 16
}

/// The AC table of component `k` of a scan header.
pub open spec fn sos_ta(payload: Seq<u8>, k: int) -> u8 {
    payload[2 + 2 * k] % 16
}

/// The place of the first component from `from` on with the identifier
/// `id`, or the number of components if there is none.
pub open spec fn component_index(components: Seq<Component>, id: u8, from: int) -> int
    decreases components.len() - from,
{
    if from >= components.len() {
        components.len() as int
    } else if components[from].identifier == id {
        from
    } else {
        component_index(components, id, from + 1)
    }
}

/// The place in the frame of component `k` of a scan header.
pub open spec fn sos_index(payload: Seq<u8>, components: Seq<Component>, k: int) -> int {
    component_index(components, sos_id(payload, k), 0)
}

/// The fault of component `k` of a scan header, if it has one.
pub open spec fn sos_component_error(
    payload: Seq<u8>,
    components: Seq<Component>,
    baseline: bool,
    k: int,
) -> Option<Seq<char>> {
    let index = sos_index(payload, components, k);
    if index >= components.len() {
        Some(
            "scan component identifier does not match any of the component identifiers defined in the frame"@,
        )
    } else if exists|j: int| 0 <= j < k && #[trigger] sos_id(payload, j) == sos_id(payload, k) {
        Some("duplicate scan component identifier"@)
    } else if k > 0 && index < sos_index(payload, components, k - 1) {
        Some("the scan component order does not follow the order in the frame header"@)
    } else if sos_td(payload, k) > 3 || (baseline && sos_td(payload, k) > 1) {
        Some("invalid dc table index"@)
    } else if sos_ta(payload, k) > 3 || (baseline && sos_ta(payload, k) > 1) {
        Some("invalid ac table index"@)
    } else {
        None
    }
}

/// The fault of the first faulty component from `from` on.
pub open spec fn sos_components_error(
    payload: Seq<u8>,
    components: Seq<Component>,
    baseline: bool,
    count: int,
    from: int,
) -> Option<Seq<char>>
    decreases count - from,
{
    if from >= count {
        None
    } else {
        match sos_component_error(payload, components, baseline, from) {
            Some(text) => Some(text),
            None => sos_components_error(payload, components, baseline, count, from + 1),
        }
    }
}

/// The number of blocks that the first `count` components of a scan header
/// have in one MCU.
pub open spec fn sos_blocks(payload: Seq<u8>, components: Seq<Component>, count: int) -> int
    decreases count,
{
    if count <= 0 {
        0
    } else {
        let c = components[sos_index(payload, components, count - 1)];
        sos_blocks(payload, components, count - 1) + c.horizontal_sampling_factor
            * c.vertical_sampling_factor
    }
}

/// The fault of the band and the bit positions of a scan header, if they
/// have one: `ss..=se` is the band, `ah` and `al` the bit positions.
pub open spec fn sos_band_error(progressive: bool, ss: u8, se: u8, ah: u8, al: u8) -> Option<
    Seq<char>,
> {
    if progressive {
        if se > 63 || ss > se || (ss == 0 && se != 0) {
            Some("invalid spectral selection parameters"@)
        } else if ah > 13 || al > 13 {
            Some("invalid successive approximation parameters"@)
        } else if ah != 0 && ah != al + 1 {
            Some("successive approximation scan with more than one bit of improvement"@)
        } else {
            None
        }
    } else {
        if ss != 0 || se != 63 {
            Some("spectral selection is not allowed in non-progressive scan"@)
        } else if ah != 0 || al != 0 {
            Some("successive approximation is not allowed in non-progressive scan"@)
        } else {
            None
        }
    }
}

/// The fault of a scan header of `frame`, if it has one. The payload is the
/// number of components, two bytes for each, the band and the bit positions.
pub open spec fn sos_error(payload: Seq<u8>, frame: &FrameInfo) -> Option<Seq<char>> {
    let components = frame.components@;
    let baseline = frame.coding_process == CodingProcess::Baseline;
    let progressive = frame.coding_process == CodingProcess::Progressive;
    if payload.len() == 0 {
        Some("zero length in SOS"@)
    } else if payload[0] == 0 || payload[0] > 4 {
        Some("invalid component count in scan header"@)
    } else if payload.len() != 4 + 2 * payload[0] {
        Some("invalid length in SOS"@)
    } else {
        let count = payload[0] as int;
        match sos_components_error(payload, components, baseline, count, 0) {
            Some(text) => Some(text),
            None => if count > 1 && sos_blocks(payload, components, count) > 10 {
                Some("scan with more than one component and more than 10 blocks per MCU"@)
            } else {
                sos_band_error(
                    progressive,
                    payload[1 + 2 * count],
                    payload[2 + 2 * count],
                    payload[3 + 2 * count] / 16,
                    payload[3 + 2 * count] % 16,
                )
            },
        }
    }
}

/// Whether `scan` is the scan that the payload describes for `frame`.
pub open spec fn is_scan_of(scan: &ScanInfo, payload: Seq<u8>, frame: &FrameInfo) -> bool {
    let count = payload[0] as int;
    &&& scan.wf(frame.components@.len())
    &&& scan.component_indices@.len() == count
    &&& forall|k: int|
        0 <= k < count ==> {
            &&& #[trigger] scan.component_indices@[k] == sos_index(payload, frame.components@, k)
            &&& scan.dc_table_indices@[k] == sos_td(payload, k)
            &&& scan.ac_table_indices@[k] == sos_ta(payload, k)
        }
    &&& scan.spectral_selection_start == payload[1 + 2 * count]
    &&& scan.spectral_selection_end == payload[2 + 2 * count]
    &&& scan.successive_approximation_high == payload[3 + 2 * count] / 16
    &&& scan.successive_approximation_low == payload[3 + 2 * count] % 16
}

fn find_component(components: &Vec<Component>, id: u8) -> (index: usize)
    ensures
        index == component_index(components@, id, 0),
        index <= components@.len(),
{
    let mut i: usize = 0;
    while i < components.len()
        invariant
            i <= components@.len(),
            component_index(components@, id, 0) == component_index(components@, id, i as int),
        decreases components@.len() - i,
    {
        if components[i].identifier == id {
            return i;
        }
        i += 1;
    }
    i
}

/// A scan that holds field by field what the payload says is the scan of
/// the payload.
proof fn lemma_is_scan_of(scan: &ScanInfo, payload: Seq<u8>, frame: &FrameInfo)
    requires
        payload.len() > 0,
        1 <= payload[0] <= 4,
        scan.component_indices@.len() == payload[0],
        scan.dc_table_indices@.len() == payload[0],
        scan.ac_table_indices@.len() == payload[0],
        forall|j: int|
            0 <= j < payload[0] ==> {
                &&& #[trigger] scan.component_indices@[j] == sos_index(
                    payload,
                    frame.components@,
                    j,
                )
                &&& scan.component_indices@[j] < frame.components@.len()
                &&& scan.dc_table_indices@[j] == sos_td(payload, j)
                &&& scan.ac_table_indices@[j] == sos_ta(payload, j)
                &&& scan.dc_table_indices@[j] <= 3
                &&& scan.ac_table_indices@[j] <= 3
            },
        scan.spectral_selection_start == payload[1 + 2 * (payload[0] as int)],
        scan.spectral_selection_end == payload[2 + 2 * (payload[0] as int)],
        scan.successive_approximation_high == payload[3 + 2 * (payload[0] as int)] / 16,
        scan.successive_approximation_low == payload[3 + 2 * (payload[0] as int)] % 16,
        scan.spectral_selection_start <= scan.spectral_selection_end <= 63,
        scan.successive_approximation_high <= 13,
        scan.successive_approximation_low <= 13,
    ensures
        is_scan_of(scan, payload, frame),
{
}

/// Parses the payload of a scan header.
#[verifier::spinoff_prover]
pub fn sos_from_bytes(payload: &[u8], frame: &FrameInfo) -> (r: JpegResult<ScanInfo>)
    requires
        frame.wf(),
    ensures
        match r {
            Ok(scan) => sos_error(payload@, frame) is None && is_scan_of(&scan, payload@, frame),
            Err(e) => sos_error(payload@, frame) matches Some(text) && e.is_malformatted(text),
        },
{
    if payload.len() == 0 {
        return Err(JpegError::malformatted("zero length in SOS"));
    }
    let count = payload[0] as usize;
    if count == 0 || count > 4 {
        return Err(JpegError::malformatted("invalid component count in scan header"));
    }
    if payload.len() != 4 + 2 * count {
        return Err(JpegError::malformatted("invalid length in SOS"));
    }
    let baseline = frame.is_baseline();
    let mut component_indices: Vec<usize> = Vec::new();
    let mut dc_table_indices: Vec<usize> = Vec::new();
    let mut ac_table_indices: Vec<usize> = Vec::new();
    let mut blocks: u32 = 0;
    let mut k: usize = 0;
    while k < count
        invariant
            k <= count <= 4,
            frame.wf(),
            payload@.len() == 4 + 2 * count,
            count == payload@[0],
            baseline == (frame.coding_process == CodingProcess::Baseline),
            blocks == sos_blocks(payload@, frame.components@, k as int),
            blocks <= 16 * k,
            sos_components_error(payload@, frame.components@, baseline, count as int, 0)
                == sos_components_error(
                payload@,
                frame.components@,
                baseline,
                count as int,
                k as int,
            ),
            sos_error(payload@, frame) == (match sos_components_error(
                payload@,
                frame.components@,
                baseline,
                count as int,
                0,
            ) {
                Some(text) => Some(text),
                None => if count > 1 && sos_blocks(payload@, frame.components@, count as int)
                    > 10 {
                    Some("scan with more than one component and more than 10 blocks per MCU"@)
                } else {
                    sos_band_error(
                        frame.coding_process == CodingProcess::Progressive,
                        payload@[1 + 2 * count],
                        payload@[2 + 2 * count],
                        payload@[3 + 2 * count] / 16,
                        payload@[3 + 2 * count] % 16,
                    )
                },
            }),
            component_indices@.len() == k,
            dc_table_indices@.len() == k,
            ac_table_indices@.len() == k,
            forall|j: int|
                0 <= j < k ==> {
                    &&& #[trigger] component_indices@[j] == sos_index(
                        payload@,
                        frame.components@,
                        j,
                    )
                    &&& component_indices@[j] < frame.components@.len()
                    &&& dc_table_indices@[j] == sos_td(payload@, j)
                    &&& ac_table_indices@[j] == sos_ta(payload@, j)
                    &&& dc_table_indices@[j] <= 3
                    &&& ac_table_indices@[j] <= 3
                },
        decreases count - k,
    {
        let identifier = payload[1 + 2 * k];
        let td = payload[2 + 2 * k] / 16;
        let ta = payload[2 + 2 * k] % 16;
        let index = find_component(&frame.components, identifier);
        assert(index == sos_index(payload@, frame.components@, k as int));
        if index >= frame.components.len() {
            return Err(
                JpegError::malformatted(
                    "scan component identifier does not match any of the component identifiers defined in the frame",
                ),
            );
        }
        let mut j: usize = 0;
        while j < k
            invariant
                j <= k < count <= 4,
                payload@.len() == 4 + 2 * count,
                identifier == sos_id(payload@, k as int),
                index == sos_index(payload@, frame.components@, k as int),
                index < frame.components@.len(),
                forall|i: int| 0 <= i < j ==> #[trigger] sos_id(payload@, i) != identifier,
                sos_error(payload@, frame) == (match sos_components_error(
                    payload@,
                    frame.components@,
                    baseline,
                    count as int,
                    k as int,
                ) {
                    Some(text) => Some(text),
                    None => if count > 1 && sos_blocks(payload@, frame.components@, count as int)
                        > 10 {
                        Some("scan with more than one component and more than 10 blocks per MCU"@)
                    } else {
                        sos_band_error(
                            frame.coding_process == CodingProcess::Progressive,
                            payload@[1 + 2 * count],
                            payload@[2 + 2 * count],
                            payload@[3 + 2 * count] / 16,
                            payload@[3 + 2 * count] % 16,
                        )
                    },
                }),
            decreases k - j,
        {
            if payload[1 + 2 * j] == identifier {
                assert(sos_id(payload@, j as int) == sos_id(payload@, k as int));
                return Err(JpegError::malformatted("duplicate scan component identifier"));
            }
            j += 1;
        }
        if k > 0 && index < component_indices[k - 1] {
            return Err(
                JpegError::malformatted(
                    "the scan component order does not follow the order in the frame header",
                ),
            );
        }
        if td > 3 || (baseline && td > 1) {
            return Err(JpegError::malformatted("invalid dc table index"));
        }
        if ta > 3 || (baseline && ta > 1) {
            return Err(JpegError::malformatted("invalid ac table index"));
        }
        let component = &frame.components[index];
        assert(component.wf());
        assert(component.horizontal_sampling_factor * component.vertical_sampling_factor <= 16)
            by (nonlinear_arith)
            requires
                component.horizontal_sampling_factor <= 4,
                component.vertical_sampling_factor <= 4,
        ;
        blocks = blocks + component.horizontal_sampling_factor as u32
            * component.vertical_sampling_factor as u32;
        component_indices.push(index);
        dc_table_indices.push(td as usize);
        ac_table_indices.push(ta as usize);
        k += 1;
    }
    if count > 1 && blocks > 10 {
        return Err(
            JpegError::malformatted(
                "scan with more than one component and more than 10 blocks per MCU",
            ),
        );
    }
    let ss = payload[1 + 2 * count];
    let se = payload[2 + 2 * count];
    let ah = payload[3 + 2 * count] / 16;
    let al = payload[3 + 2 * count] % 16;
    if frame.is_progressive() {
        if se > 63 || ss > se || (ss == 0 && se != 0) {
            return Err(JpegError::malformatted("invalid spectral selection parameters"));
        }
        if ah > 13 || al > 13 {
            return Err(JpegError::malformatted("invalid successive approximation parameters"));
        }
        if ah != 0 && ah != al + 1 {
            return Err(
                JpegError::malformatted(
                    "successive approximation scan with more than one bit of improvement",
                ),
            );
        }
    } else {
        if ss != 0 || se != 63 {
            return Err(
                JpegError::malformatted("spectral selection is not allowed in non-progressive scan"),
            );
        }
        if ah != 0 || al != 0 {
            return Err(
                JpegError::malformatted(
                    "successive approximation is not allowed in non-progressive scan",
                ),
            );
        }
    }
    let scan = ScanInfo {
        component_indices,
        dc_table_indices,
        ac_table_indices,
        spectral_selection_start: ss,
        spectral_selection_end: se,
        successive_approximation_high: ah,
        successive_approximation_low: al,
    };
    assert(sos_band_error(frame.coding_process == CodingProcess::Progressive, ss, se, ah, al)
        is None);
    assert(sos_error(payload@, frame) is None);
    proof {
        lemma_is_scan_of(&scan, payload@, frame);
    }
    Ok(scan)
}

/// Value `k` of the quantization table that is defined at `at`: one byte, or
/// with precision 1 two bytes, high byte first.
pub open spec fn dqt_value(payload: Seq<u8>, at: int, precision: int, k: int) -> u16 {
    if precision == 0 {
        payload[at + 1 + k] as u16
    } else {
        be16(payload, at + 1 + 2 * k) as u16
    }
}

/// The 64 values of the quantization table that is defined at `at`, in the
/// order of the file.
pub open spec fn dqt_table(payload: Seq<u8>, at: int) -> Seq<u16> {
    Seq::new(64, |k: int| dqt_value(payload, at, (payload[at] / 16) as int, k))
}

/// The fault of the quantization table that is defined at `at`, if it has
/// one.
pub open spec fn dqt_table_error(payload: Seq<u8>, at: int) -> Option<Seq<char>> {
    let precision = payload[at] / 16;
    if precision > 1 {
        Some("invalid precision in DQT"@)
    } else if payload[at] % 16 > 3 {
        Some("invalid destination identifier in DQT"@)
    } else if payload.len() - at < 65 + 64 * precision {
        Some("invalid length in DQT"@)
    } else if exists|k: int| 0 <= k < 64 && #[trigger] dqt_value(payload, at, precision as int, k)
        == 0 {
        Some("quantization table contains element with a zero value"@)
    } else {
        None
    }
}

/// The fault of the first faulty table from `at` on.
pub open spec fn dqt_error(payload: Seq<u8>, at: int) -> Option<Seq<char>>
    decreases payload.len() - at,
{
    if at < 0 || at >= payload.len() {
        None
    } else {
        match dqt_table_error(payload, at) {
            Some(text) => Some(text),
            None => dqt_error(payload, at + 65 + 64 * (payload[at] / 16)),
        }
    }
}

/// The tables after the definitions from `at` on were installed in them.
pub open spec fn dqt_installed(tables: Seq<Option<Seq<u16>>>, payload: Seq<u8>, at: int) -> Seq<
    Option<Seq<u16>>,
>
    decreases payload.len() - at,
{
    if at < 0 || at >= payload.len() || dqt_table_error(payload, at) is Some {
        tables
    } else {
        let next = at + 65 + 64 * ((payload[at] / 16) as int);
        let index = (payload[at] % 16) as int;
        dqt_installed(tables.update(index, Some(dqt_table(payload, at))), payload, next)
    }
}

/// The four quantization tables as values.
pub open spec fn quantization_view(tables: Seq<Option<Vec<u16>>>) -> Seq<Option<Seq<u16>>> {
    Seq::new(
        tables.len(),
        |i: int|
            match tables[i] {
                Some(table) => Some(table@),
                None => None,
            },
    )
}

/// Parses the payload of a DQT segment and installs its tables. On a fault
/// the tables defined before it are installed.
pub fn dqt_from_bytes(payload: &[u8], tables: &mut Vec<Option<Vec<u16>>>) -> (r: JpegResult<()>)
    requires
        old(tables)@.len() == 4,
    ensures
        final(tables)@.len() == 4,
        match r {
            Ok(_) => dqt_error(payload@, 0) is None && quantization_view(final(tables)@)
                == dqt_installed(quantization_view(old(tables)@), payload@, 0),
            Err(e) => dqt_error(payload@, 0) matches Some(text) && e.is_malformatted(text),
        },
{
    let mut at: usize = 0;
    while at < payload.len()
        invariant
            at <= payload@.len(),
            tables@.len() == 4,
            dqt_error(payload@, 0) == dqt_error(payload@, at as int),
            dqt_installed(quantization_view(old(tables)@), payload@, 0) == dqt_installed(
                quantization_view(tables@),
                payload@,
                at as int,
            ),
        decreases payload@.len() - at,
    {
        let precision = (payload[at] / 16) as usize;
        let index = (payload[at] % 16) as usize;
        if precision > 1 {
            return Err(JpegError::malformatted("invalid precision in DQT"));
        }
        if index > 3 {
            return Err(JpegError::malformatted("invalid destination identifier in DQT"));
        }
        if payload.len() - at < 65 + 64 * precision {
            return Err(JpegError::malformatted("invalid length in DQT"));
        }
        let mut table: Vec<u16> = Vec::new();
        let mut k: usize = 0;
        while k < 64
            invariant
                k <= 64,
                precision <= 1,
                tables@.len() == 4,
                payload@.len() <= usize::MAX,
                at < payload@.len(),
                precision == payload@[at as int] / 16,
                at + 65 + 64 * precision <= payload@.len(),
                table@.len() == k,
                forall|j: int|
                    0 <= j < k ==> #[trigger] table@[j] == dqt_value(
                        payload@,
                        at as int,
                        precision as int,
                        j,
                    ) && table@[j] != 0,
                dqt_error(payload@, 0) == dqt_error(payload@, at as int),
                dqt_table_error(payload@, at as int) is Some ==> dqt_table_error(payload@, at as int)
                    == Some("quantization table contains element with a zero value"@),
            decreases 64 - k,
        {
            let value = if precision == 0 {
                payload[at + 1 + k] as u16
            } else {
                read_be16(payload, at + 1 + 2 * k)
            };
            if value == 0 {
                assert(dqt_value(payload@, at as int, precision as int, k as int) == 0);
                return Err(
                    JpegError::malformatted("quantization table contains element with a zero value"),
                );
            }
            table.push(value);
            k += 1;
        }
        proof {
            assert(table@ =~= dqt_table(payload@, at as int));
            assert forall|j: int| 0 <= j < 64 implies #[trigger] dqt_value(
                payload@,
                at as int,
                precision as int,
                j,
            ) != 0 by {
                assert(table@[j] != 0);
            }
            assert(dqt_table_error(payload@, at as int) is None);
            assert(quantization_view(tables@).update(index as int, Some(table@))
                =~= quantization_view(tables@.update(index as int, Some(table))));
        }
        tables[index] = Some(table);
        at = at + 65 + 64 * precision;
    }
    Ok(())
}

/// The class of the Huffman table that is defined at `at`: 0 for DC, 1 for
/// AC.
pub open spec fn dht_class(payload: Seq<u8>, at: int) -> int {
    (payload[at] / 16) as int
}

/// The slot that the Huffman table defined at `at` goes to.
pub open spec fn dht_index(payload: Seq<u8>, at: int) -> int {
    (payload[at] % 16) as int
}

/// The number of codes of each length of the Huffman table that is defined
/// at `at`.
pub open spec fn dht_counts(payload: Seq<u8>, at: int) -> Seq<u8> {
    payload.subrange(at + 1, at + 17)
}

/// The values of the codes of the Huffman table that is defined at `at`.
pub open spec fn dht_values(payload: Seq<u8>, at: int) -> Seq<u8> {
    payload.subrange(at + 17, at + 17 + code_count(dht_counts(payload, at)))
}

/// The place behind the Huffman table that is defined at `at`.
pub open spec fn dht_next(payload: Seq<u8>, at: int) -> int {
    at + 17 + code_count(dht_counts(payload, at))
}

/// The fault of the Huffman table that is defined at `at`, if it has one.
pub open spec fn dht_table_error(payload: Seq<u8>, at: int, is_baseline: Option<bool>) -> Option<
    Seq<char>,
> {
    let size = code_count(dht_counts(payload, at));
    if payload.len() - at < 17 {
        Some("invalid length in DHT"@)
    } else if dht_class(payload, at) > 1 {
        Some("invalid class in DHT"@)
    } else if is_baseline == Some(true) && dht_index(payload, at) > 1 {
        Some("a maximum of two huffman tables per class are allowed in baseline"@)
    } else if dht_index(payload, at) > 3 {
        Some("invalid destination identifier in DHT"@)
    } else if size == 0 {
        Some("encountered table with zero length in DHT"@)
    } else if size > 256 {
        Some("encountered table with excessive length in DHT"@)
    } else if size > payload.len() - at - 17 {
        Some("invalid length in DHT"@)
    } else if !codes_fit(dht_counts(payload, at)) {
        Some("bad huffman code length"@)
    } else {
        None
    }
}

/// The fault of the first faulty table from `at` on.
pub open spec fn dht_error(payload: Seq<u8>, at: int, is_baseline: Option<bool>) -> Option<
    Seq<char>,
>
    decreases payload.len() - at,
{
    if at < 0 || at >= payload.len() {
        None
    } else {
        match dht_table_error(payload, at, is_baseline) {
            Some(text) => Some(text),
            None => dht_error(payload, dht_next(payload, at), is_baseline),
        }
    }
}

/// The place of the last definition from `at` on that goes to slot `index`
/// of class `class`, if there is one among the tables ahead of the first
/// fault.
pub open spec fn dht_last(
    payload: Seq<u8>,
    at: int,
    is_baseline: Option<bool>,
    class: int,
    index: int,
) -> Option<int>
    decreases payload.len() - at,
{
    if at < 0 || at >= payload.len() || dht_table_error(payload, at, is_baseline) is Some {
        None
    } else {
        match dht_last(payload, dht_next(payload, at), is_baseline, class, index) {
            Some(place) => Some(place),
            None => if dht_class(payload, at) == class && dht_index(payload, at) == index {
                Some(at)
            } else {
                None
            },
        }
    }
}

/// Whether the slot holds what the segment says: the table of the last
/// definition for the slot, at `place`, or what it held before.
pub open spec fn dht_slot_holds(
    slot: Option<HuffmanTable>,
    before: Option<HuffmanTable>,
    payload: Seq<u8>,
    place: Option<int>,
    class: int,
) -> bool {
    match place {
        Some(at) => slot matches Some(table) && {
            &&& table.wf()
            &&& table.counts() == dht_counts(payload, at)
            &&& table.values() == dht_values(payload, at)
            &&& table.is_ac() == (class == 1)
        },
        None => slot == before,
    }
}

/// Where the installing of tables stands at `at`: `places` holds the place
/// of the last definition ahead of `at` for each slot, the slots hold the
/// tables of those definitions, and the definitions from `at` on are still
/// to come.
spec fn dht_progress(
    before: Seq<Option<HuffmanTable>>,
    now: Seq<Option<HuffmanTable>>,
    payload: Seq<u8>,
    is_baseline: Option<bool>,
    class: int,
    at: int,
    places: Seq<Option<int>>,
) -> bool {
    forall|index: int|
        0 <= index < 4 ==> {
            &&& dht_last(payload, 0, is_baseline, class, index) == (match dht_last(
                payload,
                at,
                is_baseline,
                class,
                index,
            ) {
                Some(place) => Some(place),
                None => #[trigger] places[index],
            })
            &&& dht_slot_holds(now[index], before[index], payload, places[index], class)
        }
}

/// Whether the slots of one class hold what the segment says: each the
/// table of the last definition for it, or what it held before.
pub open spec fn dht_installed(
    before: Seq<Option<HuffmanTable>>,
    after: Seq<Option<HuffmanTable>>,
    payload: Seq<u8>,
    is_baseline: Option<bool>,
    class: int,
) -> bool {
    forall|index: int|
        0 <= index < 4 ==> dht_slot_holds(
            #[trigger] after[index],
            before[index],
            payload,
            dht_last(payload, 0, is_baseline, class, index),
            class,
        )
}

/// Parses the payload of a DHT segment and installs its tables: those of
/// class 0 in `dc_tables`, those of class 1 in `ac_tables`. A baseline frame
/// has two slots of each class, other frames have four.
pub fn dht_from_bytes(
    payload: &[u8],
    is_baseline: Option<bool>,
    dc_tables: &mut Vec<Option<HuffmanTable>>,
    ac_tables: &mut Vec<Option<HuffmanTable>>,
) -> (r: JpegResult<()>)
    requires
        old(dc_tables)@.len() == 4,
        old(ac_tables)@.len() == 4,
    ensures
        final(dc_tables)@.len() == 4,
        final(ac_tables)@.len() == 4,
        tables_wf(old(dc_tables)@) ==> tables_wf(final(dc_tables)@),
        tables_wf(old(ac_tables)@) ==> tables_wf(final(ac_tables)@),
        match r {
            Ok(_) => {
                &&& dht_error(payload@, 0, is_baseline) is None
                &&& dht_installed(old(dc_tables)@, final(dc_tables)@, payload@, is_baseline, 0)
                &&& dht_installed(old(ac_tables)@, final(ac_tables)@, payload@, is_baseline, 1)
            },
            Err(e) => dht_error(payload@, 0, is_baseline) matches Some(text) && e.is_malformatted(
                text,
            ),
        },
{
    let ghost mut dc_places: Seq<Option<int>> = Seq::new(4, |i: int| None);
    let ghost mut ac_places: Seq<Option<int>> = Seq::new(4, |i: int| None);
    let mut at: usize = 0;
    while at < payload.len()
        invariant
            at <= payload@.len(),
            dc_tables@.len() == 4,
            ac_tables@.len() == 4,
            dc_places.len() == 4,
            ac_places.len() == 4,
            tables_wf(old(dc_tables)@) ==> tables_wf(dc_tables@),
            tables_wf(old(ac_tables)@) ==> tables_wf(ac_tables@),
            dht_error(payload@, 0, is_baseline) == dht_error(payload@, at as int, is_baseline),
            dht_progress(
                old(dc_tables)@,
                dc_tables@,
                payload@,
                is_baseline,
                0,
                at as int,
                dc_places,
            ),
            dht_progress(
                old(ac_tables)@,
                ac_tables@,
                payload@,
                is_baseline,
                1,
                at as int,
                ac_places,
            ),
        decreases payload@.len() - at,
    {
        if payload.len() - at < 17 {
            return Err(JpegError::malformatted("invalid length in DHT"));
        }
        let class = payload[at] / 16;
        let index = (payload[at] % 16) as usize;
        if class > 1 {
            return Err(JpegError::malformatted("invalid class in DHT"));
        }
        let baseline = match is_baseline {
            Some(true) => true,
            _ => false,
        };
        if baseline && index > 1 {
            return Err(
                JpegError::malformatted(
                    "a maximum of two huffman tables per class are allowed in baseline",
                ),
            );
        }
        if index > 3 {
            return Err(JpegError::malformatted("invalid destination identifier in DHT"));
        }
        let mut counts = [0u8; 16];
        let mut size: usize = 0;
        let mut k: usize = 0;
        while k < 16
            invariant
                k <= 16,
                at + 17 <= payload@.len(),
                payload@.len() <= usize::MAX,
                size == first_index(dht_counts(payload@, at as int), (k + 1) as nat),
                size <= 255 * k,
                forall|j: int| 0 <= j < k ==> counts@[j] == dht_counts(payload@, at as int)[j],
            decreases 16 - k,
        {
            counts[k] = payload[at + 1 + k];
            size = size + payload[at + 1 + k] as usize;
            k += 1;
        }
        assert(counts@ =~= dht_counts(payload@, at as int));
        if size == 0 {
            return Err(JpegError::malformatted("encountered table with zero length in DHT"));
        }
        if size > 256 {
            return Err(JpegError::malformatted("encountered table with excessive length in DHT"));
        }
        if size > payload.len() - at - 17 {
            return Err(JpegError::malformatted("invalid length in DHT"));
        }
        let values = vstd::slice::slice_subrange(payload, at + 17, at + 17 + size);
        let table_class = if class == 0 {
            HuffmanTableClass::DC
        } else {
            HuffmanTableClass::AC
        };
        let table = match HuffmanTable::new(&counts, values, table_class) {
            Ok(table) => table,
            Err(e) => {
                return Err(e);
            },
        };
        let ghost next = dht_next(payload@, at as int);
        let ghost new_dc_places = if class == 0 {
            dc_places.update(index as int, Some(at as int))
        } else {
            dc_places
        };
        let ghost new_ac_places = if class == 1 {
            ac_places.update(index as int, Some(at as int))
        } else {
            ac_places
        };
        proof {
            assert(dht_table_error(payload@, at as int, is_baseline) is None);
        }
        if class == 0 {
            dc_tables[index] = Some(table);
        } else {
            ac_tables[index] = Some(table);
        }
        proof {
            assert forall|other: int| 0 <= other < 4 implies {
                &&& dht_last(payload@, 0, is_baseline, 0, other) == (match dht_last(
                    payload@,
                    next,
                    is_baseline,
                    0,
                    other,
                ) {
                    Some(place) => Some(place),
                    None => #[trigger] new_dc_places[other],
                })
                &&& dht_slot_holds(
                    dc_tables@[other],
                    old(dc_tables)@[other],
                    payload@,
                    new_dc_places[other],
                    0,
                )
            } by {
                let _ = dc_places[other];
            }
            assert forall|other: int| 0 <= other < 4 implies {
                &&& dht_last(payload@, 0, is_baseline, 1, other) == (match dht_last(
                    payload@,
                    next,
                    is_baseline,
                    1,
                    other,
                ) {
                    Some(place) => Some(place),
                    None => #[trigger] new_ac_places[other],
                })
                &&& dht_slot_holds(
                    ac_tables@[other],
                    old(ac_tables)@[other],
                    payload@,
                    new_ac_places[other],
                    1,
                )
            } by {
                let _ = ac_places[other];
            }
            dc_places = new_dc_places;
            ac_places = new_ac_places;
        }
        at = at + 17 + size;
    }
    proof {
        assert forall|index: int| 0 <= index < 4 implies dht_slot_holds(
            #[trigger] dc_tables@[index],
            old(dc_tables)@[index],
            payload@,
            dht_last(payload@, 0, is_baseline, 0, index),
            0,
        ) by {
            let _ = dc_places[index];
        }
        assert forall|index: int| 0 <= index < 4 implies dht_slot_holds(
            #[trigger] ac_tables@[index],
            old(ac_tables)@[index],
            payload@,
            dht_last(payload@, 0, is_baseline, 1, index),
            1,
        ) by {
            let _ = ac_places[index];
        }
    }
    Ok(())
}

/// Takes a DRI segment off the stream: the restart interval.
pub fn parse_dri(input: &mut InputStream) -> (r: JpegResult<u16>)
    requires
        old(input).wf(),
    ensures
        final(input).wf(),
        old(input).consumed().is_prefix_of(final(input).consumed()),
        final(input).counted_from() == old(input).counted_from(),
        final(input).retained() == old(input).retained() + taken(old(input), final(input)),
        segment_at_hand(old(input).pending()) ==> served_whole(old(input), final(input)) && (r is Ok) == (
        dri_of(payload_at_hand(old(input))) is Some) && !(r matches Err(e) && e is EOF),
        ends_where_run_out(r, final(input)),
        match r {
            Ok(interval) => segment_payload(taken(old(input), final(input))) matches Some(payload)
                && dri_of(payload) == Some(interval as int),
            Err(e) => {
                let raw = taken(old(input), final(input));
                is_parse_error(
                    e,
                    raw,
                    if segment_payload(raw) matches Some(payload) && dri_of(payload) is None {
                        Some("DRI with invalid length"@)
                    } else {
                        None
                    },
                )
            },
        },
{
    let payload = match read_segment(input) {
        Ok(payload) => payload,
        Err(e) => {
            return Err(e);
        },
    };
    dri_from_bytes(payload.as_slice())
}

/// Takes a comment segment off the stream: the bytes of the comment.
pub fn parse_com(input: &mut InputStream) -> (r: JpegResult<Vec<u8>>)
    requires
        old(input).wf(),
    ensures
        final(input).wf(),
        old(input).consumed().is_prefix_of(final(input).consumed()),
        final(input).counted_from() == old(input).counted_from(),
        final(input).retained() == old(input).retained() + taken(old(input), final(input)),
        segment_at_hand(old(input).pending()) ==> r is Ok && served_whole(old(input), final(input)),
        ends_where_run_out(r, final(input)),
        match r {
            Ok(comment) => segment_payload(taken(old(input), final(input))) == Some(comment@),
            Err(e) => is_segment_error(e, taken(old(input), final(input))),
        },
{
    read_segment(input)
}

/// Takes the application segment APPn off the stream and says whether it
/// marks the file as Motion JPEG.
pub fn parse_app(input: &mut InputStream, n: u8) -> (r: JpegResult<bool>)
    requires
        old(input).wf(),
    ensures
        final(input).wf(),
        old(input).consumed().is_prefix_of(final(input).consumed()),
        final(input).counted_from() == old(input).counted_from(),
        final(input).retained() == old(input).retained() + taken(old(input), final(input)),
        segment_at_hand(old(input).pending()) ==> served_whole(old(input), final(input)) && (r is Ok) == (
        app_of(payload_at_hand(old(input)), n) is Some) && !(r matches Err(e) && e is EOF),
        ends_where_run_out(r, final(input)),
        match r {
            Ok(is_mjpeg) => segment_payload(taken(old(input), final(input))) matches Some(payload)
                && app_of(payload, n) matches Some(data) && is_mjpeg == (data == AppData::Avi1),
            Err(e) => {
                let raw = taken(old(input), final(input));
                is_parse_error(
                    e,
                    raw,
                    if segment_payload(raw) matches Some(payload) && app_of(payload, n) is None {
                        Some("invalid color transform in adobe app segment"@)
                    } else {
                        None
                    },
                )
            },
        },
{
    let payload = match read_segment(input) {
        Ok(payload) => payload,
        Err(e) => {
            return Err(e);
        },
    };
    match app_from_bytes(payload.as_slice(), n) {
        Ok(AppData::Avi1) => Ok(true),
        Ok(_) => Ok(false),
        Err(e) => Err(e),
    }
}

/// Takes the frame header SOFn off the stream.
pub fn parse_sof(input: &mut InputStream, n: u8) -> (r: JpegResult<FrameInfo>)
    requires
        old(input).wf(),
        Marker::SOF(n).wf(),
    ensures
        final(input).wf(),
        old(input).consumed().is_prefix_of(final(input).consumed()),
        final(input).counted_from() == old(input).counted_from(),
        final(input).retained() == old(input).retained() + taken(old(input), final(input)),
        segment_at_hand(old(input).pending()) ==> served_whole(old(input), final(input)) && (r is Ok) == (
        sof_error(payload_at_hand(old(input)), n) is None) && !(r matches Err(e) && e is EOF),
        ends_where_run_out(r, final(input)),
        match r {
            Ok(frame) => segment_payload(taken(old(input), final(input))) matches Some(payload)
                && sof_error(payload, n) is None && is_frame_of(&frame, payload, n),
            Err(e) => {
                let raw = taken(old(input), final(input));
                is_parse_error(
                    e,
                    raw,
                    match segment_payload(raw) {
                        Some(payload) => sof_error(payload, n),
                        None => None,
                    },
                )
            },
        },
{
    let payload = match read_segment(input) {
        Ok(payload) => payload,
        Err(e) => {
            return Err(e);
        },
    };
    sof_from_bytes(payload.as_slice(), n)
}

/// Takes a scan header of `frame` off the stream.
pub fn parse_sos(input: &mut InputStream, frame: &FrameInfo) -> (r: JpegResult<ScanInfo>)
    requires
        old(input).wf(),
        frame.wf(),
    ensures
        final(input).wf(),
        old(input).consumed().is_prefix_of(final(input).consumed()),
        final(input).counted_from() == old(input).counted_from(),
        final(input).retained() == old(input).retained() + taken(old(input), final(input)),
        segment_at_hand(old(input).pending()) ==> served_whole(old(input), final(input)) && (r is Ok) == (
        sos_error(payload_at_hand(old(input)), frame) is None) && !(r matches Err(e) && e is EOF),
        ends_where_run_out(r, final(input)),
        match r {
            Ok(scan) => segment_payload(taken(old(input), final(input))) matches Some(payload)
                && sos_error(payload, frame) is None && is_scan_of(&scan, payload, frame),
            Err(e) => {
                let raw = taken(old(input), final(input));
                is_parse_error(
                    e,
                    raw,
                    match segment_payload(raw) {
                        Some(payload) => sos_error(payload, frame),
                        None => None,
                    },
                )
            },
        },
{
    let payload = match read_segment(input) {
        Ok(payload) => payload,
        Err(e) => {
            return Err(e);
        },
    };
    sos_from_bytes(payload.as_slice(), frame)
}

/// Takes a DQT segment off the stream and installs its tables.
pub fn parse_dqt(input: &mut InputStream, tables: &mut Vec<Option<Vec<u16>>>) -> (r: JpegResult<
    (),
>)
    requires
        old(input).wf(),
        old(tables)@.len() == 4,
    ensures
        final(input).wf(),
        old(input).consumed().is_prefix_of(final(input).consumed()),
        final(input).counted_from() == old(input).counted_from(),
        final(input).retained() == old(input).retained() + taken(old(input), final(input)),
        final(tables)@.len() == 4,
        segment_at_hand(old(input).pending()) ==> served_whole(old(input), final(input)) && (r is Ok) == (
        dqt_error(payload_at_hand(old(input)), 0) is None) && !(r matches Err(e) && e is EOF),
        ends_where_run_out(r, final(input)),
        match r {
            Ok(_) => segment_payload(taken(old(input), final(input))) matches Some(payload)
                && dqt_error(payload, 0) is None && quantization_view(final(tables)@)
                == dqt_installed(quantization_view(old(tables)@), payload, 0),
            Err(e) => {
                let raw = taken(old(input), final(input));
                is_parse_error(
                    e,
                    raw,
                    match segment_payload(raw) {
                        Some(payload) => dqt_error(payload, 0),
                        None => None,
                    },
                )
            },
        },
{
    let payload = match read_segment(input) {
        Ok(payload) => payload,
        Err(e) => {
            return Err(e);
        },
    };
    dqt_from_bytes(payload.as_slice(), tables)
}

/// Takes a DHT segment off the stream and installs its tables.
pub fn parse_dht(
    input: &mut InputStream,
    is_baseline: Option<bool>,
    dc_tables: &mut Vec<Option<HuffmanTable>>,
    ac_tables: &mut Vec<Option<HuffmanTable>>,
) -> (r: JpegResult<()>)
    requires
        old(input).wf(),
        old(dc_tables)@.len() == 4,
        old(ac_tables)@.len() == 4,
    ensures
        final(input).wf(),
        old(input).consumed().is_prefix_of(final(input).consumed()),
        final(input).counted_from() == old(input).counted_from(),
        final(input).retained() == old(input).retained() + taken(old(input), final(input)),
        final(dc_tables)@.len() == 4,
        final(ac_tables)@.len() == 4,
        tables_wf(old(dc_tables)@) ==> tables_wf(final(dc_tables)@),
        tables_wf(old(ac_tables)@) ==> tables_wf(final(ac_tables)@),
        segment_at_hand(old(input).pending()) ==> served_whole(old(input), final(input)) && (r is Ok) == (
        dht_error(payload_at_hand(old(input)), 0, is_baseline) is None) && !(r matches Err(e) && e is EOF),
        ends_where_run_out(r, final(input)),
        match r {
            Ok(_) => segment_payload(taken(old(input), final(input))) matches Some(payload)
                && dht_error(payload, 0, is_baseline) is None && dht_installed(
                old(dc_tables)@,
                final(dc_tables)@,
                payload,
                is_baseline,
                0,
            ) && dht_installed(old(ac_tables)@, final(ac_tables)@, payload, is_baseline, 1),
            Err(e) => {
                let raw = taken(old(input), final(input));
                is_parse_error(
                    e,
                    raw,
                    match segment_payload(raw) {
                        Some(payload) => dht_error(payload, 0, is_baseline),
                        None => None,
                    },
                )
            },
        },
{
    let payload = match read_segment(input) {
        Ok(payload) => payload,
        Err(e) => {
            return Err(e);
        },
    };
    dht_from_bytes(payload.as_slice(), is_baseline, dc_tables, ac_tables)
}

} // verus!
